use vagga_builder::context::{BuildContext, Distribution};
use vagga_builder::fsmodel::{FsError, FsModel};

fn b(s: &str) -> Vec<u8> {
    s.as_bytes().to_vec()
}

fn ctx() -> BuildContext {
    BuildContext::new(String::from("demo"), Distribution::Ubuntu(String::from("22.04")))
}

#[test]
fn defaults_are_seeded() {
    let c = ctx();
    for p in ["proc", "sys", "dev", "work", "tmp"] {
        assert!(c.ensure_dirs().contains(&b(p)), "{p} missing from ensure set");
    }
    assert_eq!(c.ensure_dirs().len(), 5);
    assert!(c.empty_dirs().contains(&b("tmp")));
    assert!(c.empty_dirs().contains(&b("var/tmp")));
    assert_eq!(c.empty_dirs().len(), 2);
    assert_eq!(c.remove_dirs().len(), 0);
    assert_eq!(c.cache_dirs().len(), 0);
}

#[test]
fn finish_with_defaults_only() {
    // End to end: a fresh context committed to an empty filesystem leaves
    // the five default ensure-dirs and the two default empty-dirs, empty.
    let c = ctx();
    let mut fs = FsModel::new();
    assert_eq!(c.finish(&mut fs), Ok(()));
    for p in ["proc", "sys", "dev", "work", "tmp"] {
        let host = b(&format!("vagga/root/{p}"));
        assert!(fs.exists_dir(&host), "{p} not created");
    }
    for p in ["tmp", "var/tmp"] {
        let host = b(&format!("vagga/root/{p}"));
        assert!(fs.exists_dir(&host), "{p} not created");
        assert!(fs.is_empty_dir(&host), "{p} not empty");
    }
    assert_eq!(fs.dir_perm(&b("vagga/root/proc")), Some(0o777));
}

#[test]
fn registration_is_idempotent() {
    let mut once = ctx();
    let mut twice = ctx();
    once.add_ensure_dir(b("/usr/lib"));
    twice.add_ensure_dir(b("/usr/lib"));
    twice.add_ensure_dir(b("/usr/lib"));
    assert_eq!(once.ensure_dirs().len(), twice.ensure_dirs().len());
    for i in 0..once.ensure_dirs().len() {
        assert_eq!(once.ensure_dirs().index(i), twice.ensure_dirs().index(i));
    }
    once.add_empty_dir(b("/spool"));
    twice.add_empty_dir(b("/spool"));
    twice.add_empty_dir(b("/spool"));
    assert_eq!(once.empty_dirs().len(), twice.empty_dirs().len());
    once.add_remove_dir(b("/junk"));
    twice.add_remove_dir(b("/junk"));
    twice.add_remove_dir(b("/junk"));
    assert_eq!(once.remove_dirs().len(), twice.remove_dirs().len());
    let mut fs1 = FsModel::new();
    let mut fs2 = FsModel::new();
    assert_eq!(once.add_cache_dir(&mut fs1, b("/work/cache"), b("pip")), Ok(()));
    assert_eq!(twice.add_cache_dir(&mut fs2, b("/work/cache"), b("pip")), Ok(()));
    assert_eq!(twice.add_cache_dir(&mut fs2, b("/work/cache"), b("pip")), Ok(()));
    assert_eq!(once.cache_dirs().len(), 1);
    assert_eq!(twice.cache_dirs().len(), 1);
}

#[test]
fn paths_are_stored_root_relative() {
    let mut c = ctx();
    c.add_ensure_dir(b("/opt/tools"));
    assert!(c.ensure_dirs().contains(&b("opt/tools")));
    assert!(!c.ensure_dirs().contains(&b("/opt/tools")));
}

#[test]
fn ensure_pass_creates_parents() {
    let mut c = ctx();
    c.add_ensure_dir(b("/opt/tools/bin"));
    let mut fs = FsModel::new();
    assert_eq!(c.finish(&mut fs), Ok(()));
    assert!(fs.exists_dir(&b("vagga/root/opt/tools/bin")));
    assert!(fs.exists_dir(&b("vagga/root/opt/tools")));
    assert!(fs.exists_dir(&b("vagga/root/opt")));
    assert!(fs.exists_dir(&b("vagga")));
}

#[test]
fn remove_pass_deletes_recursively() {
    let mut c = ctx();
    c.add_remove_dir(b("/junk"));
    let mut fs = FsModel::new();
    fs.mkdir_recursive(&b("vagga/root/junk/deep/nest"), 0o777);
    assert_eq!(c.finish(&mut fs), Ok(()));
    assert!(!fs.exists_dir(&b("vagga/root/junk")));
    assert!(!fs.exists_dir(&b("vagga/root/junk/deep")));
    assert!(!fs.exists_dir(&b("vagga/root/junk/deep/nest")));
    assert!(fs.exists_dir(&b("vagga/root")));
}

#[test]
fn remove_of_missing_path_fails() {
    let mut c = ctx();
    c.add_remove_dir(b("/junk"));
    let mut fs = FsModel::new();
    let r = c.finish(&mut fs);
    assert_eq!(r, Err(FsError::NotFound(b("vagga/root/junk"))));
}

#[test]
fn empty_pass_preserves_permission_bits() {
    let mut c = ctx();
    c.add_empty_dir(b("/data"));
    let mut fs = FsModel::new();
    fs.mkdir_recursive(&b("vagga/root/data"), 0o700);
    fs.mkdir_recursive(&b("vagga/root/data/leftover"), 0o777);
    assert_eq!(c.finish(&mut fs), Ok(()));
    assert!(fs.exists_dir(&b("vagga/root/data")));
    assert!(fs.is_empty_dir(&b("vagga/root/data")));
    assert!(!fs.exists_dir(&b("vagga/root/data/leftover")));
    assert_eq!(fs.dir_perm(&b("vagga/root/data")), Some(0o700));
}

#[test]
fn empty_pass_creates_missing_dir_with_full_permissions() {
    let mut c = ctx();
    c.add_empty_dir(b("/fresh"));
    let mut fs = FsModel::new();
    assert_eq!(c.finish(&mut fs), Ok(()));
    assert_eq!(fs.dir_perm(&b("vagga/root/fresh")), Some(0o777));
    assert!(fs.is_empty_dir(&b("vagga/root/fresh")));
}

#[test]
fn cache_dir_mounts_immediately_and_only_once() {
    let mut c = ctx();
    let mut fs = FsModel::new();
    assert_eq!(c.add_cache_dir(&mut fs, b("/work/cache"), b("pip")), Ok(()));
    assert_eq!(fs.mount_log_count(), 1);
    let (source, target) = fs.mount_log_at(0).clone();
    assert_eq!(source, b("vagga/cache/pip"));
    assert_eq!(target, b("vagga/root/work/cache"));
    assert!(fs.exists_dir(&b("vagga/cache/pip")));
    assert!(fs.exists_dir(&b("vagga/root/work/cache")));
    assert!(fs.is_mounted(&b("vagga/root/work/cache")));
    // The same in-root path again: no second mount, whatever the bucket.
    assert_eq!(c.add_cache_dir(&mut fs, b("/work/cache"), b("other")), Ok(()));
    assert_eq!(fs.mount_log_count(), 1);
    assert_eq!(c.cache_dirs().len(), 1);
}

#[test]
fn cache_mounts_are_unmounted_in_descending_order() {
    let mut c = ctx();
    let mut fs = FsModel::new();
    assert_eq!(c.add_cache_dir(&mut fs, b("/work/cache"), b("outer")), Ok(()));
    assert_eq!(c.add_cache_dir(&mut fs, b("/work/cache/inner"), b("inner")), Ok(()));
    assert_eq!(c.add_cache_dir(&mut fs, b("/alpha"), b("alpha")), Ok(()));
    assert_eq!(c.finish(&mut fs), Ok(()));
    assert_eq!(fs.unmount_log_count(), 3);
    assert_eq!(fs.unmount_log_at(0), &b("vagga/root/work/cache/inner"));
    assert_eq!(fs.unmount_log_at(1), &b("vagga/root/work/cache"));
    assert_eq!(fs.unmount_log_at(2), &b("vagga/root/alpha"));
    assert!(!fs.is_mounted(&b("vagga/root/work/cache")));
}

#[test]
fn unmounting_an_unmounted_path_is_an_error() {
    let mut fs = FsModel::new();
    fs.mkdir_recursive(&b("vagga/root/work/cache"), 0o777);
    let r = fs.unmount(&b("vagga/root/work/cache"));
    assert_eq!(r, Err(FsError::NotMounted(b("vagga/root/work/cache"))));
}

#[test]
fn second_finish_fails_on_already_unmounted_cache() {
    let mut c = ctx();
    let mut fs = FsModel::new();
    assert_eq!(c.add_cache_dir(&mut fs, b("/work/cache"), b("pip")), Ok(()));
    assert_eq!(c.finish(&mut fs), Ok(()));
    let r = c.finish(&mut fs);
    assert_eq!(r, Err(FsError::NotMounted(b("vagga/root/work/cache"))));
}
