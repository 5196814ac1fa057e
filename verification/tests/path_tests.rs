use vagga_builder::path::{absolute, ancestor_of, bytes_eq, bytes_lt, concat_bytes,
    normalize_path};

fn b(s: &str) -> Vec<u8> {
    s.as_bytes().to_vec()
}

#[test]
fn lexicographic_order_on_paths() {
    assert!(bytes_lt(&b("dev"), &b("proc")));
    assert!(!bytes_lt(&b("proc"), &b("dev")));
    assert!(bytes_lt(&b("work"), &b("work/cache")));
    assert!(!bytes_lt(&b("work"), &b("work")));
    assert!(bytes_lt(&b(""), &b("a")));
}

#[test]
fn byte_equality_on_paths() {
    assert!(bytes_eq(&b("var/tmp"), &b("var/tmp")));
    assert!(!bytes_eq(&b("var/tmp"), &b("var/tm")));
    assert!(!bytes_eq(&b("var/tmp"), &b("var/tmq")));
}

#[test]
fn normalization_strips_leading_slashes() {
    assert_eq!(normalize_path(&b("/tmp")), b("tmp"));
    assert_eq!(normalize_path(&b("//tmp")), b("tmp"));
    assert_eq!(normalize_path(&b("tmp")), b("tmp"));
    assert_eq!(normalize_path(&b("/")), b(""));
    assert_eq!(normalize_path(&b("/var/tmp")), b("var/tmp"));
}

#[test]
fn absolute_means_a_leading_slash() {
    assert!(absolute(&b("/tmp")));
    assert!(!absolute(&b("tmp")));
    assert!(!absolute(&b("")));
}

#[test]
fn ancestors_are_proper_prefixes_at_a_slash() {
    assert!(ancestor_of(&b("work"), &b("work/cache")));
    assert!(ancestor_of(&b("work"), &b("work/cache/deep")));
    assert!(!ancestor_of(&b("work"), &b("workspace")));
    assert!(!ancestor_of(&b("work"), &b("work")));
    assert!(!ancestor_of(&b("work/cache"), &b("work")));
}

#[test]
fn concatenation_joins_byte_strings() {
    assert_eq!(concat_bytes(&b("vagga/root/"), &b("tmp")), b("vagga/root/tmp"));
    assert_eq!(concat_bytes(&b(""), &b("x")), b("x"));
}
