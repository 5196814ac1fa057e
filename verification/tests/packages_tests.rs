use vagga_builder::collab::CollabModel;
use vagga_builder::context::{BuildContext, Distribution};
use vagga_builder::packages::{ensure_packages, generic_packages, HandlerKind, Package,
    PackageError};

fn b(s: &str) -> Vec<u8> {
    s.as_bytes().to_vec()
}

const PIP_URL: &str = "https://bootstrap.pypa.io/get-pip.py";

fn ubuntu() -> BuildContext {
    BuildContext::new(String::from("demo"), Distribution::Ubuntu(String::from("22.04")))
}

#[test]
fn satisfied_handler_skips_the_generic_stage() {
    // The handler satisfies everything: success, and no download, copy, or
    // command from the generic stage.
    let ctx = ubuntu();
    let mut collab = CollabModel::new(vec![]);
    let request = vec![Package::BuildEssential, Package::Git];
    assert_eq!(ensure_packages(&ctx, &mut collab, &request), Ok(()));
    assert_eq!(collab.handler_call_count(), 1);
    let call = collab.handler_call_at(0);
    assert_eq!(call.0, HandlerKind::Debian);
    assert_eq!(call.1, request);
    assert_eq!(collab.download_count(), 0);
    assert_eq!(collab.copy_count(), 0);
    assert_eq!(collab.command_count(), 0);
}

#[test]
fn alpine_goes_to_the_alpine_handler() {
    let ctx = BuildContext::new(String::from("demo"), Distribution::Alpine(String::from("3.20")));
    let mut collab = CollabModel::new(vec![]);
    assert_eq!(ensure_packages(&ctx, &mut collab, &vec![Package::Npm]), Ok(()));
    assert_eq!(collab.handler_call_at(0).0, HandlerKind::Alpine);
}

#[test]
fn unknown_distribution_is_refused_before_any_side_effect() {
    let ctx = BuildContext::new(String::from("demo"), Distribution::Unknown);
    let mut collab = CollabModel::new(vec![]);
    let r = ensure_packages(&ctx, &mut collab, &vec![Package::Git]);
    assert_eq!(r, Err(PackageError::UnsupportedDistribution));
    assert_eq!(collab.handler_call_count(), 0);
    assert_eq!(collab.download_count(), 0);
    assert_eq!(collab.copy_count(), 0);
    assert_eq!(collab.command_count(), 0);
}

#[test]
fn pip_bootstrap_downloads_stages_and_runs() {
    // The handler leaves PipPy3 over: the generic stage fetches the
    // bootstrap script, stages it at the fixed in-root path, and runs the
    // matching interpreter with the fixed install target.
    let ctx = ubuntu();
    let mut collab = CollabModel::new(vec![Package::PipPy3]);
    let r = ensure_packages(&ctx, &mut collab, &vec![Package::Python3, Package::PipPy3]);
    assert_eq!(r, Ok(()));
    assert_eq!(collab.download_count(), 1);
    assert_eq!(collab.download_at(0), &b(PIP_URL));
    assert_eq!(collab.copy_count(), 1);
    let copy = collab.copy_at(0);
    assert_eq!(copy.0, b(PIP_URL));
    assert_eq!(copy.1, b("vagga/root/tmp/get-pip.py"));
    assert_eq!(collab.command_count(), 1);
    let cmd = collab.command_at(0);
    assert_eq!(
        cmd.argv,
        vec![b("python3"), b("/tmp/get-pip.py"), b("--target=/tmp/pip-install")]
    );
    assert_eq!(cmd.workdir, b("/work"));
}

#[test]
fn each_pip_variant_downloads_independently() {
    // Both bootstraps requested: two independent fetches, no caching across
    // them, and the matching interpreter for each.
    let ctx = ubuntu();
    let mut collab = CollabModel::new(vec![Package::PipPy2, Package::PipPy3]);
    let r = ensure_packages(&ctx, &mut collab, &vec![Package::PipPy2, Package::PipPy3]);
    assert_eq!(r, Ok(()));
    assert_eq!(collab.download_count(), 2);
    assert_eq!(collab.download_at(0), &b(PIP_URL));
    assert_eq!(collab.download_at(1), &b(PIP_URL));
    assert_eq!(collab.command_count(), 2);
    assert_eq!(collab.command_at(0).argv[0], b("python2"));
    assert_eq!(collab.command_at(1).argv[0], b("python3"));
}

#[test]
fn unsupported_tags_are_reported_all_at_once() {
    // Git and Mercurial survive both stages; the error names exactly those
    // two, while the pip tag between them was served.
    let ctx = ubuntu();
    let mut collab = CollabModel::new(vec![Package::Git, Package::PipPy2, Package::Mercurial]);
    let r = ensure_packages(
        &ctx,
        &mut collab,
        &vec![Package::Git, Package::PipPy2, Package::Mercurial],
    );
    assert_eq!(
        r,
        Err(PackageError::UnsupportedPackages(vec![Package::Git, Package::Mercurial]))
    );
    assert_eq!(collab.download_count(), 1);
    assert_eq!(collab.command_count(), 1);
}

#[test]
fn generic_stage_passes_unknown_tags_through_in_order() {
    let mut collab = CollabModel::new(vec![]);
    let left = generic_packages(
        &mut collab,
        vec![Package::NodeJs, Package::PipPy3, Package::NodeJsDev, Package::Npm],
    );
    assert_eq!(left, vec![Package::NodeJs, Package::NodeJsDev, Package::Npm]);
    assert_eq!(collab.download_count(), 1);
}
