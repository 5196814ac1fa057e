//! The package resolution pipeline: a requested package list is routed
//! through an ordered chain of stages — the handler for the target
//! distribution, then a distribution-agnostic fallback that knows only the
//! two pip bootstraps — and resolution fails naming every tag that no stage
//! could satisfy.

use vstd::prelude::*;

use crate::collab::{argv_view, CollabModel};
use crate::context::{BuildContext, Distribution};
use crate::path::{ascii_bytes, lit_bytes};

verus! {

/// The closed set of installable software identifiers.  Every tag denotes a
/// build-time-only dependency, except the base runtime tags (`Python2`,
/// `Python3`, `NodeJs`), which persist into the final image; the
/// distribution handlers consume that classification.
#[derive(Copy, Clone, Debug, PartialEq, Eq, Structural)]
pub enum Package {
    BuildEssential,
    Python2,
    Python2Dev,
    Python3,
    Python3Dev,
    PipPy2,
    PipPy3,
    NodeJs,
    NodeJsDev,
    Npm,
    Git,
    Mercurial,
}

/// Which external handler serves a recognized distribution.
#[derive(Copy, Clone, Debug, PartialEq, Eq, Structural)]
pub enum HandlerKind {
    Debian,
    Alpine,
}

/// A failure of the package resolution pipeline.
#[derive(Debug, PartialEq, Eq)]
pub enum PackageError {
    /// The target distribution is the unknown variant; nothing is attempted.
    UnsupportedDistribution,
    /// The tags that survived every stage of the pipeline, all of them.
    UnsupportedPackages(Vec<Package>),
}

/// Whether this tag is one of the two pip bootstraps the generic stage
/// recognizes.
pub open spec fn is_pip_bootstrap(p: Package) -> bool {
    p == Package::PipPy2 || p == Package::PipPy3
}

/// The tags the generic stage passes through unchanged.
pub open spec fn not_pip_pred() -> spec_fn(Package) -> bool {
    |p: Package| !is_pip_bootstrap(p)
}

/// The pip bootstraps among a list, in order.
pub open spec fn pip_pred() -> spec_fn(Package) -> bool {
    |p: Package| is_pip_bootstrap(p)
}

/// What the generic stage leaves unhandled.
pub open spec fn non_pip(s: Seq<Package>) -> Seq<Package> {
    s.filter(not_pip_pred())
}

/// The pip bootstraps the generic stage serves, in request order.
pub open spec fn pip_requests(s: Seq<Package>) -> Seq<Package> {
    s.filter(pip_pred())
}

/// Where the pip bootstrap script is downloaded from.
pub open spec fn pip_url() -> Seq<u8> {
    ascii_bytes("https://bootstrap.pypa.io/get-pip.py"@)
}

/// Where the fetched bootstrap script is staged, inside the build root.
pub open spec fn pip_staging() -> Seq<u8> {
    ascii_bytes("vagga/root/tmp/get-pip.py"@)
}

/// The interpreter matching one pip bootstrap tag.
pub open spec fn pip_interpreter(p: Package) -> Seq<u8> {
    if p == Package::PipPy2 {
        ascii_bytes("python2"@)
    } else {
        ascii_bytes("python3"@)
    }
}

/// The command the generic stage runs for one pip bootstrap tag: the
/// matching interpreter, the staged script, and the fixed install target.
pub open spec fn pip_argv(p: Package) -> Seq<Seq<u8>> {
    seq![
        pip_interpreter(p),
        ascii_bytes("/tmp/get-pip.py"@),
        ascii_bytes("--target=/tmp/pip-install"@),
    ]
}

/// The working directory the bootstrap command runs in.
pub open spec fn pip_workdir() -> Seq<u8> {
    ascii_bytes("/work"@)
}

/// The urls the generic stage downloads for remainder `s`: one independent
/// fetch per pip bootstrap tag, with no caching between them.
pub open spec fn pip_downloads(s: Seq<Package>) -> Seq<Seq<u8>> {
    Seq::new(pip_requests(s).len(), |i: int| pip_url())
}

/// The file copies the generic stage performs for remainder `s`.
pub open spec fn pip_copies(s: Seq<Package>) -> Seq<(Seq<u8>, Seq<u8>)> {
    Seq::new(pip_requests(s).len(), |i: int| (pip_url(), pip_staging()))
}

/// The commands the generic stage runs for remainder `s`.
pub open spec fn pip_commands(s: Seq<Package>) -> Seq<(Seq<Seq<u8>>, Seq<u8>)> {
    Seq::new(pip_requests(s).len(), |i: int| (pip_argv(pip_requests(s)[i]), pip_workdir()))
}

/// The distribution-agnostic stage: for each pip bootstrap tag, download the
/// bootstrap script, stage it inside the build root, and run the matching
/// interpreter against it; every other tag passes through into the returned
/// remainder.
pub fn generic_packages(collab: &mut CollabModel, features: Vec<Package>) -> (left: Vec<Package>)
    ensures
        left@ == non_pip(features@),
        final(collab).script_s() == old(collab).script_s(),
        final(collab).handler_calls_s() == old(collab).handler_calls_s(),
        final(collab).downloads_s() == old(collab).downloads_s() + pip_downloads(features@),
        final(collab).copies_s() == old(collab).copies_s() + pip_copies(features@),
        final(collab).commands_s() == old(collab).commands_s() + pip_commands(features@),
{
    proof {
        assert(features@.take(0) =~= Seq::<Package>::empty());
        assert(non_pip(features@.take(0)) =~= Seq::<Package>::empty());
        assert(pip_requests(features@.take(0)) =~= Seq::<Package>::empty());
    }
    let mut left: Vec<Package> = Vec::new();
    let mut i: usize = 0;
    while i < features.len()
        invariant
            i <= features.len(),
            left@ == non_pip(features@.take(i as int)),
            collab.script_s() == old(collab).script_s(),
            collab.handler_calls_s() == old(collab).handler_calls_s(),
            collab.downloads_s() == old(collab).downloads_s() + pip_downloads(
                features@.take(i as int),
            ),
            collab.copies_s() == old(collab).copies_s() + pip_copies(features@.take(i as int)),
            collab.commands_s() == old(collab).commands_s() + pip_commands(
                features@.take(i as int),
            ),
        decreases features.len() - i,
    {
        let pkg = features[i];
        proof {
            reveal_strlit("https://bootstrap.pypa.io/get-pip.py");
            reveal_strlit("vagga/root/tmp/get-pip.py");
            reveal_strlit("/tmp/get-pip.py");
            reveal_strlit("--target=/tmp/pip-install");
            reveal_strlit("/work");
            reveal_strlit("python2");
            reveal_strlit("python3");
            assert(features@.take(i + 1) =~= features@.take(i as int).push(features@[i as int]));
            features@.take(i as int).lemma_filter_push(features@[i as int], not_pip_pred());
            features@.take(i as int).lemma_filter_push(features@[i as int], pip_pred());
        }
        match pkg {
            Package::PipPy2 | Package::PipPy3 => {
                let url = lit_bytes("https://bootstrap.pypa.io/get-pip.py");
                let fetched = collab.download_file(url);
                let staging = lit_bytes("vagga/root/tmp/get-pip.py");
                collab.copy_file(fetched, staging);
                let mut argv: Vec<Vec<u8>> = Vec::new();
                let interpreter = if matches!(pkg, Package::PipPy2) {
                    lit_bytes("python2")
                } else {
                    lit_bytes("python3")
                };
                argv.push(interpreter);
                argv.push(lit_bytes("/tmp/get-pip.py"));
                argv.push(lit_bytes("--target=/tmp/pip-install"));
                proof {
                    assert(argv_view(argv) =~= pip_argv(pkg));
                }
                collab.run_command(argv, lit_bytes("/work"));
                proof {
                    let t0 = features@.take(i as int);
                    let t1 = features@.take(i + 1);
                    assert(pip_requests(t1) =~= pip_requests(t0).push(pkg));
                    assert(collab.downloads_s() =~= old(collab).downloads_s() + pip_downloads(
                        t1,
                    ));
                    assert(collab.copies_s() =~= old(collab).copies_s() + pip_copies(t1));
                    assert(collab.commands_s() =~= old(collab).commands_s() + pip_commands(t1));
                    assert(left@ =~= non_pip(t1));
                }
            },
            _ => {
                left.push(pkg);
                proof {
                    let t0 = features@.take(i as int);
                    let t1 = features@.take(i + 1);
                    assert(left@ =~= non_pip(t1));
                    assert(pip_requests(t1) =~= pip_requests(t0));
                    assert(collab.downloads_s() =~= old(collab).downloads_s() + pip_downloads(
                        t1,
                    ));
                    assert(collab.copies_s() =~= old(collab).copies_s() + pip_copies(t1));
                    assert(collab.commands_s() =~= old(collab).commands_s() + pip_commands(t1));
                }
            },
        }
        i = i + 1;
    }
    proof {
        assert(features@.take(features@.len() as int) =~= features@);
    }
    left
}

/// Resolve the requested package list for the context's distribution:
/// dispatch the full list to the distribution's handler, feed the remainder
/// it could not satisfy to the generic stage, and fail naming every tag that
/// survives both.  The unknown distribution is refused before any handler or
/// installation side effect.
pub fn ensure_packages(ctx: &BuildContext, collab: &mut CollabModel, features: &Vec<Package>) -> (r:
    Result<(), PackageError>)
    ensures
        ctx.dist() is Unknown ==> *final(collab) == *old(collab) && (r matches Err(e) && e
            is UnsupportedDistribution),
        !(ctx.dist() is Unknown) ==> {
            let kind = if ctx.dist() is Ubuntu {
                HandlerKind::Debian
            } else {
                HandlerKind::Alpine
            };
            let rem = old(collab).script_s();
            &&& final(collab).handler_calls_s() == old(collab).handler_calls_s().push(
                (kind, features@),
            )
            &&& final(collab).script_s() == old(collab).script_s()
            &&& final(collab).downloads_s() == old(collab).downloads_s() + pip_downloads(rem)
            &&& final(collab).copies_s() == old(collab).copies_s() + pip_copies(rem)
            &&& final(collab).commands_s() == old(collab).commands_s() + pip_commands(rem)
            &&& (r is Ok <==> non_pip(rem).len() == 0)
            &&& (r matches Err(e) ==> (e matches PackageError::UnsupportedPackages(v) && v@
                == non_pip(rem)))
        },
{
    let kind = match ctx.distribution() {
        Distribution::Unknown => {
            return Err(PackageError::UnsupportedDistribution);
        },
        Distribution::Ubuntu(_) => HandlerKind::Debian,
        Distribution::Alpine(_) => HandlerKind::Alpine,
    };
    let remainder = collab.run_handler(kind, features);
    let left = generic_packages(collab, remainder);
    if left.len() > 0 {
        Err(PackageError::UnsupportedPackages(left))
    } else {
        Ok(())
    }
}

} // verus!
