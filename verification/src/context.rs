//! The build context: the authoritative view of the directories to ensure,
//! empty, remove, and cache-mount inside the root being built.  Registration
//! is pure bookkeeping; the filesystem is touched at one explicit
//! finalization point, with one deliberate exception: registering a cache
//! directory mounts it immediately, so that later build steps can use it.
//!
//! Every path handed to a mutator is absolute; it is stored relative to the
//! filesystem root.  The root being built lives under a fixed host
//! directory, and the cache buckets under another.

use vstd::prelude::*;

use crate::dirset::{CacheMap, DirSet};
use crate::fsmodel::{FsError, FsModel, ALL_PERMISSIONS};
use crate::path::{ascii_bytes, concat_bytes, is_absolute, is_ancestor, lemma_ancestor_lt,
    lemma_ancestor_trans, lemma_lex_asym, lemma_lex_irrefl, lemma_prepend_preserves, lex_lt,
    lit_bytes, normalize, normalize_path};

verus! {

/// The target base operating-system family of the root being built.
#[derive(Debug)]
pub enum Distribution {
    /// No supported family was recognized; package installation is refused.
    Unknown,
    /// A Debian-family release, carrying its version.
    Ubuntu(String),
    /// An Alpine-family release, carrying its version.
    Alpine(String),
}

/// The host directory that holds the root being built, with a trailing
/// separator, relative to the filesystem root.
pub open spec fn root_base() -> Seq<u8> {
    ascii_bytes("vagga/root/"@)
}

/// The host directory that holds the named cache buckets, with a trailing
/// separator, relative to the filesystem root.
pub open spec fn cache_base() -> Seq<u8> {
    ascii_bytes("vagga/cache/"@)
}

/// Where a root-relative path of the build lands on the host.
pub open spec fn in_root(p: Seq<u8>) -> Seq<u8> {
    root_base() + p
}

/// Where the named cache bucket lives on the host.
pub open spec fn cache_host(name: Seq<u8>) -> Seq<u8> {
    cache_base() + name
}

fn root_base_vec() -> (r: Vec<u8>)
    ensures
        r@ == root_base(),
{
    proof {
        reveal_strlit("vagga/root/");
    }
    lit_bytes("vagga/root/")
}

fn cache_base_vec() -> (r: Vec<u8>)
    ensures
        r@ == cache_base(),
{
    proof {
        reveal_strlit("vagga/cache/");
    }
    lit_bytes("vagga/cache/")
}

/// No path registered in `set` lies strictly inside `p`.
pub open spec fn none_inside(set: Seq<Seq<u8>>, p: Seq<u8>) -> bool {
    forall|x: Seq<u8>| set.contains(x) ==> !is_ancestor(p, x)
}

/// No path registered in `set` strictly encloses `p`.
pub open spec fn none_strictly_enclosing(set: Seq<Seq<u8>>, p: Seq<u8>) -> bool {
    forall|x: Seq<u8>| set.contains(x) ==> !is_ancestor(x, p)
}

/// No path registered in `set` is `p` or strictly encloses `p`.
pub open spec fn none_enclosing(set: Seq<Seq<u8>>, p: Seq<u8>) -> bool {
    forall|x: Seq<u8>| set.contains(x) ==> x != p && !is_ancestor(x, p)
}

/// The host path `q` is neither a registered path of `set` inside the build
/// root nor inside one.
pub open spec fn untouched_by(set: Seq<Seq<u8>>, q: Seq<u8>) -> bool {
    forall|p: Seq<u8>| set.contains(p) ==> q != in_root(p) && !is_ancestor(in_root(p), q)
}

/// Removing one element of a sequence leaves the presence of every other
/// value unchanged.
proof fn lemma_remove_other_keeps(s: Seq<Seq<u8>>, idx: int, v: Seq<u8>)
    requires
        0 <= idx < s.len(),
        s[idx] != v,
    ensures
        s.remove(idx).contains(v) == s.contains(v),
{
    let t = s.remove(idx);
    if s.contains(v) {
        let j = choose|j: int| 0 <= j < s.len() && s[j] == v;
        if j < idx {
            assert(t[j] == v);
        } else {
            assert(t[j - 1] == v);
        }
    }
    if t.contains(v) {
        let j = choose|j: int| 0 <= j < t.len() && t[j] == v;
        if j < idx {
            assert(s[j] == v);
        } else {
            assert(s[j + 1] == v);
        }
    }
}

/// The mutable state of one build: the container's identity and the four
/// ordered collections of directory intents.
pub struct BuildContext {
    container_name: String,
    distribution: Distribution,
    ensure_dirs: DirSet,
    empty_dirs: DirSet,
    remove_dirs: DirSet,
    cache_dirs: CacheMap,
}

impl BuildContext {
    /// The name of the container being built.
    pub closed spec fn name_view(self) -> Seq<char> {
        self.container_name@
    }

    /// The target distribution, deciding which package handler applies.
    pub closed spec fn dist(self) -> Distribution {
        self.distribution
    }

    /// The name of the container being built.
    pub fn container_name(&self) -> (r: &String)
        ensures
            r@ == self.name_view(),
    {
        &self.container_name
    }

    /// The target distribution, deciding which package handler applies.
    pub fn distribution(&self) -> (r: &Distribution)
        ensures
            *r == self.dist(),
    {
        &self.distribution
    }

    /// The paths created (with parents) at finalization, ascending.
    pub closed spec fn ensure_set(self) -> Seq<Seq<u8>> {
        self.ensure_dirs@
    }

    /// The paths emptied at finalization, ascending.
    pub closed spec fn empty_set(self) -> Seq<Seq<u8>> {
        self.empty_dirs@
    }

    /// The paths deleted at finalization, ascending.
    pub closed spec fn remove_set(self) -> Seq<Seq<u8>> {
        self.remove_dirs@
    }

    /// The cache mappings, ascending by path.
    pub closed spec fn cache_list(self) -> Seq<(Seq<u8>, Seq<u8>)> {
        self.cache_dirs@
    }

    /// The cache-mounted paths, ascending.
    pub open spec fn cache_keys(self) -> Seq<Seq<u8>> {
        Seq::new(self.cache_list().len(), |i: int| self.cache_list()[i].0)
    }

    pub closed spec fn wf(self) -> bool {
        &&& self.ensure_dirs.wf()
        &&& self.empty_dirs.wf()
        &&& self.remove_dirs.wf()
        &&& self.cache_dirs.wf()
    }

    /// The sets are strictly sorted, so walking them by index is walking
    /// them in ascending path order.
    pub proof fn lemma_wf_sorted(self)
        requires
            self.wf(),
        ensures
            crate::dirset::strictly_sorted(self.ensure_set()),
            crate::dirset::strictly_sorted(self.empty_set()),
            crate::dirset::strictly_sorted(self.remove_set()),
            crate::dirset::strictly_sorted(self.cache_keys()),
    {
        assert(self.cache_dirs.keys() =~= self.cache_keys());
    }

    /// The registered ensure set.
    pub fn ensure_dirs(&self) -> (r: &DirSet)
        ensures
            r@ == self.ensure_set(),
    {
        &self.ensure_dirs
    }

    /// The registered empty set.
    pub fn empty_dirs(&self) -> (r: &DirSet)
        ensures
            r@ == self.empty_set(),
    {
        &self.empty_dirs
    }

    /// The registered remove set.
    pub fn remove_dirs(&self) -> (r: &DirSet)
        ensures
            r@ == self.remove_set(),
    {
        &self.remove_dirs
    }

    /// The registered cache mappings.
    pub fn cache_dirs(&self) -> (r: &CacheMap)
        ensures
            r@ == self.cache_list(),
    {
        &self.cache_dirs
    }

    /// A fresh context for one build: no removals, no cache mounts, and the
    /// default ensure and empty sets.
    pub fn new(name: String, distribution: Distribution) -> (r: BuildContext)
        ensures
            r.wf(),
            r.name_view() == name@,
            r.dist() == distribution,
            forall|q: Seq<u8>|
                r.ensure_set().contains(q) <==> q == ascii_bytes("proc"@) || q == ascii_bytes(
                    "sys"@,
                ) || q == ascii_bytes("dev"@) || q == ascii_bytes("work"@) || q == ascii_bytes(
                    "tmp"@,
                ),
            forall|q: Seq<u8>|
                r.empty_set().contains(q) <==> q == ascii_bytes("tmp"@) || q == ascii_bytes(
                    "var/tmp"@,
                ),
            r.remove_set().len() == 0,
            r.cache_list().len() == 0,
    {
        proof {
            reveal_strlit("proc");
            reveal_strlit("sys");
            reveal_strlit("dev");
            reveal_strlit("work");
            reveal_strlit("tmp");
            reveal_strlit("var/tmp");
        }
        let mut ensure_dirs = DirSet::new();
        ensure_dirs.insert(lit_bytes("proc"));
        ensure_dirs.insert(lit_bytes("sys"));
        ensure_dirs.insert(lit_bytes("dev"));
        ensure_dirs.insert(lit_bytes("work"));
        ensure_dirs.insert(lit_bytes("tmp"));
        let mut empty_dirs = DirSet::new();
        empty_dirs.insert(lit_bytes("tmp"));
        empty_dirs.insert(lit_bytes("var/tmp"));
        BuildContext {
            container_name: name,
            distribution,
            ensure_dirs,
            empty_dirs,
            remove_dirs: DirSet::new(),
            cache_dirs: CacheMap::new(),
        }
    }

    /// Register an absolute path to be created, parents as needed, at
    /// finalization.  Registering a path twice is the same as registering it
    /// once.
    pub fn add_ensure_dir(&mut self, path: Vec<u8>)
        requires
            old(self).wf(),
            is_absolute(path@),
        ensures
            final(self).wf(),
            forall|q: Seq<u8>|
                final(self).ensure_set().contains(q) <==> old(self).ensure_set().contains(q) || q
                    == normalize(path@),
            old(self).ensure_set().contains(normalize(path@)) ==> final(self).ensure_set() == old(
                self,
            ).ensure_set(),
            final(self).empty_set() == old(self).empty_set(),
            final(self).remove_set() == old(self).remove_set(),
            final(self).cache_list() == old(self).cache_list(),
            final(self).name_view() == old(self).name_view(),
            final(self).dist() == old(self).dist(),
    {
        let rel = normalize_path(&path);
        self.ensure_dirs.insert(rel);
    }

    /// Register an absolute path to be emptied at finalization.  Registering
    /// a path twice is the same as registering it once.
    pub fn add_empty_dir(&mut self, path: Vec<u8>)
        requires
            old(self).wf(),
            is_absolute(path@),
        ensures
            final(self).wf(),
            forall|q: Seq<u8>|
                final(self).empty_set().contains(q) <==> old(self).empty_set().contains(q) || q
                    == normalize(path@),
            old(self).empty_set().contains(normalize(path@)) ==> final(self).empty_set() == old(
                self,
            ).empty_set(),
            final(self).ensure_set() == old(self).ensure_set(),
            final(self).remove_set() == old(self).remove_set(),
            final(self).cache_list() == old(self).cache_list(),
            final(self).name_view() == old(self).name_view(),
            final(self).dist() == old(self).dist(),
    {
        let rel = normalize_path(&path);
        self.empty_dirs.insert(rel);
    }

    /// Register an absolute path to be deleted recursively at finalization.
    /// Registering a path twice is the same as registering it once.
    pub fn add_remove_dir(&mut self, path: Vec<u8>)
        requires
            old(self).wf(),
            is_absolute(path@),
        ensures
            final(self).wf(),
            forall|q: Seq<u8>|
                final(self).remove_set().contains(q) <==> old(self).remove_set().contains(q) || q
                    == normalize(path@),
            old(self).remove_set().contains(normalize(path@)) ==> final(self).remove_set() == old(
                self,
            ).remove_set(),
            final(self).ensure_set() == old(self).ensure_set(),
            final(self).empty_set() == old(self).empty_set(),
            final(self).cache_list() == old(self).cache_list(),
            final(self).name_view() == old(self).name_view(),
            final(self).dist() == old(self).dist(),
    {
        let rel = normalize_path(&path);
        self.remove_dirs.insert(rel);
    }

    /// Register a cache mapping from an absolute in-root path to the named
    /// host-side bucket.  The first registration of a path immediately
    /// ensures the bucket directory exists, empties the in-root path, and
    /// bind-mounts the bucket onto it; registering the same path again skips
    /// every side effect, whatever bucket it names.
    pub fn add_cache_dir(&mut self, fs: &mut FsModel, path: Vec<u8>, name: Vec<u8>) -> (r: Result<
        (),
        FsError,
    >)
        requires
            old(self).wf(),
            old(fs).wf(),
            is_absolute(path@),
        ensures
            final(self).wf(),
            final(fs).wf(),
            r is Ok,
            final(self).ensure_set() == old(self).ensure_set(),
            final(self).empty_set() == old(self).empty_set(),
            final(self).remove_set() == old(self).remove_set(),
            final(self).name_view() == old(self).name_view(),
            final(self).dist() == old(self).dist(),
            forall|q: Seq<u8>|
                final(self).cache_keys().contains(q) <==> old(self).cache_keys().contains(q) || q
                    == normalize(path@),
            old(self).cache_keys().contains(normalize(path@)) ==> {
                &&& final(self).cache_list() == old(self).cache_list()
                &&& *final(fs) == *old(fs)
            },
            !old(self).cache_keys().contains(normalize(path@)) ==> {
                &&& final(fs).mounts_s() == old(fs).mounts_s().push(in_root(normalize(path@)))
                &&& final(fs).mount_log_s() == old(fs).mount_log_s().push(
                    (cache_host(name@), in_root(normalize(path@))),
                )
                &&& final(fs).unmount_log_s() == old(fs).unmount_log_s()
                &&& final(fs).has_dir(cache_host(name@))
                &&& final(fs).has_dir(in_root(normalize(path@)))
                &&& final(fs).dir_is_empty(in_root(normalize(path@)))
                &&& forall|q: Seq<u8>|
                    final(fs).has_dir(q) ==> old(fs).has_dir(q) || q == cache_host(name@)
                        || is_ancestor(q, cache_host(name@)) || q == in_root(normalize(path@))
                        || is_ancestor(q, in_root(normalize(path@)))
                &&& forall|q: Seq<u8>|
                    old(fs).has_dir(q) && !is_ancestor(in_root(normalize(path@)), q)
                        ==> final(fs).has_dir(q)
            },
    {
        let rel = normalize_path(&path);
        if self.cache_dirs.contains_key(&rel) {
            return Ok(());
        }
        self.cache_dirs.insert(rel.clone(), name.clone());
        proof {
            assert(self.cache_dirs.keys() =~= final(self).cache_keys());
            assert(old(self).cache_dirs.keys() =~= old(self).cache_keys());
        }
        let bucket = concat_bytes(&cache_base_vec(), &name);
        if !fs.exists_dir(&bucket) {
            fs.mkdir_recursive(&bucket, ALL_PERMISSIONS);
        }
        let ghost fs1 = *fs;
        let target = concat_bytes(&root_base_vec(), &rel);
        fs.empty_dir(&target);
        let ghost fs2 = *fs;
        fs.bind_mount(&bucket, &target);
        proof {
            let tv = in_root(normalize(path@));
            let bv = cache_host(name@);
            assert(target@ == tv);
            assert(bucket@ == bv);
            assert(final(fs).mounts_s() == old(fs).mounts_s().push(tv));
            assert(final(fs).mount_log_s() == old(fs).mount_log_s().push((bv, tv)));
            assert(!is_ancestor(tv, bv)) by {
                reveal_strlit("vagga/root/");
                reveal_strlit("vagga/cache/");
                if is_ancestor(tv, bv) {
                    assert(tv.len() >= root_base().len());
                    assert(bv.take(tv.len() as int)[6] == bv[6]);
                    assert(tv[6] == root_base()[6]);
                    assert(bv[6] == cache_base()[6]);
                    assert(root_base()[6] == 'r' as u8);
                    assert(cache_base()[6] == 'c' as u8);
                }
            }
            assert(fs1.has_dir(bv));
            assert(fs2.has_dir(bv));
            assert(final(fs).has_dir(bv));
            assert(final(fs).has_dir(tv));
            assert forall|q: Seq<u8>| final(fs).has_dir(q) implies !is_ancestor(tv, q) by {
                assert(fs2.dir_is_empty(tv));
            }
            assert forall|q: Seq<u8>|
                final(fs).has_dir(q) implies old(fs).has_dir(q) || q == bv || is_ancestor(q, bv)
                    || q == tv || is_ancestor(q, tv) by {
                assert(fs2.has_dir(q));
            }
            assert forall|q: Seq<u8>|
                old(fs).has_dir(q) && !is_ancestor(tv, q) implies final(fs).has_dir(q) by {
                assert(fs1.has_dir(q));
            }
        }
        Ok(())
    }

    /// Commit every registered intent to the filesystem, in the fixed order:
    /// unmount the cache paths in descending path order, delete the remove
    /// set ascending, empty the empty set ascending, then create the ensure
    /// set ascending.  The first failure aborts, leaving the partial state in
    /// place.
    pub fn finish(&self, fs: &mut FsModel) -> (r: Result<(), FsError>)
        requires
            self.wf(),
            old(fs).wf(),
        ensures
            final(fs).wf(),
            final(fs).mount_log_s() == old(fs).mount_log_s(),
            r is Ok <==> {
                &&& forall|k: Seq<u8>|
                    self.cache_keys().contains(k) ==> old(fs).mounted(in_root(k))
                &&& forall|p: Seq<u8>|
                    self.remove_set().contains(p) ==> old(fs).has_dir(in_root(p))
                        && none_strictly_enclosing(self.remove_set(), p)
            },
            r is Err ==> (r matches Err(e) && ((e matches FsError::NotMounted(q) && exists|
                k: Seq<u8>,
            |
                #![auto]
                self.cache_keys().contains(k) && q@ == in_root(k) && !old(fs).mounted(in_root(k)))
                || (e matches FsError::NotFound(q2) && exists|p: Seq<u8>|
                #![auto]
                self.remove_set().contains(p) && q2@ == in_root(p)))),
            r is Ok ==> final(fs).unmount_log_s() == old(fs).unmount_log_s() + Seq::new(
                self.cache_keys().len(),
                |j: int| in_root(self.cache_keys()[self.cache_keys().len() - 1 - j]),
            ),
            r is Ok ==> forall|a: int, b: int|
                old(fs).unmount_log_s().len() <= a < b < final(fs).unmount_log_s().len()
                    ==> lex_lt(
                    #[trigger] final(fs).unmount_log_s()[b],
                    #[trigger] final(fs).unmount_log_s()[a],
                ),
            r is Ok ==> forall|p: Seq<u8>|
                self.ensure_set().contains(p) ==> final(fs).has_dir(in_root(p)),
            r is Ok ==> forall|p: Seq<u8>|
                self.empty_set().contains(p) ==> final(fs).has_dir(in_root(p)),
            r is Ok ==> forall|p: Seq<u8>|
                self.empty_set().contains(p) && none_inside(self.empty_set(), p) && none_inside(
                    self.ensure_set(),
                    p,
                ) ==> final(fs).dir_is_empty(in_root(p)),
            r is Ok ==> forall|p: Seq<u8>|
                self.empty_set().contains(p) && old(fs).has_dir(in_root(p)) && none_enclosing(
                    self.remove_set(),
                    p,
                ) && none_strictly_enclosing(self.empty_set(), p) ==> final(fs).perm_of(in_root(p))
                    == old(fs).perm_of(in_root(p)),
            r is Ok ==> forall|p: Seq<u8>|
                self.remove_set().contains(p) && !self.ensure_set().contains(p)
                    && !self.empty_set().contains(p) && none_inside(self.ensure_set(), p)
                    && none_inside(self.empty_set(), p) ==> !final(fs).has_dir(in_root(p)),
    {
        proof {
            self.lemma_wf_sorted();
        }
        match unmount_pass(&self.cache_dirs, fs) {
            Ok(()) => {},
            Err(e) => {
                return Err(e);
            },
        }
        let ghost fs1 = *fs;
        match remove_pass(&self.remove_dirs, fs) {
            Ok(()) => {},
            Err(e) => {
                return Err(e);
            },
        }
        let ghost fs2 = *fs;
        empty_pass(&self.empty_dirs, fs);
        let ghost fs3 = *fs;
        ensure_pass(&self.ensure_dirs, fs);
        proof {
            let e_set = self.empty_set();
            let n_set = self.ensure_set();
            let r_set = self.remove_set();
            assert forall|p: Seq<u8>| e_set.contains(p) implies final(fs).has_dir(
                in_root(p),
            ) by {}
            assert forall|p: Seq<u8>|
                e_set.contains(p) && none_inside(e_set, p) && none_inside(n_set, p) implies final(fs).dir_is_empty(in_root(p)) by {
                let t = in_root(p);
                assert(fs3.dir_is_empty(t));
                assert forall|q: Seq<u8>| final(fs).has_dir(q) implies !is_ancestor(t, q) by {
                    if is_ancestor(t, q) {
                        assert(!fs3.has_dir(q));
                        let k = choose|k: int|
                            0 <= k < n_set.len() && (q == in_root(n_set[k]) || is_ancestor(
                                q,
                                in_root(n_set[k]),
                            ));
                        assert(n_set.contains(n_set[k]));
                        if q == in_root(n_set[k]) {
                            lemma_prepend_preserves(root_base(), p, n_set[k]);
                        } else {
                            lemma_ancestor_trans(t, q, in_root(n_set[k]));
                            lemma_prepend_preserves(root_base(), p, n_set[k]);
                        }
                    }
                }
            }
            assert forall|p: Seq<u8>|
                e_set.contains(p) && old(fs).has_dir(in_root(p)) && none_enclosing(r_set, p)
                    && none_strictly_enclosing(e_set, p) implies final(fs).perm_of(in_root(p))
                == old(fs).perm_of(in_root(p)) by {
                let t = in_root(p);
                crate::fsmodel::lemma_same_dirs(*old(fs), fs1, t);
                assert(fs1.has_dir(t) && fs1.perm_of(t) == old(fs).perm_of(t));
                assert forall|x: Seq<u8>| r_set.contains(x) implies t != in_root(x)
                    && !is_ancestor(in_root(x), t) by {
                    lemma_prepend_preserves(root_base(), x, p);
                }
                assert(fs2.has_dir(t) && fs2.perm_of(t) == fs1.perm_of(t));
                assert(fs3.perm_of(t) == fs2.perm_of(t) && fs3.has_dir(t));
                assert(final(fs).perm_of(t) == fs3.perm_of(t));
            }
            assert forall|p: Seq<u8>|
                r_set.contains(p) && !n_set.contains(p) && !e_set.contains(p) && none_inside(
                    n_set,
                    p,
                ) && none_inside(e_set, p) implies !final(fs).has_dir(in_root(p)) by {
                let t = in_root(p);
                assert(!fs2.has_dir(t));
                if fs3.has_dir(t) {
                    let k = choose|k: int|
                        0 <= k < e_set.len() && (t == in_root(e_set[k]) || is_ancestor(
                            t,
                            in_root(e_set[k]),
                        ));
                    assert(e_set.contains(e_set[k]));
                    lemma_prepend_preserves(root_base(), p, e_set[k]);
                }
                if final(fs).has_dir(t) {
                    let k = choose|k: int|
                        0 <= k < n_set.len() && (t == in_root(n_set[k]) || is_ancestor(
                            t,
                            in_root(n_set[k]),
                        ));
                    assert(n_set.contains(n_set[k]));
                    lemma_prepend_preserves(root_base(), p, n_set[k]);
                }
            }
            assert forall|a: int, b: int|
                old(fs).unmount_log_s().len() <= a < b < final(fs).unmount_log_s().len() implies
                lex_lt(
                    #[trigger] final(fs).unmount_log_s()[b],
                    #[trigger] final(fs).unmount_log_s()[a],
                ) by {
                let base = old(fs).unmount_log_s().len() as int;
                let ks = self.cache_keys();
                let n = ks.len() as int;
                assert(final(fs).unmount_log_s()[a] == in_root(ks[n - 1 - (a - base)]));
                assert(final(fs).unmount_log_s()[b] == in_root(ks[n - 1 - (b - base)]));
                assert(lex_lt(ks[n - 1 - (b - base)], ks[n - 1 - (a - base)]));
                lemma_prepend_preserves(root_base(), ks[n - 1 - (b - base)], ks[n - 1 - (a - base)]);
            }
        }
        Ok(())
    }
}

/// During finalization: unmount every cache-mounted path, in descending path
/// order, so that a cache directory nested inside another is unmounted
/// before the one enclosing it.
fn unmount_pass(cache: &CacheMap, fs: &mut FsModel) -> (r: Result<(), FsError>)
    requires
        old(fs).wf(),
        cache.wf(),
    ensures
        final(fs).wf(),
        final(fs).dirs_s() == old(fs).dirs_s(),
        final(fs).mount_log_s() == old(fs).mount_log_s(),
        r is Ok <==> (forall|k: Seq<u8>|
            cache.keys().contains(k) ==> old(fs).mounted(in_root(k))),
        r is Ok ==> final(fs).unmount_log_s() == old(fs).unmount_log_s() + Seq::new(
            cache.keys().len(),
            |j: int| in_root(cache.keys()[cache.keys().len() - 1 - j]),
        ),
        r is Err ==> (r matches Err(FsError::NotMounted(q)) && exists|k: Seq<u8>|
            #![auto]
            cache.keys().contains(k) && q@ == in_root(k) && !old(fs).mounted(in_root(k))),
{
    let n = cache.len();
    let mut i: usize = 0;
    while i < n
        invariant
            0 <= i <= n,
            n == cache.keys().len(),
            cache.wf(),
            old(fs).wf(),
            fs.wf(),
            fs.dirs_s() == old(fs).dirs_s(),
            fs.mount_log_s() == old(fs).mount_log_s(),
            fs.unmount_log_s() == old(fs).unmount_log_s() + Seq::new(
                i as nat,
                |j: int| in_root(cache.keys()[n - 1 - j]),
            ),
            forall|j: int|
                0 <= j < n - i ==> (fs.mounted(#[trigger] in_root(cache.keys()[j])) <==> old(fs).mounted(in_root(cache.keys()[j]))),
            forall|j: int| n - i <= j < n ==> old(fs).mounted(#[trigger] in_root(cache.keys()[j])),
        decreases n - i,
    {
        let key = cache.key_at(n - 1 - i);
        let target = concat_bytes(&root_base_vec(), key);
        let ghost pre = *fs;
        let ghost kj = cache.keys()[n - 1 - i];
        match fs.unmount(&target) {
            Ok(()) => {},
            Err(e) => {
                proof {
                    assert(!old(fs).mounted(in_root(kj)));
                    assert(cache.keys().contains(kj));
                }
                return Err(e);
            },
        }
        proof {
            assert(fs.unmount_log_s() =~= old(fs).unmount_log_s() + Seq::new(
                (i + 1) as nat,
                |j: int| in_root(cache.keys()[n - 1 - j]),
            ));
            let ridx = choose|ridx: int|
                0 <= ridx < pre.mounts_s().len() && pre.mounts_s()[ridx] == in_root(kj)
                    && fs.mounts_s() == pre.mounts_s().remove(ridx);
            assert forall|j: int| 0 <= j < n - i - 1 implies (fs.mounted(
                #[trigger] in_root(cache.keys()[j]),
            ) <==> old(fs).mounted(in_root(cache.keys()[j]))) by {
                assert(lex_lt(cache.keys()[j], kj));
                if cache.keys()[j] == kj {
                    lemma_lex_irrefl(kj);
                }
                lemma_prepend_preserves(root_base(), cache.keys()[j], kj);
                lemma_remove_other_keeps(pre.mounts_s(), ridx, in_root(cache.keys()[j]));
            }
            assert(old(fs).mounted(in_root(kj)));
        }
        i = i + 1;
    }
    proof {
        assert forall|k: Seq<u8>| cache.keys().contains(k) implies old(fs).mounted(
            in_root(k),
        ) by {
            let j = choose|j: int| 0 <= j < cache.keys().len() && cache.keys()[j] == k;
        }
    }
    Ok(())
}

/// Whether `q` was deleted by the first `upto` entries of the remove pass:
/// it is one of those paths inside the build root, or lies inside one.
spec fn removed_by(rset: Seq<Seq<u8>>, upto: int, q: Seq<u8>) -> bool {
    exists|k: int|
        0 <= k < upto && (q == in_root(rset[k]) || is_ancestor(#[trigger] in_root(rset[k]), q))
}

/// During finalization: recursively delete every registered remove path, in
/// ascending path order.  The pass fails on the first path that does not
/// exist when its turn comes.
fn remove_pass(set: &DirSet, fs: &mut FsModel) -> (r: Result<(), FsError>)
    requires
        old(fs).wf(),
        set.wf(),
    ensures
        final(fs).wf(),
        final(fs).mounts_s() == old(fs).mounts_s(),
        final(fs).mount_log_s() == old(fs).mount_log_s(),
        final(fs).unmount_log_s() == old(fs).unmount_log_s(),
        forall|q: Seq<u8>|
            #[trigger] final(fs).has_dir(q) ==> old(fs).has_dir(q) && final(fs).perm_of(q) == old(fs).perm_of(q),
        r is Ok <==> (forall|p: Seq<u8>|
            set@.contains(p) ==> old(fs).has_dir(in_root(p)) && none_strictly_enclosing(set@, p)),
        r is Err ==> (r matches Err(FsError::NotFound(q)) && exists|p: Seq<u8>|
            #![auto]
            set@.contains(p) && q@ == in_root(p)),
        r is Ok ==> forall|q: Seq<u8>|
            #[trigger] final(fs).has_dir(q) <==> old(fs).has_dir(q) && untouched_by(set@, q),
{
    let n = set.len();
    let mut i: usize = 0;
    while i < n
        invariant
            0 <= i <= n,
            n == set@.len(),
            set.wf(),
            old(fs).wf(),
            fs.wf(),
            fs.mounts_s() == old(fs).mounts_s(),
            fs.mount_log_s() == old(fs).mount_log_s(),
            fs.unmount_log_s() == old(fs).unmount_log_s(),
            forall|q: Seq<u8>|
                #[trigger] fs.has_dir(q) <==> old(fs).has_dir(q) && !removed_by(set@, i as int, q),
            forall|q: Seq<u8>|
                #[trigger] fs.has_dir(q) ==> fs.perm_of(q) == old(fs).perm_of(q),
            forall|k: int|
                0 <= k < i ==> old(fs).has_dir(in_root(#[trigger] set@[k])) && !removed_by(
                    set@,
                    k,
                    in_root(set@[k]),
                ),
        decreases n - i,
    {
        let p = set.index(i);
        let target = concat_bytes(&root_base_vec(), p);
        let ghost pre = *fs;
        let ghost pv = set@[i as int];
        match fs.rmdir_recursive(&target) {
            Ok(()) => {},
            Err(e) => {
                proof {
                    assert(set@.contains(pv));
                    assert(!pre.has_dir(in_root(pv)));
                    if old(fs).has_dir(in_root(pv)) {
                        assert(removed_by(set@, i as int, in_root(pv)));
                        let k = choose|k: int|
                            0 <= k < i && (in_root(pv) == in_root(set@[k]) || is_ancestor(
                                #[trigger] in_root(set@[k]),
                                in_root(pv),
                            ));
                        lemma_prepend_preserves(root_base(), set@[k], pv);
                        if set@[k] == pv {
                            assert(lex_lt(set@[k], set@[i as int]));
                            lemma_lex_irrefl(pv);
                        }
                        assert(set@.contains(set@[k]));
                        assert(is_ancestor(set@[k], pv));
                        assert(!none_strictly_enclosing(set@, pv));
                    }
                }
                return Err(e);
            },
        }
        proof {
            assert forall|q: Seq<u8>| #[trigger] fs.has_dir(q) implies old(fs).has_dir(q)
                && !removed_by(set@, i + 1, q) by {
                assert(pre.has_dir(q));
                if removed_by(set@, i + 1, q) {
                    let k = choose|k: int|
                        0 <= k < i + 1 && (q == in_root(set@[k]) || is_ancestor(
                            #[trigger] in_root(set@[k]),
                            q,
                        ));
                    assert(k == i);
                }
            }
            assert forall|q: Seq<u8>|
                old(fs).has_dir(q) && !removed_by(set@, i + 1, q) implies fs.has_dir(q) by {
                assert(!removed_by(set@, i as int, q));
                assert(pre.has_dir(q));
                assert(q != in_root(pv) && !is_ancestor(in_root(pv), q));
            }
            assert(old(fs).has_dir(in_root(pv)) && !removed_by(set@, i as int, in_root(pv)));
        }
        i = i + 1;
    }
    proof {
        assert forall|p: Seq<u8>| set@.contains(p) implies old(fs).has_dir(in_root(p))
            && none_strictly_enclosing(set@, p) by {
            let j = choose|j: int| 0 <= j < set@.len() && set@[j] == p;
            assert forall|x: Seq<u8>| set@.contains(x) implies !is_ancestor(x, p) by {
                let k = choose|k: int| 0 <= k < set@.len() && set@[k] == x;
                if is_ancestor(x, p) {
                    lemma_ancestor_lt(x, p);
                    if k > j {
                        assert(lex_lt(set@[j], set@[k]));
                        lemma_lex_asym(x, p);
                    } else if k == j {
                        lemma_lex_irrefl(p);
                    } else {
                        assert(removed_by(set@, j, in_root(p))) by {
                            lemma_prepend_preserves(root_base(), x, p);
                            assert(is_ancestor(in_root(set@[k]), in_root(p)));
                        }
                    }
                }
            }
        }
        assert forall|q: Seq<u8>| old(fs).has_dir(q) && untouched_by(set@, q) implies final(fs).has_dir(q) by {
            if removed_by(set@, n as int, q) {
                let k = choose|k: int|
                    0 <= k < n && (q == in_root(set@[k]) || is_ancestor(
                        #[trigger] in_root(set@[k]),
                        q,
                    ));
                assert(set@.contains(set@[k]));
            }
        }
        assert forall|q: Seq<u8>| #[trigger] final(fs).has_dir(q) implies untouched_by(
            set@,
            q,
        ) by {
            assert forall|p: Seq<u8>| set@.contains(p) implies q != in_root(p) && !is_ancestor(
                in_root(p),
                q,
            ) by {
                let k = choose|k: int| 0 <= k < set@.len() && set@[k] == p;
                assert(!removed_by(set@, n as int, q));
            }
        }
    }
    Ok(())
}

/// During finalization: make every registered empty path an existing, empty
/// directory, in ascending path order, keeping the permission bits a path
/// already had.
fn empty_pass(set: &DirSet, fs: &mut FsModel)
    requires
        old(fs).wf(),
        set.wf(),
    ensures
        final(fs).wf(),
        final(fs).mounts_s() == old(fs).mounts_s(),
        final(fs).mount_log_s() == old(fs).mount_log_s(),
        final(fs).unmount_log_s() == old(fs).unmount_log_s(),
        forall|p: Seq<u8>| set@.contains(p) ==> final(fs).has_dir(in_root(p)),
        forall|p: Seq<u8>|
            set@.contains(p) && none_inside(set@, p) ==> final(fs).dir_is_empty(in_root(p)),
        forall|p: Seq<u8>|
            set@.contains(p) && old(fs).has_dir(in_root(p)) && none_strictly_enclosing(set@, p)
                ==> final(fs).has_dir(in_root(p)) && final(fs).perm_of(in_root(p)) == old(fs).perm_of(in_root(p)),
        forall|q: Seq<u8>|
            old(fs).has_dir(q) && untouched_by(set@, q) ==> final(fs).has_dir(q) && final(fs).perm_of(q) == old(fs).perm_of(q),
        forall|q: Seq<u8>|
            #[trigger] final(fs).has_dir(q) ==> old(fs).has_dir(q) || (exists|k: int|
                0 <= k < set@.len() && (q == in_root(set@[k]) || is_ancestor(
                    q,
                    #[trigger] in_root(set@[k]),
                ))),
{
    let n = set.len();
    let mut i: usize = 0;
    while i < n
        invariant
            0 <= i <= n,
            n == set@.len(),
            set.wf(),
            old(fs).wf(),
            fs.wf(),
            fs.mounts_s() == old(fs).mounts_s(),
            fs.mount_log_s() == old(fs).mount_log_s(),
            fs.unmount_log_s() == old(fs).unmount_log_s(),
            forall|k: int| 0 <= k < i ==> fs.has_dir(in_root(#[trigger] set@[k])),
            forall|k: int|
                0 <= k < i && none_inside(set@, #[trigger] set@[k]) ==> fs.dir_is_empty(
                    in_root(set@[k]),
                ),
            forall|k: int|
                0 <= k < n && old(fs).has_dir(in_root(#[trigger] set@[k]))
                    && none_strictly_enclosing(set@, set@[k]) ==> fs.has_dir(in_root(set@[k]))
                    && fs.perm_of(in_root(set@[k])) == old(fs).perm_of(in_root(set@[k])),
            forall|q: Seq<u8>|
                old(fs).has_dir(q) && untouched_by(set@, q) ==> fs.has_dir(q) && fs.perm_of(q)
                    == old(fs).perm_of(q),
            forall|q: Seq<u8>|
                #[trigger] fs.has_dir(q) ==> old(fs).has_dir(q) || (exists|k: int|
                    0 <= k < i && (q == in_root(set@[k]) || is_ancestor(
                        q,
                        #[trigger] in_root(set@[k]),
                    ))),
        decreases n - i,
    {
        let p = set.index(i);
        let target = concat_bytes(&root_base_vec(), p);
        let ghost pre = *fs;
        let ghost pv = set@[i as int];
        let ghost tv = in_root(pv);
        fs.empty_dir(&target);
        proof {
            assert(set@.contains(pv));
            assert forall|k: int| 0 <= k < i + 1 implies fs.has_dir(
                in_root(#[trigger] set@[k]),
            ) by {
                if k < i {
                    if is_ancestor(tv, in_root(set@[k])) {
                        lemma_prepend_preserves(root_base(), pv, set@[k]);
                        lemma_ancestor_lt(pv, set@[k]);
                        assert(lex_lt(set@[k], pv));
                        lemma_lex_asym(pv, set@[k]);
                    }
                    if tv == in_root(set@[k]) {
                        lemma_prepend_preserves(root_base(), pv, set@[k]);
                        assert(lex_lt(set@[k], set@[i as int]));
                        lemma_lex_irrefl(pv);
                    }
                }
            }
            assert forall|k: int|
                0 <= k < i + 1 && none_inside(set@, #[trigger] set@[k]) implies fs.dir_is_empty(
                in_root(set@[k]),
            ) by {
                let tk = in_root(set@[k]);
                if k < i {
                    assert(pre.dir_is_empty(tk));
                    assert forall|q: Seq<u8>| fs.has_dir(q) implies !is_ancestor(tk, q) by {
                        if is_ancestor(tk, q) {
                            assert(!pre.has_dir(q));
                            assert(q == tv || is_ancestor(q, tv));
                            if q == tv {
                                lemma_prepend_preserves(root_base(), set@[k], pv);
                                assert(set@.contains(pv));
                            } else {
                                lemma_ancestor_trans(tk, q, tv);
                                lemma_prepend_preserves(root_base(), set@[k], pv);
                                assert(set@.contains(pv));
                            }
                        }
                    }
                }
            }
            assert forall|k: int|
                0 <= k < n && old(fs).has_dir(in_root(#[trigger] set@[k]))
                    && none_strictly_enclosing(set@, set@[k]) implies fs.has_dir(
                in_root(set@[k]),
            ) && fs.perm_of(in_root(set@[k])) == old(fs).perm_of(in_root(set@[k])) by {
                let tk = in_root(set@[k]);
                if k == i {
                } else {
                    assert(pre.has_dir(tk) && pre.perm_of(tk) == old(fs).perm_of(tk));
                    assert(!is_ancestor(pv, set@[k])) by {
                        assert(set@.contains(pv));
                    }
                    lemma_prepend_preserves(root_base(), pv, set@[k]);
                    assert(tk != tv) by {
                        if set@[k] == pv {
                            if k < i {
                                assert(lex_lt(set@[k], pv));
                            } else {
                                assert(lex_lt(pv, set@[k]));
                            }
                            lemma_lex_irrefl(pv);
                        }
                        lemma_prepend_preserves(root_base(), set@[k], pv);
                    }
                }
            }
            assert forall|q: Seq<u8>|
                old(fs).has_dir(q) && untouched_by(set@, q) implies fs.has_dir(q) && fs.perm_of(q)
                    == old(fs).perm_of(q) by {
                assert(pre.has_dir(q) && pre.perm_of(q) == old(fs).perm_of(q));
                assert(q != tv && !is_ancestor(tv, q)) by {
                    assert(set@.contains(pv));
                }
            }
            assert forall|q: Seq<u8>| #[trigger] fs.has_dir(q) implies old(fs).has_dir(q) || (
            exists|k: int|
                0 <= k < i + 1 && (q == in_root(set@[k]) || is_ancestor(
                    q,
                    #[trigger] in_root(set@[k]),
                ))) by {
                if pre.has_dir(q) {
                    if !old(fs).has_dir(q) {
                        let k = choose|k: int|
                            0 <= k < i && (q == in_root(set@[k]) || is_ancestor(
                                q,
                                #[trigger] in_root(set@[k]),
                            ));
                        assert(0 <= k < i + 1 && (q == in_root(set@[k]) || is_ancestor(
                            q,
                            in_root(set@[k]),
                        )));
                    }
                } else {
                    assert(q == tv || is_ancestor(q, tv));
                    assert(0 <= (i as int) < i + 1 && (q == in_root(set@[i as int]) || is_ancestor(
                        q,
                        in_root(set@[i as int]),
                    )));
                }
            }
        }
        i = i + 1;
    }
    proof {
        assert forall|p: Seq<u8>| set@.contains(p) implies final(fs).has_dir(in_root(p)) by {
            let j = choose|j: int| 0 <= j < set@.len() && set@[j] == p;
        }
        assert forall|p: Seq<u8>|
            set@.contains(p) && none_inside(set@, p) implies final(fs).dir_is_empty(
            in_root(p),
        ) by {
            let j = choose|j: int| 0 <= j < set@.len() && set@[j] == p;
        }
        assert forall|p: Seq<u8>|
            set@.contains(p) && old(fs).has_dir(in_root(p)) && none_strictly_enclosing(
                set@,
                p,
            ) implies final(fs).has_dir(in_root(p)) && final(fs).perm_of(in_root(p)) == old(fs).perm_of(in_root(p)) by {
            let j = choose|j: int| 0 <= j < set@.len() && set@[j] == p;
        }
    }
}

/// During finalization: create every registered ensure path, parents as
/// needed, in ascending path order; paths already present are untouched.
fn ensure_pass(set: &DirSet, fs: &mut FsModel)
    requires
        old(fs).wf(),
        set.wf(),
    ensures
        final(fs).wf(),
        final(fs).mounts_s() == old(fs).mounts_s(),
        final(fs).mount_log_s() == old(fs).mount_log_s(),
        final(fs).unmount_log_s() == old(fs).unmount_log_s(),
        forall|p: Seq<u8>| set@.contains(p) ==> final(fs).has_dir(in_root(p)),
        forall|q: Seq<u8>|
            old(fs).has_dir(q) ==> final(fs).has_dir(q) && final(fs).perm_of(q) == old(fs).perm_of(q),
        forall|q: Seq<u8>|
            #[trigger] final(fs).has_dir(q) ==> old(fs).has_dir(q) || (exists|k: int|
                0 <= k < set@.len() && (q == in_root(set@[k]) || is_ancestor(
                    q,
                    #[trigger] in_root(set@[k]),
                ))),
{
    let n = set.len();
    let mut i: usize = 0;
    while i < n
        invariant
            0 <= i <= n,
            n == set@.len(),
            set.wf(),
            old(fs).wf(),
            fs.wf(),
            fs.mounts_s() == old(fs).mounts_s(),
            fs.mount_log_s() == old(fs).mount_log_s(),
            fs.unmount_log_s() == old(fs).unmount_log_s(),
            forall|k: int| 0 <= k < i ==> fs.has_dir(in_root(#[trigger] set@[k])),
            forall|q: Seq<u8>|
                old(fs).has_dir(q) ==> fs.has_dir(q) && fs.perm_of(q) == old(fs).perm_of(q),
            forall|q: Seq<u8>|
                #[trigger] fs.has_dir(q) ==> old(fs).has_dir(q) || (exists|k: int|
                    0 <= k < i && (q == in_root(set@[k]) || is_ancestor(
                        q,
                        #[trigger] in_root(set@[k]),
                    ))),
        decreases n - i,
    {
        let p = set.index(i);
        let target = concat_bytes(&root_base_vec(), p);
        let ghost pre = *fs;
        let ghost pv = set@[i as int];
        let ghost tv = in_root(pv);
        fs.mkdir_recursive(&target, ALL_PERMISSIONS);
        proof {
            assert forall|q: Seq<u8>| #[trigger] fs.has_dir(q) implies pre.has_dir(q) || q == tv
                || is_ancestor(q, tv) by {}
            assert forall|q: Seq<u8>| #[trigger] fs.has_dir(q) implies old(fs).has_dir(q) || (
            exists|k: int|
                0 <= k < i + 1 && (q == in_root(set@[k]) || is_ancestor(
                    q,
                    #[trigger] in_root(set@[k]),
                ))) by {
                if pre.has_dir(q) {
                    if !old(fs).has_dir(q) {
                        let k = choose|k: int|
                            0 <= k < i && (q == in_root(set@[k]) || is_ancestor(
                                q,
                                #[trigger] in_root(set@[k]),
                            ));
                        assert(0 <= k < i + 1 && (q == in_root(set@[k]) || is_ancestor(
                            q,
                            in_root(set@[k]),
                        )));
                    }
                } else {
                    assert(0 <= (i as int) < i + 1 && (q == in_root(set@[i as int]) || is_ancestor(
                        q,
                        in_root(set@[i as int]),
                    )));
                }
            }
        }
        i = i + 1;
    }
    proof {
        assert forall|p: Seq<u8>| set@.contains(p) implies final(fs).has_dir(in_root(p)) by {
            let j = choose|j: int| 0 <= j < set@.len() && set@[j] == p;
        }
    }
}

} // verus!
