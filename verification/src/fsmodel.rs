//! An explicit, in-memory model of the slice of the filesystem that a build
//! touches: which directories exist and with which permission bits, which
//! paths currently carry a bind mount, and the history of mount and unmount
//! operations.  The build context performs all of its mutations against a
//! value of this model; a runner outside the library replays the same
//! operations against the real machine.
//!
//! Directories are closed under ancestors: whenever a directory exists, so
//! does every directory above it, as on a real filesystem.

use vstd::prelude::*;

use crate::path::{ancestor_of, bytes_eq, is_ancestor, lemma_ancestor_of_take, lemma_ancestor_trans,
    prefix_bytes, SLASH};

verus! {

/// The permission bits a directory receives when nothing dictates others.
pub const ALL_PERMISSIONS: u32 = 0o777;

/// A failed operation against the modeled filesystem.
#[derive(Debug, PartialEq, Eq)]
pub enum FsError {
    /// A directory that was to be removed does not exist.
    NotFound(Vec<u8>),
    /// A path that was to be unmounted carries no mount.
    NotMounted(Vec<u8>),
}

/// The modeled filesystem state.
pub struct FsModel {
    dirs: Vec<(Vec<u8>, u32)>,
    mounts: Vec<Vec<u8>>,
    mount_log: Vec<(Vec<u8>, Vec<u8>)>,
    unmount_log: Vec<Vec<u8>>,
}

impl FsModel {
    /// The existing directories, each with its permission bits.
    pub closed spec fn dirs_s(self) -> Seq<(Seq<u8>, u32)> {
        Seq::new(self.dirs@.len(), |i: int| (self.dirs@[i].0@, self.dirs@[i].1))
    }

    /// The targets of the currently active bind mounts.
    pub closed spec fn mounts_s(self) -> Seq<Seq<u8>> {
        Seq::new(self.mounts@.len(), |i: int| self.mounts@[i]@)
    }

    /// Every bind mount ever performed, in order, as (source, target).
    pub closed spec fn mount_log_s(self) -> Seq<(Seq<u8>, Seq<u8>)> {
        Seq::new(self.mount_log@.len(), |i: int| (self.mount_log@[i].0@, self.mount_log@[i].1@))
    }

    /// Every unmount ever performed, in order.
    pub closed spec fn unmount_log_s(self) -> Seq<Seq<u8>> {
        Seq::new(self.unmount_log@.len(), |i: int| self.unmount_log@[i]@)
    }

    pub open spec fn has_dir(self, p: Seq<u8>) -> bool {
        exists|i: int| 0 <= i < self.dirs_s().len() && self.dirs_s()[i].0 == p
    }

    pub closed spec fn dir_index(self, p: Seq<u8>) -> int {
        choose|i: int| 0 <= i < self.dirs_s().len() && self.dirs_s()[i].0 == p
    }

    /// The permission bits of an existing directory.
    pub closed spec fn perm_of(self, p: Seq<u8>) -> u32 {
        self.dirs_s()[self.dir_index(p)].1
    }

    pub open spec fn mounted(self, p: Seq<u8>) -> bool {
        self.mounts_s().contains(p)
    }

    /// No existing directory lies strictly inside `p`.
    pub open spec fn dir_is_empty(self, p: Seq<u8>) -> bool {
        forall|q: Seq<u8>| self.has_dir(q) ==> !is_ancestor(p, q)
    }

    /// No path names two directories, and every ancestor of an existing
    /// directory exists.
    pub open spec fn wf(self) -> bool {
        &&& forall|i: int, j: int|
            0 <= i < j < self.dirs_s().len() ==> self.dirs_s()[i].0 != self.dirs_s()[j].0
        &&& forall|i: int, a: Seq<u8>|
            0 <= i < self.dirs_s().len() && #[trigger] is_ancestor(a, self.dirs_s()[i].0)
                ==> self.has_dir(a)
    }

    /// A filesystem with no directories and no mounts.
    pub fn new() -> (r: FsModel)
        ensures
            r.wf(),
            r.dirs_s().len() == 0,
            r.mounts_s().len() == 0,
            r.mount_log_s().len() == 0,
            r.unmount_log_s().len() == 0,
    {
        FsModel { dirs: Vec::new(), mounts: Vec::new(), mount_log: Vec::new(), unmount_log: Vec::new() }
    }

    fn find(&self, p: &Vec<u8>) -> (r: Option<usize>)
        ensures
            match r {
                Some(i) => i < self.dirs_s().len() && self.dirs_s()[i as int].0 == p@,
                None => !self.has_dir(p@),
            },
    {
        let mut i: usize = 0;
        while i < self.dirs.len()
            invariant
                i <= self.dirs.len(),
                forall|j: int| 0 <= j < i ==> self.dirs_s()[j].0 != p@,
            decreases self.dirs.len() - i,
        {
            if bytes_eq(&self.dirs[i].0, p) {
                assert(self.dirs_s()[i as int].0 == p@);
                return Some(i);
            }
            i = i + 1;
        }
        None
    }

    /// Whether `p` exists as a directory.
    pub fn exists_dir(&self, p: &Vec<u8>) -> (r: bool)
        ensures
            r == self.has_dir(p@),
    {
        match self.find(p) {
            Some(_) => true,
            None => false,
        }
    }

    /// The permission bits of `p`, when it exists.
    pub fn dir_perm(&self, p: &Vec<u8>) -> (r: Option<u32>)
        requires
            self.wf(),
        ensures
            r == if self.has_dir(p@) {
                Some(self.perm_of(p@))
            } else {
                None::<u32>
            },
    {
        match self.find(p) {
            Some(i) => {
                proof {
                    lemma_perm_at(*self, i as int);
                }
                Some(self.dirs[i].1)
            },
            None => None,
        }
    }

    /// Whether `p` has no directory strictly inside it.
    pub fn is_empty_dir(&self, p: &Vec<u8>) -> (r: bool)
        ensures
            r == self.dir_is_empty(p@),
    {
        let mut i: usize = 0;
        while i < self.dirs.len()
            invariant
                i <= self.dirs.len(),
                forall|j: int| 0 <= j < i ==> !is_ancestor(p@, self.dirs_s()[j].0),
            decreases self.dirs.len() - i,
        {
            if ancestor_of(p, &self.dirs[i].0) {
                assert(self.has_dir(self.dirs_s()[i as int].0));
                return false;
            }
            i = i + 1;
        }
        proof {
            assert forall|q: Seq<u8>| self.has_dir(q) implies !is_ancestor(p@, q) by {
                let j = choose|j: int| 0 <= j < self.dirs_s().len() && self.dirs_s()[j].0 == q;
            }
        }
        true
    }

    /// Create the single directory `q` with bits `perm` when it is missing.
    fn add_if_missing(&mut self, q: Vec<u8>, perm: u32)
        requires
            unique_keys(old(self).dirs_s()),
        ensures
            unique_keys(final(self).dirs_s()),
            forall|r: Seq<u8>|
                final(self).has_dir(r) <==> old(self).has_dir(r) || r == q@,
            forall|r: Seq<u8>|
                old(self).has_dir(r) ==> final(self).perm_of(r) == old(self).perm_of(r),
            !old(self).has_dir(q@) ==> final(self).perm_of(q@) == perm,
            old(self).has_dir(q@) ==> final(self).dirs_s() == old(self).dirs_s(),
            final(self).mounts_s() == old(self).mounts_s(),
            final(self).mount_log_s() == old(self).mount_log_s(),
            final(self).unmount_log_s() == old(self).unmount_log_s(),
    {
        if self.exists_dir(&q) {
            return;
        }
        let ghost s0 = self.dirs_s();
        let ghost qv = q@;
        self.dirs.push((q, perm));
        proof {
            let s1 = self.dirs_s();
            let n = s0.len() as int;
            assert(s1[n] == (qv, perm));
            assert(s1 =~= s0.push((qv, perm)));
            assert forall|r: Seq<u8>| final(self).has_dir(r) implies old(self).has_dir(r) || r
                == s1[n].0 by {
                let k = choose|k: int| 0 <= k < s1.len() && s1[k].0 == r;
                if k < n {
                    assert(s0[k].0 == r);
                }
            }
            assert(final(self).has_dir(qv)) by {
                assert(s1[n].0 == qv);
            }
            assert forall|r: Seq<u8>| old(self).has_dir(r) implies final(self).has_dir(r) by {
                let k = choose|k: int| 0 <= k < s0.len() && s0[k].0 == r;
                assert(s1[k].0 == r);
            }
            assert forall|r: Seq<u8>| old(self).has_dir(r) implies final(self).perm_of(r) == old(
                self,
            ).perm_of(r) by {
                let k = choose|k: int| 0 <= k < s0.len() && s0[k].0 == r;
                assert(s1[k].0 == r);
                lemma_perm_at(*old(self), k);
                lemma_perm_at(*final(self), k);
            }
            lemma_perm_at(*final(self), n);
        }
    }

    /// Record a bind mount of `source` onto `target`.
    pub fn bind_mount(&mut self, source: &Vec<u8>, target: &Vec<u8>)
        ensures
            final(self).dirs_s() == old(self).dirs_s(),
            final(self).mounts_s() == old(self).mounts_s().push(target@),
            final(self).mount_log_s() == old(self).mount_log_s().push((source@, target@)),
            final(self).unmount_log_s() == old(self).unmount_log_s(),
    {
        self.mounts.push(target.clone());
        self.mount_log.push((source.clone(), target.clone()));
        proof {
            assert(final(self).dirs_s() =~= old(self).dirs_s());
            assert(final(self).mounts_s() =~= old(self).mounts_s().push(target@));
            assert(final(self).mount_log_s() =~= old(self).mount_log_s().push((source@, target@)));
            assert(final(self).unmount_log_s() =~= old(self).unmount_log_s());
        }
    }

    /// Remove one active mount of `target`; an error when none is active.
    pub fn unmount(&mut self, target: &Vec<u8>) -> (r: Result<(), FsError>)
        ensures
            r is Ok <==> old(self).mounted(target@),
            r is Err ==> *final(self) == *old(self) && (r matches Err(FsError::NotMounted(q))
                && q@ == target@),
            r is Ok ==> {
                &&& final(self).dirs_s() == old(self).dirs_s()
                &&& final(self).mount_log_s() == old(self).mount_log_s()
                &&& final(self).unmount_log_s() == old(self).unmount_log_s().push(target@)
                &&& exists|i: int|
                    0 <= i < old(self).mounts_s().len() && old(self).mounts_s()[i] == target@
                        && final(self).mounts_s() == old(self).mounts_s().remove(i)
            },
    {
        match self.find_mount(target) {
            Some(i) => {
                let ghost m0 = self.mounts_s();
                self.mounts.remove(i);
                self.unmount_log.push(target.clone());
                proof {
                    assert(final(self).dirs_s() =~= old(self).dirs_s());
                    assert(final(self).mount_log_s() =~= old(self).mount_log_s());
                    assert(final(self).unmount_log_s() =~= old(self).unmount_log_s().push(
                        target@,
                    ));
                    assert(final(self).mounts_s() =~= m0.remove(i as int));
                }
                Ok(())
            },
            None => Err(FsError::NotMounted(target.clone())),
        }
    }

    /// Create directory `p`, with its missing ancestors, each new directory
    /// getting the bits `perm`; directories already present keep their own
    /// bits.
    pub fn mkdir_recursive(&mut self, p: &Vec<u8>, perm: u32)
        requires
            old(self).wf(),
        ensures
            final(self).wf(),
            final(self).has_dir(p@),
            forall|q: Seq<u8>|
                final(self).has_dir(q) <==> old(self).has_dir(q) || q == p@ || is_ancestor(q, p@),
            forall|q: Seq<u8>|
                old(self).has_dir(q) ==> final(self).perm_of(q) == old(self).perm_of(q),
            forall|q: Seq<u8>|
                final(self).has_dir(q) && !old(self).has_dir(q) ==> final(self).perm_of(q)
                    == perm,
            final(self).mounts_s() == old(self).mounts_s(),
            final(self).mount_log_s() == old(self).mount_log_s(),
            final(self).unmount_log_s() == old(self).unmount_log_s(),
    {
        let ghost fs0 = *self;
        let mut i: usize = 0;
        while i < p.len()
            invariant
                i <= p.len(),
                fs0.wf(),
                unique_keys(self.dirs_s()),
                forall|k: int, a: Seq<u8>|
                    0 <= k < self.dirs_s().len() && #[trigger] is_ancestor(
                        a,
                        self.dirs_s()[k].0,
                    ) ==> self.has_dir(a),
                forall|q: Seq<u8>| fs0.has_dir(q) ==> self.has_dir(q),
                forall|q: Seq<u8>|
                    #[trigger] self.has_dir(q) ==> fs0.has_dir(q) || is_ancestor(q, p@),
                forall|j: int| 0 <= j < i && p@[j] == SLASH ==> self.has_dir(#[trigger] p@.take(j)),
                forall|q: Seq<u8>| fs0.has_dir(q) ==> self.perm_of(q) == fs0.perm_of(q),
                forall|q: Seq<u8>|
                    #[trigger] self.has_dir(q) && !fs0.has_dir(q) ==> self.perm_of(q) == perm,
                self.mounts_s() == fs0.mounts_s(),
                self.mount_log_s() == fs0.mount_log_s(),
                self.unmount_log_s() == fs0.unmount_log_s(),
            decreases p.len() - i,
        {
            if p[i] == SLASH {
                let pre = prefix_bytes(p, i);
                let ghost mid = *self;
                self.add_if_missing(pre, perm);
                proof {
                    assert(is_ancestor(pre@, p@));
                    assert forall|k: int, a: Seq<u8>|
                        0 <= k < self.dirs_s().len() && #[trigger] is_ancestor(
                            a,
                            self.dirs_s()[k].0,
                        ) implies self.has_dir(a) by {
                        let q = self.dirs_s()[k].0;
                        assert(self.has_dir(q));
                        if mid.has_dir(q) {
                            assert(mid.has_dir(a));
                        } else {
                            assert(q == pre@);
                            lemma_ancestor_of_take(p@, i as int, a);
                            assert(self.has_dir(p@.take(a.len() as int)));
                        }
                    }
                }
            }
            i = i + 1;
        }
        let ghost mid = *self;
        self.add_if_missing(p.clone(), perm);
        proof {
            assert forall|k: int, a: Seq<u8>|
                0 <= k < self.dirs_s().len() && #[trigger] is_ancestor(
                    a,
                    self.dirs_s()[k].0,
                ) implies self.has_dir(a) by {
                let q = self.dirs_s()[k].0;
                if mid.has_dir(q) {
                    assert(mid.has_dir(a));
                } else {
                    assert(q == p@);
                    assert(a == p@.take(a.len() as int) && p@[a.len() as int] == SLASH);
                    assert(mid.has_dir(p@.take(a.len() as int)));
                }
            }
            assert forall|q: Seq<u8>|
                (old(self).has_dir(q) || q == p@ || is_ancestor(q, p@))
                    implies final(self).has_dir(q) by {
                if is_ancestor(q, p@) {
                    assert(q == p@.take(q.len() as int) && p@[q.len() as int] == SLASH);
                    assert(mid.has_dir(p@.take(q.len() as int)));
                }
            }
        }
    }

    /// Recursively delete `p`: the directory itself and every directory
    /// inside it.  An error when `p` does not exist; nothing changes then.
    #[verifier::rlimit(30)]
    pub fn rmdir_recursive(&mut self, p: &Vec<u8>) -> (r: Result<(), FsError>)
        requires
            old(self).wf(),
        ensures
            final(self).wf(),
            r is Ok <==> old(self).has_dir(p@),
            r is Err ==> *final(self) == *old(self) && (r matches Err(FsError::NotFound(q)) && q@
                == p@),
            r is Ok ==> {
                &&& forall|q: Seq<u8>|
                    final(self).has_dir(q) <==> old(self).has_dir(q) && q != p@ && !is_ancestor(
                        p@,
                        q,
                    )
                &&& forall|q: Seq<u8>|
                    final(self).has_dir(q) ==> final(self).perm_of(q) == old(self).perm_of(q)
                &&& final(self).mounts_s() == old(self).mounts_s()
                &&& final(self).mount_log_s() == old(self).mount_log_s()
                &&& final(self).unmount_log_s() == old(self).unmount_log_s()
            },
    {
        if !self.exists_dir(p) {
            return Err(FsError::NotFound(p.clone()));
        }
        let ghost ds0 = self.dirs_s();
        let mut kept: Vec<(Vec<u8>, u32)> = Vec::new();
        let mut i: usize = 0;
        while i < self.dirs.len()
            invariant
                i <= self.dirs.len(),
                self.dirs_s() == ds0,
                forall|j: int|
                    0 <= j < dirs_view(kept).len() ==> {
                        let e = #[trigger] dirs_view(kept)[j];
                        &&& e.0 != p@
                        &&& !is_ancestor(p@, e.0)
                        &&& exists|k: int| 0 <= k < i && e == ds0[k]
                    },
                forall|k: int|
                    0 <= k < i && (#[trigger] ds0[k]).0 != p@ && !is_ancestor(p@, ds0[k].0)
                        ==> exists|j: int|
                        0 <= j < dirs_view(kept).len() && dirs_view(kept)[j] == ds0[k],
                forall|a: int, b: int|
                    0 <= a < b < dirs_view(kept).len() ==> dirs_view(kept)[a].0 != dirs_view(
                        kept,
                    )[b].0,
                unique_keys(ds0),
            decreases self.dirs.len() - i,
        {
            let same = bytes_eq(&self.dirs[i].0, p);
            let under = ancestor_of(p, &self.dirs[i].0);
            if !same && !under {
                let ghost kv0 = dirs_view(kept);
                kept.push((self.dirs[i].0.clone(), self.dirs[i].1));
                proof {
                    let kv1 = dirs_view(kept);
                    let n = kv0.len() as int;
                    assert(kv1[n] == ds0[i as int]);
                    assert(kv1 =~= kv0.push(ds0[i as int]));
                    assert forall|a: int, b: int| 0 <= a < b < kv1.len() implies kv1[a].0
                        != kv1[b].0 by {
                        if b == n {
                            let k = choose|k: int| 0 <= k < i && kv1[a] == ds0[k];
                            assert(ds0[k].0 != ds0[i as int].0);
                        }
                    }
                    assert forall|k: int|
                        0 <= k < i + 1 && (#[trigger] ds0[k]).0 != p@ && !is_ancestor(
                            p@,
                            ds0[k].0,
                        ) implies exists|j: int| 0 <= j < kv1.len() && kv1[j] == ds0[k] by {
                        if k < i {
                            let j = choose|j: int| 0 <= j < kv0.len() && kv0[j] == ds0[k];
                            assert(kv1[j] == ds0[k]);
                        } else {
                            assert(kv1[n] == ds0[k]);
                        }
                    }
                }
            } else {
                proof {
                    assert(ds0[i as int].0 == p@ || is_ancestor(p@, ds0[i as int].0));
                }
            }
            i = i + 1;
        }
        let ghost kv = dirs_view(kept);
        self.dirs = kept;
        proof {
            assert(final(self).dirs_s() =~= kv);
            assert forall|q: Seq<u8>| final(self).has_dir(q) implies old(self).has_dir(q) && q
                != p@ && !is_ancestor(p@, q) by {
                let j = choose|j: int| 0 <= j < kv.len() && kv[j].0 == q;
                let k = choose|k: int| 0 <= k < ds0.len() && kv[j] == ds0[k];
                assert(ds0[k].0 == q);
            }
            assert forall|q: Seq<u8>|
                old(self).has_dir(q) && q != p@ && !is_ancestor(p@, q)
                    implies final(self).has_dir(q) by {
                let k = choose|k: int| 0 <= k < ds0.len() && ds0[k].0 == q;
                let j = choose|j: int| 0 <= j < kv.len() && kv[j] == ds0[k];
                assert(final(self).dirs_s()[j].0 == q);
            }
            assert forall|k: int, a: Seq<u8>|
                0 <= k < final(self).dirs_s().len() && #[trigger] is_ancestor(
                    a,
                    final(self).dirs_s()[k].0,
                ) implies final(self).has_dir(a) by {
                let q = final(self).dirs_s()[k].0;
                assert(final(self).has_dir(q));
                assert(old(self).has_dir(a));
                if a == p@ {
                    assert(is_ancestor(p@, q));
                } else if is_ancestor(p@, a) {
                    lemma_ancestor_trans(p@, a, q);
                }
            }
            assert forall|q: Seq<u8>| final(self).has_dir(q) implies final(self).perm_of(q) == old(
                self,
            ).perm_of(q) by {
                let j = choose|j: int| 0 <= j < kv.len() && kv[j].0 == q;
                let k = choose|k: int| 0 <= k < ds0.len() && kv[j] == ds0[k];
                lemma_perm_at(*final(self), j);
                lemma_perm_at(*old(self), k);
            }
        }
        Ok(())
    }

    /// Make `p` an existing, empty directory: when it exists it is deleted
    /// recursively and recreated with the permission bits it had; when it
    /// does not exist it is created with full default permissions.
    pub fn empty_dir(&mut self, p: &Vec<u8>)
        requires
            old(self).wf(),
        ensures
            final(self).wf(),
            final(self).has_dir(p@),
            final(self).dir_is_empty(p@),
            forall|q: Seq<u8>|
                final(self).has_dir(q) <==> (old(self).has_dir(q) && !is_ancestor(p@, q)) || q
                    == p@ || is_ancestor(q, p@),
            old(self).has_dir(p@) ==> final(self).perm_of(p@) == old(self).perm_of(p@),
            !old(self).has_dir(p@) ==> final(self).perm_of(p@) == ALL_PERMISSIONS,
            forall|q: Seq<u8>|
                q != p@ && old(self).has_dir(q) && !is_ancestor(p@, q) ==> final(self).perm_of(q)
                    == old(self).perm_of(q),
            forall|q: Seq<u8>|
                final(self).has_dir(q) && !old(self).has_dir(q) ==> final(self).perm_of(q)
                    == ALL_PERMISSIONS,
            final(self).mounts_s() == old(self).mounts_s(),
            final(self).mount_log_s() == old(self).mount_log_s(),
            final(self).unmount_log_s() == old(self).unmount_log_s(),
    {
        let perm_before = self.dir_perm(p);
        match perm_before {
            Some(perm0) => {
                let r = self.rmdir_recursive(p);
                proof {
                    assert(r is Ok);
                }
                let ghost mid = *self;
                self.mkdir_recursive(p, perm0);
                proof {
                    assert forall|q: Seq<u8>| final(self).has_dir(q) implies !is_ancestor(
                        p@,
                        q,
                    ) by {
                        if is_ancestor(p@, q) {
                            assert(!mid.has_dir(q));
                            assert(q != p@);
                            if is_ancestor(q, p@) {
                                assert(q.len() < p@.len() && p@.len() < q.len());
                            }
                        }
                    }
                }
            },
            None => {
                let ghost fs0 = *self;
                self.mkdir_recursive(p, ALL_PERMISSIONS);
                proof {
                    assert forall|q: Seq<u8>| fs0.has_dir(q) implies !is_ancestor(p@, q) by {
                        if is_ancestor(p@, q) {
                            let k = choose|k: int|
                                0 <= k < fs0.dirs_s().len() && fs0.dirs_s()[k].0 == q;
                            assert(is_ancestor(p@, fs0.dirs_s()[k].0));
                            assert(fs0.has_dir(p@));
                        }
                    }
                    assert forall|q: Seq<u8>| final(self).has_dir(q) implies !is_ancestor(
                        p@,
                        q,
                    ) by {
                        if is_ancestor(p@, q) {
                            assert(!fs0.has_dir(q));
                            if is_ancestor(q, p@) {
                                assert(q.len() < p@.len() && p@.len() < q.len());
                            }
                        }
                    }
                }
            },
        }
    }

    /// Whether `p` currently carries a bind mount.
    pub fn is_mounted(&self, p: &Vec<u8>) -> (r: bool)
        ensures
            r == self.mounted(p@),
    {
        match self.find_mount(p) {
            Some(_) => true,
            None => false,
        }
    }

    /// How many bind mounts were ever performed.
    pub fn mount_log_count(&self) -> (n: usize)
        ensures
            n == self.mount_log_s().len(),
    {
        self.mount_log.len()
    }

    /// The `i`-th bind mount performed, as (source, target).
    pub fn mount_log_at(&self, i: usize) -> (r: &(Vec<u8>, Vec<u8>))
        requires
            i < self.mount_log_s().len(),
        ensures
            r.0@ == self.mount_log_s()[i as int].0,
            r.1@ == self.mount_log_s()[i as int].1,
    {
        &self.mount_log[i]
    }

    /// How many unmounts were ever performed.
    pub fn unmount_log_count(&self) -> (n: usize)
        ensures
            n == self.unmount_log_s().len(),
    {
        self.unmount_log.len()
    }

    /// The target of the `i`-th unmount performed.
    pub fn unmount_log_at(&self, i: usize) -> (r: &Vec<u8>)
        requires
            i < self.unmount_log_s().len(),
        ensures
            r@ == self.unmount_log_s()[i as int],
    {
        &self.unmount_log[i]
    }

    fn find_mount(&self, target: &Vec<u8>) -> (r: Option<usize>)
        ensures
            match r {
                Some(i) => i < self.mounts_s().len() && self.mounts_s()[i as int] == target@,
                None => !self.mounted(target@),
            },
    {
        let mut i: usize = 0;
        while i < self.mounts.len()
            invariant
                i <= self.mounts.len(),
                forall|j: int| 0 <= j < i ==> self.mounts_s()[j] != target@,
            decreases self.mounts.len() - i,
        {
            if bytes_eq(&self.mounts[i], target) {
                assert(self.mounts_s()[i as int] == target@);
                return Some(i);
            }
            i = i + 1;
        }
        proof {
            if self.mounts_s().contains(target@) {
                let j = choose|j: int|
                    0 <= j < self.mounts_s().len() && self.mounts_s()[j] == target@;
            }
        }
        None
    }
}

/// The directory entries of a plain vector, as a sequence of pairs.
spec fn dirs_view(v: Vec<(Vec<u8>, u32)>) -> Seq<(Seq<u8>, u32)> {
    Seq::new(v@.len(), |i: int| (v@[i].0@, v@[i].1))
}

/// No path occurs twice among the directory entries.
pub open spec fn unique_keys(s: Seq<(Seq<u8>, u32)>) -> bool {
    forall|i: int, j: int| 0 <= i < j < s.len() ==> s[i].0 != s[j].0
}

/// Two filesystem states with the same directory entries agree on which
/// directories exist and with which permission bits.
pub proof fn lemma_same_dirs(a: FsModel, b: FsModel, p: Seq<u8>)
    requires
        a.dirs_s() == b.dirs_s(),
        unique_keys(a.dirs_s()),
    ensures
        a.has_dir(p) == b.has_dir(p),
        a.has_dir(p) ==> a.perm_of(p) == b.perm_of(p),
{
    if a.has_dir(p) {
        let i = choose|i: int| 0 <= i < a.dirs_s().len() && a.dirs_s()[i].0 == p;
        assert(b.dirs_s()[i].0 == p);
        assert(b.has_dir(p));
        let ia = a.dir_index(p);
        let ib = b.dir_index(p);
        assert(0 <= ia < a.dirs_s().len() && a.dirs_s()[ia].0 == p);
        assert(0 <= ib < b.dirs_s().len() && b.dirs_s()[ib].0 == p);
        assert(ia == ib);
    }
    if b.has_dir(p) {
        let i = choose|i: int| 0 <= i < b.dirs_s().len() && b.dirs_s()[i].0 == p;
        assert(a.dirs_s()[i].0 == p);
        assert(a.has_dir(p));
    }
}

/// The permission bits recorded at entry `i` are the permission bits of the
/// path recorded there.
proof fn lemma_perm_at(fs: FsModel, i: int)
    requires
        unique_keys(fs.dirs_s()),
        0 <= i < fs.dirs_s().len(),
    ensures
        fs.perm_of(fs.dirs_s()[i].0) == fs.dirs_s()[i].1,
{
    let p = fs.dirs_s()[i].0;
    assert(fs.has_dir(p));
    let j = fs.dir_index(p);
    assert(0 <= j < fs.dirs_s().len() && fs.dirs_s()[j].0 == p);
    assert(i == j);
}

} // verus!
