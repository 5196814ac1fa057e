//! Directory paths, treated as opaque byte strings the way Unix hands them
//! out.  A path is absolute when it starts with a slash; the build context
//! stores every path relative to the filesystem root, so absolute paths are
//! normalized by stripping their leading slashes.  The ordered sets of the
//! build context sort paths lexicographically by byte.

use vstd::prelude::*;
use vstd::string::StrSliceExecFns;

verus! {

/// The byte value of `/`, the path separator.
pub const SLASH: u8 = 47;

/// Strict lexicographic byte order on paths.  A proper prefix sorts before
/// every one of its extensions.
pub open spec fn lex_lt(a: Seq<u8>, b: Seq<u8>) -> bool
    decreases a.len(),
{
    if b.len() == 0 {
        false
    } else if a.len() == 0 {
        true
    } else if a[0] < b[0] {
        true
    } else if a[0] > b[0] {
        false
    } else {
        lex_lt(a.drop_first(), b.drop_first())
    }
}

/// An absolute path starts with a slash.
pub open spec fn is_absolute(p: Seq<u8>) -> bool {
    p.len() > 0 && p[0] == SLASH
}

/// The root-relative form of a path: the same bytes with every leading slash
/// removed.
pub open spec fn normalize(p: Seq<u8>) -> Seq<u8>
    decreases p.len(),
{
    if p.len() > 0 && p[0] == SLASH {
        normalize(p.drop_first())
    } else {
        p
    }
}

/// `a` names a directory that `b` lies strictly inside: `a` is a proper
/// prefix of `b` and the next byte of `b` is a slash.
pub open spec fn is_ancestor(a: Seq<u8>, b: Seq<u8>) -> bool {
    &&& a.len() < b.len()
    &&& b.take(a.len() as int) == a
    &&& b[a.len() as int] == SLASH
}

pub proof fn lemma_lex_irrefl(a: Seq<u8>)
    ensures
        !lex_lt(a, a),
    decreases a.len(),
{
    if a.len() > 0 {
        lemma_lex_irrefl(a.drop_first());
    }
}

pub proof fn lemma_lex_connected(a: Seq<u8>, b: Seq<u8>)
    requires
        !lex_lt(a, b),
        !lex_lt(b, a),
    ensures
        a == b,
    decreases a.len(),
{
    if a.len() == 0 {
        assert(b.len() == 0);
        assert(a =~= b);
    } else {
        assert(b.len() > 0);
        assert(a[0] == b[0]);
        lemma_lex_connected(a.drop_first(), b.drop_first());
        assert forall|k: int| 0 <= k < a.len() implies a[k] == b[k] by {
            if k > 0 {
                assert(a[k] == a.drop_first()[k - 1]);
                assert(b[k] == b.drop_first()[k - 1]);
            }
        }
        assert(a =~= b);
    }
}

pub proof fn lemma_lex_asym(a: Seq<u8>, b: Seq<u8>)
    requires
        lex_lt(a, b),
    ensures
        !lex_lt(b, a),
    decreases a.len(),
{
    if a.len() > 0 && b.len() > 0 && a[0] == b[0] {
        lemma_lex_asym(a.drop_first(), b.drop_first());
    }
}

pub proof fn lemma_lex_trans(a: Seq<u8>, b: Seq<u8>, c: Seq<u8>)
    requires
        lex_lt(a, b),
        lex_lt(b, c),
    ensures
        lex_lt(a, c),
    decreases a.len(),
{
    if a.len() > 0 {
        assert(b.len() > 0);
        assert(c.len() > 0);
        if a[0] == b[0] && b[0] == c[0] {
            lemma_lex_trans(a.drop_first(), b.drop_first(), c.drop_first());
        }
    }
}

/// A proper prefix sorts strictly before the whole.
pub proof fn lemma_prefix_lt(a: Seq<u8>, b: Seq<u8>)
    requires
        a.len() < b.len(),
        b.take(a.len() as int) == a,
    ensures
        lex_lt(a, b),
    decreases a.len(),
{
    if a.len() > 0 {
        assert(a[0] == b.take(a.len() as int)[0]);
        assert(b.drop_first().take(a.len() - 1) =~= a.drop_first());
        lemma_prefix_lt(a.drop_first(), b.drop_first());
    }
}

/// An ancestor sorts strictly before every path inside it.
pub proof fn lemma_ancestor_lt(a: Seq<u8>, b: Seq<u8>)
    requires
        is_ancestor(a, b),
    ensures
        lex_lt(a, b),
{
    lemma_prefix_lt(a, b);
}

/// The ancestor relation composes.
pub proof fn lemma_ancestor_trans(a: Seq<u8>, b: Seq<u8>, c: Seq<u8>)
    requires
        is_ancestor(a, b),
        is_ancestor(b, c),
    ensures
        is_ancestor(a, c),
{
    assert(c.take(a.len() as int) =~= b.take(a.len() as int));
    assert(c[a.len() as int] == b[a.len() as int]);
}

/// An ancestor of a prefix of `p` is itself a shorter prefix of `p`, cut at
/// a slash.
pub proof fn lemma_ancestor_of_take(p: Seq<u8>, i: int, a: Seq<u8>)
    requires
        0 <= i <= p.len(),
        is_ancestor(a, p.take(i)),
    ensures
        a == p.take(a.len() as int),
        a.len() < i,
        p[a.len() as int] == SLASH,
{
    assert(p.take(i).take(a.len() as int) =~= p.take(a.len() as int));
    assert(p.take(i)[a.len() as int] == p[a.len() as int]);
}

/// Comparing two paths ignores any shared prefix.
pub proof fn lemma_lex_skip_common(a: Seq<u8>, b: Seq<u8>, i: int)
    requires
        0 <= i <= a.len(),
        i <= b.len(),
        forall|j: int| 0 <= j < i ==> a[j] == b[j],
    ensures
        lex_lt(a, b) == lex_lt(a.skip(i), b.skip(i)),
    decreases i,
{
    if i == 0 {
        assert(a.skip(0) =~= a);
        assert(b.skip(0) =~= b);
    } else {
        assert(a.drop_first().skip(i - 1) =~= a.skip(i));
        assert(b.drop_first().skip(i - 1) =~= b.skip(i));
        lemma_lex_skip_common(a.drop_first(), b.drop_first(), i - 1);
    }
}

/// Prepending one common prefix to two paths preserves their order and their
/// ancestor relation.
pub proof fn lemma_prepend_preserves(base: Seq<u8>, a: Seq<u8>, b: Seq<u8>)
    ensures
        lex_lt(base + a, base + b) == lex_lt(a, b),
        is_ancestor(base + a, base + b) == is_ancestor(a, b),
        (base + a == base + b) == (a == b),
    decreases base.len(),
{
    let ba = base + a;
    let bb = base + b;
    assert(forall|j: int| 0 <= j < base.len() ==> ba[j] == bb[j]);
    lemma_lex_skip_common(ba, bb, base.len() as int);
    assert(ba.skip(base.len() as int) =~= a);
    assert(bb.skip(base.len() as int) =~= b);
    if is_ancestor(a, b) {
        assert(bb.take(ba.len() as int) =~= ba);
        assert(bb[ba.len() as int] == b[a.len() as int]);
    }
    if is_ancestor(ba, bb) {
        assert(b.take(a.len() as int) =~= a) by {
            assert(forall|j: int|
                0 <= j < a.len() ==> b[j] == bb[base.len() + j] && a[j] == ba[base.len() + j]);
        }
        assert(b[a.len() as int] == bb[ba.len() as int]);
    }
    if a == b {
        assert(ba =~= bb);
    }
    if ba == bb {
        assert(a =~= b) by {
            assert(forall|j: int|
                0 <= j < a.len() ==> a[j] == ba[base.len() + j] && b[j] == bb[base.len() + j]);
        }
    }
}

/// The bytes of an ASCII character sequence.
pub open spec fn ascii_bytes(s: Seq<char>) -> Seq<u8> {
    Seq::new(s.len(), |i: int| s[i] as u8)
}

/// The bytes of an ASCII string literal, as a fresh vector.
pub fn lit_bytes(s: &str) -> (r: Vec<u8>)
    requires
        s.is_ascii(),
    ensures
        r@ == ascii_bytes(s@),
{
    proof {
        vstd::string::is_ascii_spec_bytes(s);
    }
    let r = s.as_bytes_vec();
    proof {
        assert(r@ =~= ascii_bytes(s@));
    }
    r
}

/// Whether `p` is an absolute path.
pub fn absolute(p: &Vec<u8>) -> (r: bool)
    ensures
        r == is_absolute(p@),
{
    p.len() > 0 && p[0] == SLASH
}

/// Byte-for-byte equality of two paths.
pub fn bytes_eq(a: &Vec<u8>, b: &Vec<u8>) -> (r: bool)
    ensures
        r == (a@ == b@),
{
    if a.len() != b.len() {
        return false;
    }
    let mut i: usize = 0;
    while i < a.len()
        invariant
            i <= a.len(),
            a.len() == b.len(),
            forall|j: int| 0 <= j < i ==> a@[j] == b@[j],
        decreases a.len() - i,
    {
        if a[i] != b[i] {
            return false;
        }
        i = i + 1;
    }
    proof {
        assert(a@ =~= b@);
    }
    true
}

/// Strict lexicographic comparison of two paths.
pub fn bytes_lt(a: &Vec<u8>, b: &Vec<u8>) -> (r: bool)
    ensures
        r == lex_lt(a@, b@),
{
    let mut i: usize = 0;
    while i < a.len() && i < b.len()
        invariant
            i <= a.len(),
            i <= b.len(),
            forall|j: int| 0 <= j < i ==> a@[j] == b@[j],
        decreases a.len() - i,
    {
        if a[i] < b[i] {
            proof {
                lemma_lex_skip_common(a@, b@, i as int);
            }
            return true;
        }
        if a[i] > b[i] {
            proof {
                lemma_lex_skip_common(a@, b@, i as int);
            }
            return false;
        }
        i = i + 1;
    }
    proof {
        lemma_lex_skip_common(a@, b@, i as int);
    }
    a.len() < b.len()
}

/// Whether `a` names a directory strictly enclosing `b`.
pub fn ancestor_of(a: &Vec<u8>, b: &Vec<u8>) -> (r: bool)
    ensures
        r == is_ancestor(a@, b@),
{
    if a.len() >= b.len() {
        return false;
    }
    if b[a.len()] != SLASH {
        return false;
    }
    let mut i: usize = 0;
    while i < a.len()
        invariant
            i <= a.len(),
            a.len() < b.len(),
            forall|j: int| 0 <= j < i ==> a@[j] == b@[j],
        decreases a.len() - i,
    {
        if a[i] != b[i] {
            assert(b@.take(a@.len() as int)[i as int] != a@[i as int]);
            return false;
        }
        i = i + 1;
    }
    proof {
        assert(b@.take(a@.len() as int) =~= a@);
    }
    true
}

/// The concatenation of two byte strings.
pub fn concat_bytes(a: &Vec<u8>, b: &Vec<u8>) -> (r: Vec<u8>)
    ensures
        r@ == a@ + b@,
{
    let mut r = a.clone();
    r.extend_from_slice(b.as_slice());
    proof {
        assert(r@ =~= a@ + b@);
    }
    r
}

/// The first `n` bytes of `p`, as a fresh vector.
pub fn prefix_bytes(p: &Vec<u8>, n: usize) -> (r: Vec<u8>)
    requires
        n <= p.len(),
    ensures
        r@ == p@.take(n as int),
{
    let mut r: Vec<u8> = Vec::new();
    let mut i: usize = 0;
    while i < n
        invariant
            i <= n <= p.len(),
            r@ =~= p@.take(i as int),
        decreases n - i,
    {
        r.push(p[i]);
        proof {
            assert(r@ =~= p@.take(i + 1));
        }
        i = i + 1;
    }
    r
}

/// The root-relative form of `p`: `p` with its leading slashes stripped.
pub fn normalize_path(p: &Vec<u8>) -> (r: Vec<u8>)
    ensures
        r@ == normalize(p@),
{
    let mut i: usize = 0;
    proof {
        assert(p@.skip(0) =~= p@);
    }
    while i < p.len() && p[i] == SLASH
        invariant
            i <= p.len(),
            normalize(p@) == normalize(p@.skip(i as int)),
        decreases p.len() - i,
    {
        proof {
            assert(p@.skip(i as int).drop_first() =~= p@.skip(i + 1));
        }
        i = i + 1;
    }
    let mut r: Vec<u8> = Vec::new();
    let mut j: usize = i;
    while j < p.len()
        invariant
            i <= j <= p.len(),
            r@ =~= p@.skip(i as int).take(j - i),
        decreases p.len() - j,
    {
        r.push(p[j]);
        proof {
            assert(r@ =~= p@.skip(i as int).take(j + 1 - i));
        }
        j = j + 1;
    }
    proof {
        assert(p@.skip(i as int).take(p.len() - i) =~= p@.skip(i as int));
    }
    r
}

} // verus!
