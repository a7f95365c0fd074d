//! The total order behind the vendor ranking: descending by device count,
//! ties broken by ascending byte-lexicographic vendor name.

use vstd::prelude::*;

verus! {

/// Strict byte-lexicographic order: `a` comes before `b` when, at the first
/// position where they differ, `a` holds the smaller byte, or when `a` is a
/// proper prefix of `b`.
pub open spec fn bytes_lt(a: Seq<u8>, b: Seq<u8>) -> bool
    decreases a.len(),
{
    if b.len() == 0 {
        false
    } else if a.len() == 0 {
        true
    } else if a[0] < b[0] {
        true
    } else if a[0] > b[0] {
        false
    } else {
        bytes_lt(a.skip(1), b.skip(1))
    }
}

/// Any two distinct byte sequences are ordered one way or the other.
pub proof fn lemma_bytes_lt_total(a: Seq<u8>, b: Seq<u8>)
    requires
        a != b,
    ensures
        bytes_lt(a, b) || bytes_lt(b, a),
    decreases a.len(),
{
    if a.len() == 0 && b.len() == 0 {
        assert(a =~= b);
    } else if a.len() > 0 && b.len() > 0 {
        if a[0] == b[0] {
            if a.skip(1) == b.skip(1) {
                assert(a =~= seq![a[0]].add(a.skip(1)));
                assert(b =~= seq![b[0]].add(b.skip(1)));
            } else {
                lemma_bytes_lt_total(a.skip(1), b.skip(1));
            }
        }
    }
}

/// The order is transitive.
pub proof fn lemma_bytes_lt_transitive(a: Seq<u8>, b: Seq<u8>, c: Seq<u8>)
    requires
        bytes_lt(a, b),
        bytes_lt(b, c),
    ensures
        bytes_lt(a, c),
    decreases a.len(),
{
    if a.len() > 0 && b.len() > 0 && c.len() > 0 {
        if a[0] == b[0] && b[0] == c[0] {
            lemma_bytes_lt_transitive(a.skip(1), b.skip(1), c.skip(1));
        }
    }
}

/// Whether the ranked pair `(xn, xc)` must be listed before `(yn, yc)`:
/// larger counts first, ties in ascending name order.
pub open spec fn ranked_before(xn: Seq<u8>, xc: u64, yn: Seq<u8>, yc: u64) -> bool {
    xc > yc || (xc == yc && bytes_lt(xn, yn))
}

/// Ranked pairs with distinct names are ordered one way or the other.
pub proof fn lemma_ranked_total(xn: Seq<u8>, xc: u64, yn: Seq<u8>, yc: u64)
    requires
        xn != yn,
    ensures
        ranked_before(xn, xc, yn, yc) || ranked_before(yn, yc, xn, xc),
{
    if xc == yc {
        lemma_bytes_lt_total(xn, yn);
    }
}

/// The ranking is transitive.
pub proof fn lemma_ranked_transitive(
    xn: Seq<u8>,
    xc: u64,
    yn: Seq<u8>,
    yc: u64,
    zn: Seq<u8>,
    zc: u64,
)
    requires
        ranked_before(xn, xc, yn, yc),
        ranked_before(yn, yc, zn, zc),
    ensures
        ranked_before(xn, xc, zn, zc),
{
    if xc == yc && yc == zc {
        lemma_bytes_lt_transitive(xn, yn, zn);
    }
}

/// Compares two byte strings in the lexicographic order `bytes_lt` denotes.
pub fn bytes_less(a: &Vec<u8>, b: &Vec<u8>) -> (r: bool)
    ensures
        r == bytes_lt(a@, b@),
{
    let mut i: usize = 0;
    proof {
        assert(a@.skip(0) =~= a@);
        assert(b@.skip(0) =~= b@);
    }
    loop
        invariant
            i <= a@.len(),
            i <= b@.len(),
            bytes_lt(a@, b@) == bytes_lt(a@.skip(i as int), b@.skip(i as int)),
        decreases a@.len() - i,
    {
        if i >= b.len() {
            proof {
                assert(b@.skip(i as int).len() == 0);
            }
            return false;
        }
        if i >= a.len() {
            proof {
                assert(a@.skip(i as int).len() == 0);
                assert(b@.skip(i as int).len() > 0);
            }
            return true;
        }
        proof {
            assert(a@.skip(i as int)[0] == a@[i as int]);
            assert(b@.skip(i as int)[0] == b@[i as int]);
        }
        if a[i] < b[i] {
            return true;
        }
        if a[i] > b[i] {
            return false;
        }
        proof {
            assert(a@.skip(i as int).skip(1) =~= a@.skip(i + 1));
            assert(b@.skip(i as int).skip(1) =~= b@.skip(i + 1));
        }
        i = i + 1;
    }
}

/// Byte-for-byte equality of two byte strings.
pub fn bytes_eq(a: &Vec<u8>, b: &Vec<u8>) -> (r: bool)
    ensures
        r == (a@ == b@),
{
    if a.len() != b.len() {
        return false;
    }
    let mut i: usize = 0;
    while i < a.len()
        invariant
            a@.len() == b@.len(),
            i <= a@.len(),
            forall|k: int| 0 <= k < i ==> a@[k] == b@[k],
        decreases a@.len() - i,
    {
        if a[i] != b[i] {
            return false;
        }
        i = i + 1;
    }
    proof {
        assert(a@ =~= b@);
    }
    true
}

/// A fresh copy of a byte string.
pub fn clone_bytes(v: &Vec<u8>) -> (r: Vec<u8>)
    ensures
        r@ == v@,
{
    vstd::slice::slice_to_vec(v.as_slice())
}

/// Decides whether one (name, count) pair is ranked before another.
pub fn pair_ranked_before(x: &(Vec<u8>, u64), y: &(Vec<u8>, u64)) -> (r: bool)
    ensures
        r == ranked_before(x.0@, x.1, y.0@, y.1),
{
    x.1 > y.1 || (x.1 == y.1 && bytes_less(&x.0, &y.0))
}

} // verus!
