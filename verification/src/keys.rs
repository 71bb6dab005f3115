//! Byte-string keys and their lexicographic order.
//!
//! Keys are arbitrary byte sequences, compared lexicographically. The order
//! is a strict total order; the lemmas here (totality, transitivity,
//! asymmetry) are what the sortedness proofs of runs and of the merge
//! iterator lean on.

use vstd::prelude::*;

verus! {

/// Strict lexicographic order on byte sequences: a proper prefix comes
/// first, otherwise the first differing byte decides.
pub open spec fn key_lt(a: Seq<u8>, b: Seq<u8>) -> bool
    decreases a.len() + b.len(),
{
    if b.len() == 0 {
        false
    } else if a.len() == 0 {
        true
    } else if a[0] < b[0] {
        true
    } else if a[0] > b[0] {
        false
    } else {
        key_lt(a.skip(1), b.skip(1))
    }
}

/// No key is below itself.
pub proof fn lemma_key_lt_irreflexive(a: Seq<u8>)
    ensures
        !key_lt(a, a),
    decreases a.len(),
{
    if a.len() > 0 {
        lemma_key_lt_irreflexive(a.skip(1));
    }
}

/// Two keys with neither below the other are the same sequence.
pub proof fn lemma_key_lt_total(a: Seq<u8>, b: Seq<u8>)
    requires
        !key_lt(a, b),
        !key_lt(b, a),
    ensures
        a == b,
    decreases a.len() + b.len(),
{
    if a.len() == 0 || b.len() == 0 {
        assert(a =~= b);
    } else {
        lemma_key_lt_total(a.skip(1), b.skip(1));
        assert(a =~= seq![a[0]] + a.skip(1));
        assert(b =~= seq![b[0]] + b.skip(1));
        assert(a =~= b);
    }
}

/// The order is transitive.
pub proof fn lemma_key_lt_transitive(a: Seq<u8>, b: Seq<u8>, c: Seq<u8>)
    requires
        key_lt(a, b),
        key_lt(b, c),
    ensures
        key_lt(a, c),
    decreases a.len() + b.len() + c.len(),
{
    if b.len() == 0 || c.len() == 0 {
    } else if a.len() == 0 {
    } else {
        if a[0] == b[0] && b[0] == c[0] {
            lemma_key_lt_transitive(a.skip(1), b.skip(1), c.skip(1));
        }
    }
}

/// The order is asymmetric.
pub proof fn lemma_key_lt_asymmetric(a: Seq<u8>, b: Seq<u8>)
    requires
        key_lt(a, b),
    ensures
        !key_lt(b, a),
{
    if key_lt(b, a) {
        lemma_key_lt_transitive(a, b, a);
        lemma_key_lt_irreflexive(a);
    }
}

/// Executable comparison deciding the spec-level order, by the first
/// differing byte.
pub fn key_lt_exec(a: &[u8], b: &[u8]) -> (r: bool)
    ensures
        r == key_lt(a@, b@),
    decreases a@.len(),
{
    if b.len() == 0 {
        false
    } else if a.len() == 0 {
        true
    } else if a[0] < b[0] {
        true
    } else if a[0] > b[0] {
        false
    } else {
        let ra = vstd::slice::slice_subrange(a, 1, a.len());
        let rb = vstd::slice::slice_subrange(b, 1, b.len());
        proof {
            assert(ra@ =~= a@.skip(1));
            assert(rb@ =~= b@.skip(1));
        }
        key_lt_exec(ra, rb)
    }
}

/// Executable three-way comparison: `0` when the keys are equal, negative
/// when `a` comes first, positive when `b` does.
pub fn key_cmp(a: &[u8], b: &[u8]) -> (r: i8)
    ensures
        r == -1i8 <==> key_lt(a@, b@),
        r == 1i8 <==> key_lt(b@, a@),
        r == 0i8 <==> a@ == b@,
{
    if key_lt_exec(a, b) {
        proof {
            lemma_key_lt_asymmetric(a@, b@);
            lemma_key_lt_irreflexive(a@);
        }
        -1
    } else if key_lt_exec(b, a) {
        proof {
            lemma_key_lt_irreflexive(a@);
        }
        1
    } else {
        proof {
            lemma_key_lt_total(a@, b@);
        }
        0
    }
}

} // verus!
