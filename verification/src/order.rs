//! The order of keys: byte strings compared byte by byte, a proper prefix
//! before every string it begins.

use vstd::prelude::*;

verus! {

/// Whether `a` comes before `b`, given that they agree on the bytes before
/// index `i`.
pub open spec fn lt_from(a: Seq<u8>, b: Seq<u8>, i: int) -> bool
    decreases a.len() - i,
{
    if i >= b.len() {
        false
    } else if i >= a.len() {
        true
    } else if a[i] != b[i] {
        a[i] < b[i]
    } else {
        lt_from(a, b, i + 1)
    }
}

/// Whether key `a` comes strictly before key `b`.
pub open spec fn key_lt(a: Seq<u8>, b: Seq<u8>) -> bool {
    lt_from(a, b, 0)
}

/// How one key stands to another.
#[derive(Clone, Copy, Debug, PartialEq, Eq, Structural)]
pub enum Side {
    /// The first key comes before the second.
    Before,
    /// The keys are the same.
    Same,
    /// The first key comes after the second.
    After,
}

proof fn lemma_irreflexive_from(a: Seq<u8>, i: int)
    requires
        0 <= i,
    ensures
        !lt_from(a, a, i),
    decreases a.len() - i,
{
    if i < a.len() {
        lemma_irreflexive_from(a, i + 1);
    }
}

proof fn lemma_transitive_from(a: Seq<u8>, b: Seq<u8>, c: Seq<u8>, i: int)
    requires
        0 <= i,
        lt_from(a, b, i),
        lt_from(b, c, i),
    ensures
        lt_from(a, c, i),
    decreases a.len() - i,
{
    if i < a.len() && a[i] == b[i] && b[i] == c[i] {
        lemma_transitive_from(a, b, c, i + 1);
    }
}

proof fn lemma_connected_from(a: Seq<u8>, b: Seq<u8>, i: int)
    requires
        0 <= i <= a.len(),
        i <= b.len(),
        forall|j: int| 0 <= j < i ==> a[j] == b[j],
        !lt_from(a, b, i),
        !lt_from(b, a, i),
    ensures
        a == b,
    decreases a.len() - i,
{
    if i < a.len() && i < b.len() {
        lemma_connected_from(a, b, i + 1);
    } else {
        assert(a =~= b);
    }
}

/// No key comes before itself.
pub proof fn lemma_key_lt_irreflexive(a: Seq<u8>)
    ensures
        !key_lt(a, a),
{
    lemma_irreflexive_from(a, 0);
}

/// A key that comes before a second, which comes before a third, comes
/// before the third.
pub proof fn lemma_key_lt_transitive(a: Seq<u8>, b: Seq<u8>, c: Seq<u8>)
    requires
        key_lt(a, b),
        key_lt(b, c),
    ensures
        key_lt(a, c),
{
    lemma_transitive_from(a, b, c, 0);
}

/// Of two keys that differ, one comes before the other.
pub proof fn lemma_key_lt_connected(a: Seq<u8>, b: Seq<u8>)
    requires
        !key_lt(a, b),
        !key_lt(b, a),
    ensures
        a == b,
{
    lemma_connected_from(a, b, 0);
}

/// Two keys never come before each other.
pub proof fn lemma_key_lt_asymmetric(a: Seq<u8>, b: Seq<u8>)
    requires
        key_lt(a, b),
    ensures
        !key_lt(b, a),
{
    if key_lt(b, a) {
        lemma_key_lt_transitive(a, b, a);
        lemma_key_lt_irreflexive(a);
    }
}

/// Compares two keys byte by byte.
pub fn compare(a: &[u8], b: &[u8]) -> (side: Side)
    ensures
        side == Side::Before <==> key_lt(a@, b@),
        side == Side::Same <==> a@ == b@,
        side == Side::After <==> key_lt(b@, a@),
{
    let mut i: usize = 0;
    while i < a.len() && i < b.len()
        invariant
            i <= a.len(),
            i <= b.len(),
            forall|j: int| 0 <= j < i ==> a@[j] == b@[j],
            key_lt(a@, b@) == lt_from(a@, b@, i as int),
            key_lt(b@, a@) == lt_from(b@, a@, i as int),
        decreases a.len() - i,
    {
        if a[i] < b[i] {
            proof {
                lemma_key_lt_asymmetric(a@, b@);
                lemma_key_lt_irreflexive(a@);
            }
            return Side::Before;
        }
        if a[i] > b[i] {
            proof {
                lemma_key_lt_asymmetric(b@, a@);
                lemma_key_lt_irreflexive(a@);
            }
            return Side::After;
        }
        i += 1;
    }
    proof {
        if key_lt(a@, b@) {
            lemma_key_lt_asymmetric(a@, b@);
            lemma_key_lt_irreflexive(a@);
        } else if key_lt(b@, a@) {
            lemma_key_lt_irreflexive(a@);
        } else {
            lemma_key_lt_connected(a@, b@);
        }
    }
    if i < b.len() {
        Side::Before
    } else if i < a.len() {
        Side::After
    } else {
        Side::Same
    }
}

} // verus!
