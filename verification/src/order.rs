//! Lexicographic order on byte strings, the order of the ring's keyspace.

use vstd::prelude::*;

verus! {

/// `a` and `b` hold the same bytes at every index below `k`.
pub open spec fn agree_below(a: Seq<u8>, b: Seq<u8>, k: int) -> bool {
    &&& 0 <= k <= a.len()
    &&& k <= b.len()
    &&& forall|j: int| 0 <= j < k ==> a[j] == b[j]
}

/// `a` sorts before `b`, and index `k` is where that shows: the two agree
/// below `k`, and there `a` has ended or holds the smaller byte.
pub open spec fn precedes_at(a: Seq<u8>, b: Seq<u8>, k: int) -> bool {
    &&& agree_below(a, b, k)
    &&& k < b.len()
    &&& (k == a.len() || a[k] < b[k])
}

/// Strict lexicographic order: a proper prefix sorts before its extensions,
/// and otherwise the first differing byte decides.
pub open spec fn precedes(a: Seq<u8>, b: Seq<u8>) -> bool {
    exists|k: int| precedes_at(a, b, k)
}

/// `a` sorts before `b` or equals it.
pub open spec fn at_most(a: Seq<u8>, b: Seq<u8>) -> bool {
    a == b || precedes(a, b)
}

/// How one byte string stands relative to another.
#[derive(Clone, Copy, Debug, PartialEq, Eq, Structural)]
pub enum Placement {
    Before,
    Same,
    After,
}

/// No byte string sorts before itself.
pub proof fn lemma_precedes_irreflexive(a: Seq<u8>)
    ensures
        !precedes(a, a),
{
}

/// The order is transitive.
pub proof fn lemma_precedes_transitive(a: Seq<u8>, b: Seq<u8>, c: Seq<u8>)
    requires
        precedes(a, b),
        precedes(b, c),
    ensures
        precedes(a, c),
{
    let i = choose|k: int| precedes_at(a, b, k);
    let j = choose|k: int| precedes_at(b, c, k);
    let m = if i <= j { i } else { j };
    assert(precedes_at(a, c, m));
}

/// Of two byte strings at most one sorts before the other.
pub proof fn lemma_precedes_asymmetric(a: Seq<u8>, b: Seq<u8>)
    requires
        precedes(a, b),
    ensures
        !precedes(b, a),
{
    if precedes(b, a) {
        lemma_precedes_transitive(a, b, a);
    }
}

/// Two byte strings that agree below `k` are equal or one sorts before the other.
proof fn lemma_total_from(a: Seq<u8>, b: Seq<u8>, k: int)
    requires
        agree_below(a, b, k),
    ensures
        a == b || precedes(a, b) || precedes(b, a),
    decreases a.len() - k,
{
    if k == a.len() {
        if k == b.len() {
            assert(a =~= b);
        } else {
            assert(precedes_at(a, b, k));
        }
    } else if k == b.len() {
        assert(agree_below(b, a, k));
        assert(precedes_at(b, a, k));
    } else if a[k] < b[k] {
        assert(precedes_at(a, b, k));
    } else if b[k] < a[k] {
        assert(agree_below(b, a, k));
        assert(precedes_at(b, a, k));
    } else {
        lemma_total_from(a, b, k + 1);
    }
}

/// The order is total: distinct byte strings are ordered one way or the other.
pub proof fn lemma_precedes_total(a: Seq<u8>, b: Seq<u8>)
    ensures
        a == b || precedes(a, b) || precedes(b, a),
{
    lemma_total_from(a, b, 0);
}

/// Compares two byte strings lexicographically.
pub fn compare(a: &Vec<u8>, b: &Vec<u8>) -> (placement: Placement)
    ensures
        placement == Placement::Before <==> precedes(a@, b@),
        placement == Placement::Same <==> a@ == b@,
        placement == Placement::After <==> precedes(b@, a@),
{
    let mut i: usize = 0;
    while i < a.len() && i < b.len()
        invariant
            agree_below(a@, b@, i as int),
        decreases a.len() - i,
    {
        if a[i] < b[i] {
            proof {
                assert(precedes_at(a@, b@, i as int));
                lemma_precedes_asymmetric(a@, b@);
                lemma_precedes_irreflexive(a@);
            }
            return Placement::Before;
        }
        if b[i] < a[i] {
            proof {
                assert(agree_below(b@, a@, i as int));
                assert(precedes_at(b@, a@, i as int));
                lemma_precedes_asymmetric(b@, a@);
                lemma_precedes_irreflexive(a@);
            }
            return Placement::After;
        }
        i += 1;
    }
    if i < b.len() {
        proof {
            assert(precedes_at(a@, b@, i as int));
            lemma_precedes_asymmetric(a@, b@);
            lemma_precedes_irreflexive(a@);
        }
        Placement::Before
    } else if i < a.len() {
        proof {
            assert(agree_below(b@, a@, i as int));
            assert(precedes_at(b@, a@, i as int));
            lemma_precedes_asymmetric(b@, a@);
            lemma_precedes_irreflexive(a@);
        }
        Placement::After
    } else {
        proof {
            assert(a@ =~= b@);
            lemma_precedes_irreflexive(a@);
        }
        Placement::Same
    }
}

} // verus!
