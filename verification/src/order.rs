//! The order in which names are kept: byte by byte, a name before every
//! longer name that starts with it.

use vstd::prelude::*;

verus! {

/// How one name stands to another in name order.
#[derive(Clone, Copy, Debug, PartialEq, Eq)]
pub enum Rank {
    /// The first name comes before the second.
    Before,
    /// The two names hold the same bytes.
    Same,
    /// The first name comes after the second.
    After,
}

/// `a` comes strictly before `b`: at the first index where they differ `a`
/// has the smaller byte, or `a` ends there and `b` goes on.
pub open spec fn precedes(a: Seq<u8>, b: Seq<u8>) -> bool
    decreases a.len(),
{
    if b.len() == 0 {
        false
    } else if a.len() == 0 {
        true
    } else if a[0] != b[0] {
        a[0] < b[0]
    } else {
        precedes(a.drop_first(), b.drop_first())
    }
}

/// No name comes before itself.
pub proof fn lemma_precedes_irreflexive(a: Seq<u8>)
    ensures
        !precedes(a, a),
    decreases a.len(),
{
    if a.len() != 0 {
        lemma_precedes_irreflexive(a.drop_first());
    }
}

/// Of two names, one of which comes before the other, neither equals the
/// other and the order is not also the reverse.
pub proof fn lemma_precedes_asymmetric(a: Seq<u8>, b: Seq<u8>)
    requires
        precedes(a, b),
    ensures
        a != b,
        !precedes(b, a),
    decreases a.len(),
{
    lemma_precedes_irreflexive(a);
    if a.len() != 0 && b.len() != 0 && a[0] == b[0] {
        lemma_precedes_asymmetric(a.drop_first(), b.drop_first());
    }
}

/// Name order is transitive.
pub proof fn lemma_precedes_transitive(a: Seq<u8>, b: Seq<u8>, c: Seq<u8>)
    requires
        precedes(a, b),
        precedes(b, c),
    ensures
        precedes(a, c),
    decreases a.len(),
{
    if a.len() != 0 && a[0] == b[0] && b[0] == c[0] {
        lemma_precedes_transitive(a.drop_first(), b.drop_first(), c.drop_first());
    }
}

/// Names that agree on their first `i` bytes are ordered as what follows
/// those bytes.
proof fn lemma_precedes_skip(a: Seq<u8>, b: Seq<u8>, i: int)
    requires
        0 <= i <= a.len(),
        i <= b.len(),
        forall|j: int| 0 <= j < i ==> a[j] == b[j],
    ensures
        precedes(a, b) == precedes(a.skip(i), b.skip(i)),
    decreases i,
{
    if i == 0 {
        assert(a.skip(0) =~= a);
        assert(b.skip(0) =~= b);
    } else {
        lemma_precedes_skip(a, b, i - 1);
        let x = a.skip(i - 1);
        let y = b.skip(i - 1);
        assert(x[0] == a[i - 1] && y[0] == b[i - 1]);
        assert(x.drop_first() =~= a.skip(i));
        assert(y.drop_first() =~= b.skip(i));
    }
}

/// How `a` stands to `b` in name order.
pub fn rank(a: &[u8], b: &[u8]) -> (r: Rank)
    ensures
        r is Before <==> precedes(a@, b@),
        r is Same <==> a@ == b@,
        r is After <==> precedes(b@, a@),
{
    let mut i: usize = 0;
    while i < a.len() && i < b.len()
        invariant
            i <= a@.len(),
            i <= b@.len(),
            forall|j: int| 0 <= j < i ==> a@[j] == b@[j],
        decreases a@.len() - i,
    {
        if a[i] != b[i] {
            proof {
                lemma_precedes_skip(a@, b@, i as int);
                lemma_precedes_skip(b@, a@, i as int);
                assert(a@.skip(i as int)[0] == a@[i as int]);
                assert(b@.skip(i as int)[0] == b@[i as int]);
            }
            if a[i] < b[i] {
                return Rank::Before;
            } else {
                return Rank::After;
            }
        }
        i = i + 1;
    }
    proof {
        lemma_precedes_skip(a@, b@, i as int);
        lemma_precedes_skip(b@, a@, i as int);
        if a@.len() == b@.len() {
            assert(a@ =~= b@);
            lemma_precedes_irreflexive(a@);
        }
    }
    if a.len() < b.len() {
        Rank::Before
    } else if a.len() > b.len() {
        Rank::After
    } else {
        Rank::Same
    }
}

} // verus!
