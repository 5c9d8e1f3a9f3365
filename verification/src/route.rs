//! Routes as sequences of directions, and the order in which routes of one
//! length are preferred: the order of a dictionary whose letters are the six
//! directions in their visiting order.

use vstd::prelude::*;
use crate::dir::Dir;

verus! {

/// `a` and `b` have one length, and at the first place where they differ `a`
/// has the direction that is visited earlier.
pub open spec fn lex_lt(a: Seq<Dir>, b: Seq<Dir>) -> bool {
    &&& a.len() == b.len()
    &&& exists|i: int| #[trigger] differ_first_at(a, b, i)
}

/// `a` and `b` agree before place `i`, where `a` has the earlier direction.
pub open spec fn differ_first_at(a: Seq<Dir>, b: Seq<Dir>, i: int) -> bool {
    &&& 0 <= i < a.len()
    &&& a[i].index() < b[i].index()
    &&& forall|j: int| 0 <= j < i ==> a[j] == b[j]
}

/// `a` is `b` or comes before it.
pub open spec fn lex_le(a: Seq<Dir>, b: Seq<Dir>) -> bool {
    a == b || lex_lt(a, b)
}

/// A route that comes before another still does so when both are continued
/// by one step each.
pub proof fn lemma_lex_lt_push(a: Seq<Dir>, b: Seq<Dir>, x: Dir, y: Dir)
    requires
        lex_lt(a, b),
    ensures
        lex_lt(a.push(x), b.push(y)),
{
    let i = choose|i: int| #[trigger] differ_first_at(a, b, i);
    assert(differ_first_at(a.push(x), b.push(y), i));
}

/// Of two continuations of one route the one with the earlier last step
/// comes first.
pub proof fn lemma_lex_lt_last(a: Seq<Dir>, x: Dir, y: Dir)
    requires
        x.index() < y.index(),
    ensures
        lex_lt(a.push(x), a.push(y)),
{
    assert(differ_first_at(a.push(x), a.push(y), a.len() as int));
}

/// Continuing two routes by the same step keeps their order.
pub proof fn lemma_lex_le_push(a: Seq<Dir>, b: Seq<Dir>, x: Dir)
    requires
        lex_le(a, b),
    ensures
        lex_le(a.push(x), b.push(x)),
{
    if a != b {
        lemma_lex_lt_push(a, b, x, x);
    }
}

/// A route that comes before one that comes before a third comes before the
/// third.
pub proof fn lemma_lex_lt_transitive(a: Seq<Dir>, b: Seq<Dir>, c: Seq<Dir>)
    requires
        lex_lt(a, b),
        lex_lt(b, c),
    ensures
        lex_lt(a, c),
{
    let i = choose|i: int| #[trigger] differ_first_at(a, b, i);
    let j = choose|j: int| #[trigger] differ_first_at(b, c, j);
    if i <= j {
        assert(differ_first_at(a, c, i));
    } else {
        assert(differ_first_at(a, c, j));
    }
}

/// The same where each route may also be the next.
pub proof fn lemma_lex_le_transitive(a: Seq<Dir>, b: Seq<Dir>, c: Seq<Dir>)
    requires
        lex_le(a, b),
        lex_le(b, c),
    ensures
        lex_le(a, c),
{
    if a != b && b != c {
        lemma_lex_lt_transitive(a, b, c);
    }
}

/// No route comes before itself, and of two routes at most one comes before
/// the other.
pub proof fn lemma_lex_lt_asymmetric(a: Seq<Dir>, b: Seq<Dir>)
    requires
        lex_lt(a, b),
    ensures
        a != b,
        !lex_lt(b, a),
{
    // Where the two first differ, each would have the earlier direction.
    let i = choose|i: int| #[trigger] differ_first_at(a, b, i);
    if lex_lt(b, a) {
        let j = choose|j: int| #[trigger] differ_first_at(b, a, j);
        assert(a[i].index() < b[i].index() && b[j].index() < a[j].index());
        assert(i != j);
    }
}

/// Two routes each of which is the other or comes before it are one route.
pub proof fn lemma_lex_le_antisymmetric(a: Seq<Dir>, b: Seq<Dir>)
    requires
        lex_le(a, b),
        lex_le(b, a),
    ensures
        a == b,
{
    if a != b {
        lemma_lex_lt_asymmetric(a, b);
    }
}

} // verus!
