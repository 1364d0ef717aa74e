//! The cost estimate that orders the search: lower is better.

use vstd::prelude::*;
use crate::board::{cards_in_columns, stacks, Board};
use crate::card::Card;
use crate::game::Game;

verus! {

/// The number of neighbours in a cascade of which the upper lies on the
/// lower by the stacking rule.
pub open spec fn stacked_pairs(column: Seq<Card>) -> nat
    decreases column.len(),
{
    if column.len() < 2 {
        0
    } else {
        stacked_pairs(column.drop_last()) + if stacks(column[column.len() - 2], column.last()) {
            1nat
        } else {
            0nat
        }
    }
}

/// The number of neighbours in a cascade of which the lower has the
/// strictly smaller rank, so that a low card is buried under a higher one.
pub open spec fn buried_pairs(column: Seq<Card>) -> nat
    decreases column.len(),
{
    if column.len() < 2 {
        0
    } else {
        buried_pairs(column.drop_last()) + if column[column.len() - 2].rank < column.last().rank {
            1nat
        } else {
            0nat
        }
    }
}

/// Stacked pairs in the first `n` cascades.
pub open spec fn stacked_among(columns: Seq<Seq<Card>>, n: int) -> nat
    decreases n,
{
    if n <= 0 {
        0
    } else {
        stacked_among(columns, n - 1) + stacked_pairs(columns[n - 1])
    }
}

/// Buried pairs in the first `n` cascades.
pub open spec fn buried_among(columns: Seq<Seq<Card>>, n: int) -> nat
    decreases n,
{
    if n <= 0 {
        0
    } else {
        buried_among(columns, n - 1) + buried_pairs(columns[n - 1])
    }
}

impl Board {
    /// The estimate of the work left: 10 for every card not yet on a
    /// foundation, 5 for every occupied freecell, 5 for every buried pair,
    /// less 3 for every stacked pair.
    pub open spec fn estimate(self) -> int {
        (52 - self.banked()) * 10 - 3 * stacked_among(self.columns, 8) + (4 - self.free_cells())
            * 5 + 5 * buried_among(self.columns, 8)
    }
}

/// A cascade has fewer pairs of neighbours than cards.
pub proof fn lemma_pairs_bound(column: Seq<Card>)
    ensures
        stacked_pairs(column) <= column.len(),
        buried_pairs(column) <= column.len(),
    decreases column.len(),
{
    if column.len() >= 2 {
        lemma_pairs_bound(column.drop_last());
    }
}

/// The cascades have fewer pairs of neighbours than cards.
pub proof fn lemma_pairs_among_bound(columns: Seq<Seq<Card>>, n: int)
    ensures
        stacked_among(columns, n) <= cards_in_columns(columns, n),
        buried_among(columns, n) <= cards_in_columns(columns, n),
    decreases n,
{
    if n > 0 {
        lemma_pairs_among_bound(columns, n - 1);
        lemma_pairs_bound(columns[n - 1]);
    }
}

/// More cascades hold no fewer pairs.
pub proof fn lemma_pairs_among_monotone(columns: Seq<Seq<Card>>, m: int, n: int)
    requires
        m <= n,
    ensures
        stacked_among(columns, m) <= stacked_among(columns, n),
        buried_among(columns, m) <= buried_among(columns, n),
    decreases n - m,
{
    if m < n {
        lemma_pairs_among_monotone(columns, m, n - 1);
    }
}

impl Game {
    /// The stacked and the buried pairs of one cascade.
    pub(crate) fn pairs_of(&self, column: &Vec<Card>) -> (pairs: (usize, usize))
        ensures
            pairs.0 == stacked_pairs(column@),
            pairs.1 == buried_pairs(column@),
    {
        let mut stacked: usize = 0;
        let mut buried: usize = 0;
        let mut t: usize = 1;
        let n = column.len();
        if n < 2 {
            return (0, 0);
        }
        assert(column@.subrange(0, 1).len() == 1);
        while t < n
            invariant
                1 <= t <= n,
                n == column@.len(),
                stacked == stacked_pairs(column@.subrange(0, t as int)),
                buried == buried_pairs(column@.subrange(0, t as int)),
                stacked <= t,
                buried <= t,
            decreases n - t,
        {
            let ghost longer = column@.subrange(0, t + 1);
            assert(longer.drop_last() =~= column@.subrange(0, t as int));
            assert(longer[t - 1] == column@[t - 1] && longer.last() == column@[t as int]);
            if self.can_stack_on(&column[t - 1], &column[t]) {
                stacked = stacked + 1;
            }
            if column[t - 1].rank < column[t].rank {
                buried = buried + 1;
            }
            t = t + 1;
        }
        assert(column@.subrange(0, n as int) =~= column@);
        (stacked, buried)
    }
}

} // verus!
