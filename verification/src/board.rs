//! The mathematical model of a position: what the contracts of the game
//! state, the move generator and the search speak of.

use vstd::prelude::*;
use crate::card::Card;

verus! {

/// A position as plain sequences: the cascades bottom to top, the freecells
/// and the foundation counters by suit.
pub struct Board {
    pub columns: Seq<Seq<Card>>,
    pub freecells: Seq<Option<Card>>,
    pub foundations: Seq<u8>,
}

/// How often `c` occurs in `s`.
pub open spec fn count_of(s: Seq<Card>, c: Card) -> nat
    decreases s.len(),
{
    if s.len() == 0 {
        0
    } else {
        count_of(s.drop_last(), c) + if s.last() == c {
            1nat
        } else {
            0nat
        }
    }
}

/// How often `c` occurs in the first `n` cascades.
pub open spec fn copies_in_columns(columns: Seq<Seq<Card>>, c: Card, n: int) -> nat
    decreases n,
{
    if n <= 0 {
        0
    } else {
        copies_in_columns(columns, c, n - 1) + count_of(columns[n - 1], c)
    }
}

/// How often `c` occurs in the first `n` freecells.
pub open spec fn copies_in_cells(cells: Seq<Option<Card>>, c: Card, n: int) -> nat
    decreases n,
{
    if n <= 0 {
        0
    } else {
        copies_in_cells(cells, c, n - 1) + if cells[n - 1] == Some(c) {
            1nat
        } else {
            0nat
        }
    }
}

/// The number of cards in the first `n` cascades.
pub open spec fn cards_in_columns(columns: Seq<Seq<Card>>, n: int) -> nat
    decreases n,
{
    if n <= 0 {
        0
    } else {
        cards_in_columns(columns, n - 1) + columns[n - 1].len()
    }
}

/// The number of occupied freecells among the first `n`.
pub open spec fn cards_in_cells(cells: Seq<Option<Card>>, n: int) -> nat
    decreases n,
{
    if n <= 0 {
        0
    } else {
        cards_in_cells(cells, n - 1) + if cells[n - 1] is Some {
            1nat
        } else {
            0nat
        }
    }
}

/// The number of empty cascades among the first `n`.
pub open spec fn empty_among(columns: Seq<Seq<Card>>, n: int) -> nat
    decreases n,
{
    if n <= 0 {
        0
    } else {
        empty_among(columns, n - 1) + if columns[n - 1].len() == 0 {
            1nat
        } else {
            0nat
        }
    }
}

/// The sum of the first `n` foundation counters.
pub open spec fn banked_among(foundations: Seq<u8>, n: int) -> nat
    decreases n,
{
    if n <= 0 {
        0
    } else {
        banked_among(foundations, n - 1) + foundations[n - 1] as nat
    }
}

/// The stacking rule: `above` may lie on `below` if the colours differ and
/// `below` ranks exactly one higher.
pub open spec fn stacks(below: Card, above: Card) -> bool {
    below.black() != above.black() && below.rank == above.rank + 1
}

/// The length of the block that can be moved off a cascade: the longest
/// suffix in which each card lies on the one below it by the stacking rule.
/// An empty cascade has none.
pub open spec fn run_length(column: Seq<Card>) -> nat
    decreases column.len(),
{
    if column.len() == 0 {
        0
    } else if column.len() >= 2 && stacks(column[column.len() - 2], column.last()) {
        1 + run_length(column.drop_last())
    } else {
        1
    }
}

/// Two to the power `n`.
pub open spec fn two_to(n: nat) -> nat
    decreases n,
{
    if n == 0 {
        1
    } else {
        2 * two_to((n - 1) as nat)
    }
}

/// How many cards can move between cascades at once with the given numbers
/// of empty freecells and empty helper cascades: `(1 + F) * 2^E`, at most 13.
pub open spec fn capacity(free_cells: nat, helpers: nat) -> nat {
    if (1 + free_cells) * two_to(helpers) < 13 {
        (1 + free_cells) * two_to(helpers)
    } else {
        13
    }
}

impl Board {
    /// Eight cascades, four freecells, four foundations.
    pub open spec fn shaped(self) -> bool {
        &&& self.columns.len() == 8
        &&& self.freecells.len() == 4
        &&& self.foundations.len() == 4
    }

    /// How often `c` lies on the board, in a cascade or a freecell.
    pub open spec fn copies(self, c: Card) -> nat {
        copies_in_columns(self.columns, c, 8) + copies_in_cells(self.freecells, c, 4)
    }

    /// The number of cards on the board.
    pub open spec fn card_count(self) -> nat {
        cards_in_columns(self.columns, 8) + cards_in_cells(self.freecells, 4)
    }

    /// The number of cards on the foundations.
    pub open spec fn banked(self) -> nat {
        banked_among(self.foundations, 4)
    }

    /// The number of empty freecells.
    pub open spec fn free_cells(self) -> nat {
        (4 - cards_in_cells(self.freecells, 4)) as nat
    }

    /// The number of empty cascades.
    pub open spec fn empty_columns(self) -> nat {
        empty_among(self.columns, 8)
    }

    /// The largest block that can move between cascades. A move onto an
    /// empty cascade cannot use that cascade as a helper.
    pub open spec fn movable(self, onto_empty: bool) -> nat {
        if onto_empty && self.empty_columns() > 0 {
            capacity(self.free_cells(), (self.empty_columns() - 1) as nat)
        } else {
            capacity(self.free_cells(), self.empty_columns())
        }
    }

    /// Whether `c` has already gone to its foundation.
    pub open spec fn is_banked(self, c: Card) -> bool {
        c.rank <= self.foundations[c.suit.ordinal()]
    }

    /// Every card of the deck is accounted for exactly once: it lies on the
    /// board once if its foundation has not reached it and nowhere if it has,
    /// nothing else lies on the board, and board and foundations hold 52
    /// cards together.
    pub open spec fn conserving(self) -> bool {
        &&& self.shaped()
        &&& forall|s: int| 0 <= s < 4 ==> #[trigger] self.foundations[s] <= 13
        &&& forall|c: Card| #[trigger]
            self.copies(c) == if c.valid() && !self.is_banked(c) {
                1nat
            } else {
                0nat
            }
        &&& self.card_count() + self.banked() == 52
    }

    /// Whether the foundation of `c` waits for exactly this card.
    pub open spec fn accepts(self, c: Card) -> bool {
        self.foundations[c.suit.ordinal()] + 1 == c.rank
    }

    /// The top card of cascade `i` can go to its foundation.
    pub open spec fn column_ready(self, i: int) -> bool {
        self.columns[i].len() > 0 && self.accepts(self.columns[i].last())
    }

    /// The card in freecell `k` can go to its foundation.
    pub open spec fn cell_ready(self, k: int) -> bool {
        self.freecells[k] is Some && self.accepts(self.freecells[k]->0)
    }

    /// No cascade top and no freecell card can go to its foundation.
    pub open spec fn settled(self) -> bool {
        &&& forall|i: int| 0 <= i < 8 ==> !#[trigger] self.column_ready(i)
        &&& forall|k: int| 0 <= k < 4 ==> !#[trigger] self.cell_ready(k)
    }

    /// What holds of every position that play can reach.
    pub open spec fn valid(self) -> bool {
        self.conserving() && self.settled()
    }

    /// Every foundation is complete.
    pub open spec fn won(self) -> bool {
        forall|s: int| 0 <= s < 4 ==> #[trigger] self.foundations[s] == 13
    }

    /// The board with cascade `i` replaced.
    pub open spec fn with_column(self, i: int, column: Seq<Card>) -> Board {
        Board { columns: self.columns.update(i, column), ..self }
    }

    /// The board with freecell `k` replaced.
    pub open spec fn with_cell(self, k: int, cell: Option<Card>) -> Board {
        Board { freecells: self.freecells.update(k, cell), ..self }
    }

    /// The board after `c` has been counted on its foundation.
    pub open spec fn with_banked(self, c: Card) -> Board {
        Board {
            foundations: self.foundations.update(
                c.suit.ordinal(),
                (self.foundations[c.suit.ordinal()] + 1) as u8,
            ),
            ..self
        }
    }

    /// The top card of cascade `i` goes to its foundation.
    pub open spec fn bank_from_column(self, i: int) -> Board {
        self.with_column(i, self.columns[i].drop_last()).with_banked(self.columns[i].last())
    }

    /// The card in freecell `k` goes to its foundation.
    pub open spec fn bank_from_cell(self, k: int) -> Board {
        self.with_cell(k, None).with_banked(self.freecells[k]->0)
    }

    /// The first cascade at or after `from` whose top can go to its
    /// foundation; 8 if there is none.
    pub open spec fn first_ready_column(self, from: int) -> int
        decreases 8 - from,
    {
        if from >= 8 {
            8
        } else if self.column_ready(from) {
            from
        } else {
            self.first_ready_column(from + 1)
        }
    }

    /// The first freecell at or after `from` whose card can go to its
    /// foundation; 4 if there is none.
    pub open spec fn first_ready_cell(self, from: int) -> int
        decreases 4 - from,
    {
        if from >= 4 {
            4
        } else if self.cell_ready(from) {
            from
        } else {
            self.first_ready_cell(from + 1)
        }
    }

    /// Automatic promotion, run to its fixpoint: as long as a cascade top or
    /// a freecell card can go to its foundation, the first such card goes,
    /// cascades before freecells.
    pub open spec fn settle(self) -> Board
        decreases self.card_count(),
        via Self::settle_terminates
    {
        if !self.shaped() {
            self
        } else if self.first_ready_column(0) < 8 {
            self.bank_from_column(self.first_ready_column(0)).settle()
        } else if self.first_ready_cell(0) < 4 {
            self.bank_from_cell(self.first_ready_cell(0)).settle()
        } else {
            self
        }
    }

    #[via_fn]
    proof fn settle_terminates(self) {
        if self.shaped() {
            let i = self.first_ready_column(0);
            let k = self.first_ready_cell(0);
            self.lemma_first_ready_column(0);
            self.lemma_first_ready_cell(0);
            if i < 8 {
                self.lemma_bank_from_column_counts(i);
            } else if k < 4 {
                self.lemma_bank_from_cell_counts(k);
            }
        }
    }

    /// What the first ready cascade is: ready itself, with none ready before.
    pub proof fn lemma_first_ready_column(self, from: int)
        requires
            0 <= from <= 8,
        ensures
            from <= self.first_ready_column(from) <= 8,
            self.first_ready_column(from) < 8 ==> self.column_ready(self.first_ready_column(from)),
            forall|i: int| from <= i < self.first_ready_column(from) ==> !self.column_ready(i),
        decreases 8 - from,
    {
        if from < 8 && !self.column_ready(from) {
            self.lemma_first_ready_column(from + 1);
        }
    }

    /// What the first ready freecell is: ready itself, with none ready before.
    pub proof fn lemma_first_ready_cell(self, from: int)
        requires
            0 <= from <= 4,
        ensures
            from <= self.first_ready_cell(from) <= 4,
            self.first_ready_cell(from) < 4 ==> self.cell_ready(self.first_ready_cell(from)),
            forall|k: int| from <= k < self.first_ready_cell(from) ==> !self.cell_ready(k),
        decreases 4 - from,
    {
        if from < 4 && !self.cell_ready(from) {
            self.lemma_first_ready_cell(from + 1);
        }
    }

    /// Banking a cascade top takes one card off the board.
    pub proof fn lemma_bank_from_column_counts(self, i: int)
        requires
            self.shaped(),
            0 <= i < 8,
            self.columns[i].len() > 0,
        ensures
            self.bank_from_column(i).shaped(),
            self.bank_from_column(i).card_count() == self.card_count() - 1,
    {
        lemma_cards_in_columns_update(self.columns, i, self.columns[i].drop_last(), 8);
    }

    /// Banking a freecell card takes one card off the board.
    pub proof fn lemma_bank_from_cell_counts(self, k: int)
        requires
            self.shaped(),
            0 <= k < 4,
            self.freecells[k] is Some,
        ensures
            self.bank_from_cell(k).shaped(),
            self.bank_from_cell(k).card_count() == self.card_count() - 1,
    {
        lemma_cards_in_cells_update(self.freecells, k, None, 4);
    }
}

/// Replacing one cascade changes the card total by the difference in length.
pub proof fn lemma_cards_in_columns_update(
    columns: Seq<Seq<Card>>,
    i: int,
    column: Seq<Card>,
    n: int,
)
    requires
        0 <= i < columns.len(),
        0 <= n <= columns.len(),
    ensures
        cards_in_columns(columns.update(i, column), n) == cards_in_columns(columns, n) + if i < n {
            column.len() - columns[i].len()
        } else {
            0
        },
    decreases n,
{
    if n > 0 {
        lemma_cards_in_columns_update(columns, i, column, n - 1);
    }
}

/// Replacing one freecell changes the card total by the difference in
/// occupancy.
pub proof fn lemma_cards_in_cells_update(
    cells: Seq<Option<Card>>,
    k: int,
    cell: Option<Card>,
    n: int,
)
    requires
        0 <= k < cells.len(),
        0 <= n <= cells.len(),
    ensures
        cards_in_cells(cells.update(k, cell), n) == cards_in_cells(cells, n) + if k < n {
            (if cell is Some {
                1int
            } else {
                0int
            }) - (if cells[k] is Some {
                1int
            } else {
                0int
            })
        } else {
            0
        },
    decreases n,
{
    if n > 0 {
        lemma_cards_in_cells_update(cells, k, cell, n - 1);
    }
}

/// No more freecells are occupied than there are.
pub proof fn lemma_cards_in_cells_bound(cells: Seq<Option<Card>>, n: int)
    requires
        0 <= n,
    ensures
        cards_in_cells(cells, n) <= n,
    decreases n,
{
    if n > 0 {
        lemma_cards_in_cells_bound(cells, n - 1);
    }
}

/// Occurrences add up over concatenation.
pub proof fn lemma_count_of_concat(a: Seq<Card>, b: Seq<Card>, c: Card)
    ensures
        count_of(a + b, c) == count_of(a, c) + count_of(b, c),
    decreases b.len(),
{
    if b.len() == 0 {
        assert(a + b =~= a);
    } else {
        assert((a + b).drop_last() =~= a + b.drop_last());
        lemma_count_of_concat(a, b.drop_last(), c);
    }
}

/// A card that occurs at some index occurs at least once.
pub proof fn lemma_count_of_member(s: Seq<Card>, i: int)
    requires
        0 <= i < s.len(),
    ensures
        count_of(s, s[i]) >= 1,
    decreases s.len(),
{
    if i < s.len() - 1 {
        lemma_count_of_member(s.drop_last(), i);
    }
}

/// A card that occurs at all occurs at some index.
pub proof fn lemma_count_of_positive(s: Seq<Card>, c: Card)
    requires
        count_of(s, c) >= 1,
    ensures
        s.contains(c),
    decreases s.len(),
{
    if s.len() > 0 {
        if s.last() == c {
            assert(s[s.len() - 1] == c);
        } else {
            lemma_count_of_positive(s.drop_last(), c);
            let i = choose|i: int| 0 <= i < s.drop_last().len() && s.drop_last()[i] == c;
            assert(s[i] == c);
        }
    }
}

/// Replacing one cascade changes the occurrences of a card by the difference
/// between the two cascades.
pub proof fn lemma_copies_in_columns_update(
    columns: Seq<Seq<Card>>,
    i: int,
    column: Seq<Card>,
    c: Card,
    n: int,
)
    requires
        0 <= i < columns.len(),
        0 <= n <= columns.len(),
    ensures
        copies_in_columns(columns.update(i, column), c, n) == copies_in_columns(columns, c, n)
            + if i < n {
            count_of(column, c) - count_of(columns[i], c)
        } else {
            0
        },
    decreases n,
{
    if n > 0 {
        lemma_copies_in_columns_update(columns, i, column, c, n - 1);
    }
}

/// Replacing one freecell changes the occurrences of a card by the
/// difference between the two contents.
pub proof fn lemma_copies_in_cells_update(
    cells: Seq<Option<Card>>,
    k: int,
    cell: Option<Card>,
    c: Card,
    n: int,
)
    requires
        0 <= k < cells.len(),
        0 <= n <= cells.len(),
    ensures
        copies_in_cells(cells.update(k, cell), c, n) == copies_in_cells(cells, c, n) + if k < n {
            (if cell == Some(c) {
                1int
            } else {
                0int
            }) - (if cells[k] == Some(c) {
                1int
            } else {
                0int
            })
        } else {
            0
        },
    decreases n,
{
    if n > 0 {
        lemma_copies_in_cells_update(cells, k, cell, c, n - 1);
    }
}

/// A cascade holds no more copies of a card than all cascades together.
pub proof fn lemma_copies_in_columns_bound(columns: Seq<Seq<Card>>, i: int, c: Card, n: int)
    requires
        0 <= i < n <= columns.len(),
    ensures
        count_of(columns[i], c) <= copies_in_columns(columns, c, n),
    decreases n,
{
    if i < n - 1 {
        lemma_copies_in_columns_bound(columns, i, c, n - 1);
    }
}

/// A card in a freecell counts among the freecells.
pub proof fn lemma_copies_in_cells_bound(cells: Seq<Option<Card>>, k: int, c: Card, n: int)
    requires
        0 <= k < n <= cells.len(),
        cells[k] == Some(c),
    ensures
        copies_in_cells(cells, c, n) >= 1,
    decreases n,
{
    if k < n - 1 {
        lemma_copies_in_cells_bound(cells, k, c, n - 1);
    }
}

/// Raising one foundation counter by a card raises the banked total by one.
pub proof fn lemma_banked_among_update(foundations: Seq<u8>, s: int, value: u8, n: int)
    requires
        0 <= s < foundations.len(),
        0 <= n <= foundations.len(),
    ensures
        banked_among(foundations.update(s, value), n) == banked_among(foundations, n) + if s < n {
            value - foundations[s]
        } else {
            0
        },
    decreases n,
{
    if n > 0 {
        lemma_banked_among_update(foundations, s, value, n - 1);
    }
}

impl Board {
    /// A card that lies in a cascade lies on the board.
    pub proof fn lemma_column_card_on_board(self, i: int, j: int)
        requires
            self.shaped(),
            0 <= i < 8,
            0 <= j < self.columns[i].len(),
        ensures
            self.copies(self.columns[i][j]) >= 1,
    {
        lemma_count_of_member(self.columns[i], j);
        lemma_copies_in_columns_bound(self.columns, i, self.columns[i][j], 8);
    }

    /// A card that lies in a freecell lies on the board.
    pub proof fn lemma_cell_card_on_board(self, k: int)
        requires
            self.shaped(),
            0 <= k < 4,
            self.freecells[k] is Some,
        ensures
            self.copies(self.freecells[k]->0) >= 1,
    {
        lemma_copies_in_cells_bound(self.freecells, k, self.freecells[k]->0, 4);
    }

    /// Counting a waiting card on its foundation, after it has left the
    /// board, keeps every card accounted for.
    proof fn lemma_bank_conserves(self, after: Board, c: Card)
        requires
            self.conserving(),
            self.accepts(c),
            self.copies(c) >= 1,
            after.shaped(),
            after.foundations == self.with_banked(c).foundations,
            after.card_count() == self.card_count() - 1,
            forall|x: Card| #[trigger]
                after.copies(x) == self.copies(x) - if x == c {
                    1int
                } else {
                    0int
                },
        ensures
            after.conserving(),
    {
        let s = c.suit.ordinal();
        assert(self.copies(c) == if c.valid() && !self.is_banked(c) { 1nat } else { 0nat });
        assert(c.valid());
        lemma_banked_among_update(self.foundations, s, (self.foundations[s] + 1) as u8, 4);
        assert forall|x: Card| #[trigger]
            after.copies(x) == if x.valid() && !after.is_banked(x) {
                1nat
            } else {
                0nat
            } by {
            assert(self.copies(x) == if x.valid() && !self.is_banked(x) { 1nat } else { 0nat });
            if x.suit == c.suit && x.rank == c.rank {
                assert(x == c);
            }
        }
        assert forall|t: int| 0 <= t < 4 implies #[trigger] after.foundations[t] <= 13 by {
            assert(self.foundations[t] <= 13);
        }
    }

    /// Banking the top of a cascade that its foundation waits for keeps
    /// every card accounted for.
    pub proof fn lemma_bank_from_column_conserves(self, i: int)
        requires
            self.conserving(),
            0 <= i < 8,
            self.column_ready(i),
        ensures
            self.bank_from_column(i).conserving(),
    {
        let c = self.columns[i].last();
        let after = self.bank_from_column(i);
        self.lemma_bank_from_column_counts(i);
        self.lemma_column_card_on_board(i, self.columns[i].len() - 1);
        assert forall|x: Card| #[trigger]
            after.copies(x) == self.copies(x) - if x == c {
                1int
            } else {
                0int
            } by {
            lemma_copies_in_columns_update(self.columns, i, self.columns[i].drop_last(), x, 8);
        }
        self.lemma_bank_conserves(after, c);
    }

    /// Banking a freecell card that its foundation waits for keeps every
    /// card accounted for.
    pub proof fn lemma_bank_from_cell_conserves(self, k: int)
        requires
            self.conserving(),
            0 <= k < 4,
            self.cell_ready(k),
        ensures
            self.bank_from_cell(k).conserving(),
    {
        let c = self.freecells[k]->0;
        let after = self.bank_from_cell(k);
        self.lemma_bank_from_cell_counts(k);
        self.lemma_cell_card_on_board(k);
        assert forall|x: Card| #[trigger]
            after.copies(x) == self.copies(x) - if x == c {
                1int
            } else {
                0int
            } by {
            lemma_copies_in_cells_update(self.freecells, k, None, x, 4);
        }
        self.lemma_bank_conserves(after, c);
    }

    /// Automatic promotion ends in a position where nothing more can be
    /// promoted; it keeps the shape, takes no card back from a foundation and
    /// adds none to the board.
    pub proof fn lemma_settle_settles(self)
        requires
            self.shaped(),
        ensures
            self.settle().shaped(),
            self.settle().settled(),
            self.settle().card_count() <= self.card_count(),
            self.settle().card_count() + self.settle().banked() == self.card_count()
                + self.banked(),
        decreases self.card_count(),
    {
        let i = self.first_ready_column(0);
        let k = self.first_ready_cell(0);
        self.lemma_first_ready_column(0);
        self.lemma_first_ready_cell(0);
        if i < 8 {
            let c = self.columns[i].last();
            self.lemma_bank_from_column_counts(i);
            lemma_banked_among_update(
                self.foundations,
                c.suit.ordinal(),
                (self.foundations[c.suit.ordinal()] + 1) as u8,
                4,
            );
            self.bank_from_column(i).lemma_settle_settles();
        } else if k < 4 {
            let c = self.freecells[k]->0;
            self.lemma_bank_from_cell_counts(k);
            lemma_banked_among_update(
                self.foundations,
                c.suit.ordinal(),
                (self.foundations[c.suit.ordinal()] + 1) as u8,
                4,
            );
            self.bank_from_cell(k).lemma_settle_settles();
        }
    }

    /// Automatic promotion keeps every card accounted for.
    pub proof fn lemma_settle_conserves(self)
        requires
            self.conserving(),
        ensures
            self.settle().valid(),
        decreases self.card_count(),
    {
        let i = self.first_ready_column(0);
        let k = self.first_ready_cell(0);
        self.lemma_first_ready_column(0);
        self.lemma_first_ready_cell(0);
        self.lemma_settle_settles();
        if i < 8 {
            self.lemma_bank_from_column_counts(i);
            self.lemma_bank_from_column_conserves(i);
            self.bank_from_column(i).lemma_settle_conserves();
        } else if k < 4 {
            self.lemma_bank_from_cell_counts(k);
            self.lemma_bank_from_cell_conserves(k);
            self.bank_from_cell(k).lemma_settle_conserves();
        }
    }

    /// Where nothing can be promoted, automatic promotion changes nothing.
    pub proof fn lemma_settle_of_settled(self)
        requires
            self.settled(),
        ensures
            self.settle() == self,
    {
        if self.shaped() {
            self.lemma_first_ready_column(0);
            self.lemma_first_ready_cell(0);
        }
    }

    /// Automatic promotion is idempotent: a second run changes nothing.
    pub proof fn lemma_settle_idempotent(self)
        ensures
            self.settle().settle() == self.settle(),
    {
        if self.shaped() {
            self.lemma_settle_settles();
            self.settle().lemma_settle_of_settled();
        }
    }
}

} // verus!
