//! Automatic promotion does not depend on the order in which the cards go
//! to their foundations.

use vstd::prelude::*;
use crate::board::{
    copies_in_cells,
    copies_in_columns,
    count_of,
    lemma_copies_in_cells_bound,
    lemma_copies_in_columns_bound,
    lemma_count_of_member,
    Board,
};
use crate::card::Card;

verus! {

/// A place from which a card can go to its foundation: the top of a
/// cascade or a freecell.
pub enum Slot {
    Column(int),
    Cell(int),
}

impl Board {
    /// The card that would leave a slot: the top of the cascade, or the
    /// card in the freecell.
    pub open spec fn slot_card(self, slot: Slot) -> Card {
        match slot {
            Slot::Column(i) => self.columns[i].last(),
            Slot::Cell(k) => self.freecells[k]->0,
        }
    }

    /// Whether the slot is on the board and its card can go to its
    /// foundation.
    pub open spec fn slot_ready(self, slot: Slot) -> bool {
        match slot {
            Slot::Column(i) => 0 <= i < 8 && self.column_ready(i),
            Slot::Cell(k) => 0 <= k < 4 && self.cell_ready(k),
        }
    }

    /// The board after the card of a slot has gone to its foundation.
    pub open spec fn bank_from(self, slot: Slot) -> Board {
        match slot {
            Slot::Column(i) => self.bank_from_column(i),
            Slot::Cell(k) => self.bank_from_cell(k),
        }
    }

    /// The slot that automatic promotion takes first.
    pub open spec fn first_slot(self) -> Slot {
        if self.first_ready_column(0) < 8 {
            Slot::Column(self.first_ready_column(0))
        } else {
            Slot::Cell(self.first_ready_cell(0))
        }
    }

    /// Where a slot is ready, automatic promotion starts with the first
    /// ready slot and goes on from there.
    pub proof fn lemma_settle_step(self, ready: Slot)
        requires
            self.shaped(),
            self.slot_ready(ready),
        ensures
            self.slot_ready(self.first_slot()),
            self.settle() == self.bank_from(self.first_slot()).settle(),
    {
        self.lemma_first_ready_column(0);
        self.lemma_first_ready_cell(0);
    }

    /// A card that two ready slots hold lies on the board twice.
    proof fn lemma_two_slots_two_copies(self, x: Slot, y: Slot)
        requires
            self.shaped(),
            self.slot_ready(x),
            self.slot_ready(y),
            x != y,
            self.slot_card(x) == self.slot_card(y),
        ensures
            self.copies(self.slot_card(x)) >= 2,
    {
        let c = self.slot_card(x);
        match (x, y) {
            (Slot::Column(i), Slot::Column(j)) => {
                lemma_count_of_member(self.columns[i], self.columns[i].len() - 1);
                lemma_count_of_member(self.columns[j], self.columns[j].len() - 1);
                lemma_two_columns(self.columns, i, j, c, 8);
            },
            (Slot::Column(i), Slot::Cell(k)) => {
                lemma_count_of_member(self.columns[i], self.columns[i].len() - 1);
                lemma_copies_in_columns_bound(self.columns, i, c, 8);
                lemma_copies_in_cells_bound(self.freecells, k, c, 4);
            },
            (Slot::Cell(k), Slot::Column(i)) => {
                lemma_count_of_member(self.columns[i], self.columns[i].len() - 1);
                lemma_copies_in_columns_bound(self.columns, i, c, 8);
                lemma_copies_in_cells_bound(self.freecells, k, c, 4);
            },
            (Slot::Cell(k), Slot::Cell(l)) => {
                lemma_two_cells(self.freecells, k, l, c, 4);
            },
        }
    }

    /// Where every card is accounted for, the cards of two ready slots are
    /// of different suits.
    pub proof fn lemma_ready_suits_differ(self, x: Slot, y: Slot)
        requires
            self.conserving(),
            self.slot_ready(x),
            self.slot_ready(y),
            x != y,
        ensures
            self.slot_card(x).suit != self.slot_card(y).suit,
    {
        let a = self.slot_card(x);
        let b = self.slot_card(y);
        if a.suit == b.suit {
            assert(a.rank == b.rank);
            assert(a == b);
            self.lemma_two_slots_two_copies(x, y);
            assert(self.copies(a) == if a.valid() && !self.is_banked(a) { 1nat } else { 0nat });
        }
    }

    /// Two cards of different suits go to their foundations in either
    /// order with the same result, and the one is still ready when the other
    /// has gone.
    pub proof fn lemma_banking_commutes(self, x: Slot, y: Slot)
        requires
            self.shaped(),
            self.slot_ready(x),
            self.slot_ready(y),
            x != y,
            self.slot_card(x).suit != self.slot_card(y).suit,
        ensures
            self.bank_from(x).slot_ready(y),
            self.bank_from(x).bank_from(y) == self.bank_from(y).bank_from(x),
    {
        let xy = self.bank_from(x).bank_from(y);
        let yx = self.bank_from(y).bank_from(x);
        assert(xy.columns =~= yx.columns);
        assert(xy.freecells =~= yx.freecells);
        assert(xy.foundations =~= yx.foundations);
    }

    /// Automatic promotion reaches the same position whichever ready card
    /// goes first, where every card is accounted for: the order of promotion
    /// is immaterial.
    pub proof fn lemma_settle_any_order(self, first: Slot)
        requires
            self.conserving(),
            self.slot_ready(first),
        ensures
            self.bank_from(first).settle() == self.settle(),
        decreases self.card_count(),
    {
        self.lemma_settle_step(first);
        let chosen = self.first_slot();
        if first != chosen {
            self.lemma_ready_suits_differ(first, chosen);
            self.lemma_banking_commutes(first, chosen);
            self.lemma_banking_commutes(chosen, first);
            self.lemma_bank_keeps(first);
            self.lemma_bank_keeps(chosen);
            self.bank_from(first).lemma_settle_any_order(chosen);
            self.bank_from(chosen).lemma_settle_any_order(first);
        }
    }

    /// Banking the card of a ready slot keeps every card accounted for and
    /// takes one card off the board.
    pub proof fn lemma_bank_keeps(self, slot: Slot)
        requires
            self.conserving(),
            self.slot_ready(slot),
        ensures
            self.bank_from(slot).conserving(),
            self.bank_from(slot).card_count() == self.card_count() - 1,
    {
        match slot {
            Slot::Column(i) => {
                self.lemma_bank_from_column_conserves(i);
                self.lemma_bank_from_column_counts(i);
            },
            Slot::Cell(k) => {
                self.lemma_bank_from_cell_conserves(k);
                self.lemma_bank_from_cell_counts(k);
            },
        }
    }
}

/// Two cascades hold no more copies of a card than all cascades together.
proof fn lemma_two_columns(columns: Seq<Seq<Card>>, i: int, j: int, c: Card, n: int)
    requires
        0 <= i < n,
        0 <= j < n,
        i != j,
        n <= columns.len(),
    ensures
        count_of(columns[i], c) + count_of(columns[j], c) <= copies_in_columns(columns, c, n),
    decreases n,
{
    if i == n - 1 {
        lemma_copies_in_columns_bound(columns, j, c, n - 1);
    } else if j == n - 1 {
        lemma_copies_in_columns_bound(columns, i, c, n - 1);
    } else {
        lemma_two_columns(columns, i, j, c, n - 1);
    }
}

/// A card in two freecells counts twice among the freecells.
proof fn lemma_two_cells(cells: Seq<Option<Card>>, k: int, l: int, c: Card, n: int)
    requires
        0 <= k < n,
        0 <= l < n,
        k != l,
        n <= cells.len(),
        cells[k] == Some(c),
        cells[l] == Some(c),
    ensures
        copies_in_cells(cells, c, n) >= 2,
    decreases n,
{
    if k == n - 1 {
        lemma_copies_in_cells_bound(cells, l, c, n - 1);
    } else if l == n - 1 {
        lemma_copies_in_cells_bound(cells, k, c, n - 1);
    } else {
        lemma_two_cells(cells, k, l, c, n - 1);
    }
}

} // verus!
