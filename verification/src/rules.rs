//! The rules of play on the model: which moves a position turns down, what
//! a move does, and why play keeps every card accounted for.

use vstd::prelude::*;
use crate::action::{Action, ActionType, MoveError};
use crate::board::{
    lemma_cards_in_cells_update,
    lemma_cards_in_columns_update,
    lemma_copies_in_cells_update,
    lemma_copies_in_columns_update,
    lemma_count_of_concat,
    stacks,
    Board,
};
use crate::card::Card;

verus! {

impl Board {
    /// The cards that a cascade-to-cascade move takes: the top `pile` cards
    /// of cascade `source`, in order.
    pub open spec fn block(self, source: int, pile: int) -> Seq<Card> {
        self.columns[source].subrange(
            self.columns[source].len() - pile,
            self.columns[source].len() as int,
        )
    }

    /// Whether cascade `dest` takes `card` on top: it is empty, or the card
    /// stacks on its top card.
    pub open spec fn column_takes(self, dest: int, card: Card) -> bool {
        self.columns[dest].len() == 0 || stacks(self.columns[dest].last(), card)
    }

    /// Why a move cannot be applied, or `None` if it can. A move needs
    /// source and destination on the board, a pile of at least one card and
    /// of exactly one where a freecell or a foundation is touched, a source
    /// that holds that many cards, and a destination that accepts them: a
    /// foundation that waits for the card, an empty freecell, another cascade
    /// that is empty or on whose top the lowest moved card stacks.
    pub open spec fn refusal(self, a: Action) -> Option<MoveError> {
        match a.action_type {
            ActionType::ColToFoundation => if a.source >= 8 {
                Some(MoveError::NoSuchSlot)
            } else if a.pile_size != 1 {
                Some(MoveError::BadPileSize)
            } else if self.columns[a.source as int].len() == 0 {
                Some(MoveError::SourceTooShort)
            } else if !self.accepts(self.columns[a.source as int].last()) {
                Some(MoveError::Refused)
            } else {
                None
            },
            ActionType::FreecellToFoundation => if a.source >= 4 {
                Some(MoveError::NoSuchSlot)
            } else if a.pile_size != 1 {
                Some(MoveError::BadPileSize)
            } else if self.freecells[a.source as int] is None {
                Some(MoveError::SourceTooShort)
            } else if !self.accepts(self.freecells[a.source as int]->0) {
                Some(MoveError::Refused)
            } else {
                None
            },
            ActionType::ColToFreecell => if a.source >= 8 || a.dest >= 4 {
                Some(MoveError::NoSuchSlot)
            } else if a.pile_size != 1 {
                Some(MoveError::BadPileSize)
            } else if self.columns[a.source as int].len() == 0 {
                Some(MoveError::SourceTooShort)
            } else if self.freecells[a.dest as int] is Some {
                Some(MoveError::Refused)
            } else {
                None
            },
            ActionType::FreecellToCol => if a.source >= 4 || a.dest >= 8 {
                Some(MoveError::NoSuchSlot)
            } else if a.pile_size != 1 {
                Some(MoveError::BadPileSize)
            } else if self.freecells[a.source as int] is None {
                Some(MoveError::SourceTooShort)
            } else if !self.column_takes(a.dest as int, self.freecells[a.source as int]->0) {
                Some(MoveError::Refused)
            } else {
                None
            },
            ActionType::ColToCol => if a.source >= 8 || a.dest >= 8 {
                Some(MoveError::NoSuchSlot)
            } else if a.pile_size == 0 {
                Some(MoveError::BadPileSize)
            } else if a.pile_size > self.columns[a.source as int].len() {
                Some(MoveError::SourceTooShort)
            } else if a.source == a.dest || !self.column_takes(
                a.dest as int,
                self.block(a.source as int, a.pile_size as int)[0],
            ) {
                Some(MoveError::Refused)
            } else {
                None
            },
        }
    }

    /// The board after the cards of a move have changed place, before
    /// automatic promotion. It says what an accepted move does.
    pub open spec fn moved(self, a: Action) -> Board {
        let source = a.source as int;
        let dest = a.dest as int;
        match a.action_type {
            ActionType::ColToFoundation => self.bank_from_column(source),
            ActionType::FreecellToFoundation => self.bank_from_cell(source),
            ActionType::ColToFreecell => self.with_column(
                source,
                self.columns[source].drop_last(),
            ).with_cell(dest, Some(self.columns[source].last())),
            ActionType::FreecellToCol => self.with_cell(source, None).with_column(
                dest,
                self.columns[dest].push(self.freecells[source]->0),
            ),
            ActionType::ColToCol => self.with_column(
                source,
                self.columns[source].subrange(0, self.columns[source].len() - a.pile_size),
            ).with_column(dest, self.columns[dest] + self.block(source, a.pile_size as int)),
        }
    }

    /// The position that an accepted move leads to: the cards change
    /// place, then automatic promotion runs to its fixpoint.
    pub open spec fn applied(self, a: Action) -> Board {
        self.moved(a).settle()
    }

    /// The position after a sequence of moves, if each is accepted where it
    /// is played.
    pub open spec fn replay(self, path: Seq<Action>) -> Option<Board>
        decreases path.len(),
    {
        if path.len() == 0 {
            Some(self)
        } else {
            match self.replay(path.drop_last()) {
                Some(before) => if before.refusal(path.last()) is None {
                    Some(before.applied(path.last()))
                } else {
                    None
                },
                None => None,
            }
        }
    }

    /// A board that holds the same cards as often, with the same
    /// foundations, accounts for every card if the first does.
    proof fn lemma_rearranged_conserves(self, after: Board)
        requires
            self.conserving(),
            after.shaped(),
            after.foundations == self.foundations,
            after.card_count() == self.card_count(),
            forall|c: Card| #[trigger] after.copies(c) == self.copies(c),
        ensures
            after.conserving(),
    {
        assert forall|c: Card| #[trigger]
            after.copies(c) == if c.valid() && !after.is_banked(c) {
                1nat
            } else {
                0nat
            } by {
            assert(self.copies(c) == if c.valid() && !self.is_banked(c) { 1nat } else { 0nat });
        }
        assert forall|s: int| 0 <= s < 4 implies #[trigger] after.foundations[s] <= 13 by {
            assert(self.foundations[s] <= 13);
        }
    }

    /// An accepted move keeps the shape of the board and puts no card on it.
    pub proof fn lemma_moved_counts(self, a: Action)
        requires
            self.shaped(),
            self.refusal(a) is None,
        ensures
            self.moved(a).shaped(),
            self.moved(a).card_count() <= self.card_count(),
    {
        let source = a.source as int;
        let dest = a.dest as int;
        match a.action_type {
            ActionType::ColToFoundation => {
                self.lemma_bank_from_column_counts(source);
            },
            ActionType::FreecellToFoundation => {
                self.lemma_bank_from_cell_counts(source);
            },
            ActionType::ColToFreecell => {
                let shorter = self.columns[source].drop_last();
                lemma_cards_in_columns_update(self.columns, source, shorter, 8);
                lemma_cards_in_cells_update(
                    self.freecells,
                    dest,
                    Some(self.columns[source].last()),
                    4,
                );
            },
            ActionType::FreecellToCol => {
                let longer = self.columns[dest].push(self.freecells[source]->0);
                lemma_cards_in_columns_update(self.columns, dest, longer, 8);
                lemma_cards_in_cells_update(self.freecells, source, None, 4);
            },
            ActionType::ColToCol => {
                let rest = self.columns[source].subrange(
                    0,
                    self.columns[source].len() - a.pile_size,
                );
                let longer = self.columns[dest] + self.block(source, a.pile_size as int);
                lemma_cards_in_columns_update(self.columns, source, rest, 8);
                lemma_cards_in_columns_update(self.columns.update(source, rest), dest, longer, 8);
            },
        }
    }

    /// An accepted move keeps every card accounted for.
    pub proof fn lemma_moved_conserves(self, a: Action)
        requires
            self.conserving(),
            self.refusal(a) is None,
        ensures
            self.moved(a).conserving(),
    {
        let source = a.source as int;
        let dest = a.dest as int;
        let after = self.moved(a);
        self.lemma_moved_counts(a);
        match a.action_type {
            ActionType::ColToFoundation => {
                self.lemma_bank_from_column_conserves(source);
            },
            ActionType::FreecellToFoundation => {
                self.lemma_bank_from_cell_conserves(source);
            },
            ActionType::ColToFreecell => {
                let shorter = self.columns[source].drop_last();
                let card = self.columns[source].last();
                lemma_cards_in_columns_update(self.columns, source, shorter, 8);
                lemma_cards_in_cells_update(self.freecells, dest, Some(card), 4);
                assert forall|c: Card| #[trigger] after.copies(c) == self.copies(c) by {
                    lemma_copies_in_columns_update(self.columns, source, shorter, c, 8);
                    lemma_copies_in_cells_update(self.freecells, dest, Some(card), c, 4);
                }
                self.lemma_rearranged_conserves(after);
            },
            ActionType::FreecellToCol => {
                let card = self.freecells[source]->0;
                let longer = self.columns[dest].push(card);
                lemma_cards_in_columns_update(self.columns, dest, longer, 8);
                lemma_cards_in_cells_update(self.freecells, source, None, 4);
                assert forall|c: Card| #[trigger] after.copies(c) == self.copies(c) by {
                    lemma_copies_in_columns_update(self.columns, dest, longer, c, 8);
                    lemma_copies_in_cells_update(self.freecells, source, None, c, 4);
                    assert(longer.drop_last() =~= self.columns[dest]);
                }
                self.lemma_rearranged_conserves(after);
            },
            ActionType::ColToCol => {
                let pile = a.pile_size as int;
                let rest = self.columns[source].subrange(0, self.columns[source].len() - pile);
                let block = self.block(source, pile);
                let longer = self.columns[dest] + block;
                let between = self.columns.update(source, rest);
                lemma_cards_in_columns_update(self.columns, source, rest, 8);
                lemma_cards_in_columns_update(between, dest, longer, 8);
                assert(rest + block =~= self.columns[source]);
                assert forall|c: Card| #[trigger] after.copies(c) == self.copies(c) by {
                    lemma_copies_in_columns_update(self.columns, source, rest, c, 8);
                    lemma_copies_in_columns_update(between, dest, longer, c, 8);
                    lemma_count_of_concat(rest, block, c);
                    lemma_count_of_concat(self.columns[dest], block, c);
                }
                self.lemma_rearranged_conserves(after);
            },
        }
    }

    /// Applying an accepted move to a position that play can reach gives
    /// another such position: every card is still accounted for exactly
    /// once, and nothing is left to promote.
    pub proof fn lemma_applied_valid(self, a: Action)
        requires
            self.conserving(),
            self.refusal(a) is None,
        ensures
            self.applied(a).valid(),
    {
        self.lemma_moved_conserves(a);
        self.moved(a).lemma_settle_conserves();
    }

    /// An accepted move followed by automatic promotion keeps the shape,
    /// leaves nothing to promote and puts no card on the board.
    pub proof fn lemma_applied_counts(self, a: Action)
        requires
            self.shaped(),
            self.refusal(a) is None,
        ensures
            self.applied(a).shaped(),
            self.applied(a).settled(),
            self.applied(a).card_count() <= self.card_count(),
    {
        self.lemma_moved_counts(a);
        self.moved(a).lemma_settle_settles();
    }

    /// Replaying accepted moves from a position that accounts for every card
    /// ends in a position that play can reach, or where it started.
    pub proof fn lemma_replay_valid(self, path: Seq<Action>)
        requires
            self.conserving(),
            self.replay(path) is Some,
        ensures
            self.replay(path)->0.conserving(),
            path.len() > 0 ==> self.replay(path)->0.valid(),
        decreases path.len(),
    {
        if path.len() > 0 {
            self.lemma_replay_valid(path.drop_last());
            self.replay(path.drop_last())->0.lemma_applied_valid(path.last());
        }
    }
}

} // verus!
