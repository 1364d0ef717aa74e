//! The move generator on the model: which moves a position offers, in which
//! order, and what holds of them.

use vstd::prelude::*;
use crate::action::{Action, ActionType};
use crate::board::{run_length, Board};
use crate::sequences::{lemma_concat_contains, lemma_concat_distinct, lemma_push_distinct};

verus! {

/// No position offers more moves than this: a move to a foundation from
/// each cascade and each freecell, and at each cascade up to 13 piles onto
/// each cascade, a move into a freecell and a move out of each freecell.
pub const MOST_MOVES: usize = 884;

impl Action {
    /// The move of the top card of cascade `source` to its foundation.
    pub open spec fn column_to_foundation(source: int, suit: int) -> Action {
        Action {
            action_type: ActionType::ColToFoundation,
            source: source as usize,
            dest: suit as usize,
            pile_size: 1,
        }
    }

    /// The move of the card in freecell `source` to its foundation.
    pub open spec fn cell_to_foundation(source: int, suit: int) -> Action {
        Action {
            action_type: ActionType::FreecellToFoundation,
            source: source as usize,
            dest: suit as usize,
            pile_size: 1,
        }
    }

    /// The move of the top card of cascade `source` to freecell `dest`.
    pub open spec fn column_to_cell(source: int, dest: int) -> Action {
        Action {
            action_type: ActionType::ColToFreecell,
            source: source as usize,
            dest: dest as usize,
            pile_size: 1,
        }
    }

    /// The move of the card in freecell `source` onto cascade `dest`.
    pub open spec fn cell_to_column(source: int, dest: int) -> Action {
        Action {
            action_type: ActionType::FreecellToCol,
            source: source as usize,
            dest: dest as usize,
            pile_size: 1,
        }
    }

    /// The move of the top `pile` cards of cascade `source` onto cascade
    /// `dest`.
    pub open spec fn column_to_column(source: int, dest: int, pile: int) -> Action {
        Action {
            action_type: ActionType::ColToCol,
            source: source as usize,
            dest: dest as usize,
            pile_size: pile as usize,
        }
    }
}

impl Board {
    /// The first empty freecell at or after `from`; 4 if there is none.
    pub open spec fn first_free_cell(self, from: int) -> int
        decreases 4 - from,
    {
        if from >= 4 {
            4
        } else if self.freecells[from] is None {
            from
        } else {
            self.first_free_cell(from + 1)
        }
    }

    /// Whether the generator looks at moves from cascade `i` onto cascade
    /// `j` at all: not onto itself, and not onto an empty cascade when the
    /// whole of cascade `i` is one block, which would only rename the two.
    pub open spec fn considers(self, i: int, j: int) -> bool {
        i != j && !(self.columns[j].len() == 0 && run_length(self.columns[i])
            == self.columns[i].len())
    }

    /// The largest pile that the generator moves from cascade `i` onto
    /// cascade `j`: the movable block of `i`, cut down to what the empty
    /// freecells and cascades allow.
    pub open spec fn pile_limit(self, i: int, j: int) -> nat {
        let run = run_length(self.columns[i]);
        let room = self.movable(self.columns[j].len() == 0);
        if run < room {
            run
        } else {
            room
        }
    }

    /// Moves of the top of a cascade below `n` to its foundation.
    pub open spec fn column_banking(self, n: int) -> Seq<Action>
        decreases n,
    {
        if n <= 0 {
            Seq::empty()
        } else if self.column_ready(n - 1) {
            self.column_banking(n - 1).push(
                Action::column_to_foundation(n - 1, self.columns[n - 1].last().suit.ordinal()),
            )
        } else {
            self.column_banking(n - 1)
        }
    }

    /// Moves of the card in a freecell below `n` to its foundation.
    pub open spec fn cell_banking(self, n: int) -> Seq<Action>
        decreases n,
    {
        if n <= 0 {
            Seq::empty()
        } else if self.cell_ready(n - 1) {
            self.cell_banking(n - 1).push(
                Action::cell_to_foundation(n - 1, self.freecells[n - 1]->0.suit.ordinal()),
            )
        } else {
            self.cell_banking(n - 1)
        }
    }

    /// Moves of piles of 1 to `n` cards from cascade `i` onto cascade `j`,
    /// smallest first: each pile that `j` takes.
    pub open spec fn pile_moves(self, i: int, j: int, n: int) -> Seq<Action>
        decreases n,
    {
        if n <= 0 {
            Seq::empty()
        } else if self.column_takes(j, self.block(i, n)[0]) {
            self.pile_moves(i, j, n - 1).push(Action::column_to_column(i, j, n))
        } else {
            self.pile_moves(i, j, n - 1)
        }
    }

    /// Moves from cascade `i` onto the cascades below `n`.
    pub open spec fn cascade_moves(self, i: int, n: int) -> Seq<Action>
        decreases n,
    {
        if n <= 0 {
            Seq::empty()
        } else if self.considers(i, n - 1) {
            self.cascade_moves(i, n - 1) + self.pile_moves(
                i,
                n - 1,
                self.pile_limit(i, n - 1) as int,
            )
        } else {
            self.cascade_moves(i, n - 1)
        }
    }

    /// The move of the top of cascade `i` into the first empty freecell, if
    /// there is one. The freecells are interchangeable, so one is enough.
    pub open spec fn cell_move(self, i: int) -> Seq<Action> {
        if self.first_free_cell(0) < 4 {
            seq![Action::column_to_cell(i, self.first_free_cell(0))]
        } else {
            Seq::empty()
        }
    }

    /// Moves from the freecells below `n` onto cascade `i`.
    pub open spec fn cell_to_column_moves(self, i: int, n: int) -> Seq<Action>
        decreases n,
    {
        if n <= 0 {
            Seq::empty()
        } else if self.freecells[n - 1] is Some && self.column_takes(i, self.freecells[n - 1]->0) {
            self.cell_to_column_moves(i, n - 1).push(Action::cell_to_column(n - 1, i))
        } else {
            self.cell_to_column_moves(i, n - 1)
        }
    }

    /// The moves that the generator lists at cascade `i`: from it onto the
    /// other cascades and into a freecell, if it holds a card, then from the
    /// freecells onto it.
    pub open spec fn moves_at(self, i: int) -> Seq<Action> {
        if self.columns[i].len() > 0 {
            self.cascade_moves(i, 8) + self.cell_move(i) + self.cell_to_column_moves(i, 4)
        } else {
            self.cell_to_column_moves(i, 4)
        }
    }

    /// The moves that the generator lists at the cascades below `n`.
    pub open spec fn board_moves(self, n: int) -> Seq<Action>
        decreases n,
    {
        if n <= 0 {
            Seq::empty()
        } else {
            self.board_moves(n - 1) + self.moves_at(n - 1)
        }
    }

    /// Every move that the generator offers, in its order: cascade tops to
    /// foundations, freecell cards to foundations, then cascade by cascade
    /// the moves between cascades, into a freecell and out of the freecells.
    pub open spec fn legal_moves(self) -> Seq<Action> {
        self.column_banking(8) + self.cell_banking(4) + self.board_moves(8)
    }

    /// Whether the generator offers a move. A move to a foundation is
    /// offered where the foundation waits for the card. A pile goes from a
    /// cascade onto another that takes it, if it is part of the movable block
    /// and within what the empty freecells and cascades allow, and not where
    /// a whole cascade would go onto an empty one. The top of a cascade goes
    /// to the first empty freecell only. A freecell card goes onto every
    /// cascade that takes it.
    pub open spec fn generates(self, a: Action) -> bool {
        let source = a.source as int;
        let dest = a.dest as int;
        match a.action_type {
            ActionType::ColToFoundation => {
                &&& source < 8
                &&& a.pile_size == 1
                &&& self.column_ready(source)
                &&& dest == self.columns[source].last().suit.ordinal()
            },
            ActionType::FreecellToFoundation => {
                &&& source < 4
                &&& a.pile_size == 1
                &&& self.cell_ready(source)
                &&& dest == self.freecells[source]->0.suit.ordinal()
            },
            ActionType::ColToFreecell => {
                &&& source < 8
                &&& a.pile_size == 1
                &&& self.columns[source].len() > 0
                &&& dest < 4
                &&& dest == self.first_free_cell(0)
            },
            ActionType::FreecellToCol => {
                &&& source < 4
                &&& dest < 8
                &&& a.pile_size == 1
                &&& self.freecells[source] is Some
                &&& self.column_takes(dest, self.freecells[source]->0)
            },
            ActionType::ColToCol => {
                &&& source < 8
                &&& dest < 8
                &&& self.columns[source].len() > 0
                &&& self.considers(source, dest)
                &&& 1 <= a.pile_size <= self.pile_limit(source, dest)
                &&& self.column_takes(dest, self.block(source, a.pile_size as int)[0])
            },
        }
    }

    /// The cascade at which the generator lists a move between cascades or
    /// freecells: the source of a move off a cascade, the destination of a
    /// move out of a freecell.
    pub open spec fn listed_at(a: Action) -> int {
        if a.action_type == ActionType::FreecellToCol {
            a.dest as int
        } else {
            a.source as int
        }
    }
}

/// The movable block of a cascade is no longer than the cascade.
pub proof fn lemma_run_length_bound(column: Seq<crate::card::Card>)
    ensures
        run_length(column) <= column.len(),
        column.len() > 0 ==> run_length(column) >= 1,
    decreases column.len(),
{
    if column.len() >= 2 {
        lemma_run_length_bound(column.drop_last());
    }
}

impl Board {
    /// What the first empty freecell is: empty itself, with none empty
    /// before.
    pub proof fn lemma_first_free_cell(self, from: int)
        requires
            0 <= from <= 4,
        ensures
            from <= self.first_free_cell(from) <= 4,
            self.first_free_cell(from) < 4 ==> self.freecells[self.first_free_cell(from)] is None,
            forall|k: int| from <= k < self.first_free_cell(from) ==> self.freecells[k] is Some,
        decreases 4 - from,
    {
        if from < 4 && self.freecells[from] is Some {
            self.lemma_first_free_cell(from + 1);
        }
    }

    /// No pile that the generator moves is larger than the movable block of
    /// its cascade, nor than 13 cards.
    pub proof fn lemma_pile_limit_bound(self, i: int, j: int)
        ensures
            self.pile_limit(i, j) <= run_length(self.columns[i]),
            self.pile_limit(i, j) <= self.columns[i].len(),
            self.pile_limit(i, j) <= self.movable(self.columns[j].len() == 0),
            self.pile_limit(i, j) <= 13,
    {
        lemma_run_length_bound(self.columns[i]);
    }

    proof fn lemma_column_banking(self, n: int)
        requires
            0 <= n <= 8,
        ensures
            forall|a: Action| #[trigger]
                self.column_banking(n).contains(a) <==> a.action_type
                    == ActionType::ColToFoundation && a.source < n && self.generates(a),
            self.column_banking(n).no_duplicates(),
            self.column_banking(n).len() <= n,
        decreases n,
    {
        if n > 0 {
            self.lemma_column_banking(n - 1);
            let before = self.column_banking(n - 1);
            if self.column_ready(n - 1) {
                let x = Action::column_to_foundation(
                    n - 1,
                    self.columns[n - 1].last().suit.ordinal(),
                );
                lemma_push_distinct(before, x);
                assert forall|a: Action| #[trigger]
                    self.column_banking(n).contains(a) <==> a.action_type
                        == ActionType::ColToFoundation && a.source < n && self.generates(a) by {
                    vstd::seq_lib::lemma_seq_contains_after_push(before, x, a);
                }
            }
        }
    }

    proof fn lemma_cell_banking(self, n: int)
        requires
            0 <= n <= 4,
        ensures
            forall|a: Action| #[trigger]
                self.cell_banking(n).contains(a) <==> a.action_type
                    == ActionType::FreecellToFoundation && a.source < n && self.generates(a),
            self.cell_banking(n).no_duplicates(),
            self.cell_banking(n).len() <= n,
        decreases n,
    {
        if n > 0 {
            self.lemma_cell_banking(n - 1);
            let before = self.cell_banking(n - 1);
            if self.cell_ready(n - 1) {
                let x = Action::cell_to_foundation(n - 1, self.freecells[n - 1]->0.suit.ordinal());
                lemma_push_distinct(before, x);
                assert forall|a: Action| #[trigger]
                    self.cell_banking(n).contains(a) <==> a.action_type
                        == ActionType::FreecellToFoundation && a.source < n && self.generates(
                        a,
                    ) by {
                    vstd::seq_lib::lemma_seq_contains_after_push(before, x, a);
                }
            }
        }
    }

    proof fn lemma_pile_moves(self, i: int, j: int, n: int)
        requires
            0 <= i < 8,
            0 <= j < 8,
            0 <= n <= 13,
        ensures
            forall|a: Action| #[trigger]
                self.pile_moves(i, j, n).contains(a) <==> a.action_type == ActionType::ColToCol
                    && a.source == i && a.dest == j && 1 <= a.pile_size <= n && self.column_takes(
                    j,
                    self.block(i, a.pile_size as int)[0],
                ),
            self.pile_moves(i, j, n).no_duplicates(),
            self.pile_moves(i, j, n).len() <= n,
        decreases n,
    {
        if n > 0 {
            self.lemma_pile_moves(i, j, n - 1);
            let before = self.pile_moves(i, j, n - 1);
            if self.column_takes(j, self.block(i, n)[0]) {
                let x = Action::column_to_column(i, j, n);
                lemma_push_distinct(before, x);
                assert forall|a: Action| #[trigger]
                    self.pile_moves(i, j, n).contains(a) <==> a.action_type
                        == ActionType::ColToCol && a.source == i && a.dest == j && 1
                        <= a.pile_size <= n && self.column_takes(
                        j,
                        self.block(i, a.pile_size as int)[0],
                    ) by {
                    vstd::seq_lib::lemma_seq_contains_after_push(before, x, a);
                }
            }
        }
    }

    proof fn lemma_cascade_moves(self, i: int, n: int)
        requires
            0 <= i < 8,
            0 <= n <= 8,
        ensures
            forall|a: Action| #[trigger]
                self.cascade_moves(i, n).contains(a) <==> a.action_type == ActionType::ColToCol
                    && a.source == i && a.dest < n && self.considers(i, a.dest as int) && 1
                    <= a.pile_size <= self.pile_limit(i, a.dest as int) && self.column_takes(
                    a.dest as int,
                    self.block(i, a.pile_size as int)[0],
                ),
            self.cascade_moves(i, n).no_duplicates(),
            self.cascade_moves(i, n).len() <= 13 * n,
        decreases n,
    {
        if n > 0 {
            self.lemma_cascade_moves(i, n - 1);
            let before = self.cascade_moves(i, n - 1);
            if self.considers(i, n - 1) {
                self.lemma_pile_limit_bound(i, n - 1);
                let piles = self.pile_moves(i, n - 1, self.pile_limit(i, n - 1) as int);
                self.lemma_pile_moves(i, n - 1, self.pile_limit(i, n - 1) as int);
                lemma_concat_distinct(before, piles);
                assert forall|a: Action| #[trigger]
                    self.cascade_moves(i, n).contains(a) <==> a.action_type
                        == ActionType::ColToCol && a.source == i && a.dest < n && self.considers(
                        i,
                        a.dest as int,
                    ) && 1 <= a.pile_size <= self.pile_limit(i, a.dest as int)
                        && self.column_takes(
                        a.dest as int,
                        self.block(i, a.pile_size as int)[0],
                    ) by {
                    lemma_concat_contains(before, piles, a);
                }
            }
        }
    }

    proof fn lemma_cell_to_column_moves(self, i: int, n: int)
        requires
            0 <= i < 8,
            0 <= n <= 4,
        ensures
            forall|a: Action| #[trigger]
                self.cell_to_column_moves(i, n).contains(a) <==> a.action_type
                    == ActionType::FreecellToCol && a.dest == i && a.source < n && a.pile_size
                    == 1 && self.freecells[a.source as int] is Some && self.column_takes(
                    i,
                    self.freecells[a.source as int]->0,
                ),
            self.cell_to_column_moves(i, n).no_duplicates(),
            self.cell_to_column_moves(i, n).len() <= n,
        decreases n,
    {
        if n > 0 {
            self.lemma_cell_to_column_moves(i, n - 1);
            let before = self.cell_to_column_moves(i, n - 1);
            if self.freecells[n - 1] is Some && self.column_takes(i, self.freecells[n - 1]->0) {
                let x = Action::cell_to_column(n - 1, i);
                lemma_push_distinct(before, x);
                assert forall|a: Action| #[trigger]
                    self.cell_to_column_moves(i, n).contains(a) <==> a.action_type
                        == ActionType::FreecellToCol && a.dest == i && a.source < n
                        && a.pile_size == 1 && self.freecells[a.source as int] is Some
                        && self.column_takes(i, self.freecells[a.source as int]->0) by {
                    vstd::seq_lib::lemma_seq_contains_after_push(before, x, a);
                }
            }
        }
    }

    /// Whether a move is one between cascades and freecells, which the
    /// generator lists cascade by cascade.
    pub open spec fn on_the_board(a: Action) -> bool {
        a.action_type == ActionType::ColToCol || a.action_type == ActionType::ColToFreecell
            || a.action_type == ActionType::FreecellToCol
    }

    proof fn lemma_moves_at(self, i: int)
        requires
            0 <= i < 8,
        ensures
            forall|a: Action| #[trigger]
                self.moves_at(i).contains(a) <==> Board::on_the_board(a) && Board::listed_at(a)
                    == i && self.generates(a),
            self.moves_at(i).no_duplicates(),
            self.moves_at(i).len() <= 109,
    {
        let out = self.cell_to_column_moves(i, 4);
        self.lemma_cell_to_column_moves(i, 4);
        self.lemma_first_free_cell(0);
        if self.columns[i].len() > 0 {
            let between = self.cascade_moves(i, 8);
            let into = self.cell_move(i);
            self.lemma_cascade_moves(i, 8);
            assert(into.no_duplicates());
            assert forall|a: Action| #[trigger]
                into.contains(a) <==> a.action_type == ActionType::ColToFreecell && a.source == i
                    && self.generates(a) by {
                if into.contains(a) {
                    let k = choose|k: int| 0 <= k < into.len() && into[k] == a;
                    assert(a == Action::column_to_cell(i, self.first_free_cell(0)));
                }
                if a.action_type == ActionType::ColToFreecell && a.source == i && self.generates(
                    a,
                ) {
                    assert(into[0] == a);
                }
            }
            lemma_concat_distinct(between, into);
            assert forall|a: Action| #[trigger]
                (between + into).contains(a) <==> between.contains(a) || into.contains(a) by {
                lemma_concat_contains(between, into, a);
            }
            lemma_concat_distinct(between + into, out);
            assert forall|a: Action| #[trigger]
                self.moves_at(i).contains(a) <==> Board::on_the_board(a) && Board::listed_at(a)
                    == i && self.generates(a) by {
                lemma_concat_contains(between + into, out, a);
            }
        }
    }

    proof fn lemma_board_moves(self, n: int)
        requires
            0 <= n <= 8,
        ensures
            forall|a: Action| #[trigger]
                self.board_moves(n).contains(a) <==> Board::on_the_board(a) && Board::listed_at(a)
                    < n && self.generates(a),
            self.board_moves(n).no_duplicates(),
            self.board_moves(n).len() <= 109 * n,
        decreases n,
    {
        if n > 0 {
            self.lemma_board_moves(n - 1);
            self.lemma_moves_at(n - 1);
            let before = self.board_moves(n - 1);
            let here = self.moves_at(n - 1);
            lemma_concat_distinct(before, here);
            assert forall|a: Action| #[trigger]
                self.board_moves(n).contains(a) <==> Board::on_the_board(a) && Board::listed_at(a)
                    < n && self.generates(a) by {
                lemma_concat_contains(before, here, a);
            }
        }
    }

    /// What the generator offers: exactly the moves described by
    /// `generates`, none of them twice, and never more than `MOST_MOVES`.
    pub proof fn lemma_legal_moves(self)
        ensures
            forall|a: Action| #[trigger] self.legal_moves().contains(a) <==> self.generates(a),
            self.legal_moves().no_duplicates(),
            self.legal_moves().len() <= MOST_MOVES,
    {
        let tops = self.column_banking(8);
        let cells = self.cell_banking(4);
        let rest = self.board_moves(8);
        self.lemma_column_banking(8);
        self.lemma_cell_banking(4);
        self.lemma_board_moves(8);
        lemma_concat_distinct(tops, cells);
        assert forall|a: Action| #[trigger]
            (tops + cells).contains(a) <==> tops.contains(a) || cells.contains(a) by {
            lemma_concat_contains(tops, cells, a);
        }
        lemma_concat_distinct(tops + cells, rest);
        assert forall|a: Action| #[trigger]
            self.legal_moves().contains(a) <==> self.generates(a) by {
            lemma_concat_contains(tops + cells, rest, a);
        }
    }

    /// Every move that the generator offers is accepted where it is
    /// offered. A pile that it moves between cascades is part of the movable
    /// block and within what the empty freecells and cascades allow.
    pub proof fn lemma_generated_is_accepted(self, a: Action)
        requires
            self.shaped(),
            self.generates(a),
        ensures
            self.refusal(a) is None,
            a.action_type == ActionType::ColToCol ==> a.pile_size <= run_length(
                self.columns[a.source as int],
            ) && a.pile_size <= self.movable(self.columns[a.dest as int].len() == 0),
    {
        self.lemma_first_free_cell(0);
        if a.action_type == ActionType::ColToCol {
            self.lemma_pile_limit_bound(a.source as int, a.dest as int);
        }
    }
}

impl Board {
    /// Whether a path is made of moves that the generator offers, each in
    /// the position in which it is played.
    pub open spec fn offers(self, path: Seq<Action>) -> bool
        decreases path.len(),
    {
        if path.len() == 0 {
            true
        } else {
            self.offers(path.drop_last()) && match self.replay(path.drop_last()) {
                Some(before) => before.generates(path.last()),
                None => false,
            }
        }
    }

    /// Whether a path wins the game from this position: it is made of moves
    /// that the generator offers, each is accepted where it is played, and
    /// the last leads to a won position.
    pub open spec fn won_by(self, path: Seq<Action>) -> bool {
        self.offers(path) && self.replay(path) is Some && self.replay(path)->0.won()
    }

    /// A path of moves that the generator offers can be played: each move
    /// is accepted where it is played, on a board of the right shape.
    pub proof fn lemma_offered_path_replays(self, path: Seq<Action>)
        requires
            self.shaped(),
            self.offers(path),
        ensures
            self.replay(path) is Some,
            self.replay(path)->0.shaped(),
        decreases path.len(),
    {
        if path.len() > 0 {
            self.lemma_offered_path_replays(path.drop_last());
            let before = self.replay(path.drop_last())->0;
            before.lemma_generated_is_accepted(path.last());
            before.lemma_applied_counts(path.last());
        }
    }

    /// A move that the generator offers in a position that play can reach
    /// is accepted there and leads to another such position: every card is
    /// still accounted for exactly once, and nothing is left to promote.
    pub proof fn lemma_generated_move_keeps_valid(self, a: Action)
        requires
            self.valid(),
            self.legal_moves().contains(a),
        ensures
            self.refusal(a) is None,
            self.applied(a).valid(),
    {
        self.lemma_legal_moves();
        self.lemma_generated_is_accepted(a);
        self.lemma_applied_valid(a);
    }

    /// The generator offers no move that takes a card from an empty
    /// cascade.
    pub proof fn lemma_no_move_from_empty_cascade(self, a: Action)
        requires
            self.legal_moves().contains(a),
            a.action_type == ActionType::ColToCol || a.action_type == ActionType::ColToFreecell
                || a.action_type == ActionType::ColToFoundation,
        ensures
            a.source < 8,
            self.columns[a.source as int].len() > 0,
    {
        self.lemma_legal_moves();
    }

    /// Onto an empty cascade the generator moves every pile of the movable
    /// block that the empty freecells and the other empty cascades allow,
    /// unless the block is the whole cascade.
    pub proof fn lemma_moves_onto_empty_cascade(self, i: int, j: int, pile: int)
        requires
            0 <= i < 8,
            0 <= j < 8,
            i != j,
            0 <= pile <= usize::MAX,
            self.columns[i].len() > 0,
            self.columns[j].len() == 0,
        ensures
            self.legal_moves().contains(Action::column_to_column(i, j, pile)) <==> run_length(
                self.columns[i],
            ) < self.columns[i].len() && 1 <= pile <= run_length(self.columns[i]) && pile
                <= self.movable(true),
    {
        self.lemma_legal_moves();
        lemma_run_length_bound(self.columns[i]);
    }

    /// The generator never moves a whole cascade onto an empty one: that
    /// would only rename the two.
    pub proof fn lemma_whole_cascade_stays(self, a: Action)
        requires
            self.legal_moves().contains(a),
            a.action_type == ActionType::ColToCol,
            self.columns[a.dest as int].len() == 0,
        ensures
            a.pile_size < self.columns[a.source as int].len(),
            run_length(self.columns[a.source as int]) < self.columns[a.source as int].len(),
    {
        self.lemma_legal_moves();
        self.lemma_pile_limit_bound(a.source as int, a.dest as int);
        lemma_run_length_bound(self.columns[a.source as int]);
    }

    /// A pile of more than one card cannot go into a freecell: the move is
    /// turned down, and the generator never offers it.
    pub proof fn lemma_pile_into_freecell_refused(self, a: Action)
        requires
            a.action_type == ActionType::ColToFreecell,
            a.pile_size > 1,
        ensures
            self.refusal(a) is Some,
            a.source < 8 && a.dest < 4 ==> self.refusal(a) == Some(
                crate::action::MoveError::BadPileSize,
            ),
            !self.legal_moves().contains(a),
    {
        self.lemma_legal_moves();
    }

    /// A foundation that has reached the king accepts no card of the deck,
    /// and where every card is accounted for none of its suit is left on
    /// the board.
    pub proof fn lemma_full_foundation_accepts_nothing(self, c: crate::card::Card)
        requires
            self.foundations[c.suit.ordinal()] == 13,
            c.valid(),
        ensures
            !self.accepts(c),
            self.conserving() ==> self.copies(c) == 0,
    {
    }
}

} // verus!
