//! Generating the moves of a game state and applying one.

use vstd::prelude::*;
use crate::action::{Action, ActionType, MoveError};
use crate::board::run_length;
use crate::card::Card;
use crate::game::Game;

verus! {

impl Game {
    /// Applies a move and runs automatic promotion. The result is a fresh
    /// state; `self` stays as it was. A move that the position turns down is
    /// reported with the reason.
    pub fn apply(&self, action: &Action) -> (outcome: Result<Game, MoveError>)
        ensures
            match outcome {
                Ok(next) => self@.refusal(*action) is None && next@ == self@.applied(*action),
                Err(reason) => self@.refusal(*action) == Some(reason),
            },
            outcome is Ok && self@.conserving() ==> outcome->Ok_0@.valid(),
    {
        let source = action.source;
        let dest = action.dest;
        let mut next: Game;
        match action.action_type {
            ActionType::ColToFoundation => {
                if source >= 8 {
                    return Err(MoveError::NoSuchSlot);
                }
                if action.pile_size != 1 {
                    return Err(MoveError::BadPileSize);
                }
                let height = self.columns[source].len();
                if height == 0 {
                    return Err(MoveError::SourceTooShort);
                }
                let card = self.columns[source][height - 1];
                if !self.can_move_to_foundation(&card) {
                    return Err(MoveError::Refused);
                }
                next = self.clone();
                next.columns[source].pop();
                let s = card.suit.index();
                next.foundations[s] = next.foundations[s] + 1;
                assert(next@.columns =~= self@.moved(*action).columns);
            },
            ActionType::FreecellToFoundation => {
                if source >= 4 {
                    return Err(MoveError::NoSuchSlot);
                }
                if action.pile_size != 1 {
                    return Err(MoveError::BadPileSize);
                }
                let card = match self.freecells[source] {
                    Some(card) => card,
                    None => {
                        return Err(MoveError::SourceTooShort);
                    },
                };
                if !self.can_move_to_foundation(&card) {
                    return Err(MoveError::Refused);
                }
                next = self.clone();
                next.freecells[source] = None;
                let s = card.suit.index();
                next.foundations[s] = next.foundations[s] + 1;
                assert(next@.columns =~= self@.moved(*action).columns);
            },
            ActionType::ColToFreecell => {
                if source >= 8 || dest >= 4 {
                    return Err(MoveError::NoSuchSlot);
                }
                if action.pile_size != 1 {
                    return Err(MoveError::BadPileSize);
                }
                let height = self.columns[source].len();
                if height == 0 {
                    return Err(MoveError::SourceTooShort);
                }
                if self.freecells[dest].is_some() {
                    return Err(MoveError::Refused);
                }
                let card = self.columns[source][height - 1];
                next = self.clone();
                next.columns[source].pop();
                next.freecells[dest] = Some(card);
                assert(next@.columns =~= self@.moved(*action).columns);
            },
            ActionType::FreecellToCol => {
                if source >= 4 || dest >= 8 {
                    return Err(MoveError::NoSuchSlot);
                }
                if action.pile_size != 1 {
                    return Err(MoveError::BadPileSize);
                }
                let card = match self.freecells[source] {
                    Some(card) => card,
                    None => {
                        return Err(MoveError::SourceTooShort);
                    },
                };
                let height = self.columns[dest].len();
                if height > 0 && !self.can_stack_on(&self.columns[dest][height - 1], &card) {
                    return Err(MoveError::Refused);
                }
                next = self.clone();
                next.freecells[source] = None;
                next.columns[dest].push(card);
                assert(next@.columns =~= self@.moved(*action).columns);
            },
            ActionType::ColToCol => {
                if source >= 8 || dest >= 8 {
                    return Err(MoveError::NoSuchSlot);
                }
                if action.pile_size == 0 {
                    return Err(MoveError::BadPileSize);
                }
                let height = self.columns[source].len();
                if action.pile_size > height {
                    return Err(MoveError::SourceTooShort);
                }
                let start = height - action.pile_size;
                let lowest = self.columns[source][start];
                let dest_height = self.columns[dest].len();
                if source == dest || (dest_height > 0 && !self.can_stack_on(
                    &self.columns[dest][dest_height - 1],
                    &lowest,
                )) {
                    return Err(MoveError::Refused);
                }
                next = self.clone();
                let mut block = next.columns[source].split_off(start);
                next.columns[dest].append(&mut block);
                assert(next@.columns =~= self@.moved(*action).columns);
            },
        }
        assert(next@ == self@.moved(*action));
        next.apply_foundation_moves();
        proof {
            if self@.conserving() {
                self@.lemma_applied_valid(*action);
            }
        }
        Ok(next)
    }
}

impl Game {
    /// The length of the movable block on top of a cascade.
    fn run_of(&self, column: &Vec<Card>) -> (run: usize)
        ensures
            run == run_length(column@),
            run <= column@.len(),
            column@.len() > 0 ==> run >= 1,
    {
        let n = column.len();
        if n == 0 {
            return 0;
        }
        let mut m: usize = n;
        let mut walking = true;
        assert(column@.subrange(0, n as int) =~= column@);
        while walking
            invariant
                1 <= m <= n,
                n == column@.len(),
                walking ==> run_length(column@) == run_length(column@.subrange(0, m as int)) + (n
                    - m),
                !walking ==> run_length(column@) == n - m + 1,
            decreases m + if walking { 1int } else { 0int },
        {
            let ghost prefix = column@.subrange(0, m as int);
            assert(prefix.last() == column@[m - 1]);
            if m >= 2 && self.can_stack_on(&column[m - 2], &column[m - 1]) {
                assert(prefix[m - 2] == column@[m - 2]);
                assert(prefix.drop_last() =~= column@.subrange(0, m - 1));
                m = m - 1;
            } else {
                if m >= 2 {
                    assert(prefix[m - 2] == column@[m - 2]);
                }
                walking = false;
            }
        }
        n - m + 1
    }

    /// Appends the moves of cascade tops to their foundations.
    fn push_column_banking(&self, moves: &mut Vec<Action>)
        ensures
            final(moves)@ == old(moves)@ + self@.column_banking(8),
    {
        let ghost start = moves@;
        let mut i: usize = 0;
        assert(moves@ =~= start + self@.column_banking(0));
        while i < 8
            invariant
                i <= 8,
                moves@ == start + self@.column_banking(i as int),
            decreases 8 - i,
        {
            let height = self.columns[i].len();
            if height > 0 {
                let card = self.columns[i][height - 1];
                if self.can_move_to_foundation(&card) {
                    moves.push(
                        Action {
                            action_type: ActionType::ColToFoundation,
                            source: i,
                            dest: card.suit.index(),
                            pile_size: 1,
                        },
                    );
                }
            }
            assert(moves@ =~= start + self@.column_banking(i + 1));
            i = i + 1;
        }
    }

    /// Appends the moves of freecell cards to their foundations.
    fn push_cell_banking(&self, moves: &mut Vec<Action>)
        ensures
            final(moves)@ == old(moves)@ + self@.cell_banking(4),
    {
        let ghost start = moves@;
        let mut k: usize = 0;
        assert(moves@ =~= start + self@.cell_banking(0));
        while k < 4
            invariant
                k <= 4,
                moves@ == start + self@.cell_banking(k as int),
            decreases 4 - k,
        {
            match self.freecells[k] {
                Some(card) => {
                    if self.can_move_to_foundation(&card) {
                        moves.push(
                            Action {
                                action_type: ActionType::FreecellToFoundation,
                                source: k,
                                dest: card.suit.index(),
                                pile_size: 1,
                            },
                        );
                    }
                },
                None => {},
            }
            assert(moves@ =~= start + self@.cell_banking(k + 1));
            k = k + 1;
        }
    }

    /// Appends the moves of piles of 1 to `limit` cards from cascade `i`
    /// onto cascade `j`.
    fn push_pile_moves(&self, i: usize, j: usize, limit: usize, moves: &mut Vec<Action>)
        requires
            i < 8,
            j < 8,
            limit <= self@.columns[i as int].len(),
        ensures
            final(moves)@ == old(moves)@ + self@.pile_moves(i as int, j as int, limit as int),
    {
        let ghost start = moves@;
        let height = self.columns[i].len();
        let dest_height = self.columns[j].len();
        let mut pile: usize = 0;
        assert(moves@ =~= start + self@.pile_moves(i as int, j as int, 0));
        while pile < limit
            invariant
                i < 8,
                j < 8,
                pile <= limit <= height,
                height == self@.columns[i as int].len(),
                dest_height == self@.columns[j as int].len(),
                moves@ == start + self@.pile_moves(i as int, j as int, pile as int),
            decreases limit - pile,
        {
            pile = pile + 1;
            let lowest = self.columns[i][height - pile];
            assert(self@.block(i as int, pile as int)[0] == lowest);
            if dest_height == 0 || self.can_stack_on(&self.columns[j][dest_height - 1], &lowest) {
                moves.push(
                    Action { action_type: ActionType::ColToCol, source: i, dest: j, pile_size: pile },
                );
            }
            assert(moves@ =~= start + self@.pile_moves(i as int, j as int, pile as int));
        }
    }

    /// Appends the moves from cascade `i` onto the other cascades.
    fn push_cascade_moves(&self, i: usize, moves: &mut Vec<Action>)
        requires
            i < 8,
        ensures
            final(moves)@ == old(moves)@ + self@.cascade_moves(i as int, 8),
    {
        let ghost start = moves@;
        let height = self.columns[i].len();
        let run = self.run_of(&self.columns[i]);
        let onto_empty = self.max_movable_sequence(true) as usize;
        let onto_cards = self.max_movable_sequence(false) as usize;
        let mut j: usize = 0;
        assert(moves@ =~= start + self@.cascade_moves(i as int, 0));
        while j < 8
            invariant
                i < 8,
                j <= 8,
                height == self@.columns[i as int].len(),
                run == run_length(self@.columns[i as int]),
                run <= height,
                onto_empty == self@.movable(true),
                onto_cards == self@.movable(false),
                moves@ == start + self@.cascade_moves(i as int, j as int),
            decreases 8 - j,
        {
            let ghost before = moves@;
            let vacant = self.columns[j].len() == 0;
            if i != j && !(vacant && run == height) {
                let room = if vacant {
                    onto_empty
                } else {
                    onto_cards
                };
                let limit = if run < room {
                    run
                } else {
                    room
                };
                self.push_pile_moves(i, j, limit, moves);
            }
            assert(moves@ =~= start + self@.cascade_moves(i as int, j + 1));
            j = j + 1;
        }
    }

    /// The first empty freecell; 4 if all are occupied.
    fn first_free_cell(&self) -> (k: usize)
        ensures
            k == self@.first_free_cell(0),
            k <= 4,
    {
        let mut k: usize = 0;
        while k < 4
            invariant
                k <= 4,
                self@.first_free_cell(0) == self@.first_free_cell(k as int),
            decreases 4 - k,
        {
            if self.freecells[k].is_none() {
                return k;
            }
            k = k + 1;
        }
        k
    }

    /// Appends the moves from the freecells onto cascade `i`.
    fn push_cell_to_column_moves(&self, i: usize, moves: &mut Vec<Action>)
        requires
            i < 8,
        ensures
            final(moves)@ == old(moves)@ + self@.cell_to_column_moves(i as int, 4),
    {
        let ghost start = moves@;
        let height = self.columns[i].len();
        let mut k: usize = 0;
        assert(moves@ =~= start + self@.cell_to_column_moves(i as int, 0));
        while k < 4
            invariant
                i < 8,
                k <= 4,
                height == self@.columns[i as int].len(),
                moves@ == start + self@.cell_to_column_moves(i as int, k as int),
            decreases 4 - k,
        {
            match self.freecells[k] {
                Some(card) => {
                    if height == 0 || self.can_stack_on(&self.columns[i][height - 1], &card) {
                        moves.push(
                            Action {
                                action_type: ActionType::FreecellToCol,
                                source: k,
                                dest: i,
                                pile_size: 1,
                            },
                        );
                    }
                },
                None => {},
            }
            assert(moves@ =~= start + self@.cell_to_column_moves(i as int, k + 1));
            k = k + 1;
        }
    }

    /// Every move that the position offers, each once, in the generator's
    /// order: cascade tops to foundations, freecell cards to foundations,
    /// then cascade by cascade the moves between cascades, into the first
    /// empty freecell and out of the freecells.
    pub fn get_all_possible_moves(&self) -> (moves: Vec<Action>)
        ensures
            moves@ == self@.legal_moves(),
    {
        let mut moves: Vec<Action> = Vec::new();
        self.push_column_banking(&mut moves);
        self.push_cell_banking(&mut moves);
        let ghost head = moves@;
        assert(head =~= self@.column_banking(8) + self@.cell_banking(4));
        let free = self.first_free_cell();
        let mut i: usize = 0;
        assert(moves@ =~= head + self@.board_moves(0));
        while i < 8
            invariant
                i <= 8,
                free == self@.first_free_cell(0),
                moves@ == head + self@.board_moves(i as int),
            decreases 8 - i,
        {
            let ghost before = moves@;
            if self.columns[i].len() > 0 {
                self.push_cascade_moves(i, &mut moves);
                if free < 4 {
                    moves.push(
                        Action {
                            action_type: ActionType::ColToFreecell,
                            source: i,
                            dest: free,
                            pile_size: 1,
                        },
                    );
                }
                assert(moves@ =~= before + (self@.cascade_moves(i as int, 8) + self@.cell_move(
                    i as int,
                )));
            }
            self.push_cell_to_column_moves(i, &mut moves);
            assert(moves@ =~= before + self@.moves_at(i as int));
            assert(moves@ =~= head + self@.board_moves(i + 1));
            i = i + 1;
        }
        moves
    }
}

} // verus!
