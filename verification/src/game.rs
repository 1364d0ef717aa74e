//! The game state: eight cascades, four freecells and four foundation
//! counters, with the queries and the automatic promotion on it.

use vstd::prelude::*;
use crate::action::DealError;
use crate::board::{
    cards_in_cells,
    cards_in_columns,
    empty_among,
    lemma_cards_in_cells_bound,
    stacks,
    two_to,
    Board,
};
use crate::card::Card;
use crate::deal::{dealt_prefix, legal_deal, lemma_opening_valid, opening};

verus! {

/// A position. The last card of a cascade is its top. A foundation counter
/// holds the highest rank placed for its suit, 0 for none.
#[derive(Debug)]
pub struct Game {
    pub columns: [Vec<Card>; 8],
    pub freecells: [Option<Card>; 4],
    pub foundations: [u8; 4],
}

impl View for Game {
    type V = Board;

    open spec fn view(&self) -> Board {
        Board {
            columns: Seq::new(8, |i: int| self.columns[i]@),
            freecells: self.freecells@,
            foundations: self.foundations@,
        }
    }
}

impl Clone for Game {
    fn clone(&self) -> (copy: Game)
        ensures
            copy@ == self@,
    {
        let copy = Game {
            columns: [
                self.columns[0].clone(),
                self.columns[1].clone(),
                self.columns[2].clone(),
                self.columns[3].clone(),
                self.columns[4].clone(),
                self.columns[5].clone(),
                self.columns[6].clone(),
                self.columns[7].clone(),
            ],
            freecells: self.freecells,
            foundations: self.foundations,
        };
        assert(copy@.columns =~= self@.columns);
        copy
    }
}

impl Game {
    /// The position with nothing on the board and nothing banked.
    pub fn empty() -> (game: Game)
        ensures
            game@.shaped(),
            forall|i: int| 0 <= i < 8 ==> game@.columns[i].len() == 0,
            forall|k: int| 0 <= k < 4 ==> game@.freecells[k] is None,
            forall|s: int| 0 <= s < 4 ==> game@.foundations[s] == 0,
    {
        Game {
            columns: [
                Vec::new(),
                Vec::new(),
                Vec::new(),
                Vec::new(),
                Vec::new(),
                Vec::new(),
                Vec::new(),
                Vec::new(),
            ],
            freecells: [None, None, None, None],
            foundations: [0u8, 0u8, 0u8, 0u8],
        }
    }

    /// Lays out a deal of 52 distinct cards, card `i` on cascade `i mod 8`,
    /// and runs automatic promotion. Any other deal is rejected.
    pub fn new(cards: &[Card]) -> (dealt: Result<Game, DealError>)
        ensures
            match dealt {
                Ok(game) => legal_deal(cards@) && game@ == opening(cards@) && game@.valid(),
                Err(DealError::WrongCount) => cards@.len() != 52,
                Err(DealError::InvalidCard) => cards@.len() == 52 && exists|i: int|
                    0 <= i < 52 && !(#[trigger] cards@[i]).valid(),
                Err(DealError::Duplicate) => cards@.len() == 52 && (forall|i: int|
                    0 <= i < 52 ==> (#[trigger] cards@[i]).valid()) && !cards@.no_duplicates(),
            },
    {
        if cards.len() != 52 {
            return Err(DealError::WrongCount);
        }
        let mut i: usize = 0;
        while i < 52
            invariant
                i <= 52,
                cards@.len() == 52,
                forall|j: int| 0 <= j < i ==> (#[trigger] cards@[j]).valid(),
            decreases 52 - i,
        {
            if cards[i].rank < 1 || cards[i].rank > 13 {
                assert(!cards@[i as int].valid());
                return Err(DealError::InvalidCard);
            }
            i = i + 1;
        }
        let mut seen: Vec<bool> = Vec::new();
        while seen.len() < 52
            invariant
                seen@.len() <= 52,
                forall|p: int| 0 <= p < seen@.len() ==> !seen@[p],
            decreases 52 - seen@.len(),
        {
            seen.push(false);
        }
        let mut i: usize = 0;
        while i < 52
            invariant
                i <= 52,
                cards@.len() == 52,
                seen@.len() == 52,
                forall|j: int| 0 <= j < 52 ==> (#[trigger] cards@[j]).valid(),
                forall|p: int|
                    0 <= p < 52 ==> (#[trigger] seen@[p] <==> exists|j: int|
                        0 <= j < i && (#[trigger] cards@[j]).deck_position() == p),
                forall|a: int, b: int| 0 <= a < b < i ==> cards@[a] != cards@[b],
            decreases 52 - i,
        {
            let card = cards[i];
            let position: usize = 13 * card.suit.index() + (card.rank as usize) - 1;
            assert(position == cards@[i as int].deck_position());
            if seen[position] {
                proof {
                    let j = choose|j: int|
                        0 <= j < i && (#[trigger] cards@[j]).deck_position() == position;
                    assert(cards@[j].valid() && cards@[i as int].valid());
                    assert(cards@[j].suit.ordinal() == cards@[i as int].suit.ordinal());
                    assert(cards@[j] == cards@[i as int]);
                }
                return Err(DealError::Duplicate);
            }
            let ghost before = seen@;
            seen.set(position, true);
            proof {
                assert forall|a: int| 0 <= a < i implies cards@[a] != cards@[i as int] by {
                    if cards@[a] == cards@[i as int] {
                        assert(cards@[a].deck_position() == position);
                        assert(before[position as int]);
                    }
                }
                assert forall|p: int| 0 <= p < 52 implies (#[trigger] seen@[p] <==> exists|j: int|
                    0 <= j < i + 1 && (#[trigger] cards@[j]).deck_position() == p) by {
                    if p == position {
                        assert(cards@[i as int].deck_position() == p);
                    } else if before[p] {
                        let j = choose|j: int|
                            0 <= j < i && (#[trigger] cards@[j]).deck_position() == p;
                        assert(0 <= j < i + 1 && cards@[j].deck_position() == p);
                    } else if exists|j: int|
                        0 <= j < i + 1 && (#[trigger] cards@[j]).deck_position() == p {
                        let j = choose|j: int|
                            0 <= j < i + 1 && (#[trigger] cards@[j]).deck_position() == p;
                        assert(j < i);
                    }
                }
            }
            i = i + 1;
        }
        assert(cards@.no_duplicates());
        let mut game = Game::empty();
        assert(game@ =~= dealt_prefix(cards@, 0)) by {
            assert forall|j: int| 0 <= j < 8 implies game@.columns[j] =~= Seq::<Card>::empty() by {
                assert(game@.columns[j].len() == 0);
            }
            assert(game@.columns =~= dealt_prefix(cards@, 0).columns);
            assert(game@.freecells =~= dealt_prefix(cards@, 0).freecells);
            assert(game@.foundations =~= dealt_prefix(cards@, 0).foundations);
        }
        let mut i: usize = 0;
        while i < 52
            invariant
                i <= 52,
                cards@.len() == 52,
                game@ == dealt_prefix(cards@, i as int),
            decreases 52 - i,
        {
            let ghost before = game@;
            game.columns[i % 8].push(cards[i]);
            proof {
                let after = before.with_column(
                    (i % 8) as int,
                    before.columns[(i % 8) as int].push(cards@[i as int]),
                );
                assert(game@.columns =~= after.columns);
            }
            i = i + 1;
        }
        game.apply_foundation_moves();
        proof {
            lemma_opening_valid(cards@);
        }
        Ok(game)
    }

    /// The first cascade whose top can go to its foundation; 8 if none can.
    fn first_ready_column(&self) -> (i: usize)
        ensures
            i == self@.first_ready_column(0),
            i <= 8,
            i < 8 ==> self@.column_ready(i as int),
    {
        let mut i: usize = 0;
        while i < 8
            invariant
                i <= 8,
                self@.first_ready_column(0) == self@.first_ready_column(i as int),
            decreases 8 - i,
        {
            let height = self.columns[i].len();
            if height > 0 && self.can_move_to_foundation(&self.columns[i][height - 1]) {
                return i;
            }
            i = i + 1;
        }
        i
    }

    /// The first freecell whose card can go to its foundation; 4 if none can.
    fn first_ready_cell(&self) -> (k: usize)
        ensures
            k == self@.first_ready_cell(0),
            k <= 4,
            k < 4 ==> self@.cell_ready(k as int),
    {
        let mut k: usize = 0;
        while k < 4
            invariant
                k <= 4,
                self@.first_ready_cell(0) == self@.first_ready_cell(k as int),
            decreases 4 - k,
        {
            match self.freecells[k] {
                Some(card) => {
                    if self.can_move_to_foundation(&card) {
                        return k;
                    }
                },
                None => {},
            }
            k = k + 1;
        }
        k
    }

    /// Automatic promotion: as long as a cascade top or a freecell card can
    /// go to its foundation, it goes.
    pub fn apply_foundation_moves(&mut self)
        ensures
            final(self)@ == old(self)@.settle(),
    {
        let ghost start = self@;
        loop
            invariant
                self@.shaped(),
                self@.settle() == start.settle(),
            ensures
                self@ == start.settle(),
            decreases self@.card_count(),
        {
            let ghost before = self@;
            let i = self.first_ready_column();
            if i < 8 {
                let card = self.columns[i].pop().unwrap();
                let s = card.suit.index();
                self.foundations[s] = self.foundations[s] + 1;
                proof {
                    before.lemma_bank_from_column_counts(i as int);
                    assert(self@.columns =~= before.bank_from_column(i as int).columns);
                    assert(self@ == before.bank_from_column(i as int));
                }
            } else {
                let k = self.first_ready_cell();
                if k < 4 {
                    let card = self.freecells[k].unwrap();
                    self.freecells[k] = None;
                    let s = card.suit.index();
                    self.foundations[s] = self.foundations[s] + 1;
                    proof {
                        before.lemma_bank_from_cell_counts(k as int);
                        assert(self@.columns =~= before.bank_from_cell(k as int).columns);
                        assert(self@ == before.bank_from_cell(k as int));
                    }
                } else {
                    break ;
                }
            }
        }
    }

    /// The number of cards on the board, or `None` if it is over 52.
    pub fn cards_on_board(&self) -> (count: Option<usize>)
        ensures
            match count {
                Some(n) => n == self@.card_count() && n <= 52,
                None => self@.card_count() > 52,
            },
    {
        let mut total: usize = 0;
        let mut i: usize = 0;
        while i < 8
            invariant
                i <= 8,
                total == cards_in_columns(self@.columns, i as int),
                total <= 52,
            decreases 8 - i,
        {
            let height = self.columns[i].len();
            if height > 52 - total {
                proof {
                    lemma_cards_in_columns_monotone(self@.columns, i + 1, 8);
                }
                return None;
            }
            total = total + height;
            i = i + 1;
        }
        proof {
            lemma_cards_in_cells_bound(self@.freecells, 4);
        }
        let occupied = 4 - self.count_free_cells();
        if occupied > 52 - total {
            return None;
        }
        Some(total + occupied)
    }

    /// Whether the game is won: every foundation has reached its king.
    pub fn is_won(&self) -> (won: bool)
        ensures
            won == self@.won(),
    {
        let won = self.foundations[0] == 13 && self.foundations[1] == 13 && self.foundations[2]
            == 13 && self.foundations[3] == 13;
        proof {
            if won {
                assert(self@.won());
            } else {
                assert(!(self@.foundations[0] == 13 && self@.foundations[1] == 13
                    && self@.foundations[2] == 13 && self@.foundations[3] == 13));
            }
        }
        won
    }

    /// The number of empty freecells.
    pub fn count_free_cells(&self) -> (count: usize)
        ensures
            count == self@.free_cells(),
            count <= 4,
    {
        let mut count: usize = 0;
        let mut k: usize = 0;
        while k < 4
            invariant
                k <= 4,
                count + cards_in_cells(self@.freecells, k as int) == k,
            decreases 4 - k,
        {
            if self.freecells[k].is_none() {
                count = count + 1;
            }
            k = k + 1;
        }
        count
    }

    /// The number of empty cascades.
    pub fn count_empty_columns(&self) -> (count: usize)
        ensures
            count == self@.empty_columns(),
            count <= 8,
    {
        let mut count: usize = 0;
        let mut i: usize = 0;
        while i < 8
            invariant
                i <= 8,
                count == empty_among(self@.columns, i as int),
                count <= i,
            decreases 8 - i,
        {
            if self.columns[i].len() == 0 {
                count = count + 1;
            }
            i = i + 1;
        }
        count
    }

    /// The largest block that can move between cascades at once:
    /// `(1 + F) * 2^E`, at most 13, for `F` empty freecells and `E` empty
    /// cascades. With `remove_one_column` one empty cascade is left out of
    /// `E`, as for a move whose destination is an empty cascade.
    pub fn max_movable_sequence(&self, remove_one_column: bool) -> (limit: u32)
        ensures
            limit == self@.movable(remove_one_column),
            1 <= limit <= 13,
    {
        let free_cells = self.count_free_cells();
        let mut helpers = self.count_empty_columns();
        if remove_one_column && helpers > 0 {
            helpers = helpers - 1;
        }
        let mut power: u32 = 1;
        let mut e: usize = 0;
        while e < helpers
            invariant
                e <= helpers <= 8,
                power == two_to(e as nat),
                1 <= power <= 256,
                e <= 7 ==> power <= 128,
            decreases helpers - e,
        {
            proof {
                lemma_two_to_bound(e as nat);
                lemma_two_to_bound((e + 1) as nat);
            }
            power = power * 2;
            e = e + 1;
        }
        assert(1 <= power * (free_cells + 1) <= 1280) by (nonlinear_arith)
            requires
                1 <= power <= 256,
                free_cells <= 4,
        ;
        let product: u32 = power * (free_cells as u32 + 1);
        assert(product == (1 + free_cells as nat) * two_to(helpers as nat)) by (nonlinear_arith)
            requires
                product == power * (free_cells + 1),
                power == two_to(helpers as nat),
        ;
        if product < 13 {
            product
        } else {
            13
        }
    }

    /// Whether the card can go to its foundation: the foundation of its
    /// suit has reached the rank just below.
    pub fn can_move_to_foundation(&self, card: &Card) -> (ok: bool)
        ensures
            ok == self@.accepts(*card),
    {
        let top = self.foundations[card.suit.index()];
        card.rank >= 1 && top == card.rank - 1
    }

    /// The stacking rule: `card_above` may lie on `card_below` if their
    /// colours differ and `card_below` ranks exactly one higher.
    pub fn can_stack_on(&self, card_below: &Card, card_above: &Card) -> (ok: bool)
        ensures
            ok == stacks(*card_below, *card_above),
    {
        card_below.is_black() != card_above.is_black() && card_below.rank >= 1 && card_below.rank
            - 1 == card_above.rank
    }
}

/// Powers of two up to the eighth.
pub proof fn lemma_two_to_bound(n: nat)
    requires
        n <= 8,
    ensures
        two_to(n) <= 256,
        n <= 7 ==> two_to(n) <= 128,
        two_to(n) >= 1,
{
    reveal_with_fuel(two_to, 10);
}

/// Foundation counters are bytes: `n` of them sum to at most `255 * n`.
pub proof fn lemma_banked_bound(foundations: Seq<u8>, n: int)
    requires
        0 <= n <= foundations.len(),
    ensures
        crate::board::banked_among(foundations, n) <= 255 * n,
    decreases n,
{
    if n > 0 {
        lemma_banked_bound(foundations, n - 1);
    }
}

/// More cascades hold no fewer cards.
pub proof fn lemma_cards_in_columns_monotone(columns: Seq<Seq<Card>>, m: int, n: int)
    requires
        m <= n,
    ensures
        cards_in_columns(columns, m) <= cards_in_columns(columns, n),
    decreases n - m,
{
    if m < n {
        lemma_cards_in_columns_monotone(columns, m, n - 1);
    }
}

} // verus!
