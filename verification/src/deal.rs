//! Deals: what a playable deal is, how it is laid out on the board, and why
//! the opening position accounts for every card.

use vstd::prelude::*;
use vstd::set_lib::{lemma_int_range, lemma_subset_equality, set_int_range};
use crate::board::{
    count_of,
    lemma_banked_among_update,
    lemma_cards_in_columns_update,
    lemma_copies_in_columns_update,
    lemma_count_of_member,
    lemma_count_of_positive,
    Board,
};
use crate::card::Card;

verus! {

/// A deal that can be played: 52 cards of the deck, none twice.
pub open spec fn legal_deal(deal: Seq<Card>) -> bool {
    &&& deal.len() == 52
    &&& forall|i: int| 0 <= i < deal.len() ==> (#[trigger] deal[i]).valid()
    &&& deal.no_duplicates()
}

/// The board with no card on it and nothing banked.
pub open spec fn empty_board() -> Board {
    Board {
        columns: Seq::new(8, |i: int| Seq::<Card>::empty()),
        freecells: Seq::new(4, |k: int| None::<Card>),
        foundations: Seq::new(4, |s: int| 0u8),
    }
}

/// The board after the first `n` cards of a deal have been laid out: card
/// `i` goes on top of cascade `i mod 8`.
pub open spec fn dealt_prefix(deal: Seq<Card>, n: int) -> Board
    decreases n,
{
    if n <= 0 {
        empty_board()
    } else {
        let before = dealt_prefix(deal, n - 1);
        before.with_column((n - 1) % 8, before.columns[(n - 1) % 8].push(deal[n - 1]))
    }
}

/// The board after the whole deal has been laid out.
pub open spec fn dealt(deal: Seq<Card>) -> Board {
    dealt_prefix(deal, deal.len() as int)
}

/// The position in which play starts: the deal laid out, then automatic
/// promotion run to its fixpoint.
pub open spec fn opening(deal: Seq<Card>) -> Board {
    dealt(deal).settle()
}

/// No card lies on the empty board.
pub proof fn lemma_empty_board()
    ensures
        empty_board().shaped(),
        empty_board().card_count() == 0,
        empty_board().banked() == 0,
        forall|c: Card| #[trigger] empty_board().copies(c) == 0,
{
    reveal_with_fuel(crate::board::cards_in_columns, 9);
    reveal_with_fuel(crate::board::cards_in_cells, 5);
    reveal_with_fuel(crate::board::banked_among, 5);
    assert forall|c: Card| #[trigger] empty_board().copies(c) == 0 by {
        reveal_with_fuel(crate::board::copies_in_columns, 9);
        reveal_with_fuel(crate::board::copies_in_cells, 5);
    }
}

/// Laying out cards puts each on the board as often as it was dealt, and
/// banks none.
pub proof fn lemma_dealt_prefix(deal: Seq<Card>, n: int)
    requires
        0 <= n <= deal.len(),
    ensures
        dealt_prefix(deal, n).shaped(),
        dealt_prefix(deal, n).card_count() == n,
        dealt_prefix(deal, n).banked() == 0,
        dealt_prefix(deal, n).foundations == empty_board().foundations,
        forall|c: Card| #[trigger]
            dealt_prefix(deal, n).copies(c) == count_of(deal.subrange(0, n), c),
    decreases n,
{
    if n == 0 {
        lemma_empty_board();
        assert(deal.subrange(0, 0) =~= Seq::<Card>::empty());
    } else {
        lemma_dealt_prefix(deal, n - 1);
        let before = dealt_prefix(deal, n - 1);
        let j = (n - 1) % 8;
        let column = before.columns[j].push(deal[n - 1]);
        lemma_cards_in_columns_update(before.columns, j, column, 8);
        assert(deal.subrange(0, n).drop_last() =~= deal.subrange(0, n - 1));
        assert forall|c: Card| #[trigger]
            dealt_prefix(deal, n).copies(c) == count_of(deal.subrange(0, n), c) by {
            lemma_copies_in_columns_update(before.columns, j, column, c, 8);
            assert(column.drop_last() =~= before.columns[j]);
            assert(before.copies(c) == count_of(deal.subrange(0, n - 1), c));
        }
    }
}

/// A sequence without duplicates holds no card twice.
pub proof fn lemma_count_of_distinct(s: Seq<Card>, c: Card)
    requires
        s.no_duplicates(),
    ensures
        count_of(s, c) <= 1,
    decreases s.len(),
{
    if s.len() > 0 {
        lemma_count_of_distinct(s.drop_last(), c);
        if s.last() == c && count_of(s.drop_last(), c) >= 1 {
            lemma_count_of_positive(s.drop_last(), c);
            let i = choose|i: int| 0 <= i < s.drop_last().len() && s.drop_last()[i] == c;
            assert(s[i] == s[s.len() - 1]);
        }
    }
}

/// A playable deal holds every card of the deck exactly once and nothing
/// else.
pub proof fn lemma_legal_deal_is_the_deck(deal: Seq<Card>, c: Card)
    requires
        legal_deal(deal),
    ensures
        count_of(deal, c) == if c.valid() {
            1nat
        } else {
            0nat
        },
{
    if count_of(deal, c) >= 1 {
        lemma_count_of_positive(deal, c);
    }
    lemma_count_of_distinct(deal, c);
    if c.valid() {
        let positions = Seq::new(52, |i: int| deal[i].deck_position());
        assert forall|i: int, j: int|
            0 <= i < positions.len() && 0 <= j < positions.len() && i != j implies positions[i]
            != positions[j] by {
            assert(deal[i].valid() && deal[j].valid());
            if positions[i] == positions[j] {
                assert(deal[i].suit.ordinal() == deal[j].suit.ordinal());
                assert(deal[i] == deal[j]);
            }
        }
        assert(positions.no_duplicates());
        positions.unique_seq_to_set();
        lemma_int_range(0, 52);
        assert forall|p: int| positions.to_set().contains(p) implies set_int_range(0, 52).contains(
            p,
        ) by {
            let i = choose|i: int| 0 <= i < positions.len() && positions[i] == p;
            assert(deal[i].valid());
        }
        vstd::seq_lib::seq_to_set_is_finite(positions);
        lemma_subset_equality(positions.to_set(), set_int_range(0, 52));
        let p = c.deck_position();
        assert(set_int_range(0, 52).contains(p));
        assert(positions.to_set().contains(p));
        let i = choose|i: int| 0 <= i < positions.len() && positions[i] == p;
        assert(deal[i].valid());
        assert(deal[i].suit.ordinal() == c.suit.ordinal());
        assert(deal[i] == c);
        lemma_count_of_member(deal, i);
    }
}

/// Laying out a playable deal accounts for every card, and so does the
/// opening position, in which moreover nothing is left to promote.
pub proof fn lemma_opening_valid(deal: Seq<Card>)
    requires
        legal_deal(deal),
    ensures
        dealt(deal).conserving(),
        opening(deal).valid(),
{
    let board = dealt(deal);
    lemma_dealt_prefix(deal, 52);
    assert(deal.subrange(0, 52) =~= deal);
    assert forall|c: Card| #[trigger]
        board.copies(c) == if c.valid() && !board.is_banked(c) {
            1nat
        } else {
            0nat
        } by {
        lemma_legal_deal_is_the_deck(deal, c);
        assert(board.copies(c) == count_of(deal.subrange(0, 52), c));
    }
    board.lemma_settle_conserves();
}

/// Every position that play reaches from a playable deal accounts for
/// every card exactly once and leaves nothing to promote: the opening
/// position, and the position after any sequence of moves of which each is
/// accepted where it is played.
pub proof fn lemma_play_stays_valid(deal: Seq<Card>, path: Seq<crate::action::Action>)
    requires
        legal_deal(deal),
        opening(deal).replay(path) is Some,
    ensures
        opening(deal).replay(path)->0.valid(),
{
    lemma_opening_valid(deal);
    opening(deal).lemma_replay_valid(path);
}

} // verus!
