//! The deck: the 52 cards in order, and a shuffled deal.

use rand::seq::SliceRandom;
use vstd::prelude::*;
use crate::card::{Card, Suit};
use crate::deal::legal_deal;

verus! {

/// The 52 cards in order: suit by suit, each from the ace to the king.
pub fn ordered_deck() -> (deck: Vec<Card>)
    ensures
        deck@.len() == 52,
        forall|k: int| 0 <= k < 52 ==> #[trigger] deck@[k] == Card::at_deck_position(k),
        legal_deal(deck@),
{
    let mut deck: Vec<Card> = Vec::new();
    let mut k: usize = 0;
    while k < 52
        invariant
            k <= 52,
            deck@.len() == k,
            forall|j: int| 0 <= j < k ==> #[trigger] deck@[j] == Card::at_deck_position(j),
        decreases 52 - k,
    {
        let rank: u8 = (k % 13 + 1) as u8;
        deck.push(Card { rank, suit: Suit::from_index(k / 13) });
        k = k + 1;
    }
    proof {
        assert forall|i: int, j: int| 0 <= i < deck@.len() && 0 <= j < deck@.len() && i
            != j implies deck@[i] != deck@[j] by {
            assert(deck@[i] == Card::at_deck_position(i));
            assert(deck@[j] == Card::at_deck_position(j));
            if deck@[i] == deck@[j] {
                assert(i % 13 == j % 13);
                assert(Suit::at(i / 13).ordinal() == i / 13);
                assert(Suit::at(j / 13).ordinal() == j / 13);
            }
        }
        assert forall|i: int| 0 <= i < deck@.len() implies (#[trigger] deck@[i]).valid() by {
            assert(deck@[i] == Card::at_deck_position(i));
        }
    }
    deck
}

/// Shuffles the cards in place with `rand::seq::SliceRandom::shuffle`, drawing
/// from the generator that `rand::rng` hands to this thread. The shuffle
/// only exchanges elements, so the cards are the same cards afterwards, each
/// as often as before; nothing is said of their order. The generator takes
/// its seed from the operating system, and `rand` panics where the system
/// gives none.
#[verifier::external_body]
fn shuffle_cards(deck: &mut Vec<Card>)
    ensures
        final(deck)@.to_multiset() == old(deck)@.to_multiset(),
{
    deck.shuffle(&mut rand::rng());
}

/// A deal is playable whatever the order of its cards.
pub proof fn lemma_shuffled_deal_is_legal(deal: Seq<Card>, shuffled: Seq<Card>)
    requires
        legal_deal(deal),
        shuffled.to_multiset() == deal.to_multiset(),
    ensures
        legal_deal(shuffled),
{
    broadcast use vstd::multiset::group_multiset_axioms;

    vstd::seq_lib::to_multiset_len(deal);
    vstd::seq_lib::to_multiset_len(shuffled);
    deal.lemma_multiset_has_no_duplicates();
    shuffled.lemma_multiset_has_no_duplicates_conv();
    assert forall|i: int| 0 <= i < shuffled.len() implies (#[trigger] shuffled[i]).valid() by {
        vstd::seq_lib::to_multiset_contains(shuffled, shuffled[i]);
        vstd::seq_lib::to_multiset_contains(deal, shuffled[i]);
        assert(shuffled.contains(shuffled[i]));
        let j = choose|j: int| 0 <= j < deal.len() && deal[j] == shuffled[i];
        assert(deal[j].valid());
    }
}

/// A shuffled deck: the 52 cards in an order drawn at random. Whatever the
/// order, the deal is playable.
pub fn generate_random_deck() -> (deck: Vec<Card>)
    ensures
        legal_deal(deck@),
{
    let mut deck = ordered_deck();
    let ghost ordered = deck@;
    shuffle_cards(&mut deck);
    proof {
        lemma_shuffled_deal_is_legal(ordered, deck@);
    }
    deck
}

} // verus!
