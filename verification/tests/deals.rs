use freecell_solver::action::DealError;
use freecell_solver::card::{Card, Suit};
use freecell_solver::deck::{generate_random_deck, ordered_deck};
use freecell_solver::game::Game;

const SUITS: [Suit; 4] = [Suit::Diamond, Suit::Club, Suit::Spade, Suit::Heart];

/// Ranks ascending, the four suits of a rank side by side.
fn aces_first() -> Vec<Card> {
    (0..52).map(|i| Card { rank: (i / 4 + 1) as u8, suit: SUITS[i % 4] }).collect()
}

/// Ranks descending, the four suits of a rank side by side.
fn kings_first() -> Vec<Card> {
    (0..52).map(|i| Card { rank: (13 - i / 4) as u8, suit: SUITS[i % 4] }).collect()
}

fn cards_on_board(game: &Game) -> Vec<Card> {
    let mut cards: Vec<Card> = game.columns.iter().flatten().copied().collect();
    cards.extend(game.freecells.iter().flatten().copied());
    cards
}

fn assert_every_card_once(game: &Game) {
    let board = cards_on_board(game);
    let banked: usize = game.foundations.iter().map(|&f| f as usize).sum();
    assert_eq!(board.len() + banked, 52);
    for (s, suit) in SUITS.iter().enumerate() {
        assert!(game.foundations[s] <= 13);
        for rank in 1..=13u8 {
            let card = Card { rank, suit: *suit };
            let copies = board.iter().filter(|c| **c == card).count();
            if rank <= game.foundations[s] {
                assert_eq!(copies, 0);
            } else {
                assert_eq!(copies, 1);
            }
        }
    }
}

fn assert_nothing_to_promote(game: &Game) {
    for column in &game.columns {
        if let Some(top) = column.last() {
            assert!(!game.can_move_to_foundation(top));
        }
    }
    for cell in game.freecells.iter().flatten() {
        assert!(!game.can_move_to_foundation(cell));
    }
}

#[test]
fn ordered_deck_runs_suit_by_suit_from_ace_to_king() {
    let deck = ordered_deck();
    assert_eq!(deck.len(), 52);
    assert_eq!(deck[0], Card { rank: 1, suit: Suit::Diamond });
    assert_eq!(deck[12], Card { rank: 13, suit: Suit::Diamond });
    assert_eq!(deck[13], Card { rank: 1, suit: Suit::Club });
    assert_eq!(deck[26], Card { rank: 1, suit: Suit::Spade });
    assert_eq!(deck[51], Card { rank: 13, suit: Suit::Heart });
    for (i, card) in deck.iter().enumerate() {
        assert_eq!(card.rank as usize, i % 13 + 1);
        assert_eq!(card.suit, SUITS[i / 13]);
    }
}

#[test]
fn random_deck_is_a_shuffle_of_the_deck() {
    let deck = generate_random_deck();
    assert_eq!(deck.len(), 52);
    for card in ordered_deck() {
        assert_eq!(deck.iter().filter(|c| **c == card).count(), 1);
    }
    // the order is drawn at random: 52 cards do not come out in order
    assert_ne!(deck, ordered_deck());
    assert!(Game::new(&deck).is_ok());
}

#[test]
fn two_random_decks_differ() {
    assert_ne!(generate_random_deck(), generate_random_deck());
}

#[test]
fn deal_goes_round_robin_over_the_cascades() {
    let deal = aces_first();
    let game = Game::new(&deal).unwrap();
    // the aces lie at the bottom: nothing is promoted
    assert_eq!(game.foundations, [0, 0, 0, 0]);
    assert_eq!(game.freecells, [None, None, None, None]);
    for j in 0..8 {
        let expected: Vec<Card> = (0..52).filter(|i| i % 8 == j).map(|i| deal[i]).collect();
        assert_eq!(game.columns[j], expected);
    }
    assert_eq!(game.columns[0].len(), 7);
    assert_eq!(game.columns[3].len(), 7);
    assert_eq!(game.columns[4].len(), 6);
    assert_eq!(game.columns[7].len(), 6);
    assert_eq!(game.columns[0][0], Card { rank: 1, suit: Suit::Diamond });
    assert_eq!(*game.columns[0].last().unwrap(), Card { rank: 13, suit: Suit::Diamond });
    assert_every_card_once(&game);
    assert_nothing_to_promote(&game);
}

#[test]
fn deal_with_aces_on_top_is_promoted_away() {
    let game = Game::new(&kings_first()).unwrap();
    assert_eq!(game.foundations, [13, 13, 13, 13]);
    assert!(game.is_won());
    assert!(game.columns.iter().all(|c| c.is_empty()));
    assert_every_card_once(&game);
}

#[test]
fn promotion_stops_where_no_card_is_waited_for() {
    // The ordered deck dealt round-robin: cascade 4 ends in the king of
    // hearts, cascade 3 in the queen of hearts; no ace is on top.
    let mut deal = ordered_deck();
    // bring the ace of diamonds to the top of cascade 3 (last card dealt)
    deal.swap(0, 51);
    let game = Game::new(&deal).unwrap();
    assert_eq!(game.foundations, [1, 0, 0, 0]);
    assert_eq!(cards_on_board(&game).len(), 51);
    assert_every_card_once(&game);
    assert_nothing_to_promote(&game);
}

#[test]
fn opening_position_accounts_for_every_card() {
    for _ in 0..20 {
        let game = Game::new(&generate_random_deck()).unwrap();
        assert_every_card_once(&game);
        assert_nothing_to_promote(&game);
    }
}

#[test]
fn deal_of_wrong_size_is_rejected() {
    let deck = ordered_deck();
    assert_eq!(Game::new(&deck[..51]).unwrap_err(), DealError::WrongCount);
    assert_eq!(Game::new(&[]).unwrap_err(), DealError::WrongCount);
    let mut longer = deck.clone();
    longer.push(Card { rank: 1, suit: Suit::Diamond });
    assert_eq!(Game::new(&longer).unwrap_err(), DealError::WrongCount);
}

#[test]
fn deal_with_a_rank_out_of_range_is_rejected() {
    let mut deal = ordered_deck();
    deal[17].rank = 0;
    assert_eq!(Game::new(&deal).unwrap_err(), DealError::InvalidCard);
    let mut deal = ordered_deck();
    deal[51].rank = 14;
    assert_eq!(Game::new(&deal).unwrap_err(), DealError::InvalidCard);
}

#[test]
fn deal_with_a_card_twice_is_rejected() {
    let mut deal = ordered_deck();
    deal[30] = deal[2];
    assert_eq!(Game::new(&deal).unwrap_err(), DealError::Duplicate);
}

#[test]
fn invalid_card_is_reported_before_duplicate() {
    let mut deal = ordered_deck();
    deal[30] = deal[2];
    deal[40].rank = 200;
    assert_eq!(Game::new(&deal).unwrap_err(), DealError::InvalidCard);
}
