use freecell_solver::card::{Card, Suit};
use freecell_solver::deck::generate_random_deck;
use freecell_solver::game::Game;

fn card(text: &str) -> Card {
    Card::parse(text).unwrap()
}

fn cards(texts: &[&str]) -> Vec<Card> {
    texts.iter().map(|t| card(t)).collect()
}

fn position(columns: [&[&str]; 8], cells: [Option<&str>; 4], foundations: [u8; 4]) -> Game {
    Game {
        columns: columns.map(cards),
        freecells: cells.map(|c| c.map(card)),
        foundations,
    }
}

#[test]
fn test_max_movable_sequence1() {
    let game = position(
        [&["1S"], &["1S"], &["1S"], &["1S"], &["1S"], &["1S"], &["1S"], &[]],
        [None, None, None, None],
        [0; 4],
    );
    // 4 empty freecells and 1 empty cascade: (1 + 4) * 2
    assert_eq!(game.max_movable_sequence(false), 10);
    assert_eq!(game.max_movable_sequence(true), 5);
}

#[test]
fn test_max_movable_sequence2() {
    let game = position(
        [&["1S"], &["1S"], &["1S"], &[], &[], &[], &[], &[]],
        [Some("1S"), None, None, None],
        [0; 4],
    );
    // (1 + 3) * 2^5 = 128, cut down to 13
    assert_eq!(game.max_movable_sequence(false), 13);
    assert_eq!(game.max_movable_sequence(true), 13);
}

#[test]
fn test_max_movable_sequence3() {
    let game = position(
        [&["1S"], &["1S"], &["1S"], &["1S"], &["1S"], &["1S"], &["1S"], &["1S"]],
        [Some("1S"), Some("1S"), Some("1S"), None],
        [0; 4],
    );
    assert_eq!(game.max_movable_sequence(false), 2);
    // no empty cascade to leave out
    assert_eq!(game.max_movable_sequence(true), 2);
}

#[test]
fn test_max_movable_sequence4() {
    let game = position(
        [&["1S"], &["1S"], &["1S"], &["1S"], &["1S"], &["1S"], &["1S"], &["1S"]],
        [Some("1S"), Some("1S"), Some("1S"), Some("1S")],
        [0; 4],
    );
    assert_eq!(game.max_movable_sequence(false), 1);
}

#[test]
fn max_movable_sequence_doubles_with_every_empty_cascade() {
    let game = position(
        [&["1S"], &["1S"], &["1S"], &["1S"], &["1S"], &["1S"], &[], &[]],
        [Some("2S"), Some("3S"), Some("4S"), None],
        [0; 4],
    );
    assert_eq!(game.count_free_cells(), 1);
    assert_eq!(game.count_empty_columns(), 2);
    assert_eq!(game.max_movable_sequence(false), 8);
    assert_eq!(game.max_movable_sequence(true), 4);
    let all_empty = Game::empty();
    assert_eq!(all_empty.count_free_cells(), 4);
    assert_eq!(all_empty.count_empty_columns(), 8);
    assert_eq!(all_empty.max_movable_sequence(false), 13);
}

#[test]
fn counts_of_free_cells_and_empty_cascades() {
    let game = position(
        [&["5H", "4S"], &[], &["9D"], &[], &[], &["2C"], &[], &[]],
        [None, Some("7D"), None, Some("8C")],
        [0; 4],
    );
    assert_eq!(game.count_free_cells(), 2);
    assert_eq!(game.count_empty_columns(), 5);
    assert_eq!(game.cards_on_board(), Some(6));
}

#[test]
fn cards_on_board_gives_up_past_52() {
    let mut game = Game::empty();
    for _ in 0..53 {
        game.columns[2].push(card("1S"));
    }
    assert_eq!(game.cards_on_board(), None);
    game.columns[2].pop();
    assert_eq!(game.cards_on_board(), Some(52));
    game.freecells[1] = Some(card("1S"));
    assert_eq!(game.cards_on_board(), None);
}

#[test]
fn stacking_needs_other_colour_and_next_lower_rank() {
    let game = Game::empty();
    // below, above
    assert!(game.can_stack_on(&card("5D"), &card("4C")));
    assert!(game.can_stack_on(&card("5D"), &card("4S")));
    assert!(game.can_stack_on(&card("5H"), &card("4S")));
    assert!(game.can_stack_on(&card("13S"), &card("12H")));
    assert!(!game.can_stack_on(&card("5D"), &card("4H")));
    assert!(!game.can_stack_on(&card("5D"), &card("4D")));
    assert!(!game.can_stack_on(&card("5D"), &card("3S")));
    assert!(!game.can_stack_on(&card("5D"), &card("8H")));
    assert!(!game.can_stack_on(&card("4C"), &card("5D")));
    assert!(!game.can_stack_on(&card("5D"), &card("5S")));
    // ranks at the ends of the byte do not wrap around
    let low = Card { rank: 0, suit: Suit::Diamond };
    let high = Card { rank: 255, suit: Suit::Spade };
    assert!(!game.can_stack_on(&low, &high));
    assert!(!game.can_stack_on(&high, &low));
}

#[test]
fn foundation_waits_for_the_next_rank_of_its_suit() {
    let mut game = Game::empty();
    game.foundations = [0, 3, 12, 13];
    assert!(game.can_move_to_foundation(&card("1D")));
    assert!(!game.can_move_to_foundation(&card("2D")));
    assert!(game.can_move_to_foundation(&card("4C")));
    assert!(!game.can_move_to_foundation(&card("3C")));
    assert!(!game.can_move_to_foundation(&card("5C")));
    assert!(game.can_move_to_foundation(&card("13S")));
    // a complete foundation accepts no card of the deck
    for rank in 1..=13u8 {
        assert!(!game.can_move_to_foundation(&Card { rank, suit: Suit::Heart }));
    }
    game.foundations = [255, 0, 0, 0];
    assert!(!game.can_move_to_foundation(&Card { rank: 0, suit: Suit::Diamond }));
}

#[test]
fn won_means_every_foundation_at_the_king() {
    let mut game = Game::empty();
    assert!(!game.is_won());
    game.foundations = [13, 13, 13, 12];
    assert!(!game.is_won());
    game.foundations = [13, 13, 13, 13];
    assert!(game.is_won());
}

#[test]
fn automatic_promotion_runs_to_its_fixpoint() {
    let mut game = position(
        [&["9C", "3D", "1D"], &["2D"], &["2S", "1S"], &["5H", "1C"], &[], &[], &[], &[]],
        [Some("2C"), None, Some("3S"), Some("4D")],
        [0; 4],
    );
    game.apply_foundation_moves();
    // diamonds 1, 2, 3 then 4 from the freecell; clubs 1 then 2 from the
    // freecell; spades 1, 2 then 3 from the freecell
    assert_eq!(game.foundations, [4, 2, 3, 0]);
    assert_eq!(game.columns[0], cards(&["9C"]));
    assert!(game.columns[1].is_empty());
    assert!(game.columns[2].is_empty());
    assert_eq!(game.columns[3], cards(&["5H"]));
    assert_eq!(game.freecells, [None, None, None, None]);
}

#[test]
fn automatic_promotion_is_idempotent() {
    let mut game = position(
        [&["9C", "3D", "1D"], &["2D"], &["2S", "1S"], &["5H", "1C"], &[], &[], &[], &[]],
        [Some("2C"), None, Some("3S"), Some("4D")],
        [0; 4],
    );
    game.apply_foundation_moves();
    let once = game.clone();
    game.apply_foundation_moves();
    assert_eq!(game.columns, once.columns);
    assert_eq!(game.freecells, once.freecells);
    assert_eq!(game.foundations, once.foundations);
    for _ in 0..10 {
        let mut dealt = Game::new(&generate_random_deck()).unwrap();
        let before = dealt.clone();
        dealt.apply_foundation_moves();
        assert_eq!(dealt.columns, before.columns);
        assert_eq!(dealt.freecells, before.freecells);
        assert_eq!(dealt.foundations, before.foundations);
    }
}

#[test]
fn automatic_promotion_leaves_a_buried_ace() {
    let mut game = position(
        [&["1D", "9C"], &[], &[], &[], &[], &[], &[], &[]],
        [None, None, None, None],
        [0; 4],
    );
    game.apply_foundation_moves();
    assert_eq!(game.foundations, [0; 4]);
    assert_eq!(game.columns[0], cards(&["1D", "9C"]));
}

#[test]
fn clone_is_a_copy_of_its_own() {
    let game = Game::new(&generate_random_deck()).unwrap();
    let mut copy = game.clone();
    assert_eq!(copy.columns, game.columns);
    assert_eq!(copy.freecells, game.freecells);
    assert_eq!(copy.foundations, game.foundations);
    copy.columns[0].clear();
    copy.foundations[0] = 9;
    assert_ne!(copy.columns, game.columns);
    assert_ne!(copy.foundations, game.foundations);
}

#[test]
fn hash_is_the_same_whatever_the_order_of_cascades() {
    let game = Game::new(&generate_random_deck()).unwrap();
    let mut swapped = game.clone();
    swapped.columns.swap(2, 5);
    assert_ne!(swapped.columns, game.columns);
    assert_eq!(swapped.hash_key(), game.hash_key());
    let mut rotated = game.clone();
    rotated.columns.rotate_left(3);
    assert_eq!(rotated.hash_key(), game.hash_key());
    let mut reversed = game.clone();
    reversed.columns.reverse();
    assert_eq!(reversed.hash_key(), game.hash_key());
}

#[test]
fn hash_is_the_same_whatever_the_order_of_freecells() {
    let game = position(
        [&["5H", "4S"], &[], &["9D"], &[], &[], &["2C"], &[], &[]],
        [None, Some("7D"), None, Some("8C")],
        [0, 1, 0, 0],
    );
    let mut swapped = game.clone();
    swapped.freecells.swap(0, 1);
    assert_eq!(swapped.hash_key(), game.hash_key());
    let mut other = game.clone();
    other.freecells = [Some(card("8C")), None, Some(card("7D")), None];
    assert_eq!(other.hash_key(), game.hash_key());
    let mut both = game.clone();
    both.freecells.reverse();
    both.columns.reverse();
    assert_eq!(both.hash_key(), game.hash_key());
}

#[test]
fn hash_tells_positions_apart() {
    let game = position(
        [&["5H", "4S"], &[], &["9D"], &[], &[], &["2C"], &[], &[]],
        [None, Some("7D"), None, Some("8C")],
        [0, 1, 0, 0],
    );
    let mut other = game.clone();
    other.foundations[2] = 1;
    assert_ne!(other.hash_key(), game.hash_key());
    let mut other = game.clone();
    other.foundations = [1, 0, 0, 0];
    assert_ne!(other.hash_key(), game.hash_key());
    let mut other = game.clone();
    other.columns[0].swap(0, 1);
    assert_ne!(other.hash_key(), game.hash_key());
    let mut other = game.clone();
    let moved = other.columns[0].pop().unwrap();
    other.columns[1].push(moved);
    assert_ne!(other.hash_key(), game.hash_key());
    let mut other = game.clone();
    other.freecells[0] = other.freecells[1].take();
    other.freecells[1] = Some(card("9H"));
    assert_ne!(other.hash_key(), game.hash_key());
    // a card in a freecell is not the same as that card alone in a cascade
    let mut other = game.clone();
    other.columns[1].push(other.freecells[1].take().unwrap());
    assert_ne!(other.hash_key(), game.hash_key());
}

#[test]
fn hash_is_stable() {
    let empty = Game::empty();
    let hash = empty.hash_key();
    assert_eq!(hash, Game::empty().hash_key());
    // 64-bit FNV-1a over eight empty rows (a zero length each), four rows of
    // one zero byte (length 1, byte 0) and four zero counters
    let mut expected: u64 = 0xcbf29ce484222325;
    let mut words: Vec<u64> = vec![0; 8];
    for _ in 0..4 {
        words.push(1);
        words.push(0);
    }
    words.extend([0u64; 4]);
    for word in words {
        expected = (expected ^ word).wrapping_mul(0x100000001b3);
    }
    assert_eq!(hash, expected);
}
