use freecell_solver::action::{Action, ActionType, MoveError};
use freecell_solver::card::{Card, Suit};
use freecell_solver::deck::generate_random_deck;
use freecell_solver::game::Game;
use freecell_solver::solver::Solver;

const SUITS: [Suit; 4] = [Suit::Diamond, Suit::Club, Suit::Spade, Suit::Heart];

fn card(text: &str) -> Card {
    Card::parse(text).unwrap()
}

fn cards(texts: &[&str]) -> Vec<Card> {
    texts.iter().map(|t| card(t)).collect()
}

fn position(columns: [&[&str]; 8], cells: [Option<&str>; 4], foundations: [u8; 4]) -> Game {
    Game {
        columns: columns.map(cards),
        freecells: cells.map(|c| c.map(card)),
        foundations,
    }
}

fn action(action_type: ActionType, source: usize, dest: usize, pile_size: usize) -> Action {
    Action { action_type, source, dest, pile_size }
}

fn col_to_col(source: usize, dest: usize, pile_size: usize) -> Action {
    action(ActionType::ColToCol, source, dest, pile_size)
}

fn same(a: &Game, b: &Game) -> bool {
    a.columns == b.columns && a.freecells == b.freecells && a.foundations == b.foundations
}

fn assert_every_card_once(game: &Game) {
    let mut board: Vec<Card> = game.columns.iter().flatten().copied().collect();
    board.extend(game.freecells.iter().flatten().copied());
    let banked: usize = game.foundations.iter().map(|&f| f as usize).sum();
    assert_eq!(board.len() + banked, 52);
    for (s, suit) in SUITS.iter().enumerate() {
        for rank in 1..=13u8 {
            let c = Card { rank, suit: *suit };
            let copies = board.iter().filter(|x| **x == c).count();
            assert_eq!(copies, if rank <= game.foundations[s] { 0 } else { 1 });
        }
    }
}

fn assert_nothing_to_promote(game: &Game) {
    for column in &game.columns {
        if let Some(top) = column.last() {
            assert!(!game.can_move_to_foundation(top));
        }
    }
    for cell in game.freecells.iter().flatten() {
        assert!(!game.can_move_to_foundation(cell));
    }
}

/// A small position with a block of three on cascade 0.
fn sample() -> Game {
    position(
        [
            &["9C", "6S", "5H", "4S"],
            &["7D"],
            &["5D"],
            &[],
            &["13S", "6H"],
            &["3C", "12D"],
            &[],
            &["8S", "2H"],
        ],
        [Some("5C"), None, Some("11H"), None],
        [0, 0, 0, 0],
    )
}

#[test]
fn generator_lists_moves_in_its_order() {
    let game = sample();
    let moves = game.get_all_possible_moves();
    // 2 empty freecells, 2 empty cascades: 12 cards onto cards, 6 onto an
    // empty cascade
    let free = ActionType::ColToFreecell;
    let out = ActionType::FreecellToCol;
    let expected = vec![
        // cascade 0: block 4S, 5H, 6S
        col_to_col(0, 1, 3),
        col_to_col(0, 2, 1),
        col_to_col(0, 3, 1),
        col_to_col(0, 3, 2),
        col_to_col(0, 3, 3),
        col_to_col(0, 6, 1),
        col_to_col(0, 6, 2),
        col_to_col(0, 6, 3),
        action(free, 0, 1, 1),
        // cascade 1: 7D alone is the whole cascade
        action(free, 1, 1, 1),
        // cascade 2: 5D alone
        action(free, 2, 1, 1),
        // cascade 3 is empty: both freecell cards may go there
        action(out, 0, 3, 1),
        action(out, 2, 3, 1),
        // cascade 4: 6H
        col_to_col(4, 3, 1),
        col_to_col(4, 6, 1),
        action(free, 4, 1, 1),
        action(out, 0, 4, 1),
        // cascade 5: 12D
        col_to_col(5, 3, 1),
        col_to_col(5, 6, 1),
        action(free, 5, 1, 1),
        action(out, 0, 6, 1),
        action(out, 2, 6, 1),
        // cascade 7: 2H
        col_to_col(7, 3, 1),
        col_to_col(7, 6, 1),
        action(free, 7, 1, 1),
    ];
    assert_eq!(moves, expected);
}

#[test]
fn generator_lists_foundation_moves_first() {
    let game = position(
        [&["9C", "1D"], &["2S"], &["1H"], &[], &[], &[], &[], &[]],
        [Some("1S"), Some("2H"), None, None],
        [0, 0, 0, 0],
    );
    let moves = game.get_all_possible_moves();
    let bank = ActionType::ColToFoundation;
    let cell_bank = ActionType::FreecellToFoundation;
    assert_eq!(moves[0], action(bank, 0, 0, 1));
    assert_eq!(moves[1], action(bank, 2, 3, 1));
    assert_eq!(moves[2], action(cell_bank, 0, 2, 1));
    assert!(moves[3..].iter().all(|m| m.action_type != bank && m.action_type != cell_bank));
}

#[test]
fn generator_is_a_function_of_the_position() {
    let game = Game::new(&generate_random_deck()).unwrap();
    assert_eq!(game.get_all_possible_moves(), game.get_all_possible_moves());
    assert_eq!(
        game.clone().get_all_possible_moves(),
        Solver::new(game.clone()).get_moves(&game)
    );
}

#[test]
fn generator_lists_no_move_twice() {
    let mut positions = vec![sample()];
    for _ in 0..20 {
        positions.push(Game::new(&generate_random_deck()).unwrap());
    }
    for game in positions {
        let moves = game.get_all_possible_moves();
        for i in 0..moves.len() {
            for j in 0..i {
                assert_ne!(moves[i], moves[j]);
            }
        }
    }
}

#[test]
fn generated_moves_are_accepted_and_keep_every_card() {
    for _ in 0..5 {
        let mut game = Game::new(&generate_random_deck()).unwrap();
        for step in 0..40 {
            let moves = game.get_all_possible_moves();
            if moves.is_empty() {
                break;
            }
            for m in &moves {
                let next = game.apply(m).unwrap();
                assert_every_card_once(&next);
                assert_nothing_to_promote(&next);
            }
            game = game.apply(&moves[(step * 7) % moves.len()]).unwrap();
        }
    }
}

#[test]
fn generator_takes_nothing_from_an_empty_cascade() {
    let game = sample();
    for m in game.get_all_possible_moves() {
        match m.action_type {
            ActionType::ColToCol | ActionType::ColToFreecell | ActionType::ColToFoundation => {
                assert!(m.source != 3 && m.source != 6);
            }
            _ => {}
        }
    }
    assert!(Game::empty().get_all_possible_moves().is_empty());
}

#[test]
fn empty_cascade_takes_any_pile_of_the_block_within_capacity() {
    // block of five on cascade 0, one empty freecell, two empty cascades:
    // onto an empty cascade (1 + 1) * 2 = 4 cards may go
    let game = position(
        [
            &["2C", "9S", "8H", "7S", "6H", "5S"],
            &["13D"],
            &["13C"],
            &["13H"],
            &["12D"],
            &["12C"],
            &[],
            &[],
        ],
        [Some("3C"), Some("3D"), Some("3S"), None],
        [0, 0, 0, 0],
    );
    assert_eq!(game.max_movable_sequence(true), 4);
    let onto_six: Vec<usize> = game
        .get_all_possible_moves()
        .into_iter()
        .filter(|m| m.action_type == ActionType::ColToCol && m.source == 0 && m.dest == 6)
        .map(|m| m.pile_size)
        .collect();
    assert_eq!(onto_six, vec![1, 2, 3, 4]);
}

#[test]
fn whole_cascade_is_not_moved_onto_an_empty_one() {
    let game = position(
        [&["7S", "6H", "5S"], &["13D"], &[], &[], &[], &[], &[], &[]],
        [None, None, None, None],
        [0, 0, 0, 0],
    );
    let moves = game.get_all_possible_moves();
    // cascade 0 is one block, cascade 1 a single card: neither goes onto
    // an empty cascade, with no pile size
    assert!(moves.iter().all(|m| m.action_type != ActionType::ColToCol));
    assert_eq!(
        moves,
        vec![
            action(ActionType::ColToFreecell, 0, 0, 1),
            action(ActionType::ColToFreecell, 1, 0, 1),
        ]
    );
}

#[test]
fn only_the_first_empty_freecell_is_offered() {
    let game = position(
        [&["7S"], &["9D"], &[], &[], &[], &[], &[], &[]],
        [Some("2C"), None, Some("4C"), None],
        [0, 0, 0, 0],
    );
    let into: Vec<Action> = game
        .get_all_possible_moves()
        .into_iter()
        .filter(|m| m.action_type == ActionType::ColToFreecell)
        .collect();
    assert_eq!(
        into,
        vec![
            action(ActionType::ColToFreecell, 0, 1, 1),
            action(ActionType::ColToFreecell, 1, 1, 1),
        ]
    );
    let full = position(
        [&["7S"], &["9D"], &[], &[], &[], &[], &[], &[]],
        [Some("2C"), Some("3C"), Some("4C"), Some("5C")],
        [0, 0, 0, 0],
    );
    assert!(full
        .get_all_possible_moves()
        .iter()
        .all(|m| m.action_type != ActionType::ColToFreecell));
}

#[test]
fn apply_moves_a_block_and_keeps_its_order() {
    let game = sample();
    let next = game.apply(&col_to_col(0, 1, 3)).unwrap();
    assert_eq!(next.columns[0], cards(&["9C"]));
    assert_eq!(next.columns[1], cards(&["7D", "6S", "5H", "4S"]));
    assert_eq!(next.columns[2], game.columns[2]);
    assert_eq!(next.freecells, game.freecells);
    assert_eq!(next.foundations, game.foundations);
    // the position it came from is as it was
    assert!(same(&game, &sample()));
}

#[test]
fn apply_moves_to_and_from_a_freecell() {
    let game = sample();
    let next = game.apply(&action(ActionType::ColToFreecell, 4, 3, 1)).unwrap();
    assert_eq!(next.columns[4], cards(&["13S"]));
    assert_eq!(next.freecells, [Some(card("5C")), None, Some(card("11H")), Some(card("6H"))]);
    let back = next.apply(&action(ActionType::FreecellToCol, 3, 6, 1)).unwrap();
    assert_eq!(back.columns[6], cards(&["6H"]));
    assert_eq!(back.freecells, [Some(card("5C")), None, Some(card("11H")), None]);
    let stacked = back.apply(&action(ActionType::FreecellToCol, 0, 6, 1)).unwrap();
    assert_eq!(stacked.columns[6], cards(&["6H", "5C"]));
}

#[test]
fn apply_runs_automatic_promotion() {
    let game = position(
        [&["2D", "9C"], &["1D", "3D"], &[], &[], &[], &[], &[], &[]],
        [None, None, None, None],
        [0, 0, 0, 0],
    );
    // 3D leaves cascade 1: 1D comes free and goes to its foundation
    let next = game.apply(&action(ActionType::ColToFreecell, 1, 0, 1)).unwrap();
    assert_eq!(next.foundations, [1, 0, 0, 0]);
    assert!(next.columns[1].is_empty());
    assert_eq!(next.freecells[0], Some(card("3D")));
    // 9C leaves cascade 0: 2D follows, then 3D out of the freecell
    let next = next.apply(&col_to_col(0, 1, 1)).unwrap();
    assert_eq!(next.foundations, [3, 0, 0, 0]);
    assert_eq!(next.columns[1], cards(&["9C"]));
    assert!(next.columns[0].is_empty());
    assert_eq!(next.freecells, [None, None, None, None]);
}

#[test]
fn apply_moves_to_a_foundation() {
    let game = position(
        [&["9C", "1D"], &[], &[], &[], &[], &[], &[], &[]],
        [Some("1S"), None, None, None],
        [0, 0, 0, 0],
    );
    let next = game.apply(&action(ActionType::ColToFoundation, 0, 0, 1)).unwrap();
    // the ace of spades in the freecell is promoted along
    assert_eq!(next.foundations, [1, 0, 1, 0]);
    assert_eq!(next.columns[0], cards(&["9C"]));
    let next = game.apply(&action(ActionType::FreecellToFoundation, 0, 2, 1)).unwrap();
    assert_eq!(next.foundations, [1, 0, 1, 0]);
    // the destination of a foundation move is implied by the card
    let next = game.apply(&action(ActionType::ColToFoundation, 0, 77, 1)).unwrap();
    assert_eq!(next.foundations, [1, 0, 1, 0]);
}

#[test]
fn apply_rejects_a_slot_that_does_not_exist() {
    let game = sample();
    let err = MoveError::NoSuchSlot;
    assert_eq!(game.apply(&col_to_col(8, 1, 1)).unwrap_err(), err);
    assert_eq!(game.apply(&col_to_col(0, 8, 1)).unwrap_err(), err);
    assert_eq!(game.apply(&action(ActionType::ColToFreecell, 0, 4, 1)).unwrap_err(), err);
    assert_eq!(game.apply(&action(ActionType::FreecellToCol, 4, 0, 1)).unwrap_err(), err);
    assert_eq!(game.apply(&action(ActionType::ColToFoundation, 8, 0, 1)).unwrap_err(), err);
    assert_eq!(game.apply(&action(ActionType::FreecellToFoundation, 4, 0, 1)).unwrap_err(), err);
    assert_eq!(game.apply(&col_to_col(usize::MAX, 0, usize::MAX)).unwrap_err(), err);
}

#[test]
fn apply_rejects_a_bad_pile_size() {
    let game = sample();
    let err = MoveError::BadPileSize;
    assert_eq!(game.apply(&col_to_col(0, 1, 0)).unwrap_err(), err);
    assert_eq!(game.apply(&action(ActionType::ColToFreecell, 0, 1, 2)).unwrap_err(), err);
    assert_eq!(game.apply(&action(ActionType::ColToFreecell, 0, 1, 0)).unwrap_err(), err);
    assert_eq!(game.apply(&action(ActionType::FreecellToCol, 0, 3, 2)).unwrap_err(), err);
    assert_eq!(game.apply(&action(ActionType::ColToFoundation, 0, 0, 3)).unwrap_err(), err);
    assert_eq!(game.apply(&action(ActionType::FreecellToFoundation, 0, 0, 0)).unwrap_err(), err);
}

#[test]
fn apply_rejects_more_cards_than_the_source_holds() {
    let game = sample();
    let err = MoveError::SourceTooShort;
    assert_eq!(game.apply(&col_to_col(0, 3, 5)).unwrap_err(), err);
    assert_eq!(game.apply(&col_to_col(3, 1, 1)).unwrap_err(), err);
    assert_eq!(game.apply(&action(ActionType::ColToFreecell, 3, 1, 1)).unwrap_err(), err);
    assert_eq!(game.apply(&action(ActionType::FreecellToCol, 1, 3, 1)).unwrap_err(), err);
    assert_eq!(game.apply(&action(ActionType::ColToFoundation, 6, 0, 1)).unwrap_err(), err);
    assert_eq!(game.apply(&action(ActionType::FreecellToFoundation, 3, 0, 1)).unwrap_err(), err);
}

#[test]
fn apply_rejects_what_the_destination_cannot_accept() {
    let game = sample();
    let err = MoveError::Refused;
    // 4S does not go on 7D
    assert_eq!(game.apply(&col_to_col(0, 1, 1)).unwrap_err(), err);
    // a cascade does not take its own cards
    assert_eq!(game.apply(&col_to_col(0, 0, 1)).unwrap_err(), err);
    // freecell 0 is occupied
    assert_eq!(game.apply(&action(ActionType::ColToFreecell, 0, 0, 1)).unwrap_err(), err);
    // 5C does not go on 7D
    assert_eq!(game.apply(&action(ActionType::FreecellToCol, 0, 1, 1)).unwrap_err(), err);
    // no foundation waits for 4S nor for 5C
    assert_eq!(game.apply(&action(ActionType::ColToFoundation, 0, 2, 1)).unwrap_err(), err);
    assert_eq!(game.apply(&action(ActionType::FreecellToFoundation, 0, 1, 1)).unwrap_err(), err);
}

#[test]
fn apply_rejects_a_card_for_a_full_foundation() {
    let game = position(
        [&["13D"], &[], &[], &[], &[], &[], &[], &[]],
        [None, None, None, None],
        [13, 13, 13, 13],
    );
    assert_eq!(
        game.apply(&action(ActionType::ColToFoundation, 0, 0, 1)).unwrap_err(),
        MoveError::Refused
    );
}

#[test]
fn solver_methods_agree_with_the_game() {
    let game = sample();
    let solver = Solver::new(Game::empty());
    let mut copy = game.clone();
    let m = col_to_col(0, 1, 3);
    let by_solver = solver.apply_move(&mut copy, &m).unwrap();
    assert!(same(&by_solver, &game.apply(&m).unwrap()));
    assert!(same(&copy, &game));
    assert_eq!(solver.apply_move(&game, &col_to_col(0, 1, 1)).unwrap_err(), MoveError::Refused);
    assert_eq!(solver.get_moves(&game), game.get_all_possible_moves());
}
