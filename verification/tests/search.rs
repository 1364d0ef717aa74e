use freecell_solver::action::{Action, ActionType};
use freecell_solver::card::{Card, Suit};
use freecell_solver::deck::ordered_deck;
use freecell_solver::game::Game;
use freecell_solver::solver::Solver;
use rand::rngs::StdRng;
use rand::seq::SliceRandom;
use rand::SeedableRng;

const SUITS: [Suit; 4] = [Suit::Diamond, Suit::Club, Suit::Spade, Suit::Heart];

fn card(text: &str) -> Card {
    Card::parse(text).unwrap()
}

fn cards(texts: &[&str]) -> Vec<Card> {
    texts.iter().map(|t| card(t)).collect()
}

fn position(columns: [&[&str]; 8], cells: [Option<&str>; 4], foundations: [u8; 4]) -> Game {
    Game {
        columns: columns.map(cards),
        freecells: cells.map(|c| c.map(card)),
        foundations,
    }
}

/// The deal of a number in the numbering that many FreeCell programs share.
fn numbered_deal(number: u32) -> Vec<Card> {
    let mut state: u64 = number as u64;
    let mut left: Vec<u32> = (0..52).collect();
    let mut deal = Vec::new();
    for i in 0..52usize {
        state = (state * 214013 + 2531011) % 2147483648;
        let j = ((state >> 16) as usize) % (52 - i);
        let c = left[j];
        left[j] = left[51 - i];
        let suit = match c % 4 {
            0 => Suit::Club,
            1 => Suit::Diamond,
            2 => Suit::Heart,
            _ => Suit::Spade,
        };
        deal.push(Card { rank: (c / 4 + 1) as u8, suit });
    }
    deal
}

fn shuffled(seed: u64) -> Vec<Card> {
    let mut deck = ordered_deck();
    deck.shuffle(&mut StdRng::seed_from_u64(seed));
    deck
}

fn replay(start: &Game, path: &[Action]) -> Game {
    let mut game = start.clone();
    for m in path {
        assert!(game.get_all_possible_moves().contains(m));
        game = game.apply(m).unwrap();
    }
    game
}

#[test]
fn heuristic_weighs_cards_left_cells_and_pairs() {
    let solver = Solver::new(Game::empty());
    // nothing banked, nothing on the board, all freecells empty
    assert_eq!(solver.heuristic(&Game::empty()), 520);
    let game = position(
        [&["5H", "4S"], &["3C", "9D"], &["7D", "7S", "2H"], &[], &[], &[], &[], &[]],
        [Some("6C"), None, None, None],
        [1, 0, 2, 0],
    );
    // 49 cards left: 490; one stacked pair (4S on 5H): -3; one occupied
    // freecell: +5; one buried pair (3C under 9D): +5
    assert_eq!(solver.heuristic(&game), 490 - 3 + 5 + 5);
    let mut won = Game::empty();
    won.foundations = [13; 4];
    assert_eq!(solver.heuristic(&won), 0);
}

#[test]
fn heuristic_counts_every_pair_of_neighbours() {
    let solver = Solver::new(Game::empty());
    let game = position(
        [
            &["9S", "8H", "7S", "6H"],
            &["2C", "3C", "4C", "5C"],
            &["10D", "9C", "13H"],
            &[],
            &[],
            &[],
            &[],
            &[],
        ],
        [Some("1D"), Some("1C"), Some("1S"), Some("1H")],
        [0, 0, 0, 0],
    );
    // stacked: 3 in cascade 0, 1 in cascade 2; buried: 3 in cascade 1, 1 in
    // cascade 2; four occupied freecells
    assert_eq!(solver.heuristic(&game), 520 - 3 * 4 + 20 + 5 * 4);
}

#[test]
fn already_won_is_solved_after_one_expansion() {
    let mut game = Game::empty();
    game.foundations = [13, 13, 13, 13];
    for budget in [1u32, 2, 10, 1_000_000, u32::MAX] {
        let mut solver = Solver::new(game.clone());
        assert_eq!(solver.solve(budget), Some(vec![]));
        assert_eq!(solver.nodes_explored, 1);
        assert_eq!(solver.visited_states.len(), 1);
        assert!(solver.visited_states.contains(&game.hash_key()));
    }
}

#[test]
fn without_budget_nothing_is_explored() {
    let mut game = Game::empty();
    game.foundations = [13, 13, 13, 13];
    let mut solver = Solver::new(game);
    assert_eq!(solver.solve(0), None);
    assert_eq!(solver.nodes_explored, 0);
}

#[test]
fn one_move_wins() {
    let game = position(
        [&["13D"], &[], &[], &[], &[], &[], &[], &[]],
        [None, None, None, None],
        [12, 13, 13, 13],
    );
    let mut solver = Solver::new(game.clone());
    let path = solver.solve(100).unwrap();
    assert_eq!(
        path,
        vec![Action { action_type: ActionType::ColToFoundation, source: 0, dest: 0, pile_size: 1 }]
    );
    assert_eq!(solver.nodes_explored, 2);
    assert!(replay(&game, &path).is_won());
}

#[test]
fn one_move_wins_after_promotion() {
    // 12D lies under 13S; once 13S is out of the way both suits run out
    let game = position(
        [&["12D", "13S"], &["13D"], &[], &[], &[], &[], &[], &[]],
        [None, None, None, None],
        [11, 13, 12, 13],
    );
    let mut solver = Solver::new(game.clone());
    let path = solver.solve(100).unwrap();
    assert_eq!(path.len(), 1);
    assert!(replay(&game, &path).is_won());
}

#[test]
fn dead_end_exhausts_the_frontier() {
    // freecells full, and no top goes anywhere: kings, and red nines and
    // sevens that find no black ten or eight
    let game = position(
        [
            &["2D", "13D"],
            &["2C", "13C"],
            &["2S", "13S"],
            &["2H", "13H"],
            &["3D", "9D"],
            &["3C", "9H"],
            &["3S", "7D"],
            &["3H", "7H"],
        ],
        [Some("4D"), Some("4C"), Some("4S"), Some("4H")],
        [1, 1, 1, 1],
    );
    assert!(game.get_all_possible_moves().is_empty());
    let mut solver = Solver::new(game);
    assert_eq!(solver.solve(1000), None);
    assert_eq!(solver.nodes_explored, 1);
    assert_eq!(solver.visited_states.len(), 1);
}

#[test]
fn deal_with_aces_on_top_needs_no_move() {
    let deal: Vec<Card> =
        (0..52).map(|i| Card { rank: (13 - i / 4) as u8, suit: SUITS[i % 4] }).collect();
    let game = Game::new(&deal).unwrap();
    let mut solver = Solver::new(game.clone());
    let path = solver.solve(1000).unwrap();
    assert!(path.len() <= 20);
    assert!(solver.nodes_explored <= 36);
    assert_eq!(path, vec![]);
    assert_eq!(solver.nodes_explored, 1);
    assert!(replay(&game, &path).is_won());
}

#[test]
fn nearly_ordered_deal_is_solved_in_a_few_moves() {
    // as above, but the ace of diamonds lies under the three
    let mut deal: Vec<Card> =
        (0..52).map(|i| Card { rank: (13 - i / 4) as u8, suit: SUITS[i % 4] }).collect();
    deal.swap(40, 48);
    let game = Game::new(&deal).unwrap();
    // the other three suits are promoted away at once
    assert_eq!(game.foundations, [0, 13, 13, 13]);
    assert_eq!(game.columns[0], cards(&["13D", "11D", "9D", "7D", "5D", "1D", "3D"]));
    assert_eq!(game.columns[4], cards(&["12D", "10D", "8D", "6D", "4D", "2D"]));
    let mut solver = Solver::new(game.clone());
    let path = solver.solve(10_000).unwrap();
    assert_eq!(path.len(), 1);
    assert_eq!(path[0].source, 0);
    assert!(solver.nodes_explored <= 36);
    assert!(replay(&game, &path).is_won());
}

#[test]
fn budget_cuts_the_search_off() {
    let game = Game::new(&shuffled(2024)).unwrap();
    let mut solver = Solver::new(game);
    assert_eq!(solver.solve(10), None);
    assert_eq!(solver.nodes_explored, 10);
    assert!(solver.visited_states.len() > 10);
}

#[test]
fn numbered_deals_are_solved_and_the_path_replays_to_a_win() {
    for number in [1u32, 2, 3, 5, 7, 11, 164, 25904] {
        let game = Game::new(&numbered_deal(number)).unwrap();
        let mut solver = Solver::new(game.clone());
        let path = solver.solve(1_000_000).unwrap();
        assert!(solver.nodes_explored <= 1_000_000);
        assert!(replay(&game, &path).is_won());
        assert!(path.len() as u64 <= solver.nodes_explored);
    }
}

#[test]
fn solve_gives_the_same_answer_every_time() {
    let game = Game::new(&numbered_deal(7)).unwrap();
    let mut first = Solver::new(game.clone());
    let mut second = Solver::new(game.clone());
    let path = first.solve(100_000);
    assert_eq!(path, second.solve(100_000));
    assert_eq!(first.nodes_explored, second.nodes_explored);
    assert_eq!(first.visited_states, second.visited_states);
    // a second call on the same solver starts afresh
    assert_eq!(first.solve(100_000), path);
    assert_eq!(first.nodes_explored, second.nodes_explored);
    assert_eq!(first.visited_states, second.visited_states);
    // and a smaller budget stops the same search earlier
    assert_eq!(first.solve(20), None);
    assert_eq!(first.nodes_explored, 20);
}

#[test]
fn solve_leaves_the_starting_position_alone() {
    let game = Game::new(&numbered_deal(3)).unwrap();
    let mut solver = Solver::new(game.clone());
    solver.solve(1000);
    assert_eq!(solver.initial_game.columns, game.columns);
    assert_eq!(solver.initial_game.freecells, game.freecells);
    assert_eq!(solver.initial_game.foundations, game.foundations);
}

#[test]
fn new_solver_has_explored_nothing() {
    let game = Game::new(&numbered_deal(1)).unwrap();
    let solver = Solver::new(game.clone());
    assert_eq!(solver.nodes_explored, 0);
    assert!(solver.visited_states.is_empty());
    assert_eq!(solver.initial_game.columns, game.columns);
}

#[test]
fn ascending_deal_offers_only_moves_of_its_layout() {
    // 1D 1C 1S 1H 2D 2C 2S 2H ... dealt round-robin: the aces lie at the
    // bottom of cascades 0 to 3, so nothing is promoted
    let deal: Vec<Card> =
        (0..52).map(|i| Card { rank: (i / 4 + 1) as u8, suit: SUITS[i % 4] }).collect();
    let game = Game::new(&deal).unwrap();
    assert_eq!(game.foundations, [0, 0, 0, 0]);
    assert_eq!(game.cards_on_board(), Some(52));
    let moves = game.get_all_possible_moves();
    // tops are the four kings and the four queens, all of one suit per
    // cascade: a red queen goes on either black king and a black queen on
    // either red king; every top may go to the first freecell
    let expected_en_route: Vec<(usize, usize)> =
        vec![(4, 1), (4, 2), (5, 0), (5, 3), (6, 0), (6, 3), (7, 1), (7, 2)];
    let between: Vec<(usize, usize)> = moves
        .iter()
        .filter(|m| m.action_type == ActionType::ColToCol)
        .map(|m| (m.source, m.dest))
        .collect();
    assert_eq!(between, expected_en_route);
    assert_eq!(moves.len(), 8 + 8);
    for m in &moves {
        assert_eq!(m.pile_size, 1);
        assert!(m.source < 8);
        let top = *game.columns[m.source].last().unwrap();
        let next = game.apply(m).unwrap();
        match m.action_type {
            ActionType::ColToCol => assert_eq!(*next.columns[m.dest].last().unwrap(), top),
            ActionType::ColToFreecell => {
                assert_eq!(m.dest, 0);
                assert_eq!(next.freecells[0], Some(top));
            }
            _ => panic!("no other move exists here"),
        }
    }
}
