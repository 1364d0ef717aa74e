use freecell_solver::action::{Action, ActionType};
use freecell_solver::game::Game;
use freecell_solver::heap::{Frontier, HeapNode};

fn node(f_score: i64, counter: u64) -> HeapNode {
    HeapNode { f_score, counter, state: Game::empty(), path: Vec::new() }
}

fn drain(frontier: &mut Frontier) -> Vec<(i64, u64)> {
    let mut out = Vec::new();
    while let Some(n) = frontier.pop_min() {
        out.push((n.f_score, n.counter));
    }
    out
}

#[test]
fn empty_frontier_gives_nothing() {
    let mut frontier = Frontier::new();
    assert_eq!(frontier.len(), 0);
    assert!(frontier.pop_min().is_none());
    assert_eq!(frontier.len(), 0);
}

#[test]
fn lowest_score_comes_first() {
    let mut frontier = Frontier::new();
    for (i, f) in [50i64, 10, 40, -3, 20, 30].iter().enumerate() {
        frontier.push(node(*f, i as u64));
    }
    assert_eq!(frontier.len(), 6);
    assert_eq!(drain(&mut frontier), vec![(-3, 3), (10, 1), (20, 4), (30, 5), (40, 2), (50, 0)]);
    assert_eq!(frontier.len(), 0);
}

#[test]
fn equal_scores_come_in_order_of_counter() {
    let mut frontier = Frontier::new();
    frontier.push(node(7, 3));
    frontier.push(node(7, 1));
    frontier.push(node(5, 4));
    frontier.push(node(7, 0));
    frontier.push(node(7, 2));
    assert_eq!(drain(&mut frontier), vec![(5, 4), (7, 0), (7, 1), (7, 2), (7, 3)]);
}

#[test]
fn pushes_and_pops_may_alternate() {
    let mut frontier = Frontier::new();
    frontier.push(node(9, 0));
    frontier.push(node(4, 1));
    assert_eq!(frontier.pop_min().map(|n| n.counter), Some(1));
    frontier.push(node(1, 2));
    frontier.push(node(12, 3));
    assert_eq!(frontier.len(), 3);
    assert_eq!(frontier.pop_min().map(|n| n.counter), Some(2));
    assert_eq!(frontier.pop_min().map(|n| n.counter), Some(0));
    frontier.push(node(-100, 4));
    assert_eq!(drain(&mut frontier), vec![(-100, 4), (12, 3)]);
}

#[test]
fn many_nodes_come_out_sorted() {
    let mut frontier = Frontier::new();
    let mut expected = Vec::new();
    let mut x: u64 = 12345;
    for counter in 0..2000u64 {
        x = x.wrapping_mul(6364136223846793005).wrapping_add(1442695040888963407);
        let f = ((x >> 33) % 50) as i64 - 25;
        frontier.push(node(f, counter));
        expected.push((f, counter));
    }
    expected.sort();
    assert_eq!(frontier.len(), 2000);
    assert_eq!(drain(&mut frontier), expected);
}

#[test]
fn popped_node_keeps_its_state_and_path() {
    let step = Action { action_type: ActionType::ColToCol, source: 1, dest: 2, pile_size: 3 };
    let mut game = Game::empty();
    game.foundations = [1, 2, 3, 4];
    let mut frontier = Frontier::new();
    frontier.push(node(8, 0));
    frontier.push(HeapNode { f_score: 2, counter: 1, state: game, path: vec![step] });
    frontier.push(node(5, 2));
    let first = frontier.pop_min().unwrap();
    assert_eq!(first.f_score, 2);
    assert_eq!(first.state.foundations, [1, 2, 3, 4]);
    assert_eq!(first.path, vec![step]);
}

#[test]
fn precedes_orders_by_score_then_counter() {
    assert!(node(1, 9).precedes(&node(2, 0)));
    assert!(!node(2, 0).precedes(&node(1, 9)));
    assert!(node(3, 1).precedes(&node(3, 2)));
    assert!(!node(3, 2).precedes(&node(3, 1)));
    assert!(node(3, 2).precedes(&node(3, 2)));
    assert!(node(-5, 7).precedes(&node(0, 0)));
}
