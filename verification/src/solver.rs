//! The solver: a best-first search from a starting position.

use std::collections::HashSet;
use vstd::prelude::*;
use crate::action::{Action, MoveError};
use crate::game::Game;
use crate::generator::MOST_MOVES;
use crate::heap::{Frontier, HeapNode};
use crate::heuristic::{
    buried_among,
    lemma_pairs_among_bound,
    lemma_pairs_among_monotone,
    stacked_among,
};
use crate::search::{
    child_of,
    expand,
    lemma_first_is_unique,
    lemma_pop_keeps_tidy,
    lemma_push_keeps_tidy,
    lemma_search_sound,
    run,
    search,
    start,
    tidy,
    Outcome,
    Search,
};

verus! {

/// A search bound to a starting position. After `solve`, `nodes_explored`
/// tells how many positions were taken off the frontier and
/// `visited_states` holds the hash of every position that was put on it.
pub struct Solver {
    pub initial_game: Game,
    pub visited_states: HashSet<u64>,
    pub nodes_explored: u64,
}

impl Solver {
    /// The state of the search that the solver, a frontier and the next
    /// counter make up together.
    pub open spec fn state(&self, frontier: &Frontier, counter: u64) -> Search {
        Search {
            frontier: frontier@,
            visited: self.visited_states@,
            counter: counter as int,
            explored: self.nodes_explored as int,
        }
    }

    /// How a search ended, as the solver and the path returned tell it.
    pub open spec fn found(&self, solution: Option<Vec<Action>>) -> Outcome {
        Outcome {
            path: match solution {
                Some(path) => Some(path@),
                None => None,
            },
            explored: self.nodes_explored as int,
            visited: self.visited_states@,
        }
    }

    /// Binds a starting position. Nothing is explored yet.
    pub fn new(game: Game) -> (solver: Solver)
        ensures
            solver.initial_game == game,
            solver.visited_states@ == Set::<u64>::empty(),
            solver.nodes_explored == 0,
    {
        Solver { initial_game: game, visited_states: HashSet::new(), nodes_explored: 0 }
    }

    /// The cost estimate of a position, lower is better: 10 for every card
    /// not yet on a foundation, 5 for every occupied freecell, 5 for every
    /// pair of neighbours in a cascade of which the lower has the smaller
    /// rank, less 3 for every pair of which the upper lies on the lower by
    /// the stacking rule.
    pub fn heuristic(&self, game: &Game) -> (estimate: i32)
        requires
            game@.card_count() <= 52,
        ensures
            estimate == game@.estimate(),
    {
        let mut stacked: i32 = 0;
        let mut buried: i32 = 0;
        let mut i: usize = 0;
        proof {
            lemma_pairs_among_bound(game@.columns, 8);
        }
        while i < 8
            invariant
                i <= 8,
                game@.shaped(),
                stacked == stacked_among(game@.columns, i as int),
                buried == buried_among(game@.columns, i as int),
                stacked_among(game@.columns, 8) <= 52,
                buried_among(game@.columns, 8) <= 52,
            decreases 8 - i,
        {
            let pairs = game.pairs_of(&game.columns[i]);
            proof {
                lemma_pairs_among_monotone(game@.columns, i + 1, 8);
            }
            stacked = stacked + pairs.0 as i32;
            buried = buried + pairs.1 as i32;
            i = i + 1;
        }
        let banked: i32 = game.foundations[0] as i32 + game.foundations[1] as i32
            + game.foundations[2] as i32 + game.foundations[3] as i32;
        assert(banked == game@.banked()) by {
            reveal_with_fuel(crate::board::banked_among, 5);
        }
        let occupied: i32 = 4 - game.count_free_cells() as i32;
        (52 - banked) * 10 - 3 * stacked + occupied * 5 + 5 * buried
    }

    /// Tries every move that the position of `node` offers: the position it
    /// leads to is dropped if its hash was seen before, else the hash is
    /// recorded and the position put on the frontier under the next counter.
    /// Returns the counter for the node after these.
    fn expand_node(&mut self, node: &HeapNode, frontier: &mut Frontier, counter: u64) -> (next: u64)
        requires
            node@.state.card_count() <= 52,
            node@.path.len() < old(self).nodes_explored <= u32::MAX,
            counter <= 1 + MOST_MOVES * (old(self).nodes_explored - 1),
            tidy(old(self).state(old(frontier), counter)),
        ensures
            final(self).initial_game == old(self).initial_game,
            final(self).nodes_explored == old(self).nodes_explored,
            next <= 1 + MOST_MOVES * old(self).nodes_explored,
            tidy(final(self).state(final(frontier), next)),
            final(self).state(final(frontier), next) == expand(
                old(self).state(old(frontier), counter),
                node@,
                node@.state.legal_moves(),
                0,
            ),
    {
        broadcast use vstd::std_specs::hash::group_hash_axioms;

        let ghost popped = self.state(&*frontier, counter);
        let moves = node.state.get_all_possible_moves();
        proof {
            node@.state.lemma_legal_moves();
        }
        let mut counter = counter;
        let mut k: usize = 0;
        while k < moves.len()
            invariant
                self.initial_game == old(self).initial_game,
                self.nodes_explored == old(self).nodes_explored,
                k <= moves@.len(),
                moves@ == node@.state.legal_moves(),
                moves@.len() <= MOST_MOVES,
                forall|a: Action| #[trigger]
                    node@.state.legal_moves().contains(a) <==> node@.state.generates(a),
                node@.state.shaped(),
                node@.state.card_count() <= 52,
                node@.path.len() < self.nodes_explored <= u32::MAX,
                counter <= 1 + MOST_MOVES * (self.nodes_explored - 1) + k,
                popped.explored == self.nodes_explored,
                tidy(self.state(&*frontier, counter)),
                expand(self.state(&*frontier, counter), node@, moves@, k as int) == expand(
                    popped,
                    node@,
                    moves@,
                    0,
                ),
            decreases moves@.len() - k,
        {
            let ghost before = self.state(&*frontier, counter);
            let m = moves[k];
            proof {
                assert(moves@.contains(m));
                node@.state.lemma_generated_is_accepted(m);
                node@.state.lemma_applied_counts(m);
            }
            match node.state.apply(&m) {
                Ok(next) => {
                    let hash = next.hash_key();
                    if self.visited_states.insert(hash) {
                        let mut path = node.path.clone();
                        path.push(m);
                        let steps = path.len() as i64;
                        let score = steps + self.heuristic(&next) as i64;
                        let child = HeapNode { f_score: score, counter, state: next, path };
                        proof {
                            assert(child@ == child_of(node@, m, counter as int));
                            lemma_push_keeps_tidy(before, child@, hash);
                        }
                        frontier.push(child);
                        counter = counter + 1;
                    } else {
                        assert(self.visited_states@ =~= before.visited);
                    }
                },
                Err(_) => {
                    assert(false);
                },
            }
            k = k + 1;
        }
        counter
    }

    /// Searches for a way to win from the starting position, best first,
    /// and stops when a won position comes off the frontier, when the
    /// frontier is empty, or when `max_nodes` positions have been taken off
    /// it. Each call starts afresh. The path returned, played from the
    /// starting position, wins the game.
    pub fn solve(&mut self, max_nodes: u32) -> (solution: Option<Vec<Action>>)
        requires
            old(self).initial_game@.card_count() <= 52,
        ensures
            final(self).initial_game == old(self).initial_game,
            final(self).found(solution) == search(old(self).initial_game@, max_nodes as int),
            final(self).nodes_explored <= max_nodes,
            solution matches Some(path) ==> old(self).initial_game@.won_by(path@),
    {
        broadcast use vstd::std_specs::hash::group_hash_axioms;
        broadcast use vstd::multiset::group_multiset_axioms;

        let ghost initial = self.initial_game@;
        let ghost budget = max_nodes as int;
        proof {
            lemma_search_sound(initial, budget);
        }
        self.visited_states = HashSet::new();
        self.nodes_explored = 0;
        let mut frontier = Frontier::new();
        let estimate = self.heuristic(&self.initial_game);
        let root = HeapNode {
            f_score: estimate as i64,
            counter: 0,
            state: self.initial_game.clone(),
            path: Vec::new(),
        };
        frontier.push(root);
        let mut counter: u64 = 1;
        let hash = self.initial_game.hash_key();
        self.visited_states.insert(hash);
        assert(self.visited_states@ =~= start(initial).visited);
        assert(root@.path =~= Seq::<Action>::empty());
        assert(frontier@ =~= start(initial).frontier);
        loop
            invariant
                self.initial_game == old(self).initial_game,
                initial == old(self).initial_game@,
                budget == max_nodes as int,
                self.nodes_explored <= max_nodes,
                counter <= 1 + MOST_MOVES * self.nodes_explored,
                search(initial, budget).path matches Some(path) ==> initial.won_by(path),
                tidy(self.state(&frontier, counter)),
                run(self.state(&frontier, counter), budget) == search(initial, budget),
            decreases max_nodes - self.nodes_explored,
        {
            let ghost s = self.state(&frontier, counter);
            if self.nodes_explored >= max_nodes as u64 {
                return None;
            }
            let node = match frontier.pop_min() {
                Some(node) => node,
                None => {
                    return None;
                },
            };
            self.nodes_explored = self.nodes_explored + 1;
            proof {
                lemma_first_is_unique(s, node@);
                assert(s.frontier.len() > 0);
                lemma_pop_keeps_tidy(s, node@);
            }
            if node.state.is_won() {
                return Some(node.path);
            }
            counter = self.expand_node(&node, &mut frontier, counter);
        }
    }

    /// Every move that a position offers; see `Game::get_all_possible_moves`.
    pub fn get_moves(&self, game: &Game) -> (moves: Vec<Action>)
        ensures
            moves@ == game@.legal_moves(),
    {
        game.get_all_possible_moves()
    }

    /// Applies a move to a position; see `Game::apply`.
    pub fn apply_move(&self, game: &Game, action: &Action) -> (outcome: Result<Game, MoveError>)
        ensures
            match outcome {
                Ok(next) => game@.refusal(*action) is None && next@ == game@.applied(*action),
                Err(reason) => game@.refusal(*action) == Some(reason),
            },
            outcome is Ok && game@.conserving() ==> outcome->Ok_0@.valid(),
    {
        game.apply(action)
    }
}

} // verus!
