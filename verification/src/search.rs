//! The best-first search on the model: the state of a search, one
//! expansion, the whole run, and what holds of the path it returns.

use vstd::multiset::Multiset;
use vstd::prelude::*;
use crate::action::Action;
use crate::board::Board;
use crate::heap::{comes_before, Node};

verus! {

/// The state of a search between two expansions.
pub struct Search {
    /// The nodes waiting to be expanded.
    pub frontier: Multiset<Node>,
    /// The hashes of all positions that were ever put on the frontier.
    pub visited: Set<u64>,
    /// The number of nodes put on the frontier so far; the next node gets
    /// it as its counter.
    pub counter: int,
    /// The number of nodes taken off the frontier so far.
    pub explored: int,
}

/// How a search ends: the path found, if any, the number of nodes taken off
/// the frontier, and the hashes of the positions seen.
pub struct Outcome {
    pub path: Option<Seq<Action>>,
    pub explored: int,
    pub visited: Set<u64>,
}

/// Whether `node` is on the frontier and comes before every node on it.
pub open spec fn is_first(frontier: Multiset<Node>, node: Node) -> bool {
    frontier.contains(node) && forall|other: Node| #[trigger]
        frontier.contains(other) ==> comes_before(node, other)
}

/// The node that is taken off a frontier next.
pub open spec fn first_of(frontier: Multiset<Node>) -> Node {
    choose|node: Node| is_first(frontier, node)
}

/// The node under which a position reached by `m` from `parent` is put on
/// the frontier: its score is the length of its path plus its estimate.
pub open spec fn child_of(parent: Node, m: Action, counter: int) -> Node {
    let state = parent.state.applied(m);
    Node {
        f_score: parent.path.len() + 1 + state.estimate(),
        counter,
        state,
        path: parent.path.push(m),
    }
}

/// The search state after the moves from index `k` on have been tried on
/// the position of `parent`: each leads to a position; if its hash was seen
/// before it is dropped, else the hash is recorded and the position put on
/// the frontier under the next counter.
pub open spec fn expand(s: Search, parent: Node, moves: Seq<Action>, k: int) -> Search
    decreases moves.len() - k,
{
    if k < 0 || k >= moves.len() {
        s
    } else {
        let hash = parent.state.applied(moves[k]).hash();
        if s.visited.contains(hash) {
            expand(s, parent, moves, k + 1)
        } else {
            expand(
                Search {
                    frontier: s.frontier.insert(child_of(parent, moves[k], s.counter)),
                    visited: s.visited.insert(hash),
                    counter: s.counter + 1,
                    explored: s.explored,
                },
                parent,
                moves,
                k + 1,
            )
        }
    }
}

/// The search state in which a search starts: the starting position alone
/// on the frontier, under counter 0 and with an empty path, and its hash
/// seen.
pub open spec fn start(initial: Board) -> Search {
    Search {
        frontier: Multiset::empty().insert(
            Node { f_score: initial.estimate(), counter: 0, state: initial, path: Seq::empty() },
        ),
        visited: Set::empty().insert(initial.hash()),
        counter: 1,
        explored: 0,
    }
}

/// The search from a state on: while the frontier holds a node and the
/// budget is not used up, the first node is taken off; if its position is
/// won its path is the result, else it is expanded by the moves that its
/// position offers.
pub open spec fn run(s: Search, budget: int) -> Outcome
    decreases budget - s.explored,
    via run_terminates
{
    if s.frontier.len() == 0 || s.explored >= budget {
        Outcome { path: None, explored: s.explored, visited: s.visited }
    } else {
        let node = first_of(s.frontier);
        let popped = Search {
            frontier: s.frontier.remove(node),
            explored: s.explored + 1,
            ..s
        };
        if node.state.won() {
            Outcome { path: Some(node.path), explored: popped.explored, visited: popped.visited }
        } else {
            run(expand(popped, node, node.state.legal_moves(), 0), budget)
        }
    }
}

#[via_fn]
proof fn run_terminates(s: Search, budget: int) {
    if !(s.frontier.len() == 0 || s.explored >= budget) {
        let node = first_of(s.frontier);
        let popped = Search {
            frontier: s.frontier.remove(node),
            explored: s.explored + 1,
            ..s
        };
        lemma_expand_steady(popped, node, node.state.legal_moves(), 0);
    }
}

/// What a search from a position finds within a budget of expansions.
pub open spec fn search(initial: Board, budget: int) -> Outcome {
    run(start(initial), budget)
}

/// What holds of a search state between expansions and lets the search
/// run on the machine: every position on the frontier is a board of at most
/// 52 cards, no path is longer than the number of expansions, and the
/// counters on the frontier are distinct and below the next one.
pub open spec fn tidy(s: Search) -> bool {
    &&& forall|n: Node| #[trigger]
        s.frontier.contains(n) ==> n.state.shaped() && n.state.card_count() <= 52 && n.path.len()
            <= s.explored && 0 <= n.counter < s.counter
    &&& forall|n: Node, m: Node|
        #![trigger s.frontier.contains(n), s.frontier.contains(m)]
        s.frontier.contains(n) && s.frontier.contains(m) && n.counter == m.counter ==> n == m
}

/// What is on a frontier after a node has been taken off was on it before.
pub proof fn lemma_remove_contains(frontier: Multiset<Node>, taken: Node, other: Node)
    requires
        frontier.remove(taken).contains(other),
    ensures
        frontier.contains(other),
{
    broadcast use vstd::multiset::group_multiset_axioms;

}

/// What is on a frontier after a node has been put on it is that node or
/// was on it before.
pub proof fn lemma_insert_contains(frontier: Multiset<Node>, put: Node, other: Node)
    ensures
        frontier.insert(put).contains(other) <==> other == put || frontier.contains(other),
{
    broadcast use vstd::multiset::group_multiset_axioms;

}

/// Taking the first node off a tidy frontier and counting the expansion
/// leaves the search state tidy.
pub proof fn lemma_pop_keeps_tidy(s: Search, node: Node)
    requires
        tidy(s),
        s.frontier.contains(node),
    ensures
        tidy(Search { frontier: s.frontier.remove(node), explored: s.explored + 1, ..s }),
{
    let popped = Search { frontier: s.frontier.remove(node), explored: s.explored + 1, ..s };
    assert forall|n: Node| #[trigger] popped.frontier.contains(n) implies n.state.shaped()
        && n.state.card_count() <= 52 && n.path.len() <= popped.explored && 0 <= n.counter
        < popped.counter by {
        lemma_remove_contains(s.frontier, node, n);
    }
    assert forall|n: Node, m: Node|
        #![trigger popped.frontier.contains(n), popped.frontier.contains(m)]
        popped.frontier.contains(n) && popped.frontier.contains(m) && n.counter
            == m.counter implies n == m by {
        lemma_remove_contains(s.frontier, node, n);
        lemma_remove_contains(s.frontier, node, m);
    }
}

/// Putting a node on a tidy frontier under the next counter leaves the
/// search state tidy, if its position is a board of at most 52 cards and its
/// path no longer than the number of expansions.
pub proof fn lemma_push_keeps_tidy(s: Search, child: Node, hash: u64)
    requires
        tidy(s),
        child.state.shaped(),
        child.state.card_count() <= 52,
        child.path.len() <= s.explored,
        child.counter == s.counter,
        s.counter >= 0,
    ensures
        tidy(
            Search {
                frontier: s.frontier.insert(child),
                visited: s.visited.insert(hash),
                counter: s.counter + 1,
                explored: s.explored,
            },
        ),
{
    let pushed = Search {
        frontier: s.frontier.insert(child),
        visited: s.visited.insert(hash),
        counter: s.counter + 1,
        explored: s.explored,
    };
    assert forall|n: Node| #[trigger] pushed.frontier.contains(n) implies n.state.shaped()
        && n.state.card_count() <= 52 && n.path.len() <= pushed.explored && 0 <= n.counter
        < pushed.counter by {
        lemma_insert_contains(s.frontier, child, n);
    }
    assert forall|n: Node, m: Node|
        #![trigger pushed.frontier.contains(n), pushed.frontier.contains(m)]
        pushed.frontier.contains(n) && pushed.frontier.contains(m) && n.counter
            == m.counter implies n == m by {
        lemma_insert_contains(s.frontier, child, n);
        lemma_insert_contains(s.frontier, child, m);
    }
}

/// On a frontier with distinct counters the node that comes first is
/// unique.
pub proof fn lemma_first_is_unique(s: Search, node: Node)
    requires
        tidy(s),
        is_first(s.frontier, node),
    ensures
        first_of(s.frontier) == node,
{
    let chosen = first_of(s.frontier);
    assert(is_first(s.frontier, chosen));
    assert(comes_before(chosen, node));
    assert(comes_before(node, chosen));
}

/// Expanding a node takes no node off the frontier, forgets no hash and
/// hands out counters in order.
pub proof fn lemma_expand_steady(s: Search, parent: Node, moves: Seq<Action>, k: int)
    ensures
        expand(s, parent, moves, k).explored == s.explored,
        expand(s, parent, moves, k).counter >= s.counter,
        s.visited.subset_of(expand(s, parent, moves, k).visited),
    decreases moves.len() - k,
{
    if 0 <= k < moves.len() {
        let hash = parent.state.applied(moves[k]).hash();
        if s.visited.contains(hash) {
            lemma_expand_steady(s, parent, moves, k + 1);
        } else {
            lemma_expand_steady(
                Search {
                    frontier: s.frontier.insert(child_of(parent, moves[k], s.counter)),
                    visited: s.visited.insert(hash),
                    counter: s.counter + 1,
                    explored: s.explored,
                },
                parent,
                moves,
                k + 1,
            );
        }
    }
}

/// On a frontier that holds a node, some node comes before every other.
pub proof fn lemma_has_first(frontier: Multiset<Node>)
    requires
        frontier.len() > 0,
    ensures
        exists|node: Node| is_first(frontier, node),
    decreases frontier.len(),
{
    broadcast use vstd::multiset::group_multiset_axioms;

    let x = frontier.choose();
    let rest = frontier.remove(x);
    assert(frontier.count(x) > 0);
    assert(rest.len() == frontier.len() - 1);
    if rest.len() == 0 {
        assert forall|other: Node| #[trigger] frontier.contains(other) implies comes_before(
            x,
            other,
        ) by {
            if other != x {
                assert(rest.count(other) == frontier.count(other));
                assert(rest.count(other) <= rest.len());
            }
        }
        assert(is_first(frontier, x));
    } else {
        lemma_has_first(rest);
        let y = choose|node: Node| is_first(rest, node);
        let best = if comes_before(x, y) {
            x
        } else {
            y
        };
        assert(frontier.contains(best)) by {
            lemma_remove_contains(frontier, x, y);
        }
        assert forall|other: Node| #[trigger] frontier.contains(other) implies comes_before(
            best,
            other,
        ) by {
            if other != x {
                assert(rest.count(other) == frontier.count(other));
                assert(rest.contains(other));
                assert(comes_before(y, other));
            }
        }
        assert(is_first(frontier, best));
    }
}

/// Whether a path leads from the starting position to the position of a
/// node by moves that the generator offers.
pub open spec fn leads_to(initial: Board, path: Seq<Action>, state: Board) -> bool {
    state.shaped() && initial.offers(path) && initial.replay(path) == Some(state)
}

/// Every node on the frontier carries the path that leads from the
/// starting position to its own.
pub open spec fn traced(initial: Board, s: Search) -> bool {
    forall|n: Node| #[trigger] s.frontier.contains(n) ==> leads_to(initial, n.path, n.state)
}

/// Expanding a node by moves that its position offers keeps every path on
/// the frontier true.
pub proof fn lemma_expand_traced(
    initial: Board,
    s: Search,
    parent: Node,
    moves: Seq<Action>,
    k: int,
)
    requires
        traced(initial, s),
        leads_to(initial, parent.path, parent.state),
        0 <= k,
        forall|j: int| k <= j < moves.len() ==> parent.state.generates(#[trigger] moves[j]),
    ensures
        traced(initial, expand(s, parent, moves, k)),
    decreases moves.len() - k,
{
    if k < moves.len() {
        let m = moves[k];
        let hash = parent.state.applied(m).hash();
        if s.visited.contains(hash) {
            lemma_expand_traced(initial, s, parent, moves, k + 1);
        } else {
            let child = child_of(parent, m, s.counter);
            let pushed = Search {
                frontier: s.frontier.insert(child),
                visited: s.visited.insert(hash),
                counter: s.counter + 1,
                explored: s.explored,
            };
            parent.state.lemma_generated_is_accepted(m);
            parent.state.lemma_applied_counts(m);
            assert(child.path.drop_last() =~= parent.path);
            assert(child.path.last() == m);
            assert(leads_to(initial, child.path, child.state));
            assert forall|n: Node| #[trigger] pushed.frontier.contains(n) implies leads_to(
                initial,
                n.path,
                n.state,
            ) by {
                lemma_insert_contains(s.frontier, child, n);
            }
            lemma_expand_traced(initial, pushed, parent, moves, k + 1);
        }
    }
}

/// A path that a run returns leads from the starting position to a won
/// one, if every path on the frontier is true to begin with.
pub proof fn lemma_run_sound(initial: Board, s: Search, budget: int)
    requires
        traced(initial, s),
    ensures
        run(s, budget).path matches Some(path) ==> initial.won_by(path),
        s.explored <= budget ==> s.explored <= run(s, budget).explored <= budget,
        s.explored > budget ==> run(s, budget).explored == s.explored,
        s.visited.subset_of(run(s, budget).visited),
    decreases budget - s.explored,
{
    if !(s.frontier.len() == 0 || s.explored >= budget) {
        lemma_has_first(s.frontier);
        let node = first_of(s.frontier);
        let popped = Search {
            frontier: s.frontier.remove(node),
            explored: s.explored + 1,
            ..s
        };
        assert(is_first(s.frontier, node));
        if !node.state.won() {
            assert forall|n: Node| #[trigger] popped.frontier.contains(n) implies leads_to(
                initial,
                n.path,
                n.state,
            ) by {
                lemma_remove_contains(s.frontier, node, n);
            }
            let moves = node.state.legal_moves();
            node.state.lemma_legal_moves();
            assert forall|j: int| 0 <= j < moves.len() implies node.state.generates(
                #[trigger] moves[j],
            ) by {
                assert(moves.contains(moves[j]));
            }
            lemma_expand_traced(initial, popped, node, moves, 0);
            lemma_expand_steady(popped, node, moves, 0);
            lemma_run_sound(initial, expand(popped, node, moves, 0), budget);
        }
    }
}

/// The path that a search returns is made of moves that the generator
/// offers; played from the starting position it is accepted move by move and
/// ends in a won position. The search takes no more nodes off the frontier
/// than its budget allows.
pub proof fn lemma_search_sound(initial: Board, budget: int)
    requires
        initial.shaped(),
    ensures
        search(initial, budget).path matches Some(path) ==> initial.won_by(path),
        budget >= 0 ==> 0 <= search(initial, budget).explored <= budget,
        search(initial, budget).visited.contains(initial.hash()),
{
    broadcast use vstd::multiset::group_multiset_axioms;

    let s = start(initial);
    assert forall|n: Node| #[trigger] s.frontier.contains(n) implies leads_to(
        initial,
        n.path,
        n.state,
    ) by {
        assert(n == Node {
            f_score: initial.estimate(),
            counter: 0,
            state: initial,
            path: Seq::empty(),
        });
    }
    lemma_run_sound(initial, s, budget);
}

/// From a position that is already won, a search with a budget of at least
/// one expansion returns the empty path after exactly one expansion.
pub proof fn lemma_search_from_won(initial: Board, budget: int)
    requires
        initial.won(),
        budget >= 1,
    ensures
        search(initial, budget).path == Some(Seq::<Action>::empty()),
        search(initial, budget).explored == 1,
{
    broadcast use vstd::multiset::group_multiset_axioms;

    let s = start(initial);
    let root = Node { f_score: initial.estimate(), counter: 0, state: initial, path: Seq::empty() };
    assert(s.frontier.len() == 1);
    lemma_has_first(s.frontier);
    assert(is_first(s.frontier, first_of(s.frontier)));
    assert(first_of(s.frontier) == root);
}

/// A search with no budget takes nothing off the frontier and finds
/// nothing.
pub proof fn lemma_search_without_budget(initial: Board)
    ensures
        search(initial, 0).path is None,
        search(initial, 0).explored == 0,
{
}

} // verus!
