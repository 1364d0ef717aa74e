//! The frontier of the search: a priority queue of search nodes.

use vstd::multiset::Multiset;
use vstd::prelude::*;
use crate::action::Action;
use crate::board::Board;
use crate::game::Game;
use crate::sequences::lemma_swap_keeps_multiset;

verus! {

/// A node of the search: a position, the moves that lead to it, its score
/// and the number under which it was put on the frontier.
pub struct HeapNode {
    pub f_score: i64,
    pub counter: u64,
    pub state: Game,
    pub path: Vec<Action>,
}

/// A search node as plain values.
pub struct Node {
    pub f_score: int,
    pub counter: int,
    pub state: Board,
    pub path: Seq<Action>,
}

impl View for HeapNode {
    type V = Node;

    open spec fn view(&self) -> Node {
        Node {
            f_score: self.f_score as int,
            counter: self.counter as int,
            state: self.state@,
            path: self.path@,
        }
    }
}

/// The order of the frontier: by score, lower first; among equal scores by
/// counter, the earlier first.
pub open spec fn comes_before(a: Node, b: Node) -> bool {
    a.f_score < b.f_score || (a.f_score == b.f_score && a.counter <= b.counter)
}

/// The nodes of a vector as plain values.
pub open spec fn views_of(nodes: Seq<HeapNode>) -> Seq<Node> {
    nodes.map_values(|node: HeapNode| node@)
}

/// The heap order on a vector of nodes, but between the entry at `gap` and
/// its parent: every other entry comes no earlier than its parent, and the
/// children of `gap` come no earlier than its parent.
pub open spec fn ordered_above(nodes: Seq<HeapNode>, gap: int) -> bool {
    &&& forall|k: int|
        1 <= k < nodes.len() && k != gap ==> comes_before(
            nodes[(k - 1) / 2]@,
            #[trigger] nodes[k]@,
        )
    &&& forall|k: int|
        1 <= k < nodes.len() && (k - 1) / 2 == gap && gap > 0 ==> comes_before(
            nodes[(gap - 1) / 2]@,
            #[trigger] nodes[k]@,
        )
}

/// The heap order on a vector of nodes, but between the entry at `gap` and
/// its children: every entry with another parent comes no earlier than its
/// parent, and the children of `gap` come no earlier than its parent.
pub open spec fn ordered_below(nodes: Seq<HeapNode>, gap: int) -> bool {
    &&& forall|k: int|
        1 <= k < nodes.len() && (k - 1) / 2 != gap ==> comes_before(
            nodes[(k - 1) / 2]@,
            #[trigger] nodes[k]@,
        )
    &&& forall|k: int|
        1 <= k < nodes.len() && (k - 1) / 2 == gap && gap > 0 ==> comes_before(
            nodes[(gap - 1) / 2]@,
            #[trigger] nodes[k]@,
        )
}

/// The heap order: every entry comes no earlier than its parent, the entry
/// at `(k - 1) / 2`.
pub open spec fn heap_ordered(nodes: Seq<HeapNode>) -> bool {
    forall|k: int|
        1 <= k < nodes.len() ==> comes_before(nodes[(k - 1) / 2]@, #[trigger] nodes[k]@)
}

/// In a heap the first entry comes before every other.
pub proof fn lemma_root_is_first(nodes: Seq<HeapNode>, k: int)
    requires
        heap_ordered(nodes),
        0 <= k < nodes.len(),
    ensures
        comes_before(nodes[0]@, nodes[k]@),
    decreases k,
{
    if k > 0 {
        lemma_root_is_first(nodes, (k - 1) / 2);
        assert(comes_before(nodes[(k - 1) / 2]@, nodes[k]@));
    }
}

impl HeapNode {
    /// Whether this node is taken off the frontier no later than `other`.
    pub fn precedes(&self, other: &HeapNode) -> (first: bool)
        ensures
            first == comes_before(self@, other@),
    {
        self.f_score < other.f_score || (self.f_score == other.f_score && self.counter
            <= other.counter)
    }
}

/// Two nodes of a vector change places.
fn exchange(nodes: &mut Vec<HeapNode>, i: usize, j: usize)
    requires
        i < old(nodes)@.len(),
        j < old(nodes)@.len(),
    ensures
        final(nodes)@ == old(nodes)@.update(i as int, old(nodes)@[j as int]).update(
            j as int,
            old(nodes)@[i as int],
        ),
{
    let ghost before = nodes@;
    if i == j {
        assert(nodes@ =~= before.update(i as int, before[j as int]).update(
            j as int,
            before[i as int],
        ));
        return ;
    }
    let mut hold = HeapNode { f_score: 0, counter: 0, state: Game::empty(), path: Vec::new() };
    core::mem::swap(&mut hold, &mut nodes[i]);
    core::mem::swap(&mut hold, &mut nodes[j]);
    core::mem::swap(&mut hold, &mut nodes[i]);
    assert(nodes@ =~= before.update(i as int, before[j as int]).update(
        j as int,
        before[i as int],
    ));
}

/// Exchanging two nodes leaves what the vector holds.
proof fn lemma_exchange_keeps(before: Seq<HeapNode>, i: int, j: int)
    requires
        0 <= i < before.len(),
        0 <= j < before.len(),
    ensures
        views_of(before.update(i, before[j]).update(j, before[i])).to_multiset() == views_of(
            before,
        ).to_multiset(),
{
    let after = before.update(i, before[j]).update(j, before[i]);
    let plain = views_of(before);
    assert(views_of(after) =~= plain.update(i, plain[j]).update(j, plain[i]));
    lemma_swap_keeps_multiset(plain, i, j);
}

/// Moves the entry at `at` up until its parent comes before it.
fn sift_up(nodes: &mut Vec<HeapNode>, at: usize)
    requires
        at < old(nodes)@.len(),
        ordered_above(old(nodes)@, at as int),
    ensures
        heap_ordered(final(nodes)@),
        views_of(final(nodes)@).to_multiset() == views_of(old(nodes)@).to_multiset(),
        final(nodes)@.len() == old(nodes)@.len(),
{
    let mut i = at;
    let mut rising = true;
    while rising
        invariant
            i < nodes@.len(),
            nodes@.len() == old(nodes)@.len(),
            views_of(nodes@).to_multiset() == views_of(old(nodes)@).to_multiset(),
            rising ==> ordered_above(nodes@, i as int),
            !rising ==> heap_ordered(nodes@),
        decreases i + if rising { 1int } else { 0int },
    {
        if i == 0 {
            rising = false;
        } else {
            let parent = (i - 1) / 2;
            if nodes[parent].precedes(&nodes[i]) {
                rising = false;
            } else {
                let ghost before = nodes@;
                exchange(nodes, i, parent);
                proof {
                    lemma_exchange_keeps(before, i as int, parent as int);
                    assert forall|k: int|
                        1 <= k < nodes@.len() && k != parent implies comes_before(
                        nodes@[(k - 1) / 2]@,
                        #[trigger] nodes@[k]@,
                    ) by {
                        if k == i {
                        } else if (k - 1) / 2 == parent {
                            assert(comes_before(before[parent as int]@, before[k]@));
                        } else if (k - 1) / 2 == i {
                            assert(comes_before(before[parent as int]@, before[k]@));
                        } else {
                            assert(comes_before(before[(k - 1) / 2]@, before[k]@));
                        }
                    }
                    assert forall|k: int|
                        1 <= k < nodes@.len() && (k - 1) / 2 == parent && parent
                            > 0 implies comes_before(
                        nodes@[(parent - 1) / 2]@,
                        #[trigger] nodes@[k]@,
                    ) by {
                        assert(comes_before(before[(parent - 1) / 2]@, before[parent as int]@));
                        if k != i {
                            assert(comes_before(before[parent as int]@, before[k]@));
                        }
                    }
                }
                i = parent;
            }
        }
    }
}

/// Moves the entry at the root down until it comes before its children.
fn sift_down(nodes: &mut Vec<HeapNode>)
    requires
        ordered_below(old(nodes)@, 0),
    ensures
        heap_ordered(final(nodes)@),
        views_of(final(nodes)@).to_multiset() == views_of(old(nodes)@).to_multiset(),
        final(nodes)@.len() == old(nodes)@.len(),
{
    let mut i: usize = 0;
    let mut sinking = true;
    let n = nodes.len();
    while sinking
        invariant
            n == nodes@.len(),
            nodes@.len() == old(nodes)@.len(),
            views_of(nodes@).to_multiset() == views_of(old(nodes)@).to_multiset(),
            sinking ==> ordered_below(nodes@, i as int),
            i <= n,
            !sinking ==> heap_ordered(nodes@),
        decreases n - i + if sinking { 1int } else { 0int },
    {
        if i >= n / 2 {
            // no child: 2 * i + 1 >= n
            sinking = false;
        } else {
            let left = 2 * i + 1;
            let right = left + 1;
            let mut child = left;
            if right < n && !nodes[left].precedes(&nodes[right]) {
                child = right;
            }
            if nodes[i].precedes(&nodes[child]) {
                assert forall|k: int| 1 <= k < nodes@.len() implies comes_before(
                    nodes@[(k - 1) / 2]@,
                    #[trigger] nodes@[k]@,
                ) by {
                    if (k - 1) / 2 == i {
                        assert(k == left || k == right);
                    }
                }
                sinking = false;
            } else {
                let ghost before = nodes@;
                exchange(nodes, i, child);
                proof {
                    lemma_exchange_keeps(before, i as int, child as int);
                    assert forall|k: int|
                        1 <= k < nodes@.len() && (k - 1) / 2 != child implies comes_before(
                        nodes@[(k - 1) / 2]@,
                        #[trigger] nodes@[k]@,
                    ) by {
                        if (k - 1) / 2 == i {
                            assert(k == left || k == right);
                        } else if k == i {
                            assert(comes_before(before[(i - 1) / 2]@, before[child as int]@));
                        } else {
                            assert(comes_before(before[(k - 1) / 2]@, before[k]@));
                        }
                    }
                    assert forall|k: int|
                        1 <= k < nodes@.len() && (k - 1) / 2 == child && child
                            > 0 implies comes_before(
                        nodes@[(child - 1) / 2]@,
                        #[trigger] nodes@[k]@,
                    ) by {
                        assert(comes_before(before[child as int]@, before[k]@));
                    }
                }
                i = child;
            }
        }
    }
}

/// The frontier of the search: a priority queue from which the node with
/// the lowest score comes first and, among equal scores, the one with the
/// lowest counter. It is a binary heap: `push` and `pop_min` take a number of
/// steps logarithmic in its size.
pub struct Frontier {
    nodes: Vec<HeapNode>,
}

impl View for Frontier {
    type V = Multiset<Node>;

    /// The nodes on the frontier, each as often as it was pushed and not
    /// yet popped.
    closed spec fn view(&self) -> Multiset<Node> {
        views_of(self.nodes@).to_multiset()
    }
}

impl Frontier {
    #[verifier::type_invariant]
    spec fn ordered(self) -> bool {
        heap_ordered(self.nodes@)
    }

    /// An empty frontier.
    pub fn new() -> (frontier: Frontier)
        ensures
            frontier@ == Multiset::<Node>::empty(),
    {
        broadcast use vstd::multiset::group_multiset_axioms;

        let frontier = Frontier { nodes: Vec::new() };
        proof {
            vstd::seq_lib::to_multiset_len(views_of(frontier.nodes@));
            assert(frontier@ =~= Multiset::<Node>::empty());
        }
        frontier
    }

    /// The number of nodes on the frontier.
    pub fn len(&self) -> (n: usize)
        ensures
            n == self@.len(),
    {
        proof {
            vstd::seq_lib::to_multiset_len(views_of(self.nodes@));
        }
        self.nodes.len()
    }

    /// Puts a node on the frontier.
    pub fn push(&mut self, node: HeapNode)
        ensures
            final(self)@ == old(self)@.insert(node@),
    {
        proof {
            use_type_invariant(&*self);
        }
        let mut nodes: Vec<HeapNode> = Vec::new();
        core::mem::swap(&mut nodes, &mut self.nodes);
        let ghost before = nodes@;
        nodes.push(node);
        proof {
            assert(views_of(nodes@) =~= views_of(before).push(node@));
            vstd::seq_lib::to_multiset_build(views_of(before), node@);
            assert forall|k: int|
                1 <= k < nodes@.len() && k != before.len() implies comes_before(
                nodes@[(k - 1) / 2]@,
                #[trigger] nodes@[k]@,
            ) by {
                assert(comes_before(before[(k - 1) / 2]@, before[k]@));
            }
        }
        let last = nodes.len() - 1;
        sift_up(&mut nodes, last);
        core::mem::swap(&mut nodes, &mut self.nodes);
    }

    /// Takes the first node off the frontier: the one with the lowest score
    /// and, among those, the lowest counter. `None` if the frontier is empty.
    pub fn pop_min(&mut self) -> (first: Option<HeapNode>)
        ensures
            match first {
                Some(node) => {
                    &&& old(self)@.contains(node@)
                    &&& forall|other: Node| #[trigger]
                        old(self)@.contains(other) ==> comes_before(node@, other)
                    &&& final(self)@ == old(self)@.remove(node@)
                },
                None => old(self)@.len() == 0 && final(self)@ == old(self)@,
            },
    {
        broadcast use vstd::multiset::group_multiset_axioms;

        proof {
            use_type_invariant(&*self);
            vstd::seq_lib::to_multiset_len(views_of(self.nodes@));
        }
        if self.nodes.len() == 0 {
            return None;
        }
        let mut nodes: Vec<HeapNode> = Vec::new();
        core::mem::swap(&mut nodes, &mut self.nodes);
        let ghost before = nodes@;
        let last = nodes.len() - 1;
        exchange(&mut nodes, 0, last);
        let ghost exchanged = nodes@;
        let node = nodes.pop().unwrap();
        proof {
            lemma_exchange_keeps(before, 0, last as int);
            assert(node == before[0]);
            assert(views_of(exchanged) =~= views_of(nodes@).push(node@));
            vstd::seq_lib::to_multiset_build(views_of(nodes@), node@);
            assert(views_of(nodes@).to_multiset() =~= views_of(before).to_multiset().remove(node@));
            assert forall|other: Node| #[trigger]
                views_of(before).to_multiset().contains(other) implies comes_before(
                node@,
                other,
            ) by {
                vstd::seq_lib::to_multiset_contains(views_of(before), other);
                let k = choose|k: int| 0 <= k < views_of(before).len() && views_of(before)[k] == other;
                lemma_root_is_first(before, k);
            }
            vstd::seq_lib::to_multiset_contains(views_of(before), node@);
            assert(views_of(before)[0] == node@);
            assert forall|k: int|
                1 <= k < nodes@.len() && (k - 1) / 2 != 0 implies comes_before(
                nodes@[(k - 1) / 2]@,
                #[trigger] nodes@[k]@,
            ) by {
                assert(comes_before(before[(k - 1) / 2]@, before[k]@));
            }
        }
        sift_down(&mut nodes);
        core::mem::swap(&mut nodes, &mut self.nodes);
        Some(node)
    }
}

} // verus!
