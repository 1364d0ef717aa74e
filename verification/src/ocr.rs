//! Reading order: cards found on a screen come left to right, top to
//! bottom.

use vstd::prelude::*;
use crate::screen::Point;

verus! {

/// Whether a point is read no later than another: it lies higher on the
/// screen, or as high and no further right.
pub open spec fn reads_before(a: Point, b: Point) -> bool {
    a.y < b.y || (a.y == b.y && a.x <= b.x)
}

/// Whether `order` lists the indices of `points` in reading order: each
/// index once, every point no later than those listed after it, and points
/// at the same place in the order in which they were given.
pub open spec fn is_reading_order(points: Seq<Point>, order: Seq<usize>) -> bool {
    &&& order.len() == points.len()
    &&& forall|k: int| 0 <= k < order.len() ==> (#[trigger] order[k]) < points.len()
    &&& forall|a: int, b: int|
        0 <= a < b < order.len() ==> {
            &&& (#[trigger] order[a]) != (#[trigger] order[b])
            &&& reads_before(points[order[a] as int], points[order[b] as int])
            &&& points[order[a] as int] == points[order[b] as int] ==> order[a] < order[b]
        }
}

/// The indices of the points in reading order: top to bottom, and left to
/// right within a row. Points at the same place keep the order in which
/// they were given.
pub fn reading_order(points: &Vec<Point>) -> (order: Vec<usize>)
    ensures
        is_reading_order(points@, order@),
{
    let mut order: Vec<usize> = Vec::new();
    let mut i: usize = 0;
    while i < points.len()
        invariant
            i <= points@.len(),
            is_reading_order(points@.subrange(0, i as int), order@),
        decreases points@.len() - i,
    {
        let point = points[i];
        let ghost before = order@;
        let mut at: usize = order.len();
        let mut searching = true;
        while searching
            invariant
                i < points@.len(),
                point == points@[i as int],
                order@ == before,
                at <= before.len(),
                is_reading_order(points@.subrange(0, i as int), before),
                forall|t: int|
                    at <= t < before.len() ==> !reads_before(
                        points@[(#[trigger] before[t]) as int],
                        point,
                    ),
                !searching ==> at == 0 || reads_before(points@[before[at - 1] as int], point),
            decreases at + if searching { 1int } else { 0int },
        {
            if at == 0 {
                searching = false;
            } else {
                let other = points[order[at - 1]];
                assert(before[at - 1] < i);
                if other.y < point.y || (other.y == point.y && other.x <= point.x) {
                    searching = false;
                } else {
                    at = at - 1;
                }
            }
        }
        order.insert(at, i);
        proof {
            let known = points@.subrange(0, i as int);
            let longer = points@.subrange(0, i + 1);
            assert(order@ == before.insert(at as int, i));
            assert forall|k: int| 0 <= k < order@.len() implies (#[trigger] order@[k])
                < longer.len() by {
                if k < at {
                    assert(before[k] < known.len());
                } else if k > at {
                    assert(before[k - 1] < known.len());
                }
            }
            assert forall|a: int, b: int| 0 <= a < b < order@.len() implies {
                &&& (#[trigger] order@[a]) != (#[trigger] order@[b])
                &&& reads_before(longer[order@[a] as int], longer[order@[b] as int])
                &&& longer[order@[a] as int] == longer[order@[b] as int] ==> order@[a]
                    < order@[b]
            } by {
                let ia = if a < at {
                    a
                } else {
                    a - 1
                };
                let ib = if b < at {
                    b
                } else {
                    b - 1
                };
                if a != at && b != at {
                    assert(before[ia] < known.len() && before[ib] < known.len());
                    assert(before[ia] != before[ib]);
                    assert(reads_before(known[before[ia] as int], known[before[ib] as int]));
                } else if a == at {
                    assert(before[ib] < known.len());
                    assert(!reads_before(points@[before[ib] as int], point));
                } else {
                    assert(before[ia] < known.len());
                    if at > 0 && ia < at - 1 {
                        assert(before[at - 1] < known.len());
                        assert(reads_before(
                            known[before[ia] as int],
                            known[before[at - 1] as int],
                        ));
                    }
                }
            }
        }
        i = i + 1;
    }
    assert(points@.subrange(0, i as int) =~= points@);
    order
}

} // verus!
