//! The Min-Max engine: fixed-depth recursive evaluation of a game tree,
//! in a sequential and a parallel form.
use vstd::prelude::*;

use crate::game::Position;
use rayon::iter::{IntoParallelRefIterator, ParallelIterator};

verus! {

/// Score of a node evaluated as a leaf (depth exhausted or no legal move):
/// the raw value when the node's player is the maximizing player fixed at the
/// root of the search, and its negation otherwise, so that every score is
/// normalized to "higher is better for the maximizing player".
pub open spec fn leaf_value(p: Position, maxi: bool) -> int {
    if p.player == maxi {
        p.score as int
    } else {
        -(p.score as int)
    }
}

/// The value of child `j` of a node, searched `d` plies deep.
pub open spec fn child_value(cs: Seq<(u64, Position)>, d: nat, maxi: bool, j: int) -> int
    decreases d, 1int,
{
    minmax_value(cs[j].1, d, maxi)
}

/// The best value among the first `i` children, each searched `d` plies deep:
/// the maximum when `take_max` holds, else the minimum.
pub open spec fn best_value(cs: Seq<(u64, Position)>, d: nat, maxi: bool, take_max: bool, i: int) -> int
    recommends
        1 <= i <= cs.len(),
    decreases d, 2 + i,
{
    if i <= 0 {
        0
    } else if i == 1 {
        child_value(cs, d, maxi, 0)
    } else {
        let prev = best_value(cs, d, maxi, take_max, i - 1);
        let cur = child_value(cs, d, maxi, i - 1);
        if take_max {
            if cur > prev { cur } else { prev }
        } else {
            if cur < prev { cur } else { prev }
        }
    }
}

/// The Min-Max (game-theoretic) value of `p`, searched `d` plies deep with
/// `maxi` as the maximizing player: the leaf value when the depth is exhausted
/// or no move is legal, else the best child value one ply shallower — the
/// maximum at the maximizing player's nodes, the minimum at the other's.
pub open spec fn minmax_value(p: Position, d: nat, maxi: bool) -> int
    decreases d, 0int,
{
    if d == 0 || p.children@.len() == 0 {
        leaf_value(p, maxi)
    } else {
        best_value(p.children@, (d - 1) as nat, maxi, p.player == maxi, p.children@.len() as int)
    }
}

/// Every node reachable within `d` plies keeps its score in `[-127, 127]`,
/// and so does the Min-Max value of the tree.
pub proof fn lemma_minmax_bounds(p: Position, d: nat, maxi: bool)
    requires
        p.wf_to(d),
    ensures
        -127 <= minmax_value(p, d, maxi) <= 127,
    decreases d, 0int,
{
    if d == 0 || p.children@.len() == 0 {
    } else {
        lemma_best_value_bounds(p.children@, (d - 1) as nat, maxi, p.player == maxi,
            p.children@.len() as int);
    }
}

proof fn lemma_best_value_bounds(cs: Seq<(u64, Position)>, d: nat, maxi: bool, take_max: bool, i: int)
    requires
        1 <= i <= cs.len(),
        forall|j: int| 0 <= j < cs.len() ==> (#[trigger] cs[j]).1.wf_to(d),
    ensures
        -127 <= best_value(cs, d, maxi, take_max, i) <= 127,
    decreases d, i,
{
    lemma_minmax_bounds(cs[i - 1].1, d, maxi);
    assert(child_value(cs, d, maxi, i - 1) == minmax_value(cs[i - 1].1, d, maxi));
    if i > 1 {
        lemma_best_value_bounds(cs, d, maxi, take_max, i - 1);
    }
}

/// The best value among the first `i` children bounds each of them and is
/// attained by one of them.
pub proof fn lemma_best_value_is_opt(cs: Seq<(u64, Position)>, d: nat, maxi: bool, take_max: bool, i: int)
    requires
        1 <= i <= cs.len(),
    ensures
        forall|j: int| 0 <= j < i ==> if take_max {
            #[trigger] child_value(cs, d, maxi, j) <= best_value(cs, d, maxi, take_max, i)
        } else {
            child_value(cs, d, maxi, j) >= best_value(cs, d, maxi, take_max, i)
        },
        exists|j: int| 0 <= j < i && #[trigger] child_value(cs, d, maxi, j) == best_value(
            cs, d, maxi, take_max, i),
    decreases i,
{
    if i == 1 {
        assert(best_value(cs, d, maxi, take_max, 1) == child_value(cs, d, maxi, 0));
    } else {
        lemma_best_value_is_opt(cs, d, maxi, take_max, i - 1);
        assert(exists|j: int|
            0 <= j < i - 1 && #[trigger] child_value(cs, d, maxi, j) == best_value(
                cs, d, maxi, take_max, i - 1));
        let jw = choose|j: int|
            0 <= j < i - 1 && #[trigger] child_value(cs, d, maxi, j) == best_value(
                cs, d, maxi, take_max, i - 1);
        if best_value(cs, d, maxi, take_max, i) == best_value(cs, d, maxi, take_max, i - 1) {
            assert(child_value(cs, d, maxi, jw) == best_value(cs, d, maxi, take_max, i));
        } else {
            assert(child_value(cs, d, maxi, i - 1) == best_value(cs, d, maxi, take_max, i));
        }
    }
}

/// Sequential Min-Max: evaluates `node` to depth `depth`.
///
/// With the depth exhausted or no legal move it returns no move and the leaf
/// value; otherwise it returns the first child (in enumeration order)
/// achieving the best value, together with that value, which equals the
/// Min-Max value of the node.
pub fn minmax(node: &Position, depth: u8, maxi: bool) -> (r: (Option<u64>, i8))
    requires
        node.wf_to(depth as nat),
    ensures
        r.1 as int == minmax_value(*node, depth as nat, maxi),
        (depth == 0 || node.children@.len() == 0) <==> r.0 is None,
        (depth == 0 || node.children@.len() == 0) ==> r.1 as int == leaf_value(*node, maxi),
        r.0 matches Some(m) ==> exists|k: int|
            0 <= k < node.children@.len() && (#[trigger] node.children@[k]).0 == m
                && child_value(node.children@, (depth - 1) as nat, maxi, k) == r.1 as int
                && forall|j: int| 0 <= j < k ==> if node.player == maxi {
                    #[trigger] child_value(node.children@, (depth - 1) as nat, maxi, j) < r.1 as int
                } else {
                    child_value(node.children@, (depth - 1) as nat, maxi, j) > r.1 as int
                },
    decreases depth,
{
    if depth == 0 || node.children.len() == 0 {
        if maxi == node.player {
            (None, node.value())
        } else {
            (None, -node.value())
        }
    } else {
        let take_max = node.player == maxi;
        let dm1 = depth - 1;
        let ghost cs = node.children@;
        let ghost d = dm1 as nat;
        let first = minmax(&node.children[0].1, dm1, maxi);
        proof {
            assert(best_value(cs, d, maxi, take_max, 1) == child_value(cs, d, maxi, 0));
            assert(child_value(cs, d, maxi, 0) == minmax_value(cs[0].1, d, maxi));
        }
        let mut best_val: i8 = first.1;
        let mut best_idx: usize = 0;
        let mut i: usize = 1;
        while i < node.children.len()
            invariant
                1 <= i <= cs.len(),
                0 <= best_idx < i,
                best_val as int == best_value(cs, d, maxi, take_max, i as int),
                best_val as int == child_value(cs, d, maxi, best_idx as int),
                forall|j: int| 0 <= j < best_idx ==> if take_max {
                    #[trigger] child_value(cs, d, maxi, j) < best_val as int
                } else {
                    child_value(cs, d, maxi, j) > best_val as int
                },
            decreases cs.len() - i,
        {
            let v = minmax(&node.children[i].1, dm1, maxi).1;
            proof {
                lemma_best_value_is_opt(cs, d, maxi, take_max, i as int);
                assert(best_value(cs, d, maxi, take_max, i as int + 1) == if take_max {
                    if child_value(cs, d, maxi, i as int) > best_value(cs, d, maxi, take_max, i as int) {
                        child_value(cs, d, maxi, i as int)
                    } else {
                        best_value(cs, d, maxi, take_max, i as int)
                    }
                } else {
                    if child_value(cs, d, maxi, i as int) < best_value(cs, d, maxi, take_max, i as int) {
                        child_value(cs, d, maxi, i as int)
                    } else {
                        best_value(cs, d, maxi, take_max, i as int)
                    }
                });
            }
            if take_max {
                if v > best_val {
                    best_val = v;
                    best_idx = i;
                }
            } else {
                if v < best_val {
                    best_val = v;
                    best_idx = i;
                }
            }
            i = i + 1;
        }
        (Some(node.children[best_idx].0), best_val)
    }
}

/// Relies on rayon's `par_iter`/`map`/`collect` over a slice: an indexed
/// parallel iterator, so `collect` keeps enumeration order and element `i`
/// is what the verified sequential `minmax` returns for child `i`, one ply
/// shallower.
#[verifier::external_body]
fn par_child_scores(node: &Position, depth: u8, maxi: bool) -> (r: Vec<i8>)
    requires
        depth >= 1,
        node.wf_to(depth as nat),
    ensures
        r@.len() == node.children@.len(),
        forall|i: int| 0 <= i < r@.len() ==> #[trigger] r@[i] as int == child_value(
            node.children@, (depth - 1) as nat, maxi, i),
{
    node.children.par_iter().map(|c| minmax(&c.1, depth - 1, maxi).1).collect()
}

/// Parallel Min-Max: the children are evaluated concurrently and reduced with
/// the same max/min rule as the sequential form, so the score is the same
/// Min-Max value; on exact ties the chosen move is only promised to be one of
/// the moves achieving that value.
pub fn minmax_par(node: &Position, depth: u8, maxi: bool) -> (r: (Option<u64>, i8))
    requires
        node.wf_to(depth as nat),
    ensures
        r.1 as int == minmax_value(*node, depth as nat, maxi),
        (depth == 0 || node.children@.len() == 0) <==> r.0 is None,
        (depth == 0 || node.children@.len() == 0) ==> r.1 as int == leaf_value(*node, maxi),
        r.0 matches Some(m) ==> exists|k: int|
            0 <= k < node.children@.len() && (#[trigger] node.children@[k]).0 == m
                && child_value(node.children@, (depth - 1) as nat, maxi, k) == r.1 as int,
{
    if depth == 0 || node.children.len() == 0 {
        if maxi == node.player {
            (None, node.value())
        } else {
            (None, -node.value())
        }
    } else {
        let take_max = node.player == maxi;
        let ghost cs = node.children@;
        let ghost d = (depth - 1) as nat;
        let scores = par_child_scores(node, depth, maxi);
        let mut best_val: i8 = scores[0];
        let mut best_idx: usize = 0;
        let mut i: usize = 1;
        while i < scores.len()
            invariant
                scores@.len() == cs.len(),
                forall|j: int| 0 <= j < cs.len() ==> #[trigger] scores@[j] as int == child_value(
                    cs, d, maxi, j),
                take_max == (node.player == maxi),
                cs == node.children@,
                1 <= i <= cs.len(),
                0 <= best_idx < i,
                best_val as int == best_value(cs, d, maxi, take_max, i as int),
                best_val as int == child_value(cs, d, maxi, best_idx as int),
            decreases cs.len() - i,
        {
            let v = scores[i];
            if take_max {
                if v > best_val {
                    best_val = v;
                    best_idx = i;
                }
            } else {
                if v < best_val {
                    best_val = v;
                    best_idx = i;
                }
            }
            i = i + 1;
        }
        (Some(node.children[best_idx].0), best_val)
    }
}

} // verus!
