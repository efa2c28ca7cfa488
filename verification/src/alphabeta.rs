//! The Alpha-Beta engine: Min-Max evaluation with a pruning window, in a
//! sequential and a parallel form. Pruning never changes the game-theoretic
//! value: at the full window the returned score equals the Min-Max score.
use vstd::prelude::*;

use crate::game::Position;
use crate::minmax::{leaf_value, child_value, best_value, minmax_value};
use crate::minmax::{lemma_minmax_bounds, lemma_best_value_is_opt};
use rayon::iter::{IntoParallelRefIterator, ParallelIterator};

verus! {

/// What a search within the window `[alpha, beta]` promises of its score `s`,
/// relative to the Min-Max value `v` of the same node at the same depth:
/// inside the window the score is exact; outside, it fails on the same side.
pub open spec fn ab_score_ok(p: Position, d: nat, alpha: int, beta: int, maxi: bool, s: int) -> bool {
    let v = minmax_value(p, d, maxi);
    &&& (v <= alpha ==> s <= alpha)
    &&& (alpha < v < beta ==> s == v)
    &&& (v >= beta ==> s >= beta)
}

/// The returned move names a child whose value (searched `d` plies deep)
/// matches the returned score: exactly when the score lies strictly inside
/// the window, and on the same side of the crossed edge after a cutoff.
pub open spec fn ab_chosen_ok(p: Position, d: nat, alpha: int, beta: int, maxi: bool, m: u64, s: int) -> bool {
    exists|k: int|
        0 <= k < p.children@.len() && (#[trigger] p.children@[k]).0 == m && ({
            let v = child_value(p.children@, d, maxi, k);
            if p.player == maxi {
                &&& (s < beta ==> v == s)
                &&& (s >= beta ==> v >= beta)
            } else {
                &&& (s > alpha ==> v == s)
                &&& (s <= alpha ==> v <= alpha)
            }
        })
}

/// Sequential Alpha-Beta: evaluates `node` to depth `depth` within the
/// pruning window `[alpha, beta]`, skipping the remaining children of a node
/// as soon as its running bound crosses the window (a cutoff).
///
/// The score relates to the Min-Max value through `ab_score_ok`; with the
/// full window `[-128, 127]` it equals the Min-Max value outright. The move
/// is the last child that strictly improved the running bound, or none when
/// no child did (in particular at a leaf).
pub fn alpha_beta(node: &Position, depth: u8, alpha: i8, beta: i8, maxi: bool) -> (r: (Option<u64>, i8))
    requires
        node.wf_to(depth as nat),
        alpha < beta,
    ensures
        ab_score_ok(*node, depth as nat, alpha as int, beta as int, maxi, r.1 as int),
        (depth == 0 || node.children@.len() == 0) ==> (r.0 is None && r.1 as int == leaf_value(
            *node, maxi)),
        r.0 matches Some(m) ==> depth >= 1 && ab_chosen_ok(*node, (depth - 1) as nat, alpha as int,
            beta as int, maxi, m, r.1 as int),
        (node.player == maxi && depth >= 1 && node.children@.len() >= 1 && (alpha as int)
            < minmax_value(*node, depth as nat, maxi)) ==> r.0 is Some,
        (node.player != maxi && depth >= 1 && node.children@.len() >= 1 && minmax_value(
            *node, depth as nat, maxi) < beta as int) ==> r.0 is Some,
        (alpha as int == -128 && beta as int == 127) ==> r.1 as int == minmax_value(
            *node, depth as nat, maxi),
    decreases depth,
{
    if depth == 0 || node.children.len() == 0 {
        proof {
            lemma_minmax_bounds(*node, depth as nat, maxi);
        }
        if maxi == node.player {
            (None, node.value())
        } else {
            (None, -node.value())
        }
    } else {
        let dm1 = depth - 1;
        let ghost cs = node.children@;
        let ghost d = dm1 as nat;
        let ghost n = cs.len() as int;
        let ghost mm = minmax_value(*node, depth as nat, maxi);
        proof {
            lemma_minmax_bounds(*node, depth as nat, maxi);
            lemma_best_value_is_opt(cs, d, maxi, node.player == maxi, n);
            assert(mm == best_value(cs, d, maxi, node.player == maxi, n));
        }
        if node.player == maxi {
            let mut a: i8 = alpha;
            let mut best_val: i8 = i8::MIN;
            let mut best: Option<u64> = None;
            let mut i: usize = 0;
            let mut cut: bool = false;
            let ghost mut bk: int = 0;
            while i < node.children.len() && !cut
                invariant
                    0 <= i <= n,
                    !cut ==> alpha <= a && (a as int) < beta as int,
                    !cut ==> forall|j: int| 0 <= j < i ==> #[trigger] child_value(cs, d, maxi, j)
                        <= a as int,
                    best is None ==> !cut && a == alpha && best_val == i8::MIN,
                    best matches Some(m) ==> alpha < a && best_val == a && 0 <= bk < i
                        && cs[bk].0 == m,
                    best is Some ==> ((best_val as int) < beta as int ==> child_value(cs, d, maxi, bk)
                        == best_val as int),
                    best is Some ==> ((best_val as int) >= beta as int ==> child_value(cs, d, maxi, bk)
                        >= beta as int),
                    cut ==> best is Some && (best_val as int) >= beta as int,
                decreases n - i, (if cut { 0int } else { 1int }),
            {
                let child_r = alpha_beta(&node.children[i].1, dm1, a, beta, maxi);
                let v = child_r.1;
                let ghost vi = child_value(cs, d, maxi, i as int);
                proof {
                    assert(ab_score_ok(cs[i as int].1, d, a as int, beta as int, maxi,
                        v as int));
                }
                if v > a {
                    proof {
                        if vi < beta as int {
                            assert(vi == v as int);
                        } else {
                            assert((v as int) >= beta as int);
                        }
                        bk = i as int;
                    }
                    a = v;
                    best = Some(node.children[i].0);
                    best_val = v;
                } else {
                    proof {
                        assert(vi <= a as int);
                    }
                }
                i = i + 1;
                if a >= beta {
                    cut = true;
                }
            }
            proof {
                if cut {
                    assert(child_value(cs, d, maxi, bk) >= beta as int);
                    assert(mm >= child_value(cs, d, maxi, bk));
                    assert(mm >= beta as int);
                } else {
                    assert(i == n);
                    if best is Some {
                        assert(child_value(cs, d, maxi, bk) == best_val as int);
                        assert(mm >= best_val as int);
                        assert(mm <= a as int);
                        assert(mm == best_val as int);
                    } else {
                        assert(forall|j: int| 0 <= j < n ==> #[trigger] child_value(cs, d, maxi, j)
                            <= alpha as int);
                        assert(mm <= alpha as int);
                    }
                }
            }
            (best, best_val)
        } else {
            let mut b: i8 = beta;
            let mut best_val: i8 = i8::MAX;
            let mut best: Option<u64> = None;
            let mut i: usize = 0;
            let mut cut: bool = false;
            let ghost mut bk: int = 0;
            while i < node.children.len() && !cut
                invariant
                    0 <= i <= n,
                    !cut ==> b <= beta && (alpha as int) < b as int,
                    !cut ==> forall|j: int| 0 <= j < i ==> #[trigger] child_value(cs, d, maxi, j)
                        >= b as int,
                    best is None ==> !cut && b == beta && best_val == i8::MAX,
                    best matches Some(m) ==> b < beta && best_val == b && 0 <= bk < i
                        && cs[bk].0 == m,
                    best is Some ==> ((best_val as int) > alpha as int ==> child_value(cs, d, maxi, bk)
                        == best_val as int),
                    best is Some ==> ((best_val as int) <= alpha as int ==> child_value(cs, d, maxi, bk)
                        <= alpha as int),
                    cut ==> best is Some && (best_val as int) <= alpha as int,
                decreases n - i, (if cut { 0int } else { 1int }),
            {
                let child_r = alpha_beta(&node.children[i].1, dm1, alpha, b, maxi);
                let v = child_r.1;
                let ghost vi = child_value(cs, d, maxi, i as int);
                proof {
                    assert(ab_score_ok(cs[i as int].1, d, alpha as int, b as int, maxi,
                        v as int));
                }
                if v < b {
                    proof {
                        if vi > alpha as int {
                            assert(vi == v as int);
                        } else {
                            assert((v as int) <= alpha as int);
                        }
                        bk = i as int;
                    }
                    b = v;
                    best = Some(node.children[i].0);
                    best_val = v;
                } else {
                    proof {
                        assert(vi >= b as int);
                    }
                }
                i = i + 1;
                if alpha >= b {
                    cut = true;
                }
            }
            proof {
                if cut {
                    assert(child_value(cs, d, maxi, bk) <= alpha as int);
                    assert(mm <= child_value(cs, d, maxi, bk));
                    assert(mm <= alpha as int);
                } else {
                    assert(i == n);
                    if best is Some {
                        assert(child_value(cs, d, maxi, bk) == best_val as int);
                        assert(mm <= best_val as int);
                        assert(mm >= b as int);
                        assert(mm == best_val as int);
                    } else {
                        assert(forall|j: int| 0 <= j < n ==> #[trigger] child_value(cs, d, maxi, j)
                            >= beta as int);
                        assert(mm >= beta as int);
                    }
                }
            }
            (best, best_val)
        }
    }
}

/// Pruning does not change the game-theoretic value: at the full window,
/// any score an Alpha-Beta search may return equals the Min-Max value of the
/// same node at the same depth — only the set of nodes visited differs.
pub proof fn lemma_full_window_exact(p: Position, d: nat, maxi: bool, s: int)
    requires
        p.wf_to(d),
        -128 <= s <= 127,
        ab_score_ok(p, d, -128, 127, maxi, s),
    ensures
        s == minmax_value(p, d, maxi),
{
    lemma_minmax_bounds(p, d, maxi);
}

/// The move returned by the parallel form names a child whose value lies on
/// the same side of the window as the returned score, and equals it when the
/// score is strictly inside the window. Ties between equally-scored children
/// are not pinned beyond this.
pub open spec fn ab_par_chosen_ok(p: Position, d: nat, alpha: int, beta: int, maxi: bool, m: u64, s: int) -> bool {
    exists|k: int|
        0 <= k < p.children@.len() && (#[trigger] p.children@[k]).0 == m && ({
            let v = child_value(p.children@, d, maxi, k);
            &&& (alpha < s < beta ==> v == s)
            &&& (s >= beta ==> v >= beta)
            &&& (s <= alpha ==> v <= alpha)
        })
}

/// Relies on rayon's `par_iter`/`map`/`collect` over a slice: an indexed
/// parallel iterator, so `collect` keeps enumeration order and element `i`
/// is what the verified sequential `alpha_beta` returns for child `i`, one
/// ply shallower, within the caller's own window.
#[verifier::external_body]
fn par_child_scores_ab(node: &Position, depth: u8, alpha: i8, beta: i8, maxi: bool) -> (r: Vec<i8>)
    requires
        depth >= 1,
        node.wf_to(depth as nat),
        alpha < beta,
    ensures
        r@.len() == node.children@.len(),
        forall|i: int| 0 <= i < r@.len() ==> ab_score_ok(node.children@[i].1, (depth - 1) as nat,
            alpha as int, beta as int, maxi, #[trigger] r@[i] as int),
{
    node.children.par_iter().map(|c| alpha_beta(&c.1, depth - 1, alpha, beta, maxi).1).collect()
}

/// Parallel Alpha-Beta: the children are searched concurrently, each within
/// the caller's window but with no bound shared across siblings, and the
/// results are reduced with the same max/min rule as Min-Max rather than a
/// short-circuiting fold — parallel throughput is traded against cross-branch
/// pruning. The score still relates to the Min-Max value exactly as the
/// sequential form's does; with the full window it equals the Min-Max value.
pub fn alpha_beta_par(node: &Position, depth: u8, alpha: i8, beta: i8, maxi: bool) -> (r: (Option<u64>, i8))
    requires
        node.wf_to(depth as nat),
        alpha < beta,
    ensures
        ab_score_ok(*node, depth as nat, alpha as int, beta as int, maxi, r.1 as int),
        (depth == 0 || node.children@.len() == 0) <==> r.0 is None,
        (depth == 0 || node.children@.len() == 0) ==> r.1 as int == leaf_value(*node, maxi),
        r.0 matches Some(m) ==> ab_par_chosen_ok(*node, (depth - 1) as nat, alpha as int,
            beta as int, maxi, m, r.1 as int),
        (alpha as int == -128 && beta as int == 127) ==> r.1 as int == minmax_value(
            *node, depth as nat, maxi),
{
    if depth == 0 || node.children.len() == 0 {
        proof {
            lemma_minmax_bounds(*node, depth as nat, maxi);
        }
        if maxi == node.player {
            (None, node.value())
        } else {
            (None, -node.value())
        }
    } else {
        let take_max = node.player == maxi;
        let dm1 = depth - 1;
        let ghost cs = node.children@;
        let ghost d = dm1 as nat;
        let ghost n = cs.len() as int;
        let ghost mm = minmax_value(*node, depth as nat, maxi);
        proof {
            lemma_minmax_bounds(*node, depth as nat, maxi);
            lemma_best_value_is_opt(cs, d, maxi, take_max, n);
            assert(mm == best_value(cs, d, maxi, take_max, n));
        }
        let scores = par_child_scores_ab(node, depth, alpha, beta, maxi);
        let mut best_val: i8 = scores[0];
        let mut best_idx: usize = 0;
        let mut i: usize = 1;
        while i < scores.len()
            invariant
                scores@.len() == n,
                1 <= i <= n,
                0 <= best_idx < i,
                best_val == scores@[best_idx as int],
                forall|j: int| 0 <= j < i ==> if take_max {
                    #[trigger] scores@[j] <= best_val
                } else {
                    scores@[j] >= best_val
                },
            decreases n - i,
        {
            let v = scores[i];
            if take_max {
                if v > best_val {
                    best_val = v;
                    best_idx = i;
                }
            } else {
                if v < best_val {
                    best_val = v;
                    best_idx = i;
                }
            }
            i = i + 1;
        }
        proof {
            let al = alpha as int;
            let be = beta as int;
            let s = best_val as int;
            let k = best_idx as int;
            assert forall|j: int| 0 <= j < n implies ({
                let vj = child_value(cs, d, maxi, j);
                let sj = #[trigger] scores@[j] as int;
                &&& (al < sj < be ==> vj == sj)
                &&& (sj >= be ==> vj >= be)
                &&& (sj <= al ==> vj <= al)
            }) by {
                assert(ab_score_ok(cs[j].1, d, al, be, maxi, scores@[j] as int));
                assert(child_value(cs, d, maxi, j) == minmax_value(cs[j].1, d, maxi));
            }
            // The chosen child lies on the same side of the window as the score.
            assert(cs[k].0 == node.children@[k].0);
            // Score clauses at this node, from the witness that attains `mm`.
            let kw = choose|j: int|
                0 <= j < n && #[trigger] child_value(cs, d, maxi, j) == best_value(
                    cs, d, maxi, take_max, n);
            assert(child_value(cs, d, maxi, kw) == mm);
            let skw = scores@[kw] as int;
            if take_max {
                if mm <= al {
                    assert forall|j: int| 0 <= j < n implies #[trigger] scores@[j] as int <= al by {
                        assert(child_value(cs, d, maxi, j) <= mm);
                    }
                    assert(s <= al);
                }
                if al < mm < be {
                    assert(skw == mm);
                    assert forall|j: int| 0 <= j < n implies #[trigger] scores@[j] as int <= mm by {
                        assert(child_value(cs, d, maxi, j) <= mm);
                    }
                    assert(s == mm);
                }
                if mm >= be {
                    assert(skw >= be);
                    assert(s >= skw);
                }
            } else {
                if mm >= be {
                    assert forall|j: int| 0 <= j < n implies #[trigger] scores@[j] as int >= be by {
                        assert(child_value(cs, d, maxi, j) >= mm);
                    }
                    assert(s >= be);
                }
                if al < mm < be {
                    assert(skw == mm);
                    assert forall|j: int| 0 <= j < n implies #[trigger] scores@[j] as int >= mm by {
                        assert(child_value(cs, d, maxi, j) >= mm);
                    }
                    assert(s == mm);
                }
                if mm <= al {
                    assert(skw <= al);
                    assert(s <= skw);
                }
            }
            if al == -128 && be == 127 {
                assert(-127 <= mm <= 127);
                if mm < 127 {
                    assert(s == mm);
                } else {
                    assert(s >= 127);
                    assert(s == mm);
                }
            }
        }
        (Some(node.children[best_idx].0), best_val)
    }
}

} // verus!
