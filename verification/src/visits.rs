//! Node-visit accounting: how many nodes each engine evaluates.
//!
//! Alpha-Beta visits at most as many nodes as Min-Max at equal depth, and
//! strictly fewer whenever a cutoff skips at least one remaining sibling.
use vstd::prelude::*;

use crate::game::Position;
use crate::minmax::{child_value, best_value, minmax_value, lemma_minmax_bounds,
    lemma_best_value_is_opt};
use crate::alphabeta::ab_score_ok;

verus! {

/// Number of nodes Min-Max evaluates when searching `p` to depth `d`: the
/// node itself and, below the horizon, every child's subtree.
pub open spec fn minmax_visits(p: Position, d: nat) -> nat
    decreases d, 0int,
{
    if d == 0 || p.children@.len() == 0 {
        1
    } else {
        1 + minmax_visits_from(p.children@, (d - 1) as nat, 0)
    }
}

/// Min-Max visits in the children from index `i` on.
pub open spec fn minmax_visits_from(cs: Seq<(u64, Position)>, d: nat, i: int) -> nat
    decreases d, 1 + cs.len() - i,
{
    if i < 0 || i >= cs.len() {
        0
    } else {
        minmax_visits(cs[i].1, d) + minmax_visits_from(cs, d, i + 1)
    }
}

/// Number of nodes Alpha-Beta evaluates when searching `p` to depth `d`
/// within the window `[alpha, beta]`: like Min-Max, but the children stop at
/// the first one whose value crosses the window, and the window tightens as
/// better children are found.
pub open spec fn ab_visits(p: Position, d: nat, alpha: int, beta: int, maxi: bool) -> nat
    decreases d, 0int,
{
    if d == 0 || p.children@.len() == 0 {
        1
    } else {
        1 + ab_visits_from(p.children@, (d - 1) as nat, alpha, beta, maxi, p.player == maxi, 0)
    }
}

/// Alpha-Beta visits in the children from index `i` on, with the running
/// window `[alpha, beta]`.
pub open spec fn ab_visits_from(cs: Seq<(u64, Position)>, d: nat, alpha: int, beta: int, maxi: bool, ismax: bool, i: int) -> nat
    decreases d, 1 + cs.len() - i,
{
    if i < 0 || i >= cs.len() {
        0
    } else {
        let v = child_value(cs, d, maxi, i);
        let c = ab_visits(cs[i].1, d, alpha, beta, maxi);
        if ismax {
            if v >= beta {
                c
            } else if v > alpha {
                c + ab_visits_from(cs, d, v, beta, maxi, ismax, i + 1)
            } else {
                c + ab_visits_from(cs, d, alpha, beta, maxi, ismax, i + 1)
            }
        } else {
            if v <= alpha {
                c
            } else if v < beta {
                c + ab_visits_from(cs, d, alpha, v, maxi, ismax, i + 1)
            } else {
                c + ab_visits_from(cs, d, alpha, beta, maxi, ismax, i + 1)
            }
        }
    }
}

/// Whether the Alpha-Beta search of `p` triggers a cutoff that skips at least
/// one remaining sibling somewhere in the region it visits.
pub open spec fn ab_prunes(p: Position, d: nat, alpha: int, beta: int, maxi: bool) -> bool
    decreases d, 0int,
{
    if d == 0 || p.children@.len() == 0 {
        false
    } else {
        ab_prunes_from(p.children@, (d - 1) as nat, alpha, beta, maxi, p.player == maxi, 0)
    }
}

/// A pruning cutoff in the visited children from index `i` on.
pub open spec fn ab_prunes_from(cs: Seq<(u64, Position)>, d: nat, alpha: int, beta: int, maxi: bool, ismax: bool, i: int) -> bool
    decreases d, 1 + cs.len() - i,
{
    if i < 0 || i >= cs.len() {
        false
    } else {
        let v = child_value(cs, d, maxi, i);
        let sub = ab_prunes(cs[i].1, d, alpha, beta, maxi);
        if ismax {
            if v >= beta {
                sub || i + 1 < cs.len()
            } else if v > alpha {
                sub || ab_prunes_from(cs, d, v, beta, maxi, ismax, i + 1)
            } else {
                sub || ab_prunes_from(cs, d, alpha, beta, maxi, ismax, i + 1)
            }
        } else {
            if v <= alpha {
                sub || i + 1 < cs.len()
            } else if v < beta {
                sub || ab_prunes_from(cs, d, alpha, v, maxi, ismax, i + 1)
            } else {
                sub || ab_prunes_from(cs, d, alpha, beta, maxi, ismax, i + 1)
            }
        }
    }
}

/// A search visits at least the node it starts from.
pub proof fn lemma_minmax_visits_pos(p: Position, d: nat)
    ensures
        minmax_visits(p, d) >= 1,
{
}

/// Dropping leading children never increases the remaining Min-Max visits.
proof fn lemma_minmax_visits_from_le(cs: Seq<(u64, Position)>, d: nat, i: int, j: int)
    requires
        0 <= i <= j <= cs.len(),
    ensures
        minmax_visits_from(cs, d, j) <= minmax_visits_from(cs, d, i),
    decreases j - i,
{
    if i < j {
        lemma_minmax_visits_from_le(cs, d, i + 1, j);
    }
}

/// Alpha-Beta visits a subset of the nodes Min-Max visits at equal depth —
/// never more, and strictly fewer whenever a cutoff skips at least one
/// remaining sibling in the visited region.
pub proof fn lemma_ab_visits_le_minmax(p: Position, d: nat, alpha: int, beta: int, maxi: bool)
    requires
        alpha < beta,
    ensures
        ab_visits(p, d, alpha, beta, maxi) <= minmax_visits(p, d),
        ab_prunes(p, d, alpha, beta, maxi) ==> ab_visits(p, d, alpha, beta, maxi) < minmax_visits(p, d),
    decreases d, 0int,
{
    if d == 0 || p.children@.len() == 0 {
    } else {
        lemma_ab_visits_from_le(p.children@, (d - 1) as nat, alpha, beta, maxi,
            p.player == maxi, 0);
    }
}

proof fn lemma_ab_visits_from_le(cs: Seq<(u64, Position)>, d: nat, alpha: int, beta: int, maxi: bool, ismax: bool, i: int)
    requires
        alpha < beta,
        0 <= i <= cs.len(),
    ensures
        ab_visits_from(cs, d, alpha, beta, maxi, ismax, i) <= minmax_visits_from(cs, d, i),
        ab_prunes_from(cs, d, alpha, beta, maxi, ismax, i) ==> ab_visits_from(
            cs, d, alpha, beta, maxi, ismax, i) < minmax_visits_from(cs, d, i),
    decreases d, 1 + cs.len() - i,
{
    if i >= cs.len() {
    } else {
        let v = child_value(cs, d, maxi, i);
        lemma_ab_visits_le_minmax(cs[i].1, d, alpha, beta, maxi);
        if ismax {
            if v >= beta {
                if i + 1 < cs.len() {
                    lemma_minmax_visits_pos(cs[i + 1].1, d);
                    assert(minmax_visits_from(cs, d, i + 1) >= 1);
                }
            } else if v > alpha {
                lemma_ab_visits_from_le(cs, d, v, beta, maxi, ismax, i + 1);
            } else {
                lemma_ab_visits_from_le(cs, d, alpha, beta, maxi, ismax, i + 1);
            }
        } else {
            if v <= alpha {
                if i + 1 < cs.len() {
                    lemma_minmax_visits_pos(cs[i + 1].1, d);
                    assert(minmax_visits_from(cs, d, i + 1) >= 1);
                }
            } else if v < beta {
                lemma_ab_visits_from_le(cs, d, alpha, v, maxi, ismax, i + 1);
            } else {
                lemma_ab_visits_from_le(cs, d, alpha, beta, maxi, ismax, i + 1);
            }
        }
    }
}

/// Sequential Min-Max instrumented to count the nodes it evaluates.
pub fn minmax_visited(node: &Position, depth: u8) -> (r: u64)
    requires
        node.wf_to(depth as nat),
        minmax_visits(*node, depth as nat) <= u64::MAX,
    ensures
        r as int == minmax_visits(*node, depth as nat),
    decreases depth,
{
    if depth == 0 || node.children.len() == 0 {
        1
    } else {
        let dm1 = depth - 1;
        let ghost cs = node.children@;
        let ghost d = dm1 as nat;
        let ghost n = cs.len() as int;
        let mut total: u64 = 1;
        let mut i: usize = 0;
        while i < node.children.len()
            invariant
                0 <= i <= n,
                total as int == 1 + minmax_visits_from(cs, d, 0) - minmax_visits_from(
                    cs, d, i as int),
            decreases n - i,
        {
            proof {
                lemma_minmax_visits_from_le(cs, d, 0, i as int);
                assert(minmax_visits_from(cs, d, i as int) == minmax_visits(cs[i as int].1, d)
                    + minmax_visits_from(cs, d, i as int + 1));
            }
            let c = minmax_visited(&node.children[i].1, dm1);
            total = total + c;
            i += 1;
        }
        total
    }
}

/// Sequential Alpha-Beta instrumented to count the nodes it evaluates: the
/// same pruning discipline as `alpha_beta`, returning score and count.
pub fn alpha_beta_visited(node: &Position, depth: u8, alpha: i8, beta: i8, maxi: bool) -> (r: (i8, u64))
    requires
        node.wf_to(depth as nat),
        alpha < beta,
        minmax_visits(*node, depth as nat) <= u64::MAX,
    ensures
        ab_score_ok(*node, depth as nat, alpha as int, beta as int, maxi, r.0 as int),
        r.1 as int == ab_visits(*node, depth as nat, alpha as int, beta as int, maxi),
    decreases depth,
{
    if depth == 0 || node.children.len() == 0 {
        proof {
            lemma_minmax_bounds(*node, depth as nat, maxi);
        }
        if maxi == node.player {
            (node.value(), 1)
        } else {
            (-node.value(), 1)
        }
    } else {
        let dm1 = depth - 1;
        let ghost cs = node.children@;
        let ghost d = dm1 as nat;
        let ghost n = cs.len() as int;
        let ghost mm = minmax_value(*node, depth as nat, maxi);
        proof {
            lemma_minmax_bounds(*node, depth as nat, maxi);
            lemma_best_value_is_opt(cs, d, maxi, node.player == maxi, n);
            assert(mm == best_value(cs, d, maxi, node.player == maxi, n));
            lemma_ab_visits_le_minmax(*node, depth as nat, alpha as int, beta as int, maxi);
        }
        let ghost ab0 = ab_visits_from(cs, d, alpha as int, beta as int, maxi,
            node.player == maxi, 0);
        if node.player == maxi {
            let mut a: i8 = alpha;
            let mut best_val: i8 = i8::MIN;
            let mut got: bool = false;
            let mut total: u64 = 1;
            let mut i: usize = 0;
            let mut cut: bool = false;
            let ghost mut bk: int = 0;
            while i < node.children.len() && !cut
                invariant
                    0 <= i <= n,
                    !cut ==> alpha <= a && (a as int) < beta as int,
                    !cut ==> forall|j: int| 0 <= j < i ==> #[trigger] child_value(cs, d, maxi, j)
                        <= a as int,
                    !got ==> !cut && a == alpha && best_val == i8::MIN,
                    got ==> alpha < a && best_val == a && 0 <= bk < i,
                    got ==> ((best_val as int) < beta as int ==> child_value(cs, d, maxi, bk)
                        == best_val as int),
                    got ==> ((best_val as int) >= beta as int ==> child_value(cs, d, maxi, bk)
                        >= beta as int),
                    cut ==> got && (best_val as int) >= beta as int,
                    !cut ==> total as int == 1 + ab0 - ab_visits_from(cs, d, a as int,
                        beta as int, maxi, true, i as int),
                    cut ==> total as int == 1 + ab0,
                decreases n - i, (if cut { 0int } else { 1int }),
            {
                proof {
                    lemma_minmax_visits_from_le(cs, d, 0, i as int);
                    assert(minmax_visits_from(cs, d, i as int) == minmax_visits(cs[i as int].1, d)
                        + minmax_visits_from(cs, d, i as int + 1));
                }
                let cr = alpha_beta_visited(&node.children[i].1, dm1, a, beta, maxi);
                let v = cr.0;
                let c = cr.1;
                let ghost vi = child_value(cs, d, maxi, i as int);
                proof {
                    assert(ab_score_ok(cs[i as int].1, d, a as int, beta as int, maxi, v as int));
                    assert(ab_visits_from(cs, d, a as int, beta as int, maxi, true, i as int)
                        == if vi >= beta as int {
                        c as int
                    } else if vi > a as int {
                        c as int + ab_visits_from(cs, d, vi, beta as int, maxi, true, i as int + 1)
                    } else {
                        c as int + ab_visits_from(cs, d, a as int, beta as int, maxi, true,
                            i as int + 1)
                    });
                }
                total = total + c;
                if v > a {
                    proof {
                        if vi < beta as int {
                            assert(vi == v as int);
                        } else {
                            assert((v as int) >= beta as int);
                        }
                        bk = i as int;
                    }
                    a = v;
                    best_val = v;
                    got = true;
                }
                i += 1;
                if a >= beta {
                    cut = true;
                }
            }
            proof {
                if cut {
                    assert(mm >= child_value(cs, d, maxi, bk));
                    assert(mm >= beta as int);
                } else {
                    assert(i == n);
                    assert(ab_visits_from(cs, d, a as int, beta as int, maxi, true, n) == 0);
                    if got {
                        assert(child_value(cs, d, maxi, bk) == best_val as int);
                        assert(mm >= best_val as int);
                        assert(mm <= a as int);
                    } else {
                        assert(mm <= alpha as int);
                    }
                }
                assert(total as int == 1 + ab0);
            }
            (best_val, total)
        } else {
            let mut b: i8 = beta;
            let mut best_val: i8 = i8::MAX;
            let mut got: bool = false;
            let mut total: u64 = 1;
            let mut i: usize = 0;
            let mut cut: bool = false;
            let ghost mut bk: int = 0;
            while i < node.children.len() && !cut
                invariant
                    0 <= i <= n,
                    !cut ==> b <= beta && (alpha as int) < b as int,
                    !cut ==> forall|j: int| 0 <= j < i ==> #[trigger] child_value(cs, d, maxi, j)
                        >= b as int,
                    !got ==> !cut && b == beta && best_val == i8::MAX,
                    got ==> b < beta && best_val == b && 0 <= bk < i,
                    got ==> ((best_val as int) > alpha as int ==> child_value(cs, d, maxi, bk)
                        == best_val as int),
                    got ==> ((best_val as int) <= alpha as int ==> child_value(cs, d, maxi, bk)
                        <= alpha as int),
                    cut ==> got && (best_val as int) <= alpha as int,
                    !cut ==> total as int == 1 + ab0 - ab_visits_from(cs, d, alpha as int,
                        b as int, maxi, false, i as int),
                    cut ==> total as int == 1 + ab0,
                decreases n - i, (if cut { 0int } else { 1int }),
            {
                proof {
                    lemma_minmax_visits_from_le(cs, d, 0, i as int);
                    assert(minmax_visits_from(cs, d, i as int) == minmax_visits(cs[i as int].1, d)
                        + minmax_visits_from(cs, d, i as int + 1));
                }
                let cr = alpha_beta_visited(&node.children[i].1, dm1, alpha, b, maxi);
                let v = cr.0;
                let c = cr.1;
                let ghost vi = child_value(cs, d, maxi, i as int);
                proof {
                    assert(ab_score_ok(cs[i as int].1, d, alpha as int, b as int, maxi, v as int));
                    assert(ab_visits_from(cs, d, alpha as int, b as int, maxi, false, i as int)
                        == if vi <= alpha as int {
                        c as int
                    } else if vi < b as int {
                        c as int + ab_visits_from(cs, d, alpha as int, vi, maxi, false,
                            i as int + 1)
                    } else {
                        c as int + ab_visits_from(cs, d, alpha as int, b as int, maxi, false,
                            i as int + 1)
                    });
                }
                total = total + c;
                if v < b {
                    proof {
                        if vi > alpha as int {
                            assert(vi == v as int);
                        } else {
                            assert((v as int) <= alpha as int);
                        }
                        bk = i as int;
                    }
                    b = v;
                    best_val = v;
                    got = true;
                }
                i += 1;
                if alpha >= b {
                    cut = true;
                }
            }
            proof {
                if cut {
                    assert(mm <= child_value(cs, d, maxi, bk));
                    assert(mm <= alpha as int);
                } else {
                    assert(i == n);
                    assert(ab_visits_from(cs, d, alpha as int, b as int, maxi, false, n) == 0);
                    if got {
                        assert(child_value(cs, d, maxi, bk) == best_val as int);
                        assert(mm <= best_val as int);
                        assert(mm >= b as int);
                    } else {
                        assert(mm >= beta as int);
                    }
                }
                assert(total as int == 1 + ab0);
            }
            (best_val, total)
        }
    }
}

} // verus!
