//! The strategy abstraction: given a position, produce the next move to play.
use vstd::prelude::*;

use crate::game::Position;
use crate::minmax::{child_value, minmax_value, minmax_par, lemma_minmax_bounds};
use crate::alphabeta::alpha_beta_par;

verus! {

/// The move is optimal for a strategy of level `lvl`: it leads to a child
/// whose value, searched one ply shallower, equals the position's own
/// Min-Max value at the level's depth.
pub open spec fn optimal_choice(state: Position, lvl: u8, m: u64) -> bool
    recommends
        lvl >= 2,
{
    exists|k: int|
        0 <= k < state.children@.len() && (#[trigger] state.children@[k]).0 == m
            && child_value(state.children@, (lvl - 2) as nat, state.player, k) == minmax_value(
            state, (lvl - 1) as nat, state.player)
}

/// A move-choosing strategy. Implementations are stateless across calls
/// except for their configuration (the search level).
pub trait Strategy {
    /// The inputs on which the strategy is ready to choose a move.
    spec fn ready(&self, state: &Position) -> bool;

    /// Produce the next move to play: a legal move of `state`, or none —
    /// in particular whenever the position has no legal move.
    fn compute_next_move(&mut self, state: &Position) -> (r: Option<u64>)
        requires
            old(self).ready(state),
        ensures
            r matches Some(m) ==> state.has_move(m),
            state.children@.len() == 0 ==> r is None,
    ;
}

/// Min-Max strategy with a given maximum search level: level `n` searches
/// `n - 1` plies from the root, with the player to move at the root as the
/// maximizing player.
pub struct MinMax(pub u8);

impl Strategy for MinMax {
    open spec fn ready(&self, state: &Position) -> bool {
        &&& self.0 >= 1
        &&& state.wf_to((self.0 - 1) as nat)
    }

    fn compute_next_move(&mut self, state: &Position) -> (r: Option<u64>)
        ensures
            r is Some <==> (old(self).0 >= 2 && state.children@.len() > 0),
            r matches Some(m) ==> optimal_choice(*state, old(self).0, m),
    {
        let r = minmax_par(state, self.0 - 1, state.player);
        proof {
            if r.0 is Some {
                assert(state.has_move(r.0->0));
                assert(optimal_choice(*state, self.0, r.0->0));
            }
        }
        r.0
    }
}

/// Alpha-Beta strategy with a given maximum search level: level `n` searches
/// `n - 1` plies from the root at the full pruning window, with the player to
/// move at the root as the maximizing player.
pub struct AlphaBeta(pub u8);

impl Strategy for AlphaBeta {
    open spec fn ready(&self, state: &Position) -> bool {
        &&& self.0 >= 1
        &&& state.wf_to((self.0 - 1) as nat)
    }

    fn compute_next_move(&mut self, state: &Position) -> (r: Option<u64>)
        ensures
            r is Some <==> (old(self).0 >= 2 && state.children@.len() > 0),
            r matches Some(m) ==> optimal_choice(*state, old(self).0, m),
    {
        let r = alpha_beta_par(state, self.0 - 1, i8::MIN, i8::MAX, state.player);
        proof {
            if r.0 is Some {
                let m = r.0->0;
                assert(state.has_move(m));
                let cs = state.children@;
                let d = (self.0 - 2) as nat;
                let s = r.1 as int;
                let mm = minmax_value(*state, (self.0 - 1) as nat, state.player);
                assert(s == mm);
                let k = choose|k: int|
                    0 <= k < cs.len() && (#[trigger] cs[k]).0 == m && ({
                        let v = child_value(cs, d, state.player, k);
                        &&& (-128 < s < 127 ==> v == s)
                        &&& (s >= 127 ==> v >= 127)
                        &&& (s <= -128 ==> v <= -128)
                    });
                lemma_minmax_bounds(*state, (self.0 - 1) as nat, state.player);
                lemma_minmax_bounds(cs[k].1, d, state.player);
                assert(child_value(cs, d, state.player, k) == mm);
                assert(optimal_choice(*state, self.0, m));
            }
        }
        r.0
    }
}

} // verus!
