//! The game-state model: an explicit, immutable game tree node.
use vstd::prelude::*;

verus! {

/// A complete game state at one node of the search tree.
///
/// The board's topology and rules are outside this crate's scope: a position
/// carries, as plain values, exactly what the search engines read — whose turn
/// it is, the node's heuristic/terminal score, and the legal moves together
/// with the position each one leads to.
pub struct Position {
    /// Tag for the player to move at this node.
    pub player: bool,
    /// Heuristic or terminal evaluation of this node, from a fixed canonical
    /// perspective. Fits a signed byte.
    pub score: i8,
    /// The legal moves: each move identifier paired with the position reached
    /// by playing it. Empty at a terminal node.
    pub children: Vec<(u64, Position)>,
}

impl Position {
    /// Well-formedness of every node reachable within `d` plies: each score
    /// stays strictly above `i8::MIN`, so that its negation fits an `i8`.
    pub open spec fn wf_to(self, d: nat) -> bool
        decreases d,
    {
        &&& -127 <= self.score as int
        &&& (d > 0 ==> forall|i: int|
                0 <= i < self.children@.len() ==> (#[trigger] self.children@[i].1).wf_to((d - 1) as nat))
    }

    /// Whether `m` names a legal move at this node.
    pub open spec fn has_move(self, m: u64) -> bool {
        exists|i: int| 0 <= i < self.children@.len() && (#[trigger] self.children@[i]).0 == m
    }

    /// The node's raw evaluation.
    pub fn value(&self) -> (r: i8)
        ensures
            r == self.score,
    {
        self.score
    }
}

} // verus!
