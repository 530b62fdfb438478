use vstd::prelude::*;

use crate::game::game::Turn;

verus! {

/// A node of the search tree: a move and the results of the simulations through it.
#[derive(Debug)]
pub struct MonteCarloNode {
    /// The move that the node represents
    pub play: Vec<usize>,
    /// The number of simulations where this move was made
    pub playouts: u64,
    /// The sum of the results of those simulations (win +1, draw 0, loss -1), seen from
    /// the player the search optimises for
    pub score: i64,
    /// The number of children that node will have once fully expanded
    pub child_count: usize,
    /// The turn for which the node's move is
    pub turn: Turn,
}

/// The mathematical picture of a node.
pub struct NodeModel {
    pub play: Seq<usize>,
    pub playouts: u64,
    pub score: i64,
    pub child_count: usize,
    pub turn: Turn,
}

impl View for MonteCarloNode {
    type V = NodeModel;

    open spec fn view(&self) -> NodeModel {
        NodeModel {
            play: self.play@,
            playouts: self.playouts,
            score: self.score,
            child_count: self.child_count,
            turn: self.turn,
        }
    }
}

/// `x + y` held within the range of `i64`.
pub open spec fn add_held(x: i64, y: i64) -> i64 {
    if x + y > i64::MAX {
        i64::MAX
    } else if x + y < i64::MIN {
        i64::MIN
    } else {
        (x + y) as i64
    }
}

/// The score of a node seen from `opt_for`: its own score when its move is `opt_for`'s,
/// else the negated score (held at `i64::MAX`).
pub open spec fn relative_score(n: NodeModel, opt_for: Turn) -> i64 {
    if n.turn == opt_for {
        n.score
    } else if n.score == i64::MIN {
        i64::MAX
    } else {
        (-n.score) as i64
    }
}

/// `x + y` held within the range of `i64`.
pub fn add_held_exec(x: i64, y: i64) -> (r: i64)
    ensures
        r == add_held(x, y),
{
    match x.checked_add(y) {
        Some(r) => r,
        None => if y > 0 {
            i64::MAX
        } else {
            i64::MIN
        },
    }
}

impl MonteCarloNode {
    /// Constructor function
    pub fn new(play: Vec<usize>, child_count: usize, turn: Turn) -> (r: MonteCarloNode)
        ensures
            r@ == (NodeModel { play: play@, playouts: 0, score: 0, child_count, turn }),
    {
        MonteCarloNode { play, playouts: 0, score: 0, child_count, turn }
    }

    /// Calculates the relative score of the node based on the turn of the node
    pub fn score(&self, opt_for: Turn) -> (r: i64)
        ensures
            r == relative_score(self@, opt_for),
    {
        if self.turn == opt_for {
            self.score
        } else if self.score == i64::MIN {
            i64::MAX
        } else {
            -self.score
        }
    }

    /// A copy of the node.
    pub fn copy(&self) -> (r: MonteCarloNode)
        ensures
            r@ == self@,
    {
        MonteCarloNode {
            play: vstd::slice::slice_to_vec(self.play.as_slice()),
            playouts: self.playouts,
            score: self.score,
            child_count: self.child_count,
            turn: self.turn,
        }
    }
}

} // verus!
