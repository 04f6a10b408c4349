//! The nodes of the search tree and the moves that lead from them.
use vstd::prelude::*;

verus! {

/// A move out of a position, with what the search has learned of it.
#[derive(Clone, Debug)]
pub struct MoveInfo<M> {
    pub mov: M,
    /// The node of the position that the move leads to, once it is made.
    pub child: Option<usize>,
    /// How often a playout took the move.
    pub visits: u64,
    /// The evaluations that those playouts brought back, added up.
    pub sum_evaluations: i64,
}

/// A position in the search tree.
#[derive(Clone, Debug)]
pub struct SearchNode<M> {
    /// The moves open in the position; none at the end of the game.
    pub moves: Vec<MoveInfo<M>>,
    /// What the position was judged to be worth when its node was made.
    pub evaln: i64,
    /// How often a playout came to the node.
    pub visits: u64,
}

/// Mathematical counterpart of `SearchNode`.
pub struct NodeView<M> {
    pub moves: Seq<MoveInfo<M>>,
    pub evaln: i64,
    pub visits: u64,
}

impl<M> View for SearchNode<M> {
    type V = NodeView<M>;

    open spec fn view(&self) -> NodeView<M> {
        NodeView { moves: self.moves@, evaln: self.evaln, visits: self.visits }
    }
}

/// The nodes as a sequence of their views.
pub open spec fn nodes_view<M>(nodes: Seq<SearchNode<M>>) -> Seq<NodeView<M>> {
    Seq::new(nodes.len(), |i: int| nodes[i]@)
}

/// The sum of two numbers, capped at the ends of `i64`.
pub open spec fn capped_sum(a: int, b: int) -> i64 {
    if a + b > i64::MAX {
        i64::MAX
    } else if a + b < i64::MIN {
        i64::MIN
    } else {
        (a + b) as i64
    }
}

/// One more, capped at the largest `u64`.
pub open spec fn one_more(count: u64) -> u64 {
    if count == u64::MAX {
        u64::MAX
    } else {
        (count + 1) as u64
    }
}

/// Adds two numbers, stopping at the ends of `i64`.
pub fn add_capped(a: i64, b: i64) -> (sum: i64)
    ensures
        sum == capped_sum(a as int, b as int),
{
    let wide: i128 = a as i128 + b as i128;
    if wide > i64::MAX as i128 {
        i64::MAX
    } else if wide < i64::MIN as i128 {
        i64::MIN
    } else {
        wide as i64
    }
}

/// Subtracts `b` from `a`, stopping at the ends of `i64`.
pub fn sub_capped(a: i64, b: i64) -> (difference: i64)
    ensures
        difference == capped_sum(a as int, -(b as int)),
{
    let wide: i128 = a as i128 - b as i128;
    if wide > i64::MAX as i128 {
        i64::MAX
    } else if wide < i64::MIN as i128 {
        i64::MIN
    } else {
        wide as i64
    }
}

impl<M> MoveInfo<M> {
    pub fn get_move(&self) -> (mov: &M)
        ensures
            *mov == self.mov,
    {
        &self.mov
    }

    pub fn visits(&self) -> (visits: u64)
        ensures
            visits == self.visits,
    {
        self.visits
    }

    pub fn sum_rewards(&self) -> (sum: i64)
        ensures
            sum == self.sum_evaluations,
    {
        self.sum_evaluations
    }
}

} // verus!
