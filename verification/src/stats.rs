use vstd::prelude::*;

verus! {

/// Aggregate totals of the root of a finished search tree.
#[derive(Clone, Copy, Debug, PartialEq, Eq, Structural)]
pub struct MctsStats {
    pub tree_cumulative_reward: i64,
    pub tree_games: u64,
}

} // verus!
