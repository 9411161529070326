//! The switches that steer the analysis.

use vstd::prelude::*;

verus! {

/// Which calls are taken out of a graph because nothing can be said about
/// them.
#[derive(Clone, Copy, PartialEq, Eq, Structural, Debug)]
pub enum InconsequentialCallRemovalPolicy {
    /// No call is taken out.
    Disabled,
    /// A call is kept if it governs the control flow of another node.
    Conservative,
    /// A call is taken out even if it governs the control flow of another
    /// node.
    Aggressive,
}

impl InconsequentialCallRemovalPolicy {
    /// Whether calls are taken out at all.
    pub fn is_enabled(self) -> (b: bool)
        ensures
            b == (self != InconsequentialCallRemovalPolicy::Disabled),
    {
        !matches!(self, InconsequentialCallRemovalPolicy::Disabled)
    }

    /// Whether a call that governs the control flow of another node may be
    /// taken out.
    pub fn remove_ctrl_flow_source(self) -> (b: bool)
        ensures
            b == (self == InconsequentialCallRemovalPolicy::Aggressive),
    {
        matches!(self, InconsequentialCallRemovalPolicy::Aggressive)
    }
}

/// Which edges are checked against the place equations after inlining.
#[derive(Clone, Copy, PartialEq, Eq, Structural, Debug)]
pub enum PruningStrategy {
    /// Every edge that an earlier pass cannot have checked.
    NotPreviouslyPrunedEdges,
    /// The edges that inlining put in and that an earlier pass cannot have
    /// checked.
    NewEdgesNotPreviouslyPruned,
    /// The edges that inlining put in.
    NewEdges,
}

/// The switches that steer the analysis.
#[derive(Clone, Copy, Debug)]
pub struct AnalysisCtrl {
    /// Whether callees are inlined at all.
    pub use_recursive_analysis: bool,
    /// Whether calls that poll a future are dropped from the graph.
    pub drop_poll: bool,
    /// Which calls are taken out of a graph after inlining.
    pub remove_inconsequential_calls: InconsequentialCallRemovalPolicy,
    /// Whether edges are checked against the place equations.
    pub use_pruning: bool,
    /// Which edges are checked.
    pub pruning_strategy: PruningStrategy,
    /// Whether the search for what an argument depends on starts with the
    /// places whose values can be reached from the argument, and not with
    /// the argument alone.
    pub use_reachable_values_in_dfs: bool,
}

impl AnalysisCtrl {
    /// Inlining, dropping of polls and pruning of every edge that was not
    /// checked before; no call is taken out.
    pub fn new() -> (c: Self)
        ensures
            c.use_recursive_analysis,
            c.drop_poll,
            c.remove_inconsequential_calls == InconsequentialCallRemovalPolicy::Disabled,
            c.use_pruning,
            c.pruning_strategy == PruningStrategy::NotPreviouslyPrunedEdges,
            !c.use_reachable_values_in_dfs,
    {
        AnalysisCtrl {
            use_recursive_analysis: true,
            drop_poll: true,
            remove_inconsequential_calls: InconsequentialCallRemovalPolicy::Disabled,
            use_pruning: true,
            pruning_strategy: PruningStrategy::NotPreviouslyPrunedEdges,
            use_reachable_values_in_dfs: false,
        }
    }

    /// Whether callees are inlined at all.
    pub fn use_recursive_analysis(&self) -> (b: bool)
        ensures
            b == self.use_recursive_analysis,
    {
        self.use_recursive_analysis
    }

    /// Whether calls that poll a future are dropped from the graph.
    pub fn drop_poll(&self) -> (b: bool)
        ensures
            b == self.drop_poll,
    {
        self.drop_poll
    }

    /// Which calls are taken out of a graph after inlining.
    pub fn remove_inconsequential_calls(&self) -> (p: InconsequentialCallRemovalPolicy)
        ensures
            p == self.remove_inconsequential_calls,
    {
        self.remove_inconsequential_calls
    }

    /// Whether the search for what an argument depends on starts with the
    /// places whose values can be reached from the argument.
    pub fn use_reachable_values_in_dfs(&self) -> (b: bool)
        ensures
            b == self.use_reachable_values_in_dfs,
    {
        self.use_reachable_values_in_dfs
    }

    /// Whether edges are checked against the place equations.
    pub fn use_pruning(&self) -> (b: bool)
        ensures
            b == self.use_pruning,
    {
        self.use_pruning
    }

    /// Which edges are checked.
    pub fn pruning_strategy(&self) -> (s: PruningStrategy)
        ensures
            s == self.pruning_strategy,
    {
        self.pruning_strategy
    }
}

} // verus!
