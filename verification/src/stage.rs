//! Stages: the groups of operators between exchange boundaries.

use vstd::prelude::*;

verus! {

/// Identifies a stage of a dataflow.
#[derive(Clone, Copy, Debug, PartialEq, Eq, PartialOrd, Ord, Hash, Structural)]
pub struct StageId(pub usize);

/// A stage seen as an execution region.
pub type RegionId = StageId;

impl StageId {
    /// The stage with the given number.
    pub fn new(id: usize) -> (stage: Self)
        ensures
            stage.0 == id,
    {
        StageId(id)
    }

    /// The number of the stage.
    pub fn id(&self) -> (id: usize)
        ensures
            id == self.0,
    {
        self.0
    }
}

/// Positions of operators in the order in which a fused sweep visits them.
#[derive(Debug)]
pub struct FusedActivationOrder {
    pub positions: Vec<usize>,
}

impl FusedActivationOrder {
    /// An order that visits `positions` from front to back.
    pub fn new(positions: Vec<usize>) -> (order: Self)
        ensures
            order.positions == positions,
    {
        FusedActivationOrder { positions }
    }

    /// The visited positions.
    pub fn positions(&self) -> (positions: &Vec<usize>)
        ensures
            *positions == self.positions,
    {
        &self.positions
    }

    /// How many positions are visited.
    pub fn len(&self) -> (n: usize)
        ensures
            n == self.positions@.len(),
    {
        self.positions.len()
    }
}

/// Metadata of one stage: which operators it holds and how wide it runs.
#[derive(Debug)]
pub struct StageInfo {
    /// The number of the stage.
    pub id: StageId,
    /// The degree of parallelism, where an exchange fixes one.
    pub parallelism: Option<usize>,
    /// Graph indices of the stage's operators, in topological order.
    pub operator_indices: Vec<usize>,
    /// The order in which a fused sweep visits the operators.
    pub fused_order: FusedActivationOrder,
}

} // verus!
