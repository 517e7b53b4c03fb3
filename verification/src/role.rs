//! What operators are there for.

use vstd::prelude::*;
use crate::shared::Mark;

verus! {

/// The times under which an operator keeps records until their time is complete.
pub enum Keeping {
    /// Their own.
    Same,
    /// Later ones, the same for a whole batch.
    DelayedBatch,
    /// Later ones, for each record its own.
    Delayed,
}

/// What an operator sends for a complete time.
pub enum Ending {
    Records,
    Count,
    Reduction,
    Fold,
    Distinct,
}

/// What an operator is there for: the logic that it runs.
pub enum Role {
    /// A source of so many batches that are there from the start.
    Source(nat),
    /// A source of batches that come from outside.
    Input,
    /// The logics on single batches.
    Pass,
    MapEach,
    Filter,
    Inspect,
    InspectBatch,
    FlatMap,
    MapBatch,
    Take(usize),
    TakeWhile,
    Branch(bool),
    MapOk,
    FilterOk,
    AndThen,
    OkPart,
    ErrPart,
    /// Records wait until their time is complete.
    Gather(Keeping, Ending),
    /// A closure on handles.
    Unary,
    Notified,
    Join,
    Merge,
    /// At most so many tasks at once.
    Tasks(usize),
    /// The borders of loops.
    Enter,
    Leave,
    Return,
    /// Sinks.
    Collect,
    ForEach,
}

/// What an operator is there for, and the strands that it is connected to.
pub struct Duty {
    pub role: Role,
    /// The strands that it reads, input by input.
    pub reads: Seq<Mark>,
    /// The outlets that it writes to.
    pub writes: Seq<Mark>,
}

/// What is known of a channel between two operators.
pub struct Line {
    /// How many batches may wait for the reader.
    pub capacity: usize,
    /// The mark of the strand that is read.
    pub mark: Mark,
}

} // verus!
