//! Running dataflows on one worker.

use vstd::prelude::*;
use crate::control::CancellationToken;
use crate::dataflow::{is_launched, DataflowView, LogicalDataflow};
use crate::error::{Error, Result};
use crate::executor::{DataflowExecutor, History};
use crate::metrics::DataflowMetrics;
use crate::order::Timestamp;
use crate::schedulable::{BoxedOperatorFactory, WorkerContext};

verus! {

/// Runs dataflows to their end.
pub struct SimpleRuntime {
    cancel: CancellationToken,
}

/// How a run of a dataflow came about.
#[verifier::reject_recursive_types(T)]
pub struct RunCourse<T: Timestamp> {
    /// The worker, which is the only one.
    pub context: WorkerContext,
    /// The executor before and after.
    pub start: DataflowExecutor<T>,
    pub end: DataflowExecutor<T>,
    pub history: History<T>,
    pub result: Result<bool>,
}

/// The dataflow was launched and run in the given way.
pub open spec fn is_run_by<T: Timestamp>(
    d: DataflowView,
    makers: Seq<(usize, BoxedOperatorFactory<T>)>,
    cancel: CancellationToken,
    c: RunCourse<T>,
) -> bool {
    &&& c.context.place() == (0usize, 1usize)
    &&& is_launched(c.start, d, makers, cancel, c.context)
    &&& c.start.runs_by(&c.end, c.result, c.history)
}

/// What a run returns: what was counted, or why it failed.
pub open spec fn ends_in<T: Timestamp>(
    c: RunCourse<T>,
    r: Result<Option<DataflowMetrics>>,
) -> bool {
    match r {
        Ok(m) => c.result is Ok && m == c.end.crew.metrics,
        Err(e) => c.result == Err::<bool, Error>(e),
    }
}

/// The error about a dataflow that waits for batches from outside.
pub open spec fn is_ports_error(e: Error) -> bool {
    e matches Error::InvalidConfig(m) && m@
        == "dataflow has input ports, which a run to the end cannot feed"@
}

impl SimpleRuntime {
    /// What cancels the dataflows.
    pub closed spec fn token(&self) -> CancellationToken {
        self.cancel
    }

    /// A runtime whose dataflows are not cancelled.
    pub fn new() -> (r: Self) {
        SimpleRuntime { cancel: CancellationToken::new() }
    }

    /// A runtime whose dataflows the token cancels.
    pub fn with_cancel(cancel: CancellationToken) -> (r: Self)
        ensures
            r.token() == cancel,
    {
        SimpleRuntime { cancel }
    }

    /// Makes an executor that is ready to run the dataflow, also where the dataflow has input ports.
    pub fn prepare<T: Timestamp>(&self, dataflow: LogicalDataflow<T>) -> (ex: DataflowExecutor<T>)
        requires
            dataflow.wf(),
        ensures
            exists|context: WorkerContext| #[trigger]
                context.place() == (0usize, 1usize) && is_launched(
                    ex,
                    dataflow@,
                    dataflow.makers(),
                    self.token(),
                    context,
                ),
    {
        let context = WorkerContext::new(0, 1);
        assert(context.place() == (0usize, 1usize));
        dataflow.launch(self.cancel.share(), context)
    }

    /// Runs the dataflow to its end. A dataflow with input ports would wait for batches and is an
    /// error.
    fn run_to_end<T: Timestamp>(&self, dataflow: LogicalDataflow<T>) -> (r: Result<
        Option<DataflowMetrics>,
    >)
        requires
            dataflow.wf(),
        ensures
            dataflow@.input_ports.len() > 0 ==> (r matches Err(e) && is_ports_error(e)),
            dataflow@.input_ports.len() == 0 ==> exists|c: RunCourse<T>| #[trigger]
                is_run_by(dataflow@, dataflow.makers(), self.token(), c) && ends_in(c, r),
    {
        if dataflow.has_input_ports() {
            return Err(
                Error::InvalidConfig(
                    "dataflow has input ports, which a run to the end cannot feed".to_owned(),
                ),
            );
        }
        let mut ex = self.prepare(dataflow);
        let ghost start = ex;
        let result = ex.run();
        let ghost history = choose|h: History<T>| #[trigger] start.runs_by(&ex, result, h);
        let ghost context = choose|context: WorkerContext| #[trigger]
            context.place() == (0usize, 1usize) && is_launched(
                start,
                dataflow@,
                dataflow.makers(),
                self.token(),
                context,
            );
        let ghost c = RunCourse { context, start, end: ex, history, result };
        assert(is_run_by(dataflow@, dataflow.makers(), self.token(), c));
        let r = match result {
            Ok(_) => Ok(ex.crew.metrics),
            Err(e) => Err(e),
        };
        assert(ends_in(c, r));
        r
    }

    /// Runs the dataflow to its end, counts the activations of its operators, and returns the
    /// counts. A dataflow with input ports would wait for batches and is an error.
    pub fn run_with_metrics<T: Timestamp>(&self, dataflow: LogicalDataflow<T>) -> (r: Result<
        Option<DataflowMetrics>,
    >)
        requires
            dataflow.wf(),
        ensures
            dataflow@.input_ports.len() > 0 ==> (r matches Err(e) && is_ports_error(e)),
            dataflow@.input_ports.len() == 0 ==> exists|c: RunCourse<T>| #[trigger]
                is_run_by(dataflow@.counted(), dataflow.makers(), self.token(), c) && ends_in(c, r),
    {
        let mut dataflow = dataflow;
        dataflow.collect_metrics(true);
        self.run_to_end(dataflow)
    }

    /// Runs the dataflow to its end. A dataflow with input ports would wait for batches and is an
    /// error.
    pub fn run<T: Timestamp>(&self, dataflow: LogicalDataflow<T>) -> (r: Result<()>)
        requires
            dataflow.wf(),
        ensures
            dataflow@.input_ports.len() > 0 ==> (r matches Err(e) && is_ports_error(e)),
            dataflow@.input_ports.len() == 0 ==> exists|c: RunCourse<T>|
                {
                    &&& #[trigger] is_run_by(dataflow@, dataflow.makers(), self.token(), c)
                    &&& match r {
                        Ok(_) => c.result is Ok,
                        Err(e) => c.result == Err::<bool, Error>(e),
                    }
                },
    {
        match self.run_to_end(dataflow) {
            Ok(_) => Ok(()),
            Err(e) => Err(e),
        }
    }
}

} // verus!
