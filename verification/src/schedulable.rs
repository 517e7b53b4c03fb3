//! What the executor schedules: operators, and the factories that make them.

use vstd::prelude::*;
use crate::error::{Error, Result};
use crate::frontier::Antichain;
use crate::order::Timestamp;
use crate::role::{Duty, Line};
use crate::stage::StageId;
use crate::wake::WakeHandle;

verus! {

/// What an activation of an operator achieved.
#[derive(Clone, Copy, Debug, PartialEq, Eq, Structural)]
pub enum ActivationOutcome {
    /// Something was read or written.
    MadeProgress,
    /// There was nothing to do.
    Idle,
    /// Results of tasks in flight are awaited.
    WaitingForAsync,
    /// Output waits for room in a channel.
    BlockedOnBackpressure,
    /// The operator has finished.
    Done,
}

impl ActivationOutcome {
    /// Whether the activation counts against a budget of productive activations.
    pub open spec fn productive(self) -> bool {
        self is MadeProgress || self is BlockedOnBackpressure || self is Done
    }
}

/// What a panic left behind.
#[derive(Debug)]
pub enum PanicPayload {
    /// A literal message.
    Text(&'static str),
    /// A composed message.
    Owned(String),
    /// Something that is no message.
    Other,
}

/// The message of a panic.
pub open spec fn panic_text(payload: PanicPayload) -> Seq<char> {
    match payload {
        PanicPayload::Text(s) => s@,
        PanicPayload::Owned(s) => s@,
        PanicPayload::Other => "unknown panic payload"@,
    }
}

/// The message of a panic, for people to read.
pub fn extract_panic_message(payload: &PanicPayload) -> (message: String)
    ensures
        message@ == panic_text(*payload),
{
    match payload {
        PanicPayload::Text(s) => (*s).to_owned(),
        PanicPayload::Owned(s) => s.clone(),
        PanicPayload::Other => "unknown panic payload".to_owned(),
    }
}

/// What an activation came to: what the operator answered, or what its panic left behind.
pub type Answer = core::result::Result<Result<ActivationOutcome>, PanicPayload>;

/// An operator as the executor sees it.
pub trait SchedulableOperator<T: Timestamp> {
    /// The index of the operator in its graph.
    open spec fn id(&self) -> usize {
        arbitrary()
    }

    /// The name of the operator.
    open spec fn label(&self) -> Seq<char> {
        arbitrary()
    }

    /// What the activations so far came to, in order.
    open spec fn answers(&self) -> Seq<Answer> {
        arbitrary()
    }

    /// The frontier that the operator was told last, if it was told any.
    open spec fn heard(&self) -> Option<Seq<T>> {
        arbitrary()
    }

    /// The operator was told that no more input will come.
    open spec fn dismissed(&self) -> bool {
        arbitrary()
    }

    /// A requested time is complete and was not delivered yet.
    open spec fn notifying(&self) -> bool {
        arbitrary()
    }

    /// What the operator is there for, and its channels.
    open spec fn duty(&self) -> Duty {
        arbitrary()
    }

    /// The operator has finished.
    open spec fn ended(&self) -> bool {
        arbitrary()
    }

    /// The stage that the operator belongs to.
    open spec fn stage(&self) -> StageId {
        arbitrary()
    }

    /// Batches with the given times can be waiting at the inputs.
    open spec fn queues(&self, times: Seq<T>) -> bool {
        arbitrary()
    }

    /// The times at which the operator may still send something on its own account.
    open spec fn holding(&self) -> Seq<T> {
        arbitrary()
    }

    /// The times that the operator wants to be complete before it sends something.
    open spec fn requesting(&self) -> Seq<T> {
        arbitrary()
    }

    /// Does a round of work.
    fn activate(&mut self) -> (r: Result<ActivationOutcome>)
        ensures
            final(self).id() == old(self).id(),
            final(self).label() == old(self).label(),
            final(self).heard() == old(self).heard(),
            final(self).dismissed() == old(self).dismissed(),
            final(self).answers() == old(self).answers().push(Ok(r)),
    ;

    /// Does a round of work under a guard that catches panics. An operator that needs no guard
    /// just works.
    fn activate_guarded(&mut self) -> (r: Answer)
        ensures
            final(self).id() == old(self).id(),
            final(self).label() == old(self).label(),
            final(self).heard() == old(self).heard(),
            final(self).dismissed() == old(self).dismissed(),
            final(self).answers() == old(self).answers().push(r),
    {
        Ok(self.activate())
    }

    /// Whether the operator has finished.
    fn is_done(&self) -> (b: bool)
        ensures
            b == self.ended(),
    ;

    /// The name of the operator.
    fn name(&self) -> (name: &str)
        ensures
            name@ == self.label(),
    ;

    /// The index of the operator in its graph.
    fn index(&self) -> (index: usize)
        ensures
            index == self.id(),
    ;

    /// The stage that the operator belongs to.
    fn stage_id(&self) -> (stage: StageId)
        ensures
            stage == self.stage(),
    ;

    /// Tells the operator that no more input will come.
    fn close_inputs(&mut self)
        ensures
            final(self).id() == old(self).id(),
            final(self).label() == old(self).label(),
            final(self).answers() == old(self).answers(),
            final(self).heard() == old(self).heard(),
            final(self).dismissed(),
    ;

    /// Tells the operator which times its input may still carry. Operators that do not wait for
    /// complete times ignore it.
    fn update_input_frontier(&mut self, frontier: &Antichain<T>)
        ensures
            final(self).id() == old(self).id(),
            final(self).label() == old(self).label(),
            final(self).answers() == old(self).answers(),
            final(self).dismissed() == old(self).dismissed(),
            final(self).heard() == Some(frontier@),
    ;

    /// Whether a requested time is complete and was not delivered yet.
    fn has_ready_notifications(&self) -> (b: bool)
        ensures
            b == self.notifying(),
    ;

    /// The times of the batches that wait at the inputs.
    fn queued_times(&self) -> (times: Vec<T>)
        ensures
            self.queues(times@),
    ;

    /// The times at which the operator may still send something on its own account.
    fn held_times(&self) -> (times: Vec<T>)
        ensures
            times@ == self.holding(),
    ;

    /// The times that the operator wants to be complete before it sends something.
    fn requested_times(&self) -> (times: Vec<T>)
        ensures
            times@ == self.requesting(),
    ;
}

/// An operator of a known type.
struct Held<O> {
    op: O,
}

impl<T: Timestamp, O: SchedulableOperator<T>> SchedulableOperator<T> for Held<O> {
    closed spec fn id(&self) -> usize {
        self.op.id()
    }

    closed spec fn label(&self) -> Seq<char> {
        self.op.label()
    }

    closed spec fn answers(&self) -> Seq<Answer> {
        self.op.answers()
    }

    closed spec fn heard(&self) -> Option<Seq<T>> {
        self.op.heard()
    }

    closed spec fn dismissed(&self) -> bool {
        self.op.dismissed()
    }

    closed spec fn notifying(&self) -> bool {
        self.op.notifying()
    }

    closed spec fn duty(&self) -> Duty {
        self.op.duty()
    }

    closed spec fn ended(&self) -> bool {
        self.op.ended()
    }

    closed spec fn stage(&self) -> StageId {
        self.op.stage()
    }

    closed spec fn queues(&self, times: Seq<T>) -> bool {
        self.op.queues(times)
    }

    closed spec fn holding(&self) -> Seq<T> {
        self.op.holding()
    }

    closed spec fn requesting(&self) -> Seq<T> {
        self.op.requesting()
    }

    fn activate(&mut self) -> (r: Result<ActivationOutcome>) {
        self.op.activate()
    }

    fn activate_guarded(&mut self) -> (r: Answer) {
        self.op.activate_guarded()
    }

    fn is_done(&self) -> (b: bool) {
        self.op.is_done()
    }

    fn name(&self) -> (name: &str) {
        self.op.name()
    }

    fn index(&self) -> (index: usize) {
        self.op.index()
    }

    fn stage_id(&self) -> (stage: StageId) {
        self.op.stage_id()
    }

    fn close_inputs(&mut self) {
        self.op.close_inputs();
    }

    fn update_input_frontier(&mut self, frontier: &Antichain<T>) {
        self.op.update_input_frontier(frontier);
    }

    fn has_ready_notifications(&self) -> (b: bool) {
        self.op.has_ready_notifications()
    }

    fn queued_times(&self) -> (times: Vec<T>) {
        self.op.queued_times()
    }

    fn held_times(&self) -> (times: Vec<T>) {
        self.op.held_times()
    }

    fn requested_times(&self) -> (times: Vec<T>) {
        self.op.requested_times()
    }
}

/// An operator of any type.
#[verifier::reject_recursive_types(T)]
pub struct BoxedOperator<T: Timestamp> {
    op: Box<dyn SchedulableOperator<T>>,
}

impl<T: Timestamp> BoxedOperator<T> {
    /// The index of the operator in its graph.
    pub closed spec fn id(&self) -> usize {
        self.op.id()
    }

    /// The name of the operator.
    pub closed spec fn label(&self) -> Seq<char> {
        self.op.label()
    }

    /// What the activations so far came to, in order.
    pub closed spec fn answers(&self) -> Seq<Answer> {
        self.op.answers()
    }

    /// The frontier that the operator was told last, if it was told any.
    pub closed spec fn heard(&self) -> Option<Seq<T>> {
        self.op.heard()
    }

    /// The operator was told that no more input will come.
    pub closed spec fn dismissed(&self) -> bool {
        self.op.dismissed()
    }

    /// A requested time is complete and was not delivered yet.
    pub closed spec fn notifying(&self) -> bool {
        self.op.notifying()
    }

    /// What the operator is there for, and its channels.
    pub closed spec fn duty(&self) -> Duty {
        self.op.duty()
    }

    /// The operator has finished.
    pub closed spec fn ended(&self) -> bool {
        self.op.ended()
    }

    /// The stage that the operator belongs to.
    pub closed spec fn stage(&self) -> StageId {
        self.op.stage()
    }

    /// Batches with the given times can be waiting at the inputs.
    pub closed spec fn queues(&self, times: Seq<T>) -> bool {
        self.op.queues(times)
    }

    /// The times at which the operator may still send something on its own account.
    pub closed spec fn holding(&self) -> Seq<T> {
        self.op.holding()
    }

    /// The times that the operator wants to be complete before it sends something.
    pub closed spec fn requesting(&self) -> Seq<T> {
        self.op.requesting()
    }

    /// The given operator, boxed.
    pub closed spec fn of<O: SchedulableOperator<T> + 'static>(op: O) -> Self {
        BoxedOperator { op: Box::new(Held { op }) }
    }

    /// A boxed operator is seen as the operator itself.
    pub proof fn boxing_keeps<O: SchedulableOperator<T> + 'static>(op: O)
        ensures
            Self::of(op).id() == op.id(),
            Self::of(op).label() == op.label(),
            Self::of(op).answers() == op.answers(),
            Self::of(op).heard() == op.heard(),
            Self::of(op).dismissed() == op.dismissed(),
            Self::of(op).notifying() == op.notifying(),
            Self::of(op).duty() == op.duty(),
            Self::of(op).ended() == op.ended(),
            Self::of(op).stage() == op.stage(),
            forall|times: Seq<T>| #[trigger] Self::of(op).queues(times) == op.queues(times),
            Self::of(op).holding() == op.holding(),
            Self::of(op).requesting() == op.requesting(),
    {
    }

    /// The same operator as before, after activations that came to `more`.
    pub open spec fn continues(&self, before: &Self, more: Seq<Answer>) -> bool {
        &&& self.id() == before.id()
        &&& self.label() == before.label()
        &&& self.heard() == before.heard()
        &&& self.dismissed() == before.dismissed()
        &&& self.answers() == before.answers() + more
    }

    /// The same operator as before, which was not activated; it may have been told something.
    pub open spec fn waits(&self, before: &Self) -> bool {
        &&& self.id() == before.id()
        &&& self.label() == before.label()
        &&& self.answers() == before.answers()
    }

    /// Boxes an operator.
    pub fn new<O: SchedulableOperator<T> + 'static>(op: O) -> (b: Self)
        ensures
            b.id() == op.id(),
            b.label() == op.label(),
            b.answers() == op.answers(),
            b.duty() == op.duty(),
            b == Self::of(op),
    {
        let held = Held { op };
        BoxedOperator { op: Box::new(held) }
    }

    /// Does a round of work under a guard that catches panics.
    pub fn activate_guarded(&mut self) -> (r: Answer)
        ensures
            final(self).continues(old(self), seq![r]),
    {
        let r = self.op.activate_guarded();
        assert(self.answers() =~= old(self).answers() + seq![r]);
        r
    }

    /// Does a round of work. With `catch_panics`, a panic becomes an error that names the operator.
    pub fn activate(&mut self, catch_panics: bool) -> (r: Result<ActivationOutcome>)
        ensures
            is_activated(*old(self), *final(self), catch_panics, r),
    {
        if catch_panics {
            let operator = self.op.name().to_owned();
            let answer = self.op.activate_guarded();
            assert(self.answers() =~= old(self).answers() + seq![answer]);
            match answer {
                Ok(r) => r,
                Err(payload) => Err(panic_error(operator, &payload)),
            }
        } else {
            let r = self.op.activate();
            assert(self.answers() =~= old(self).answers() + seq![Ok(r)]);
            r
        }
    }

    /// Whether the operator has finished.
    pub fn is_done(&self) -> (b: bool)
        ensures
            b == self.ended(),
    {
        self.op.is_done()
    }

    /// The name of the operator.
    pub fn name(&self) -> (name: &str)
        ensures
            name@ == self.label(),
    {
        self.op.name()
    }

    /// The index of the operator in its graph.
    pub fn index(&self) -> (index: usize)
        ensures
            index == self.id(),
    {
        self.op.index()
    }

    /// The stage that the operator belongs to.
    pub fn stage_id(&self) -> (stage: StageId)
        ensures
            stage == self.stage(),
    {
        self.op.stage_id()
    }

    /// Tells the operator that no more input will come.
    pub fn close_inputs(&mut self)
        ensures
            final(self).waits(old(self)),
            final(self).heard() == old(self).heard(),
            final(self).dismissed(),
    {
        self.op.close_inputs();
    }

    /// Tells the operator which times its input may still carry.
    pub fn update_input_frontier(&mut self, frontier: &Antichain<T>)
        ensures
            final(self).waits(old(self)),
            final(self).dismissed() == old(self).dismissed(),
            final(self).heard() == Some(frontier@),
    {
        self.op.update_input_frontier(frontier);
    }

    /// Whether a requested time is complete and was not delivered yet.
    pub fn has_ready_notifications(&self) -> (b: bool)
        ensures
            b == self.notifying(),
    {
        self.op.has_ready_notifications()
    }

    /// The times of the batches that wait at the inputs.
    pub fn queued_times(&self) -> (times: Vec<T>)
        ensures
            self.queues(times@),
    {
        self.op.queued_times()
    }

    /// The times at which the operator may still send something on its own account.
    pub fn held_times(&self) -> (times: Vec<T>)
        ensures
            times@ == self.holding(),
    {
        self.op.held_times()
    }

    /// The times that the operator wants to be complete before it sends something.
    pub fn requested_times(&self) -> (times: Vec<T>)
        ensures
            times@ == self.requesting(),
    {
        self.op.requested_times()
    }
}

/// Activates an operator. With `catch_panics`, a panic becomes an error that names the operator.
pub fn activate_operator<T: Timestamp>(op: &mut BoxedOperator<T>, catch_panics: bool) -> (r: Result<
    ActivationOutcome,
>)
    ensures
        is_activated(*old(op), *final(op), catch_panics, r),
{
    op.activate(catch_panics)
}

/// The error reports a panic of the operator with the given name.
pub open spec fn is_panic_error(e: Error, label: Seq<char>, payload: PanicPayload) -> bool {
    e matches Error::OperatorPanic { operator, worker_index, message } && operator@ == label
        && worker_index is None && message@ == panic_text(payload)
}

/// What becomes of the answer of the operator with the given name: it passes through unchanged, but
/// for a panic, which becomes an error.
pub open spec fn comes_of(label: Seq<char>, answer: Answer, r: Result<ActivationOutcome>) -> bool {
    match answer {
        Ok(plain) => r == plain,
        Err(payload) => r matches Err(e) && is_panic_error(e, label, payload),
    }
}

/// An operator was activated once, and `r` came of its answer. Panics are caught only if that is
/// wanted.
pub open spec fn is_activated<T: Timestamp>(
    before: BoxedOperator<T>,
    after: BoxedOperator<T>,
    catch_panics: bool,
    r: Result<ActivationOutcome>,
) -> bool {
    let answer = after.answers().last();
    &&& after.continues(&before, seq![answer])
    &&& comes_of(before.label(), answer, r)
    &&& !catch_panics ==> answer is Ok
}

/// The error that reports the panic of an operator.
pub fn panic_error(operator: String, payload: &PanicPayload) -> (e: Error)
    ensures
        e matches Error::OperatorPanic { operator: o, worker_index, message } && o == operator
            && worker_index is None && message@ == panic_text(*payload),
{
    Error::OperatorPanic { operator, worker_index: None, message: extract_panic_message(payload) }
}

/// The worker for which a dataflow is materialized.
#[derive(Clone, Copy, Debug, PartialEq, Eq, Structural)]
pub struct WorkerContext {
    worker_index: usize,
    peers: usize,
}

impl WorkerContext {
    /// The worker `worker_index` of `peers`.
    pub fn new(worker_index: usize, peers: usize) -> (c: Self)
        ensures
            c.place() == (worker_index, peers),
    {
        WorkerContext { worker_index, peers }
    }

    /// The number of the worker and the number of all workers.
    pub closed spec fn place(&self) -> (usize, usize) {
        (self.worker_index, self.peers)
    }

    /// The number of the worker.
    pub fn worker_index(&self) -> (w: usize)
        ensures
            w == self.place().0,
    {
        self.worker_index
    }

    /// The number of all workers.
    pub fn peers(&self) -> (n: usize)
        ensures
            n == self.place().1,
    {
        self.peers
    }
}

/// The edges at the ports of an operator, in the order of the ports.
#[derive(Debug)]
pub struct ChannelEndpoints {
    /// The edges that end at the operator.
    pub inputs: Vec<usize>,
    /// The edges that start at the operator.
    pub outputs: Vec<usize>,
}

/// Sets up the channel of an edge.
pub trait ChannelFactory {
    /// Whether the channel can be opened.
    spec fn ready(&self) -> bool;

    /// What is known of the channel.
    spec fn line(&self) -> Line;

    /// The error says why the channel cannot be opened.
    spec fn refuses(&self, e: Error) -> bool;

    /// The channel was opened and wakes the given executor.
    spec fn opened(&self, wake: WakeHandle) -> bool;

    /// Opens the channel for a worker; it wakes the given executor.
    fn build(&mut self, context: &WorkerContext, wake: &WakeHandle) -> (r: Result<()>)
        ensures
            r is Ok <==> old(self).ready(),
            r is Ok ==> old(self).opened(*wake),
            r matches Err(e) ==> old(self).refuses(e),
    ;
}

/// A channel factory of a known type.
struct HeldChannelFactory<F> {
    factory: F,
}

impl<F: ChannelFactory> ChannelFactory for HeldChannelFactory<F> {
    closed spec fn ready(&self) -> bool {
        self.factory.ready()
    }

    closed spec fn line(&self) -> Line {
        self.factory.line()
    }

    closed spec fn refuses(&self, e: Error) -> bool {
        self.factory.refuses(e)
    }

    closed spec fn opened(&self, wake: WakeHandle) -> bool {
        self.factory.opened(wake)
    }

    fn build(&mut self, context: &WorkerContext, wake: &WakeHandle) -> (r: Result<()>) {
        self.factory.build(context, wake)
    }
}

/// A channel factory of any type.
pub struct BoxedChannelFactory {
    factory: Box<dyn ChannelFactory>,
}

impl BoxedChannelFactory {
    /// Whether the channel can be opened.
    pub closed spec fn ready(&self) -> bool {
        self.factory.ready()
    }

    /// What is known of the channel.
    pub closed spec fn line(&self) -> Line {
        self.factory.line()
    }

    /// The error says why the channel cannot be opened.
    pub closed spec fn refuses(&self, e: Error) -> bool {
        self.factory.refuses(e)
    }

    /// The channel was opened and wakes the given executor.
    pub closed spec fn opened(&self, wake: WakeHandle) -> bool {
        self.factory.opened(wake)
    }

    /// Boxes a channel factory.
    pub fn new<F: ChannelFactory + 'static>(factory: F) -> (b: Self)
        ensures
            b.ready() == factory.ready(),
            b.line() == factory.line(),
            forall|e: Error| #[trigger] b.refuses(e) == factory.refuses(e),
            forall|w: WakeHandle| #[trigger] b.opened(w) == factory.opened(w),
    {
        let held = HeldChannelFactory { factory };
        BoxedChannelFactory { factory: Box::new(held) }
    }

    /// Opens the channel for a worker; it wakes the given executor.
    pub fn build(&mut self, context: &WorkerContext, wake: &WakeHandle) -> (r: Result<()>)
        ensures
            r is Ok <==> old(self).ready(),
            r is Ok ==> old(self).opened(*wake),
            r matches Err(e) ==> old(self).refuses(e),
    {
        self.factory.build(context, wake)
    }
}

/// Makes an operator.
pub trait OperatorFactory<T: Timestamp> {
    /// The operator that the factory will make for a worker, handed the edges at the inputs and at the
    /// outputs, if it can make one.
    spec fn product(
        &self,
        context: WorkerContext,
        inputs: Seq<usize>,
        outputs: Seq<usize>,
    ) -> Option<BoxedOperator<T>>;

    /// The error says why the factory cannot make the operator.
    spec fn refuses(
        &self,
        context: WorkerContext,
        inputs: Seq<usize>,
        outputs: Seq<usize>,
        e: Error,
    ) -> bool;

    /// Makes the operator for a worker.
    fn build(&mut self, context: &WorkerContext, endpoints: ChannelEndpoints) -> (r: Result<
        BoxedOperator<T>,
    >)
        ensures
            match r {
                Ok(op) => old(self).product(*context, endpoints.inputs@, endpoints.outputs@)
                    == Some(op),
                Err(e) => old(self).product(*context, endpoints.inputs@, endpoints.outputs@) is None
                    && old(self).refuses(*context, endpoints.inputs@, endpoints.outputs@, e),
            },
    ;
}

/// A factory that holds one operator and hands it out once.
#[verifier::reject_recursive_types(T)]
pub struct SingleUse<T: Timestamp> {
    operator: Option<BoxedOperator<T>>,
}

impl<T: Timestamp> SingleUse<T> {
    /// A factory for the given operator.
    pub fn new(operator: BoxedOperator<T>) -> (f: Self)
        ensures
            forall|c: WorkerContext, i: Seq<usize>, o: Seq<usize>| #[trigger]
                f.product(c, i, o) == Some(operator),
    {
        SingleUse { operator: Some(operator) }
    }
}

impl<T: Timestamp> OperatorFactory<T> for SingleUse<T> {
    closed spec fn product(
        &self,
        context: WorkerContext,
        inputs: Seq<usize>,
        outputs: Seq<usize>,
    ) -> Option<BoxedOperator<T>> {
        self.operator
    }

    open spec fn refuses(
        &self,
        context: WorkerContext,
        inputs: Seq<usize>,
        outputs: Seq<usize>,
        e: Error,
    ) -> bool {
        e matches Error::InvalidGraph(m) && m@ == "operator factory was used already"@
    }

    fn build(&mut self, context: &WorkerContext, endpoints: ChannelEndpoints) -> (r: Result<
        BoxedOperator<T>,
    >) {
        let operator = self.operator.take();
        match operator {
            Some(op) => Ok(op),
            None => Err(Error::InvalidGraph("operator factory was used already".to_owned())),
        }
    }
}

/// An operator factory of a known type.
struct HeldOperatorFactory<F> {
    factory: F,
}

impl<T: Timestamp, F: OperatorFactory<T>> OperatorFactory<T> for HeldOperatorFactory<F> {
    closed spec fn product(
        &self,
        context: WorkerContext,
        inputs: Seq<usize>,
        outputs: Seq<usize>,
    ) -> Option<BoxedOperator<T>> {
        self.factory.product(context, inputs, outputs)
    }

    closed spec fn refuses(
        &self,
        context: WorkerContext,
        inputs: Seq<usize>,
        outputs: Seq<usize>,
        e: Error,
    ) -> bool {
        self.factory.refuses(context, inputs, outputs, e)
    }

    fn build(&mut self, context: &WorkerContext, endpoints: ChannelEndpoints) -> (r: Result<
        BoxedOperator<T>,
    >) {
        self.factory.build(context, endpoints)
    }
}

/// An operator factory of any type.
#[verifier::reject_recursive_types(T)]
pub struct BoxedOperatorFactory<T: Timestamp> {
    factory: Box<dyn OperatorFactory<T>>,
}

impl<T: Timestamp> BoxedOperatorFactory<T> {
    /// The operator that the factory will make for a worker, handed the edges at the inputs and at the
    /// outputs, if it can make one.
    pub closed spec fn product(
        &self,
        context: WorkerContext,
        inputs: Seq<usize>,
        outputs: Seq<usize>,
    ) -> Option<BoxedOperator<T>> {
        self.factory.product(context, inputs, outputs)
    }

    /// The error says why the factory cannot make the operator.
    pub closed spec fn refuses(
        &self,
        context: WorkerContext,
        inputs: Seq<usize>,
        outputs: Seq<usize>,
        e: Error,
    ) -> bool {
        self.factory.refuses(context, inputs, outputs, e)
    }

    /// What the factory will make for the only worker, if it is handed no edges.
    pub closed spec fn sole(&self) -> Option<BoxedOperator<T>> {
        self.product(WorkerContext { worker_index: 0, peers: 1 }, Seq::empty(), Seq::empty())
    }

    /// What the factory makes for the only worker is among what it makes.
    pub proof fn sole_is_a_product(&self)
        ensures
            exists|c: WorkerContext, i: Seq<usize>, o: Seq<usize>| #[trigger]
                self.product(c, i, o) == self.sole(),
    {
        let c = WorkerContext { worker_index: 0, peers: 1 };
        assert(self.product(c, Seq::empty(), Seq::empty()) == self.sole());
    }

    /// The factory makes the same operator for whatever worker, and with whatever edges.
    pub open spec fn is_plain(&self) -> bool {
        forall|c: WorkerContext, i: Seq<usize>, o: Seq<usize>| #[trigger]
            self.product(c, i, o) == self.sole()
    }

    /// The index, the name and the duty of the operator that the factory will make, if it is plain.
    pub open spec fn makes(&self) -> Option<(usize, Seq<char>, Duty)> {
        match self.sole() {
            Some(op) => Some((op.id(), op.label(), op.duty())),
            None => None,
        }
    }

    /// Boxes an operator factory.
    pub fn new<F: OperatorFactory<T> + 'static>(factory: F) -> (b: Self)
        ensures
            forall|c: WorkerContext, i: Seq<usize>, o: Seq<usize>| #[trigger]
                b.product(c, i, o) == factory.product(c, i, o),
            forall|c: WorkerContext, i: Seq<usize>, o: Seq<usize>, e: Error| #[trigger]
                b.refuses(c, i, o, e) == factory.refuses(c, i, o, e),
    {
        let held = HeldOperatorFactory { factory };
        BoxedOperatorFactory { factory: Box::new(held) }
    }

    /// Makes the operator for a worker.
    pub fn build(&mut self, context: &WorkerContext, endpoints: ChannelEndpoints) -> (r: Result<
        BoxedOperator<T>,
    >)
        ensures
            match r {
                Ok(op) => old(self).product(*context, endpoints.inputs@, endpoints.outputs@)
                    == Some(op),
                Err(e) => old(self).product(*context, endpoints.inputs@, endpoints.outputs@) is None
                    && old(self).refuses(*context, endpoints.inputs@, endpoints.outputs@, e),
            },
    {
        self.factory.build(context, endpoints)
    }
}

} // verus!
