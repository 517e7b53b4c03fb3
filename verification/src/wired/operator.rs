//! The operators that the executor schedules, wired to their channels.

use core::marker::PhantomData;
use std::collections::VecDeque;
use vstd::prelude::*;
use crate::channel::{Channel, ChannelView};
use crate::error::{Error, Result};
use crate::frontier::{Antichain, NotificatorView};
use crate::handles::{batches, InputHandle, NotifyContext, OutputHandle};
use crate::order::{Product, Timestamp};
use crate::role::{Duty, Role};
use crate::schedulable::{ActivationOutcome, Answer, BoxedOperator, SchedulableOperator};
use crate::shared::{Anything, Mark, Receipt, Shared, Tag};
use crate::stage::StageId;
use crate::strand::{ChannelCell, Log, LogView, Outlets, Strand, Within};
use crate::wired::ends::{collect_step, for_each_step, sink_steps, source_step, SourceState};
use crate::wired::gathering::{Assign, Finish, StashLogic};
use crate::wired::joins::{
    join_step, merge_step, offered, JoinCourse, JoinState, MergeState,
};
use crate::wired::logic::{flattened, saw_batch};
use crate::wired::outbox::contents;
use crate::wired::relay::{relay_step, RelayCourse, RelayLogic, RelayState};
use crate::wired::streams::NotifyLogic;
use crate::wired::tasks::{task_step, Task, TaskResult, TaskState};

verus! {

/// What an operator does with its channels.
pub trait WiredCore<T: Timestamp>: Sized {
    /// What the operator is there for, and its channels.
    spec fn duty(&self) -> Duty;

    /// The core can be activated.
    spec fn sound(&self) -> bool;

    /// The receipts of a round of work for what was read and written.
    type Trace;

    /// A round of work to which the receipts attest leads to `after` and comes to `r`.
    spec fn works(&self, after: &Self, r: Result<ActivationOutcome>, trace: Self::Trace) -> bool;

    /// Does a round of work.
    fn step(&mut self) -> (x: (Result<ActivationOutcome>, Self::Trace))
        requires
            old(self).sound(),
        ensures
            final(self).sound(),
            old(self).works(final(self), x.0, x.1),
    ;

    /// The operator has finished.
    spec fn ended(&self) -> bool;

    /// The times at which something may still be sent.
    spec fn holding(&self) -> Seq<T>;

    /// The requests to be told of complete times, if there can be any.
    spec fn notices(&self) -> Option<NotificatorView<T>>;

    /// Whether the operator has finished.
    fn finished(&self) -> (b: bool)
        ensures
            b == self.ended(),
    ;

    /// Gives the work up.
    fn give_up(&mut self)
        ensures
            old(self).sound() ==> final(self).sound(),
            final(self).ended(),
    ;

    /// Batches with the given times can be waiting at the inputs.
    spec fn queues(&self, times: Seq<T>) -> bool;

    /// The times of the batches that wait at the inputs.
    fn queued(&self) -> (times: Vec<T>)
        ensures
            self.queues(times@),
    ;

    /// The times at which something may still be sent.
    fn held(&self) -> (times: Vec<T>)
        ensures
            times@ == self.holding(),
    ;

    /// The times that have to be complete before something is sent.
    fn requested(&self) -> (times: Vec<T>)
        ensures
            times@ == match self.notices() {
                Some(n) => n.pending,
                None => Seq::<T>::empty(),
            },
    ;

    /// Takes note of the frontier.
    fn advance(&mut self, frontier: &Antichain<T>)
        ensures
            old(self).sound() ==> final(self).sound(),
            final(self).notices() == match old(self).notices() {
                Some(n) => Some(NotificatorView { frontier: frontier@, ..n }),
                None => None,
            },
    ;

    /// Whether a requested time is complete.
    fn has_ready(&self) -> (b: bool)
        ensures
            b == (self.notices() matches Some(n) && n.ready()),
    ;
}

/// The receipt for a log that was read or written.
pub type LogReceipt<T, D> = Receipt<Log<T, D>, Within>;

/// A reader found what the receipt attests to: it saw `input.0`, from place `at` on, left `input.1` of
/// that, went on to where it left off, and told those who write.
pub open spec fn reads<T, D: Clone>(
    before: ChannelCell<T, D>,
    after: ChannelCell<T, D>,
    found: LogReceipt<T, D>,
    at: int,
    input: (ChannelView<T, D>, ChannelView<T, D>),
) -> bool {
    &&& found.cell() == before.strand().log()
    &&& found.before()@.shows(before.cursor() as int, before.limit() as int, at, input.0)
    &&& before.moves(&after, at + input.0.batches.len() - input.1.batches.len())
    &&& tells(before, after, input.1.abandoned)
}

/// A reader that went on, or has gone, told those who write.
pub open spec fn tells<T, D>(
    before: ChannelCell<T, D>,
    after: ChannelCell<T, D>,
    gone: bool,
) -> bool {
    after.cursor() != before.cursor() || gone ==> before.strand().told(
        before.port(),
        after.cursor() as int,
        gone,
    )
}

/// Something was read or written.
pub open spec fn has_moved(r: Result<ActivationOutcome>) -> bool {
    r matches Ok(outcome) && (outcome is MadeProgress || outcome is Done)
}

/// A writer changed its log as the receipt attests to, and woke whoever is to be woken if something
/// has moved.
pub open spec fn writes<T, D>(
    outlets: Outlets<T, D>,
    wrote: LogReceipt<T, D>,
    outputs: (Seq<ChannelView<T, D>>, Seq<ChannelView<T, D>>),
    r: Result<ActivationOutcome>,
) -> bool {
    &&& has_moved(r) ==> outlets.strand().woke()
    &&& wrote.cell() == outlets.strand().log()
    &&& outputs.0 == seq![wrote.before()@.channel]
    &&& outputs.1 == seq![wrote.after()@.channel]
    &&& wrote.after()@ == (LogView { channel: wrote.after()@.channel, ..wrote.before()@ })
}

/// All readers of an operator read, each its own input.
pub open spec fn all_read<T, D: Clone>(
    before: Seq<ChannelCell<T, D>>,
    after: Seq<ChannelCell<T, D>>,
    found: Seq<LogReceipt<T, D>>,
    places: Seq<int>,
    inputs: (Seq<ChannelView<T, D>>, Seq<ChannelView<T, D>>),
) -> bool {
    &&& after.len() == before.len()
    &&& found.len() == before.len()
    &&& places.len() == before.len()
    &&& inputs.0.len() == before.len()
    &&& inputs.1.len() == before.len()
    &&& forall|i: int|
        0 <= i < before.len() ==> reads(
            before[i],
            #[trigger] after[i],
            found[i],
            places[i],
            (inputs.0[i], inputs.1[i]),
        )
}

/// What went through the channels of an operator during a round of work: what they held before and
/// after.
pub struct Traffic<T1, D1, T2, D2> {
    /// The place in the log where the input begins.
    pub at: int,
    pub input: (ChannelView<T1, D1>, ChannelView<T1, D1>),
    pub outputs: (Seq<ChannelView<T2, D2>>, Seq<ChannelView<T2, D2>>),
    /// Whether the operator had work without any input.
    pub wants: bool,
}

/// What went through the channels of a merging operator during a round of work.
pub struct MergeTraffic<T, D> {
    /// The places in the logs where the inputs begin.
    pub places: Seq<int>,
    pub inputs: (Seq<ChannelView<T, D>>, Seq<ChannelView<T, D>>),
    pub outputs: (Seq<ChannelView<T, D>>, Seq<ChannelView<T, D>>),
}

/// What went through the channels of an operator with two inputs during a round of work.
pub struct JoinTraffic<T, D1, D2, D3> {
    /// The places in the logs where the inputs begin.
    pub places: (int, int),
    pub left: (ChannelView<T, D1>, ChannelView<T, D1>),
    pub right: (ChannelView<T, D2>, ChannelView<T, D2>),
    pub outputs: (Seq<ChannelView<T, D3>>, Seq<ChannelView<T, D3>>),
}

/// What went through the channels and the board of an operator with tasks during a round of work.
pub struct TaskTraffic<T, D, D2> {
    pub results: Seq<TaskResult<D2>>,
    /// The place in the log where the input begins.
    pub at: int,
    pub input: (ChannelView<T, D>, ChannelView<T, D>),
    pub outputs: (Seq<ChannelView<T, D2>>, Seq<ChannelView<T, D2>>),
    pub tasks: Seq<Task<T, D>>,
}

/// An operator that is wired to its channels.
#[verifier::reject_recursive_types(T)]
pub struct WiredOperator<T: Timestamp, C: WiredCore<T>> {
    name: String,
    index: usize,
    stage_id: StageId,
    core: Option<C>,
    answers: Ghost<Seq<Answer>>,
    heard: Ghost<Option<Seq<T>>>,
    dismissed: Ghost<bool>,
    duty: Ghost<Duty>,
    marker: PhantomData<T>,
}

impl<T: Timestamp, C: WiredCore<T>> WiredOperator<T, C> {
    #[verifier::type_invariant]
    closed spec fn inv(&self) -> bool {
        self.core matches Some(c) ==> c.sound()
    }

    /// The core that the operator runs.
    pub closed spec fn held_core(&self) -> Option<C> {
        self.core
    }

    /// The operator runs the given core.
    pub open spec fn holds(&self, core: C) -> bool {
        self.held_core() == Some(core)
    }

    /// An operator that was not activated yet.
    pub fn new(name: String, index: usize, stage_id: StageId, core: C) -> (op: Self)
        requires
            core.sound(),
        ensures
            op.id() == index,
            op.label() == name@,
            op.duty() == core.duty(),
            op.answers() == Seq::<Answer>::empty(),
            op.heard() is None,
            !op.dismissed(),
            op.holds(core),
            op.stage() == stage_id,
    {
        let ghost duty = core.duty();
        WiredOperator {
            name,
            index,
            stage_id,
            core: Some(core),
            answers: Ghost(Seq::empty()),
            heard: Ghost(None),
            dismissed: Ghost(false),
            duty: Ghost(duty),
            marker: PhantomData,
        }
    }
}

/// An operator runs the given core.
pub open spec fn runs<T: Timestamp + 'static, C: WiredCore<T> + 'static>(
    op: BoxedOperator<T>,
    core: C,
) -> bool {
    exists|w: WiredOperator<T, C>| #[trigger] w.holds(core) && op == BoxedOperator::of(w)
}

impl<T: Timestamp, C: WiredCore<T>> SchedulableOperator<T> for WiredOperator<T, C> {
    closed spec fn id(&self) -> usize {
        self.index
    }

    closed spec fn label(&self) -> Seq<char> {
        self.name@
    }

    closed spec fn answers(&self) -> Seq<Answer> {
        self.answers@
    }

    closed spec fn heard(&self) -> Option<Seq<T>> {
        self.heard@
    }

    closed spec fn dismissed(&self) -> bool {
        self.dismissed@
    }

    open spec fn notifying(&self) -> bool {
        self.held_core() matches Some(c) && c.notices() matches Some(n) && n.ready()
    }

    closed spec fn duty(&self) -> Duty {
        self.duty@
    }

    open spec fn ended(&self) -> bool {
        match self.held_core() {
            Some(c) => c.ended(),
            None => true,
        }
    }

    closed spec fn stage(&self) -> StageId {
        self.stage_id
    }

    open spec fn queues(&self, times: Seq<T>) -> bool {
        match self.held_core() {
            Some(c) => c.queues(times),
            None => times.len() == 0,
        }
    }

    open spec fn holding(&self) -> Seq<T> {
        match self.held_core() {
            Some(c) => c.holding(),
            None => Seq::empty(),
        }
    }

    open spec fn requesting(&self) -> Seq<T> {
        match self.held_core() {
            Some(c) => match c.notices() {
                Some(n) => n.pending,
                None => Seq::empty(),
            },
            None => Seq::empty(),
        }
    }

    fn activate(&mut self) -> (r: Result<ActivationOutcome>)
        ensures
            match old(self).held_core() {
                Some(c) => final(self).held_core() matches Some(d) && exists|trace: C::Trace|
                    c.works(&d, r, trace),
                None => final(self).held_core() is None && r == Ok::<ActivationOutcome, Error>(
                    ActivationOutcome::Done,
                ),
            },
    {
        proof {
            use_type_invariant(&*self);
        }
        let mut held: Option<C> = None;
        core::mem::swap(&mut held, &mut self.core);
        let r = match held {
            Some(c) => {
                let mut c = c;
                let (r, _trace) = c.step();
                self.core = Some(c);
                r
            },
            None => Ok(ActivationOutcome::Done),
        };
        proof {
            self.answers@ = self.answers@.push(Ok(r));
        }
        r
    }

    fn is_done(&self) -> (b: bool) {
        match &self.core {
            Some(c) => c.finished(),
            None => true,
        }
    }

    fn name(&self) -> (name: &str) {
        self.name.as_str()
    }

    fn index(&self) -> (index: usize) {
        self.index
    }

    fn stage_id(&self) -> (stage: StageId) {
        self.stage_id
    }

    fn close_inputs(&mut self)
        ensures
            old(self).held_core() is Some ==> (final(self).held_core() matches Some(d)
                && d.ended()),
    {
        proof {
            use_type_invariant(&*self);
            self.dismissed@ = true;
        }
        let mut held: Option<C> = None;
        core::mem::swap(&mut held, &mut self.core);
        match held {
            Some(c) => {
                let mut c = c;
                c.give_up();
                self.core = Some(c);
            },
            None => {},
        }
    }

    fn update_input_frontier(&mut self, frontier: &Antichain<T>)
        ensures
            old(self).held_core() matches Some(c) ==> (final(self).held_core() matches Some(d)
                && d.notices() == match c.notices() {
                Some(n) => Some(NotificatorView { frontier: frontier@, ..n }),
                None => None,
            }),
    {
        proof {
            use_type_invariant(&*self);
            self.heard@ = Some(frontier@);
        }
        let mut held: Option<C> = None;
        core::mem::swap(&mut held, &mut self.core);
        match held {
            Some(c) => {
                let mut c = c;
                c.advance(frontier);
                self.core = Some(c);
            },
            None => {},
        }
    }

    fn has_ready_notifications(&self) -> (b: bool) {
        match &self.core {
            Some(c) => c.has_ready(),
            None => false,
        }
    }

    fn queued_times(&self) -> (times: Vec<T>) {
        match &self.core {
            Some(c) => c.queued(),
            None => Vec::new(),
        }
    }

    fn held_times(&self) -> (times: Vec<T>) {
        match &self.core {
            Some(c) => c.held(),
            None => Vec::new(),
        }
    }

    fn requested_times(&self) -> (times: Vec<T>) {
        match &self.core {
            Some(c) => c.requested(),
            None => Vec::new(),
        }
    }
}

/// How times of a channel are seen by the executor.
pub trait Projection<A, B> {
    /// The time that the executor sees.
    spec fn seen(a: A) -> B;

    /// The time that the executor sees.
    fn project(a: &A) -> (b: B)
        ensures
            b == Self::seen(*a),
    ;
}

/// Times are seen as they are.
pub struct AsIs;

impl<T: Timestamp> Projection<T, T> for AsIs {
    open spec fn seen(a: T) -> T {
        a
    }

    fn project(a: &T) -> (b: T) {
        a.duplicate()
    }
}

/// Of times inside a loop, the time outside is seen.
pub struct Outside;

impl<T: Timestamp, TInner> Projection<Product<T, TInner>, T> for Outside {
    open spec fn seen(a: Product<T, TInner>) -> T {
        a.outer
    }

    fn project(a: &Product<T, TInner>) -> (b: T) {
        a.outer.duplicate()
    }
}

/// The times that the executor sees.
fn project_all<A, B, P: Projection<A, B>>(times: &Vec<A>) -> (out: Vec<B>)
    ensures
        out@ == times@.map_values(|a: A| P::seen(a)),
{
    let mut out: Vec<B> = Vec::new();
    let mut i: usize = 0;
    while i < times.len()
        invariant
            i <= times@.len(),
            out@.len() == i,
            forall|k: int| 0 <= k < i ==> #[trigger] out@[k] == P::seen(times@[k]),
        decreases times@.len() - i,
    {
        out.push(P::project(&times[i]));
        i = i + 1;
    }
    assert(out@ =~= times@.map_values(|a: A| P::seen(a)));
    out
}

/// A reader saw batches with the given times.
pub open spec fn can_hold<T, D: Clone>(cell: ChannelCell<T, D>, times: Seq<T>) -> bool {
    exists|log: Log<T, D>, at: int, c: ChannelView<T, D>| #[trigger]
        log@.shows(cell.cursor() as int, cell.limit() as int, at, c)
            && cell.strand().log().turned(log, log) && times == c.batches.map_values(
            |b: (T, Seq<D>)| b.0,
        )
}

/// Readers saw batches with the given times, each its own.
pub open spec fn all_can_hold<T, D: Clone>(cells: Seq<ChannelCell<T, D>>, times: Seq<Seq<T>>) -> bool {
    &&& times.len() == cells.len()
    &&& forall|i: int| 0 <= i < cells.len() ==> can_hold(#[trigger] cells[i], times[i])
}

/// The times of the batches that a reader sees. What it sees depends on who writes.
fn cell_times<T: Timestamp, D: Clone>(cell: &ChannelCell<T, D>) -> (times: Vec<T>)
    ensures
        can_hold(*cell, times@),
{
    cell.times()
}

/// The times of batches.
pub open spec fn times_of<T, D>(queue: Seq<(T, Vec<D>)>) -> Seq<T> {
    queue.map_values(|b: (T, Vec<D>)| b.0)
}

/// The times of batches.
fn batch_times<T: Timestamp, D>(queue: &VecDeque<(T, Vec<D>)>) -> (times: Vec<T>)
    ensures
        times@ == times_of(queue@),
{
    let mut times: Vec<T> = Vec::new();
    let mut i: usize = 0;
    while i < queue.len()
        invariant
            i <= queue@.len(),
            times@.len() == i,
            forall|k: int| 0 <= k < i ==> #[trigger] times@[k] == queue@[k].0,
        decreases queue@.len() - i,
    {
        times.push(queue[i].0.duplicate());
        i = i + 1;
    }
    assert(times@ =~= times_of(queue@));
    times
}

/// Whether something was read or written.
fn moved(r: &Result<ActivationOutcome>) -> (b: bool)
    ensures
        b == has_moved(*r),
{
    match r {
        Ok(ActivationOutcome::MadeProgress) => true,
        Ok(ActivationOutcome::Done) => true,
        _ => false,
    }
}

/// An operator with one input and one output.
pub struct RelayCore<T1, D1, T2, D2, L, P1, P2> {
    pub state: RelayState<T1, D1, T2, D2, L>,
    pub input: ChannelCell<T1, D1>,
    pub outlets: Outlets<T2, D2>,
    pub marker: PhantomData<(P1, P2)>,
}

impl<
    T1: Timestamp,
    D1: Clone,
    T2: Timestamp,
    D2: Clone,
    L: RelayLogic<T1, D1, T2, D2>,
    P1,
    P2,
> RelayCore<
    T1,
    D1,
    T2,
    D2,
    L,
    P1,
    P2,
> {
    /// A core that has done nothing yet.
    pub fn new(logic: L, input: ChannelCell<T1, D1>, outlets: Outlets<T2, D2>) -> (c: Self)
        ensures
            c.state.logic == logic,
            c.input == input,
            input.cursor() == 0 ==> c.is_fresh(input.strand(), outlets),
    {
        RelayCore {
            state: RelayState {
                input: InputHandle::new(String::new()),
                output: OutputHandle::new(String::new()),
                outbox: VecDeque::new(),
                logic,
                done: false,
            },
            input,
            outlets,
            marker: PhantomData,
        }
    }

    /// The core has done nothing yet, reads the given strand from the start, and writes to the given
    /// outlets.
    pub open spec fn is_fresh(&self, input: Strand<T1, D1>, outlets: Outlets<T2, D2>) -> bool {
        &&& self.input.strand() == input
        &&& self.input.cursor() == 0
        &&& self.outlets == outlets
        &&& self.state.input@.pending.len() == 0
        &&& !self.state.input@.exhausted
        &&& self.state.output@.len() == 0
        &&& self.state.outbox@.len() == 0
        &&& !self.state.done
    }

    /// A round of work with the given traffic.
    pub open spec fn works_by(
        &self,
        after: &Self,
        r: Result<ActivationOutcome>,
        t: Traffic<T1, D1, T2, D2>,
        trace: (LogReceipt<T1, D1>, LogReceipt<T2, D2>),
    ) -> bool {
        &&& reads(self.input, after.input, trace.0, t.at, t.input)
        &&& writes(self.outlets, trace.1, t.outputs, r)
        &&& self.state.steps(&after.state, t.input, t.outputs, t.wants, r)
        &&& after.outlets == self.outlets
    }

    /// Does a round of work, with what is there to be read now.
    fn work(&mut self, wants: bool) -> (x: (
        Result<ActivationOutcome>,
        (LogReceipt<T1, D1>, LogReceipt<T2, D2>),
    ))
        requires
            old(self).state.logic.ready(),
            old(self).state.output@.len() == 0,
        ensures
            final(self).state.logic.ready(),
            final(self).state.output@.len() == 0,
            exists|t: Traffic<T1, D1, T2, D2>| #[trigger]
                old(self).works_by(final(self), x.0, t, x.1) && t.wants == wants,
    {
        let (mut input, at, found) = self.input.look();
        let (mut outputs, draft) = self.outlets.begin();
        let shown: usize = input.len();
        let ghost input0 = input@;
        let ghost outputs0 = contents(outputs@);
        let r = relay_step(&mut self.state, &mut input, &mut outputs, wants);
        let ghost t = Traffic {
            at: at as int,
            input: (input0, input@),
            outputs: (outputs0, contents(outputs@)),
            wants,
        };
        let ghost stepped = self.state;
        assert(old(self).state.steps(&stepped, t.input, t.outputs, t.wants, r));
        if r.is_err() {
            let _ = self.state.output.drain();
            proof {
                let c = choose|c: RelayCourse<T2, D2>| #[trigger]
                    old(self).state.steps_by(&stepped, t.input, t.outputs, t.wants, c, r);
                assert(old(self).state.steps_by(&self.state, t.input, t.outputs, t.wants, c, r));
            }
        }
        let changed = moved(&r);
        assert(contents(outputs@)[0] == outputs@[0]@);
        let wrote = self.outlets.commit(draft, outputs, changed);
        self.input.advance(at + (shown - input.len()), input.is_abandoned());
        let x = (r, (found, wrote));
        proof {
            assert(t.outputs.1 =~= seq![wrote.after()@.channel]);
            assert(old(self).works_by(self, x.0, t, x.1));
        }
        x
    }
}

impl<
    T: Timestamp,
    T1: Timestamp,
    D1: Clone,
    T2: Timestamp,
    D2: Clone,
    L: RelayLogic<T1, D1, T2, D2>,
    P1: Projection<T1, T>,
    P2: Projection<T2, T>,
> WiredCore<T> for RelayCore<T1, D1, T2, D2, L, P1, P2> {
    open spec fn ended(&self) -> bool {
        self.state.done
    }

    open spec fn queues(&self, times: Seq<T>) -> bool {
        exists|inner: Seq<T1>| #[trigger]
            can_hold(self.input, inner) && times == inner.map_values(|t: T1| P1::seen(t))
    }

    open spec fn holding(&self) -> Seq<T> {
        times_of(self.state.outbox@).map_values(|t: T2| P2::seen(t))
    }

    open spec fn notices(&self) -> Option<NotificatorView<T>> {
        None
    }

    open spec fn duty(&self) -> Duty {
        Duty {
            role: self.state.logic.role(),
            reads: seq![self.input.mark()],
            writes: seq![self.outlets.mark()],
        }
    }

    open spec fn sound(&self) -> bool {
        &&& self.state.logic.ready()
        &&& self.state.output@.len() == 0
    }

    type Trace = (LogReceipt<T1, D1>, LogReceipt<T2, D2>);

    open spec fn works(
        &self,
        after: &Self,
        r: Result<ActivationOutcome>,
        trace: (LogReceipt<T1, D1>, LogReceipt<T2, D2>),
    ) -> bool {
        exists|t: Traffic<T1, D1, T2, D2>| #[trigger]
            self.works_by(after, r, t, trace) && !t.wants
    }

    fn step(&mut self) -> (x: (
        Result<ActivationOutcome>,
        (LogReceipt<T1, D1>, LogReceipt<T2, D2>),
    )) {
        self.work(false)
    }

    fn finished(&self) -> (b: bool) {
        self.state.done
    }

    fn give_up(&mut self) {
        self.state.done = true;
    }

    fn queued(&self) -> (times: Vec<T>) {
        let times = cell_times(&self.input);
        project_all::<T1, T, P1>(&times)
    }

    fn held(&self) -> (times: Vec<T>) {
        let times = batch_times(&self.state.outbox);
        project_all::<T2, T, P2>(&times)
    }

    fn requested(&self) -> (times: Vec<T>) {
        Vec::new()
    }

    fn advance(&mut self, frontier: &Antichain<T>) {
    }

    fn has_ready(&self) -> (b: bool) {
        false
    }
}

/// A logic that waits for complete times.
pub trait FrontierLogic<T: Timestamp, D1, D2>: RelayLogic<T, D1, T, D2> + Sized {
    /// The requests to be told of complete times.
    spec fn notices(&self) -> NotificatorView<T>;

    /// Takes note of the frontier.
    fn take_note(&mut self, frontier: &Antichain<T>)
        ensures
            old(self).ready() ==> final(self).ready(),
            final(self).notices() == (NotificatorView {
                frontier: frontier@,
                ..old(self).notices()
            }),
    ;

    /// Whether a requested time is complete.
    fn any_complete(&self) -> (b: bool)
        ensures
            b == self.notices().ready(),
    ;

    /// The requested times.
    fn requests(&self) -> (times: Vec<T>)
        ensures
            times@ == self.notices().pending,
    ;
}

/// The requested times.
fn request_times<T: Timestamp>(context: &NotifyContext<T>) -> (times: Vec<T>)
    ensures
        times@ == context@.pending,
{
    let pending = context.pending();
    let mut times: Vec<T> = Vec::new();
    let mut i: usize = 0;
    while i < pending.len()
        invariant
            i <= pending@.len(),
            times@ == pending@.take(i as int),
        decreases pending@.len() - i,
    {
        times.push(pending[i].duplicate());
        i = i + 1;
        assert(times@ =~= pending@.take(i as int));
    }
    assert(times@ =~= pending@);
    times
}

impl<T: Timestamp, D1, D2, A: Assign<T, D1>, K: Finish<D1, D2>> FrontierLogic<
    T,
    D1,
    D2,
> for StashLogic<T, D1, A, K> {
    open spec fn notices(&self) -> NotificatorView<T> {
        self.context@
    }

    fn take_note(&mut self, frontier: &Antichain<T>) {
        self.advance(frontier);
    }

    fn any_complete(&self) -> (b: bool) {
        self.context.has_ready()
    }

    fn requests(&self) -> (times: Vec<T>) {
        request_times(&self.context)
    }
}

impl<
    T: Timestamp,
    D1,
    D2,
    L: FnMut(&mut InputHandle<T, D1>, &mut OutputHandle<T, D2>, &mut NotifyContext<T>) -> Result<
        (),
    >,
> FrontierLogic<T, D1, D2> for NotifyLogic<T, L> {
    open spec fn notices(&self) -> NotificatorView<T> {
        self.context@
    }

    fn take_note(&mut self, frontier: &Antichain<T>) {
        self.context.update_frontier(frontier);
    }

    fn any_complete(&self) -> (b: bool) {
        self.context.has_ready()
    }

    fn requests(&self) -> (times: Vec<T>) {
        request_times(&self.context)
    }
}

/// An operator with one input and one output that waits for complete times.
pub struct NotifyCore<T, D1, D2, L> {
    pub relay: RelayCore<T, D1, T, D2, L, AsIs, AsIs>,
}

impl<T: Timestamp, D1: Clone, D2: Clone, L: FrontierLogic<T, D1, D2>> WiredCore<T> for NotifyCore<
    T,
    D1,
    D2,
    L,
> {
    open spec fn ended(&self) -> bool {
        self.relay.state.done
    }

    open spec fn queues(&self, times: Seq<T>) -> bool {
        can_hold(self.relay.input, times)
    }

    open spec fn holding(&self) -> Seq<T> {
        times_of(self.relay.state.outbox@)
    }

    open spec fn notices(&self) -> Option<NotificatorView<T>> {
        Some(self.relay.state.logic.notices())
    }

    open spec fn duty(&self) -> Duty {
        Duty {
            role: self.relay.state.logic.role(),
            reads: seq![self.relay.input.mark()],
            writes: seq![self.relay.outlets.mark()],
        }
    }

    open spec fn sound(&self) -> bool {
        &&& self.relay.state.logic.ready()
        &&& self.relay.state.output@.len() == 0
    }

    type Trace = (LogReceipt<T, D1>, LogReceipt<T, D2>);

    open spec fn works(
        &self,
        after: &Self,
        r: Result<ActivationOutcome>,
        trace: (LogReceipt<T, D1>, LogReceipt<T, D2>),
    ) -> bool {
        exists|t: Traffic<T, D1, T, D2>| #[trigger]
            self.relay.works_by(&after.relay, r, t, trace) && t.wants
                == self.relay.state.logic.notices().ready()
    }

    fn step(&mut self) -> (x: (
        Result<ActivationOutcome>,
        (LogReceipt<T, D1>, LogReceipt<T, D2>),
    )) {
        let wants = self.relay.state.logic.any_complete();
        self.relay.work(wants)
    }

    fn finished(&self) -> (b: bool) {
        self.relay.state.done
    }

    fn give_up(&mut self) {
        self.relay.state.done = true;
    }

    fn queued(&self) -> (times: Vec<T>) {
        cell_times(&self.relay.input)
    }

    fn held(&self) -> (times: Vec<T>) {
        batch_times(&self.relay.state.outbox)
    }

    fn requested(&self) -> (times: Vec<T>) {
        self.relay.state.logic.requests()
    }

    fn advance(&mut self, frontier: &Antichain<T>) {
        self.relay.state.logic.take_note(frontier);
    }

    fn has_ready(&self) -> (b: bool) {
        self.relay.state.logic.any_complete()
    }
}

/// A source of batches that are there from the start.
pub struct SourceCore<T, D> {
    pub state: SourceState<T, D>,
    pub outlets: Outlets<T, D>,
}

impl<T: Timestamp, D: Clone> SourceCore<T, D> {
    /// A round of work during which the channels went from one state to another.
    pub open spec fn works_by(
        &self,
        after: &Self,
        r: Result<ActivationOutcome>,
        from: Seq<ChannelView<T, D>>,
        to: Seq<ChannelView<T, D>>,
        trace: LogReceipt<T, D>,
    ) -> bool {
        &&& r is Ok
        &&& writes(self.outlets, trace, (from, to), r)
        &&& self.state@.steps(after.state@, from, to, r->Ok_0)
        &&& after.outlets == self.outlets
    }
}

impl<T: Timestamp, D: Clone> WiredCore<T> for SourceCore<T, D> {
    open spec fn ended(&self) -> bool {
        self.state.done
    }

    open spec fn queues(&self, times: Seq<T>) -> bool {
        times.len() == 0
    }

    open spec fn holding(&self) -> Seq<T> {
        times_of(self.state.outbox@)
    }

    open spec fn notices(&self) -> Option<NotificatorView<T>> {
        None
    }

    open spec fn duty(&self) -> Duty {
        Duty {
            role: Role::Source(self.state.outbox@.len()),
            reads: Seq::empty(),
            writes: seq![self.outlets.mark()],
        }
    }

    open spec fn sound(&self) -> bool {
        true
    }

    type Trace = LogReceipt<T, D>;

    open spec fn works(
        &self,
        after: &Self,
        r: Result<ActivationOutcome>,
        trace: LogReceipt<T, D>,
    ) -> bool {
        exists|from: Seq<ChannelView<T, D>>, to: Seq<ChannelView<T, D>>| #[trigger]
            self.works_by(after, r, from, to, trace)
    }

    fn step(&mut self) -> (x: (Result<ActivationOutcome>, LogReceipt<T, D>)) {
        let (mut outputs, draft) = self.outlets.begin();
        let ghost from = contents(outputs@);
        let outcome = source_step(&mut self.state, &mut outputs);
        let ghost to = contents(outputs@);
        let r = Ok(outcome);
        let changed = moved(&r);
        assert(contents(outputs@)[0] == outputs@[0]@);
        let wrote = self.outlets.commit(draft, outputs, changed);
        proof {
            assert(to =~= seq![wrote.after()@.channel]);
            assert(old(self).works_by(self, r, from, to, wrote));
        }
        (r, wrote)
    }

    fn finished(&self) -> (b: bool) {
        self.state.done
    }

    fn give_up(&mut self) {
        self.state.done = true;
    }

    fn queued(&self) -> (times: Vec<T>) {
        Vec::new()
    }

    fn held(&self) -> (times: Vec<T>) {
        batch_times(&self.state.outbox)
    }

    fn requested(&self) -> (times: Vec<T>) {
        Vec::new()
    }

    fn advance(&mut self, frontier: &Antichain<T>) {
    }

    fn has_ready(&self) -> (b: bool) {
        false
    }
}

/// A source of batches that come from outside.
pub struct InputCore<T, D> {
    pub merge: MergeState<T, D>,
    pub external: ChannelCell<T, D>,
    pub outlets: Outlets<T, D>,
    /// How many inputs from outside are open.
    pub open_inputs: Shared<usize>,
}

/// A counter went down by one, unless it was 0.
pub open spec fn one_less(counter: Shared<usize>) -> bool {
    exists|before: usize, after: usize| #[trigger]
        counter.turned(before, after) && after == if before > 0 {
            before - 1
        } else {
            0
        }
}

impl<T: Timestamp, D: Clone> InputCore<T, D> {
    /// A round of work with the given traffic. What comes from outside is the only input.
    pub open spec fn works_by(
        &self,
        after: &Self,
        r: Result<ActivationOutcome>,
        t: MergeTraffic<T, D>,
        trace: (LogReceipt<T, D>, LogReceipt<T, D>),
    ) -> bool {
        &&& r is Ok
        &&& t.inputs.0.len() == 1
        &&& t.inputs.1.len() == 1
        &&& t.places.len() == 1
        &&& reads(
            self.external,
            after.external,
            trace.0,
            t.places[0],
            (t.inputs.0[0], t.inputs.1[0]),
        )
        &&& writes(self.outlets, trace.1, t.outputs, r)
        &&& self.merge@.steps(after.merge@, t.inputs, t.outputs, r->Ok_0)
        &&& after.merge.done && !self.merge.done ==> one_less(self.open_inputs)
        &&& after.outlets == self.outlets
        &&& after.open_inputs == self.open_inputs
    }

    /// One input less is open.
    fn leave(&self)
        ensures
            one_less(self.open_inputs),
    {
        let (open, loan) = self.open_inputs.lend(0);
        let after: usize = if open > 0 {
            open - 1
        } else {
            open
        };
        let _ = self.open_inputs.settle(loan, after);
        assert(self.open_inputs.turned(open, after));
    }
}

impl<T: Timestamp, D: Clone> WiredCore<T> for InputCore<T, D> {
    open spec fn ended(&self) -> bool {
        self.merge.done
    }

    open spec fn queues(&self, times: Seq<T>) -> bool {
        times.len() == 0
    }

    open spec fn holding(&self) -> Seq<T> {
        if self.merge.done {
            Seq::empty()
        } else {
            seq![T::least()]
        }
    }

    open spec fn notices(&self) -> Option<NotificatorView<T>> {
        None
    }

    open spec fn duty(&self) -> Duty {
        Duty {
            role: Role::Input,
            reads: Seq::empty(),
            writes: seq![self.outlets.mark()],
        }
    }

    open spec fn sound(&self) -> bool {
        true
    }

    type Trace = (LogReceipt<T, D>, LogReceipt<T, D>);

    open spec fn works(
        &self,
        after: &Self,
        r: Result<ActivationOutcome>,
        trace: (LogReceipt<T, D>, LogReceipt<T, D>),
    ) -> bool {
        exists|t: MergeTraffic<T, D>| #[trigger] self.works_by(after, r, t, trace)
    }

    fn step(&mut self) -> (x: (
        Result<ActivationOutcome>,
        (LogReceipt<T, D>, LogReceipt<T, D>),
    )) {
        let was_done = self.merge.done;
        let (input, at, found) = self.external.look();
        let shown: usize = input.len();
        let (mut outputs, draft) = self.outlets.begin();
        let mut inputs: Vec<Channel<T, D>> = Vec::new();
        inputs.push(input);
        let ghost inputs0 = contents(inputs@);
        let ghost outputs0 = contents(outputs@);
        let outcome = merge_step(&mut self.merge, &mut inputs, &mut outputs);
        let ghost t = MergeTraffic {
            places: seq![at as int],
            inputs: (inputs0, contents(inputs@)),
            outputs: (outputs0, contents(outputs@)),
        };
        let r = Ok(outcome);
        let changed = moved(&r);
        assert(contents(outputs@)[0] == outputs@[0]@);
        assert(contents(inputs@)[0] == inputs@[0]@);
        let wrote = self.outlets.commit(draft, outputs, changed);
        self.external.advance(at + (shown - inputs[0].len()), inputs[0].is_abandoned());
        if self.merge.done && !was_done {
            self.leave();
        }
        proof {
            assert(t.outputs.1 =~= seq![wrote.after()@.channel]);
            assert(old(self).works_by(self, r, t, (found, wrote)));
        }
        (r, (found, wrote))
    }

    fn finished(&self) -> (b: bool) {
        self.merge.done
    }

    fn give_up(&mut self) {
        if !self.merge.done {
            self.merge.done = true;
            self.leave();
        }
    }

    fn queued(&self) -> (times: Vec<T>) {
        Vec::new()
    }

    fn held(&self) -> (times: Vec<T>) {
        let mut times: Vec<T> = Vec::new();
        if !self.merge.done {
            times.push(T::minimum());
        }
        times
    }

    fn requested(&self) -> (times: Vec<T>) {
        Vec::new()
    }

    fn advance(&mut self, frontier: &Antichain<T>) {
    }

    fn has_ready(&self) -> (b: bool) {
        false
    }
}

/// A sink that collects batches.
pub struct CollectCore<T, D> {
    pub input: ChannelCell<T, D>,
    pub collector: Shared<Vec<(T, Vec<D>)>>,
    pub done: bool,
}

/// What went through a sink during a round of work: what its channel held before and after, and what
/// was collected before and after.
pub struct SinkTraffic<T, D> {
    /// The place in the log where the input begins.
    pub at: int,
    pub input: (ChannelView<T, D>, ChannelView<T, D>),
    pub collected: (Seq<(T, Seq<D>)>, Seq<(T, Seq<D>)>),
}

impl<T: Timestamp, D: Clone> CollectCore<T, D> {
    /// A round of work with the given traffic: all batches are collected.
    pub open spec fn works_by(
        &self,
        after: &Self,
        r: Result<ActivationOutcome>,
        t: SinkTraffic<T, D>,
        trace: (LogReceipt<T, D>, Receipt<Vec<(T, Vec<D>)>, Anything>),
    ) -> bool {
        &&& r is Ok
        &&& reads(self.input, after.input, trace.0, t.at, t.input)
        &&& sink_steps((self.done, after.done), t.input, r->Ok_0)
        &&& trace.1.cell() == self.collector
        &&& t.collected.0 == batches(trace.1.before()@)
        &&& t.collected.1 == batches(trace.1.after()@)
        &&& t.collected.1 == t.collected.0 + if self.done {
            Seq::<(T, Seq<D>)>::empty()
        } else {
            t.input.0.batches
        }
        &&& after.collector == self.collector
    }
}

impl<T: Timestamp, D: Clone> WiredCore<T> for CollectCore<T, D> {
    open spec fn ended(&self) -> bool {
        self.done
    }

    open spec fn queues(&self, times: Seq<T>) -> bool {
        can_hold(self.input, times)
    }

    open spec fn holding(&self) -> Seq<T> {
        Seq::empty()
    }

    open spec fn notices(&self) -> Option<NotificatorView<T>> {
        None
    }

    open spec fn duty(&self) -> Duty {
        Duty {
            role: Role::Collect,
            reads: seq![self.input.mark()],
            writes: Seq::empty(),
        }
    }

    open spec fn sound(&self) -> bool {
        true
    }

    type Trace = (LogReceipt<T, D>, Receipt<Vec<(T, Vec<D>)>, Anything>);

    open spec fn works(
        &self,
        after: &Self,
        r: Result<ActivationOutcome>,
        trace: (LogReceipt<T, D>, Receipt<Vec<(T, Vec<D>)>, Anything>),
    ) -> bool {
        exists|t: SinkTraffic<T, D>| #[trigger] self.works_by(after, r, t, trace)
    }

    fn step(&mut self) -> (x: (
        Result<ActivationOutcome>,
        (LogReceipt<T, D>, Receipt<Vec<(T, Vec<D>)>, Anything>),
    )) {
        let (mut input, at, found) = self.input.look();
        let shown: usize = input.len();
        let (mut collected, loan) = self.collector.lend(Vec::new());
        let ghost input0 = input@;
        let ghost collected0 = batches(collected@);
        let outcome = collect_step(&mut input, &mut self.done, &mut collected);
        let ghost t = SinkTraffic {
            at: at as int,
            input: (input0, input@),
            collected: (collected0, batches(collected@)),
        };
        let kept = self.collector.settle(loan, collected);
        self.input.advance(at + (shown - input.len()), input.is_abandoned());
        let r = Ok(outcome);
        assert(old(self).works_by(self, r, t, (found, kept)));
        (r, (found, kept))
    }

    fn finished(&self) -> (b: bool) {
        self.done
    }

    fn give_up(&mut self) {
        self.done = true;
    }

    fn queued(&self) -> (times: Vec<T>) {
        cell_times(&self.input)
    }

    fn held(&self) -> (times: Vec<T>) {
        Vec::new()
    }

    fn requested(&self) -> (times: Vec<T>) {
        Vec::new()
    }

    fn advance(&mut self, frontier: &Antichain<T>) {
    }

    fn has_ready(&self) -> (b: bool) {
        false
    }
}

/// A sink that shows batches to a closure.
pub struct ForEachCore<T, D, F> {
    pub input: ChannelCell<T, D>,
    pub logic: F,
    pub done: bool,
}

impl<T: Timestamp, D: Clone, F: FnMut(&T, &[D])> ForEachCore<T, D, F> {
    /// A round of work during which the reader saw and left the given batches, from place `at` on: the
    /// closure sees all that the reader saw.
    pub open spec fn works_by(
        &self,
        after: &Self,
        r: Result<ActivationOutcome>,
        at: int,
        input: (ChannelView<T, D>, ChannelView<T, D>),
        trace: LogReceipt<T, D>,
    ) -> bool {
        &&& r is Ok
        &&& reads(self.input, after.input, trace, at, input)
        &&& sink_steps((self.done, after.done), input, r->Ok_0)
        &&& !self.done ==> forall|i: int|
            0 <= i < input.0.batches.len() ==> saw_batch(
                self.logic,
                (#[trigger] input.0.batches[i]).0,
                input.0.batches[i].1,
            )
        &&& after.logic == self.logic
    }
}

impl<T: Timestamp, D: Clone, F: FnMut(&T, &[D])> WiredCore<T> for ForEachCore<T, D, F> {
    type Trace = LogReceipt<T, D>;

    open spec fn works(
        &self,
        after: &Self,
        r: Result<ActivationOutcome>,
        trace: LogReceipt<T, D>,
    ) -> bool {
        exists|at: int, input: (ChannelView<T, D>, ChannelView<T, D>)| #[trigger]
            self.works_by(after, r, at, input, trace)
    }

    open spec fn ended(&self) -> bool {
        self.done
    }

    open spec fn queues(&self, times: Seq<T>) -> bool {
        can_hold(self.input, times)
    }

    open spec fn holding(&self) -> Seq<T> {
        Seq::empty()
    }

    open spec fn notices(&self) -> Option<NotificatorView<T>> {
        None
    }

    open spec fn duty(&self) -> Duty {
        Duty {
            role: Role::ForEach,
            reads: seq![self.input.mark()],
            writes: Seq::empty(),
        }
    }

    open spec fn sound(&self) -> bool {
        forall|t: &T, b: &[D]| #[trigger] call_requires(self.logic, (t, b))
    }

    fn step(&mut self) -> (x: (Result<ActivationOutcome>, LogReceipt<T, D>)) {
        let (mut input, at, found) = self.input.look();
        let shown: usize = input.len();
        let ghost input0 = input@;
        let outcome = for_each_step(&mut input, &mut self.done, &mut self.logic);
        let ghost seen = (input0, input@);
        self.input.advance(at + (shown - input.len()), input.is_abandoned());
        let r = Ok(outcome);
        assert(old(self).works_by(self, r, at as int, seen, found));
        (r, found)
    }

    fn finished(&self) -> (b: bool) {
        self.done
    }

    fn give_up(&mut self) {
        self.done = true;
    }

    fn queued(&self) -> (times: Vec<T>) {
        cell_times(&self.input)
    }

    fn held(&self) -> (times: Vec<T>) {
        Vec::new()
    }

    fn requested(&self) -> (times: Vec<T>) {
        Vec::new()
    }

    fn advance(&mut self, frontier: &Antichain<T>) {
    }

    fn has_ready(&self) -> (b: bool) {
        false
    }
}

/// The marks of channels.
pub open spec fn marks<T, D>(cells: Seq<ChannelCell<T, D>>) -> Seq<Mark> {
    cells.map_values(|c: ChannelCell<T, D>| c.mark())
}

/// A merging operator. The executor sees its times as `P` says.
pub struct MergeCore<T1, D, P> {
    pub state: MergeState<T1, D>,
    pub inputs: Vec<ChannelCell<T1, D>>,
    pub outlets: Outlets<T1, D>,
    pub marker: PhantomData<P>,
}

impl<T1: Timestamp, D: Clone, P> MergeCore<T1, D, P> {
    /// A round of work with the given traffic.
    pub open spec fn works_by(
        &self,
        after: &Self,
        r: Result<ActivationOutcome>,
        t: MergeTraffic<T1, D>,
        trace: (Seq<LogReceipt<T1, D>>, LogReceipt<T1, D>),
    ) -> bool {
        &&& r is Ok
        &&& all_read(self.inputs@, after.inputs@, trace.0, t.places, t.inputs)
        &&& writes(self.outlets, trace.1, t.outputs, r)
        &&& self.state@.steps(after.state@, t.inputs, t.outputs, r->Ok_0)
        &&& after.outlets == self.outlets
    }
}

/// What the readers of an operator see.
struct Looks<T, D> {
    channels: Vec<Channel<T, D>>,
    places: Vec<usize>,
    shown: Vec<usize>,
    found: Vec<LogReceipt<T, D>>,
}

/// The readers see such batches.
closed spec fn are_shown<T, D: Clone>(cells: Seq<ChannelCell<T, D>>, l: Looks<T, D>, n: int) -> bool {
    &&& l.channels@.len() == n
    &&& l.places@.len() == n
    &&& l.shown@.len() == n
    &&& l.found@.len() == n
    &&& forall|i: int|
        0 <= i < n ==> {
            &&& (#[trigger] l.found@[i]).cell() == cells[i].strand().log()
            &&& l.found@[i].before()@.shows(
                cells[i].cursor() as int,
                cells[i].limit() as int,
                l.places@[i] as int,
                l.channels@[i]@,
            )
            &&& l.shown@[i] == l.channels@[i]@.batches.len()
            &&& l.places@[i] + l.shown@[i] <= usize::MAX
        }
}

/// What all readers see.
fn look_all<T: Timestamp, D: Clone>(cells: &Vec<ChannelCell<T, D>>) -> (l: Looks<T, D>)
    ensures
        are_shown(cells@, l, cells@.len() as int),
{
    let mut l = Looks {
        channels: Vec::new(),
        places: Vec::new(),
        shown: Vec::new(),
        found: Vec::new(),
    };
    let mut i: usize = 0;
    while i < cells.len()
        invariant
            i <= cells@.len(),
            are_shown(cells@, l, i as int),
        decreases cells@.len() - i,
    {
        let (channel, at, found) = cells[i].look();
        let ghost before = l;
        l.shown.push(channel.len());
        l.channels.push(channel);
        l.places.push(at);
        l.found.push(found);
        proof {
            assert forall|k: int| 0 <= k < i + 1 implies {
                &&& (#[trigger] l.found@[k]).cell() == cells@[k].strand().log()
                &&& l.found@[k].before()@.shows(
                    cells@[k].cursor() as int,
                    cells@[k].limit() as int,
                    l.places@[k] as int,
                    l.channels@[k]@,
                )
                &&& l.shown@[k] == l.channels@[k]@.batches.len()
                &&& l.places@[k] + l.shown@[k] <= usize::MAX
            } by {
                if k < i {
                    assert(before.found@[k].cell() == cells@[k].strand().log());
                }
            }
        }
        i = i + 1;
    }
    l
}

/// Lets all readers go on to where they left off.
fn advance_all<T, D>(
    cells: &mut Vec<ChannelCell<T, D>>,
    places: &Vec<usize>,
    shown: &Vec<usize>,
    rest: &Vec<Channel<T, D>>,
)
    requires
        places@.len() == old(cells)@.len(),
        shown@.len() == old(cells)@.len(),
        rest@.len() == old(cells)@.len(),
        forall|i: int|
            0 <= i < old(cells)@.len() ==> (#[trigger] rest@[i])@.batches.len() <= shown@[i]
                && places@[i] + shown@[i] <= usize::MAX,
    ensures
        final(cells)@.len() == old(cells)@.len(),
        forall|i: int|
            0 <= i < old(cells)@.len() ==> old(cells)@[i].moves(
                &#[trigger] final(cells)@[i],
                places@[i] + shown@[i] - rest@[i]@.batches.len(),
            ) && tells(old(cells)@[i], final(cells)@[i], rest@[i]@.abandoned),
{
    let ghost before = cells@;
    let mut i: usize = 0;
    while i < cells.len()
        invariant
            i <= cells@.len(),
            cells@.len() == before.len(),
            places@.len() == before.len(),
            shown@.len() == before.len(),
            rest@.len() == before.len(),
            forall|k: int|
                0 <= k < before.len() ==> (#[trigger] rest@[k])@.batches.len() <= shown@[k]
                    && places@[k] + shown@[k] <= usize::MAX,
            forall|k: int|
                0 <= k < i ==> before[k].moves(
                    &#[trigger] cells@[k],
                    places@[k] + shown@[k] - rest@[k]@.batches.len(),
                ) && tells(before[k], cells@[k], rest@[k]@.abandoned),
            forall|k: int| i <= k < before.len() ==> #[trigger] cells@[k] == before[k],
        decreases cells@.len() - i,
    {
        let ghost mid = cells@;
        assert(rest@[i as int]@.batches.len() <= shown@[i as int]);
        let left: usize = rest[i].len();
        let cursor: usize = places[i] + (shown[i] - left);
        cells[i].advance(cursor, rest[i].is_abandoned());
        proof {
            assert forall|k: int| 0 <= k < before.len() && k != i implies #[trigger] cells@[k]
                == mid[k] by {}
        }
        i = i + 1;
    }
}

/// An operator merges what is sent through the given strands, which it reads from the start, has done
/// nothing yet, and writes to the given outlets.
pub open spec fn merges<
    T: Timestamp + 'static,
    T1: Timestamp + 'static,
    D: Clone + 'static,
    P: Projection<T1, T> + 'static,
>(op: BoxedOperator<T>, inputs: Seq<Strand<T1, D>>, outlets: Outlets<T1, D>) -> bool {
    exists|core: MergeCore<T1, D, P>| #[trigger]
        runs(op, core) && core.outlets == outlets && core.state.outbox@.len() == 0
            && !core.state.done && read_from_start(core.inputs@, inputs)
}

/// The readers read the given strands from the start.
pub open spec fn read_from_start<T, D>(
    cells: Seq<ChannelCell<T, D>>,
    strands: Seq<Strand<T, D>>,
) -> bool {
    &&& cells.len() == strands.len()
    &&& forall|k: int|
        0 <= k < cells.len() ==> (#[trigger] cells[k]).strand() == strands[k] && cells[k].cursor()
            == 0
}

impl<T: Timestamp, T1: Timestamp, D: Clone, P: Projection<T1, T>> WiredCore<T> for MergeCore<
    T1,
    D,
    P,
> {
    open spec fn ended(&self) -> bool {
        self.state.done
    }

    open spec fn queues(&self, times: Seq<T>) -> bool {
        exists|parts: Seq<Seq<T1>>| #[trigger]
            all_can_hold(self.inputs@, parts) && times == flattened(parts).map_values(
                |t: T1| P::seen(t),
            )
    }

    open spec fn holding(&self) -> Seq<T> {
        times_of(self.state.outbox@).map_values(|t: T1| P::seen(t))
    }

    open spec fn notices(&self) -> Option<NotificatorView<T>> {
        None
    }

    open spec fn duty(&self) -> Duty {
        Duty {
            role: Role::Merge,
            reads: marks(self.inputs@),
            writes: seq![self.outlets.mark()],
        }
    }

    open spec fn sound(&self) -> bool {
        true
    }

    type Trace = (Vec<LogReceipt<T1, D>>, LogReceipt<T1, D>);

    open spec fn works(
        &self,
        after: &Self,
        r: Result<ActivationOutcome>,
        trace: (Vec<LogReceipt<T1, D>>, LogReceipt<T1, D>),
    ) -> bool {
        exists|t: MergeTraffic<T1, D>| #[trigger]
            self.works_by(after, r, t, (trace.0@, trace.1))
    }

    fn step(&mut self) -> (x: (
        Result<ActivationOutcome>,
        (Vec<LogReceipt<T1, D>>, LogReceipt<T1, D>),
    )) {
        let looks = look_all(&self.inputs);
        let ghost seen = looks;
        let Looks { mut channels, places, shown, found } = looks;
        let (mut outputs, draft) = self.outlets.begin();
        let ghost inputs0 = contents(channels@);
        let ghost outputs0 = contents(outputs@);
        let outcome = merge_step(&mut self.state, &mut channels, &mut outputs);
        let ghost t = MergeTraffic {
            places: places@.map_values(|p: usize| p as int),
            inputs: (inputs0, contents(channels@)),
            outputs: (outputs0, contents(outputs@)),
        };
        let r = Ok(outcome);
        let changed = moved(&r);
        assert(contents(outputs@)[0] == outputs@[0]@);
        let wrote = self.outlets.commit(draft, outputs, changed);
        proof {
            assert forall|i: int| 0 <= i < self.inputs@.len() implies (
            #[trigger] channels@[i])@.batches.len() <= shown@[i] && places@[i] + shown@[i]
                <= usize::MAX by {
                assert(seen.found@[i].cell() == self.inputs@[i].strand().log());
                assert(contents(channels@)[i] == channels@[i]@);
                assert(t.inputs.1[i].batches.len() <= t.inputs.0[i].batches.len());
            }
        }
        advance_all(&mut self.inputs, &places, &shown, &channels);
        proof {
            assert(t.outputs.1 =~= seq![wrote.after()@.channel]);
            assert forall|i: int| 0 <= i < old(self).inputs@.len() implies reads(
                old(self).inputs@[i],
                #[trigger] self.inputs@[i],
                found@[i],
                t.places[i],
                (t.inputs.0[i], t.inputs.1[i]),
            ) by {
                assert(seen.found@[i].cell() == old(self).inputs@[i].strand().log());
                assert(t.inputs.0[i] == seen.channels@[i]@);
                assert(t.inputs.1[i] == channels@[i]@);
            }
            assert(old(self).works_by(self, r, t, (found@, wrote)));
        }
        let x = (r, (found, wrote));
        assert(old(self).works_by(self, x.0, t, (x.1.0@, x.1.1)));
        x
    }

    fn finished(&self) -> (b: bool) {
        self.state.done
    }

    fn give_up(&mut self) {
        self.state.done = true;
    }

    fn queued(&self) -> (times: Vec<T>) {
        let mut times: Vec<T> = Vec::new();
        let ghost mut parts = Seq::<Seq<T1>>::empty();
        let mut i: usize = 0;
        assert(times@ =~= flattened(parts).map_values(|t: T1| P::seen(t)));
        while i < self.inputs.len()
            invariant
                i <= self.inputs@.len(),
                parts.len() == i,
                forall|k: int| 0 <= k < i ==> can_hold(#[trigger] self.inputs@[k], parts[k]),
                times@ == flattened(parts).map_values(|t: T1| P::seen(t)),
            decreases self.inputs@.len() - i,
        {
            let inner = cell_times(&self.inputs[i]);
            let mut seen = project_all::<T1, T, P>(&inner);
            times.append(&mut seen);
            proof {
                let longer = parts.push(inner@);
                assert(longer.drop_last() =~= parts);
                assert(flattened(longer).map_values(|t: T1| P::seen(t)) =~= flattened(
                    parts,
                ).map_values(|t: T1| P::seen(t)) + inner@.map_values(|t: T1| P::seen(t)));
                parts = longer;
            }
            i = i + 1;
        }
        assert(all_can_hold(self.inputs@, parts));
        times
    }

    fn held(&self) -> (times: Vec<T>) {
        let times = batch_times(&self.state.outbox);
        project_all::<T1, T, P>(&times)
    }

    fn requested(&self) -> (times: Vec<T>) {
        Vec::new()
    }

    fn advance(&mut self, frontier: &Antichain<T>) {
    }

    fn has_ready(&self) -> (b: bool) {
        false
    }
}

/// An operator with two inputs.
pub struct JoinCore<T, D1, D2, D3, L> {
    pub state: JoinState<T, D1, D2, D3, L>,
    pub left: ChannelCell<T, D1>,
    pub right: ChannelCell<T, D2>,
    pub outlets: Outlets<T, D3>,
}

impl<
    T: Timestamp,
    D1: Clone,
    D2: Clone,
    D3: Clone,
    L: FnMut(&mut InputHandle<T, D1>, &mut InputHandle<T, D2>, &mut OutputHandle<T, D3>) -> Result<
        (),
    >,
> JoinCore<T, D1, D2, D3, L> {
    /// A round of work with the given traffic.
    pub open spec fn works_by(
        &self,
        after: &Self,
        r: Result<ActivationOutcome>,
        t: JoinTraffic<T, D1, D2, D3>,
        trace: (LogReceipt<T, D1>, LogReceipt<T, D2>, LogReceipt<T, D3>),
    ) -> bool {
        &&& reads(self.left, after.left, trace.0, t.places.0, t.left)
        &&& reads(self.right, after.right, trace.1, t.places.1, t.right)
        &&& writes(self.outlets, trace.2, t.outputs, r)
        &&& self.state.steps(&after.state, t.left, t.right, t.outputs, r)
        &&& after.outlets == self.outlets
    }
}

impl<
    T: Timestamp,
    D1: Clone,
    D2: Clone,
    D3: Clone,
    L: FnMut(&mut InputHandle<T, D1>, &mut InputHandle<T, D2>, &mut OutputHandle<T, D3>) -> Result<
        (),
    >,
> WiredCore<T> for JoinCore<T, D1, D2, D3, L> {
    type Trace = (LogReceipt<T, D1>, LogReceipt<T, D2>, LogReceipt<T, D3>);

    open spec fn works(
        &self,
        after: &Self,
        r: Result<ActivationOutcome>,
        trace: (LogReceipt<T, D1>, LogReceipt<T, D2>, LogReceipt<T, D3>),
    ) -> bool {
        exists|t: JoinTraffic<T, D1, D2, D3>| #[trigger] self.works_by(after, r, t, trace)
    }

    open spec fn ended(&self) -> bool {
        self.state.done
    }

    open spec fn queues(&self, times: Seq<T>) -> bool {
        exists|left: Seq<T>, right: Seq<T>|
            #[trigger] can_hold(self.left, left) && #[trigger] can_hold(self.right, right) && times
                == left + right
    }

    open spec fn holding(&self) -> Seq<T> {
        times_of(self.state.outbox@)
    }

    open spec fn notices(&self) -> Option<NotificatorView<T>> {
        None
    }

    open spec fn duty(&self) -> Duty {
        Duty {
            role: Role::Join,
            reads: seq![self.left.mark(), self.right.mark()],
            writes: seq![self.outlets.mark()],
        }
    }

    open spec fn sound(&self) -> bool {
        &&& self.state.output@.len() == 0
        &&& forall|
            a: &mut InputHandle<T, D1>,
            b: &mut InputHandle<T, D2>,
            o: &mut OutputHandle<T, D3>,
        | #[trigger]
            call_requires(self.state.logic, (a, b, o))
    }

    fn step(&mut self) -> (x: (
        Result<ActivationOutcome>,
        (LogReceipt<T, D1>, LogReceipt<T, D2>, LogReceipt<T, D3>),
    ))
        ensures
            exists|t: JoinTraffic<T, D1, D2, D3>|
                {
                    &&& #[trigger] old(self).works_by(final(self), x.0, t, x.1)
                    &&& exists|c: JoinCourse<T, D3>|
                        {
                            &&& #[trigger] old(self).state.steps_by(
                                &final(self).state,
                                t.left,
                                t.right,
                                t.outputs,
                                c,
                                x.0,
                            )
                            &&& old(self).state.consults(t.left.0, t.right.0, c) ==> exists|
                                a: &mut InputHandle<T, D1>,
                                b: &mut InputHandle<T, D2>,
                                o: &mut OutputHandle<T, D3>,
                            |
                                {
                                    &&& #[trigger] call_ensures(
                                        old(self).state.logic,
                                        (a, b, o),
                                        c.answer,
                                    )
                                    &&& (*a)@ == offered(old(self).state.left@, t.left.0)
                                    &&& (*final(a))@ == final(self).state.left@
                                    &&& (*b)@ == offered(old(self).state.right@, t.right.0)
                                    &&& (*final(b))@ == final(self).state.right@
                                    &&& (*o)@.len() == 0
                                    &&& (*final(o))@ == c.out
                                }
                        }
                },
    {
        let (mut left, left_at, left_found) = self.left.look();
        let (mut right, right_at, right_found) = self.right.look();
        let shown: (usize, usize) = (left.len(), right.len());
        let (mut outputs, draft) = self.outlets.begin();
        let ghost left0 = left@;
        let ghost right0 = right@;
        let ghost outputs0 = contents(outputs@);
        let r = join_step(&mut self.state, &mut left, &mut right, &mut outputs);
        let ghost t = JoinTraffic {
            places: (left_at as int, right_at as int),
            left: (left0, left@),
            right: (right0, right@),
            outputs: (outputs0, contents(outputs@)),
        };
        let changed = moved(&r);
        assert(contents(outputs@)[0] == outputs@[0]@);
        let wrote = self.outlets.commit(draft, outputs, changed);
        self.left.advance(left_at + (shown.0 - left.len()), left.is_abandoned());
        self.right.advance(right_at + (shown.1 - right.len()), right.is_abandoned());
        let x = (r, (left_found, right_found, wrote));
        proof {
            assert(t.outputs.1 =~= seq![wrote.after()@.channel]);
            assert(old(self).works_by(self, x.0, t, x.1));
        }
        x
    }

    fn finished(&self) -> (b: bool) {
        self.state.done
    }

    fn give_up(&mut self) {
        self.state.done = true;
    }

    fn queued(&self) -> (times: Vec<T>) {
        let mut times = cell_times(&self.left);
        let mut more = cell_times(&self.right);
        let ghost parts = (times@, more@);
        times.append(&mut more);
        assert(times@ =~= parts.0 + parts.1);
        times
    }

    fn held(&self) -> (times: Vec<T>) {
        batch_times(&self.state.outbox)
    }

    fn requested(&self) -> (times: Vec<T>) {
        Vec::new()
    }

    fn advance(&mut self, frontier: &Antichain<T>) {
    }

    fn has_ready(&self) -> (b: bool) {
        false
    }
}

/// Where an operator with tasks and those who run the tasks meet.
pub struct TaskBoard<T, D, D2> {
    tasks: Shared<Vec<Task<T, D>>, Tag>,
    results: Shared<Vec<TaskResult<D2>>, Tag>,
}

impl<T, D, D2> TaskBoard<T, D, D2> {
    /// The board belongs to the operator with the given index.
    pub closed spec fn belongs_to(&self, owner: usize) -> bool {
        &&& self.tasks.rule().number@ == Some(owner as int)
        &&& self.results.rule().number@ == Some(owner as int)
    }

    /// The board of the operator with the index `owner`, with nothing on it.
    pub fn new(owner: usize) -> (b: Self)
        ensures
            b.belongs_to(owner),
            exists|none: Vec<Task<T, D>>| #[trigger] b.tasks().began(none) && none@.len() == 0,
            exists|none: Vec<TaskResult<D2>>| #[trigger]
                b.results().began(none) && none@.len() == 0,
    {
        let tasks = Tag { number: Ghost(Some(owner as int)) };
        let results = Tag { number: Ghost(Some(owner as int)) };
        let no_tasks: Vec<Task<T, D>> = Vec::new();
        let no_results: Vec<TaskResult<D2>> = Vec::new();
        let b = TaskBoard {
            tasks: Shared::new(no_tasks, tasks),
            results: Shared::new(no_results, results),
        };
        proof {
            assert(b.tasks().began(no_tasks));
            assert(b.results().began(no_results));
        }
        b
    }

    /// One more holder of the same board.
    pub fn share(&self) -> (b: Self)
        ensures
            b == *self,
    {
        TaskBoard { tasks: self.tasks.share(), results: self.results.share() }
    }

    /// Takes the tasks that are to be run.
    pub fn take_tasks(&self) -> (tasks: Vec<Task<T, D>>)
        ensures
            exists|after: Vec<Task<T, D>>| #[trigger]
                self.tasks().turned(tasks, after) && after@.len() == 0,
    {
        let none: Vec<Task<T, D>> = Vec::new();
        let tasks = self.tasks.replace(none);
        assert(self.tasks().turned(tasks, none));
        tasks
    }

    /// Puts a result on the board.
    pub fn report(&self, result: TaskResult<D2>)
        ensures
            exists|before: Vec<TaskResult<D2>>, after: Vec<TaskResult<D2>>| #[trigger]
                self.results().turned(before, after) && after@ == before@.push(result),
    {
        let (mut results, loan) = self.results.lend(Vec::new());
        let ghost before = results;
        results.push(result);
        let _ = self.results.settle(loan, results);
        assert(self.results().turned(before, results));
    }

    /// Where tasks are put.
    pub closed spec fn tasks(&self) -> Shared<Vec<Task<T, D>>, Tag> {
        self.tasks
    }

    /// Where results are put.
    pub closed spec fn results(&self) -> Shared<Vec<TaskResult<D2>>, Tag> {
        self.results
    }

    /// Takes the results.
    fn take_results(&self) -> (x: (Vec<TaskResult<D2>>, Receipt<Vec<TaskResult<D2>>, Tag>))
        ensures
            x.1.cell() == self.results(),
            x.1.before() == x.0,
            x.1.after()@.len() == 0,
    {
        let (results, loan) = self.results.lend(Vec::new());
        let receipt = self.results.settle(loan, Vec::new());
        (results, receipt)
    }

    /// Puts tasks on the board.
    fn post(&self, tasks: Vec<Task<T, D>>) -> (receipt: Receipt<Vec<Task<T, D>>, Tag>)
        ensures
            receipt.cell() == self.tasks(),
            receipt.after()@ == receipt.before()@ + tasks@,
    {
        let mut tasks = tasks;
        let ghost given = tasks@;
        let (mut all, loan) = self.tasks.lend(Vec::new());
        let ghost before = all@;
        all.append(&mut tasks);
        assert(all@ =~= before + given);
        self.tasks.settle(loan, all)
    }
}

/// An operator whose batches are processed by tasks.
pub struct TaskCore<T, D, D2> {
    pub state: TaskState<T, D, D2>,
    pub input: ChannelCell<T, D>,
    pub outlets: Outlets<T, D2>,
    pub board: TaskBoard<T, D, D2>,
    pub given_up: bool,
}

/// The receipts of a round of work of an operator with tasks.
pub struct TaskTrace<T, D, D2> {
    pub found: LogReceipt<T, D>,
    pub wrote: LogReceipt<T, D2>,
    pub results: Receipt<Vec<TaskResult<D2>>, Tag>,
    pub posted: Receipt<Vec<Task<T, D>>, Tag>,
}

impl<T: Timestamp, D: Clone, D2: Clone> TaskCore<T, D, D2> {
    /// A round of work with the given traffic. A failed task is an error.
    pub open spec fn works_by(
        &self,
        after: &Self,
        r: Result<ActivationOutcome>,
        t: TaskTraffic<T, D, D2>,
        trace: TaskTrace<T, D, D2>,
    ) -> bool {
        &&& reads(self.input, after.input, trace.found, t.at, t.input)
        &&& writes(self.outlets, trace.wrote, t.outputs, r)
        &&& trace.results.cell() == self.board.results()
        &&& t.results == trace.results.before()@
        &&& trace.results.after()@.len() == 0
        &&& trace.posted.cell() == self.board.tasks()
        &&& trace.posted.after()@ == trace.posted.before()@ + t.tasks
        &&& match r {
            Ok(outcome) => {
                &&& self.state@.steps(after.state@, t.results, t.input, t.outputs, outcome)
                &&& t.tasks.len() == after.state@.next - self.state@.next
                &&& forall|i: int|
                    0 <= i < t.tasks.len() ==> {
                        let task = #[trigger] t.tasks[i];
                        &&& task.ticket == self.state@.next + i
                        &&& (task.time, task.data@) == (self.state@.waiting
                            + t.input.0.batches)[i]
                    }
            },
            Err(e) => !self.state@.done && exists|k: int| #[trigger]
                self.state@.fails_at(t.results, k) && t.results[k].result
                    == Err::<Vec<D2>, Error>(e),
        }
        &&& after.outlets == self.outlets
        &&& after.board == self.board
        &&& after.given_up == self.given_up
    }
}

impl<T: Timestamp, D: Clone, D2: Clone> WiredCore<T> for TaskCore<T, D, D2> {
    open spec fn ended(&self) -> bool {
        self.given_up || self.state@.done
    }

    open spec fn queues(&self, times: Seq<T>) -> bool {
        can_hold(self.input, times)
    }

    open spec fn holding(&self) -> Seq<T> {
        self.state@.waiting.map_values(|b: (T, Seq<D>)| b.0) + self.state@.running.map_values(
            |r: (u64, T)| r.1,
        ) + self.state@.outbox.map_values(|b: (T, Seq<D2>)| b.0)
    }

    open spec fn notices(&self) -> Option<NotificatorView<T>> {
        None
    }

    open spec fn duty(&self) -> Duty {
        Duty {
            role: Role::Tasks(self.state@.max),
            reads: seq![self.input.mark()],
            writes: seq![self.outlets.mark()],
        }
    }

    open spec fn sound(&self) -> bool {
        true
    }

    type Trace = TaskTrace<T, D, D2>;

    open spec fn works(
        &self,
        after: &Self,
        r: Result<ActivationOutcome>,
        trace: TaskTrace<T, D, D2>,
    ) -> bool {
        exists|t: TaskTraffic<T, D, D2>| #[trigger] self.works_by(after, r, t, trace)
    }

    fn step(&mut self) -> (x: (Result<ActivationOutcome>, TaskTrace<T, D, D2>)) {
        let (results, taken) = self.board.take_results();
        let (mut input, at, found) = self.input.look();
        let shown: usize = input.len();
        let (mut outputs, draft) = self.outlets.begin();
        let ghost results0 = results@;
        let ghost input0 = input@;
        let ghost outputs0 = contents(outputs@);
        let stepped = task_step(&mut self.state, results, &mut input, &mut outputs);
        self.input.advance(at + (shown - input.len()), input.is_abandoned());
        let (r, tasks) = match stepped {
            Ok((outcome, tasks)) => (Ok(outcome), tasks),
            Err(e) => (Err(e), Vec::new()),
        };
        let ghost t = TaskTraffic {
            results: results0,
            at: at as int,
            input: (input0, input@),
            outputs: (outputs0, contents(outputs@)),
            tasks: tasks@,
        };
        let posted = self.board.post(tasks);
        let changed = moved(&r);
        assert(contents(outputs@)[0] == outputs@[0]@);
        let wrote = self.outlets.commit(draft, outputs, changed);
        let trace = TaskTrace { found, wrote, results: taken, posted };
        proof {
            assert(t.outputs.1 =~= seq![wrote.after()@.channel]);
            assert(old(self).works_by(self, r, t, trace));
        }
        (r, trace)
    }

    fn finished(&self) -> (b: bool) {
        self.given_up || self.state.is_done()
    }

    fn give_up(&mut self) {
        self.given_up = true;
    }

    fn queued(&self) -> (times: Vec<T>) {
        cell_times(&self.input)
    }

    fn held(&self) -> (times: Vec<T>) {
        self.state.times()
    }

    fn requested(&self) -> (times: Vec<T>) {
        Vec::new()
    }

    fn advance(&mut self, frontier: &Antichain<T>) {
    }

    fn has_ready(&self) -> (b: bool) {
        false
    }
}

/// An operator inside a loop, as the executor of the dataflow around the loop sees it: of its times
/// the executor sees the time outside. Frontiers are not delivered into loops.
#[verifier::reject_recursive_types(T)]
#[verifier::reject_recursive_types(TInner)]
pub struct LoopOperator<T: Timestamp, TInner: Timestamp> {
    pub op: BoxedOperator<Product<T, TInner>>,
    /// What the operator was told.
    pub heard: Ghost<Option<Seq<T>>>,
}

impl<T: Timestamp, TInner: Timestamp> SchedulableOperator<T> for LoopOperator<T, TInner> {
    open spec fn id(&self) -> usize {
        self.op.id()
    }

    open spec fn label(&self) -> Seq<char> {
        self.op.label()
    }

    open spec fn answers(&self) -> Seq<Answer> {
        self.op.answers()
    }

    open spec fn heard(&self) -> Option<Seq<T>> {
        self.heard@
    }

    open spec fn dismissed(&self) -> bool {
        self.op.dismissed()
    }

    open spec fn notifying(&self) -> bool {
        false
    }

    open spec fn duty(&self) -> Duty {
        self.op.duty()
    }

    open spec fn ended(&self) -> bool {
        self.op.ended()
    }

    open spec fn stage(&self) -> StageId {
        self.op.stage()
    }

    open spec fn queues(&self, times: Seq<T>) -> bool {
        exists|inner: Seq<Product<T, TInner>>| #[trigger]
            self.op.queues(inner) && times == inner.map_values(|t: Product<T, TInner>| t.outer)
    }

    open spec fn requesting(&self) -> Seq<T> {
        Seq::empty()
    }

    open spec fn holding(&self) -> Seq<T> {
        self.op.holding().map_values(|t: Product<T, TInner>| t.outer)
    }

    fn activate(&mut self) -> (r: Result<ActivationOutcome>) {
        let r = self.op.activate(false);
        assert(self.op.answers() =~= old(self).op.answers().push(Ok(r)));
        r
    }

    fn activate_guarded(&mut self) -> (r: Answer) {
        let r = self.op.activate_guarded();
        assert(self.op.answers() =~= old(self).op.answers().push(r));
        r
    }

    fn is_done(&self) -> (b: bool) {
        self.op.is_done()
    }

    fn name(&self) -> (name: &str) {
        self.op.name()
    }

    fn index(&self) -> (index: usize) {
        self.op.index()
    }

    fn stage_id(&self) -> (stage: StageId) {
        self.op.stage_id()
    }

    fn close_inputs(&mut self) {
        self.op.close_inputs();
    }

    fn update_input_frontier(&mut self, frontier: &Antichain<T>) {
        proof {
            self.heard@ = Some(frontier@);
        }
    }

    fn has_ready_notifications(&self) -> (b: bool) {
        false
    }

    fn queued_times(&self) -> (times: Vec<T>) {
        let times = self.op.queued_times();
        let out = project_all::<Product<T, TInner>, T, Outside>(&times);
        assert(out@ =~= times@.map_values(|t: Product<T, TInner>| t.outer));
        out
    }

    fn requested_times(&self) -> (times: Vec<T>) {
        Vec::new()
    }

    fn held_times(&self) -> (times: Vec<T>) {
        let times = self.op.held_times();
        project_all::<Product<T, TInner>, T, Outside>(&times)
    }
}

} // verus!
