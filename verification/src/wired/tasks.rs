//! An operator whose batches are processed by tasks outside of the dataflow.

use std::collections::VecDeque;
use vstd::prelude::*;
use crate::channel::{Channel, ChannelView};
use crate::error::{Error, Result};
use crate::handles::{batches, with_batch};
use crate::order::Timestamp;
use crate::schedulable::ActivationOutcome;
use crate::wired::outbox::{all_same_bounds, contents, send_batches, sends};
use crate::wired::relay::{all_closed, close_all};

verus! {

/// A batch that is to be processed.
#[derive(Debug)]
pub struct Task<T, D> {
    pub ticket: u64,
    pub time: T,
    pub data: Vec<D>,
}

/// What came of a batch.
#[derive(Debug)]
pub struct TaskResult<D> {
    pub ticket: u64,
    pub result: Result<Vec<D>>,
}

/// What an operator with tasks knows.
pub struct TaskView<T, D, D2> {
    /// Batches that wait to be processed.
    pub waiting: Seq<(T, Seq<D>)>,
    /// The tickets and times of the batches that are being processed.
    pub running: Seq<(u64, T)>,
    /// The ticket of the next batch.
    pub next: u64,
    /// How many batches may be processed at the same time.
    pub max: usize,
    /// What waits for room in the channels behind the operator.
    pub outbox: Seq<(T, Seq<D2>)>,
    /// Whether the input has ended.
    pub exhausted: bool,
    pub done: bool,
}

/// The batch with the given ticket is being processed.
pub open spec fn runs<T>(running: Seq<(u64, T)>, ticket: u64) -> bool {
    exists|i: int| 0 <= i < running.len() && (#[trigger] running[i]).0 == ticket
}

/// The first place at which the ticket stands.
pub open spec fn place_of<T>(running: Seq<(u64, T)>, ticket: u64) -> int
    decreases running.len(),
{
    if running.len() == 0 || running[0].0 == ticket {
        0
    } else {
        1 + place_of(running.drop_first(), ticket)
    }
}

proof fn lemma_place_of<T>(running: Seq<(u64, T)>, ticket: u64, i: int)
    requires
        0 <= i < running.len(),
        running[i].0 == ticket,
        forall|k: int| 0 <= k < i ==> (#[trigger] running[k]).0 != ticket,
    ensures
        place_of(running, ticket) == i,
    decreases running.len(),
{
    if i > 0 {
        assert(running[0].0 != ticket);
        let rest = running.drop_first();
        assert forall|k: int| 0 <= k < i - 1 implies (#[trigger] rest[k]).0 != ticket by {
            assert(rest[k] == running[k + 1]);
        }
        lemma_place_of(rest, ticket, i - 1);
    }
}

impl<T, D, D2> TaskView<T, D, D2> {
    /// Nothing was done yet, and up to `max` batches can be processed at the same time.
    pub open spec fn is_fresh(self, max: usize) -> bool {
        self == (TaskView {
            waiting: Seq::<(T, Seq<D>)>::empty(),
            running: Seq::<(u64, T)>::empty(),
            next: 0,
            max,
            outbox: Seq::<(T, Seq<D2>)>::empty(),
            exhausted: false,
            done: false,
        })
    }

    /// A result came in. Results of batches that are not being processed are ignored.
    pub open spec fn settled(self, r: TaskResult<D2>) -> TaskView<T, D, D2> {
        if runs(self.running, r.ticket) {
            let i = place_of(self.running, r.ticket);
            TaskView {
                running: self.running.remove(i),
                outbox: match r.result {
                    Ok(data) => with_batch(self.outbox, self.running[i].1, data@),
                    Err(_) => self.outbox,
                },
                ..self
            }
        } else {
            self
        }
    }

    /// Results came in, one after the other.
    pub open spec fn settled_all(self, results: Seq<TaskResult<D2>>) -> TaskView<T, D, D2>
        decreases results.len(),
    {
        if results.len() == 0 {
            self
        } else {
            self.settled_all(results.drop_last()).settled(results.last())
        }
    }

    /// Result `k` is the failure of a batch that is being processed when the results before it have
    /// come in.
    pub open spec fn fails_at(self, results: Seq<TaskResult<D2>>, k: int) -> bool {
        &&& 0 <= k < results.len()
        &&& results[k].result is Err
        &&& runs(self.settled_all(results.take(k)).running, results[k].ticket)
    }

    /// How many batches can be started.
    pub open spec fn startable(self) -> nat {
        let free = if self.running.len() < self.max {
            (self.max - self.running.len()) as nat
        } else {
            0
        };
        let tickets = (u64::MAX - self.next) as nat;
        let least = if free < tickets {
            free
        } else {
            tickets
        };
        if self.waiting.len() < least {
            self.waiting.len()
        } else {
            least
        }
    }

    /// The first `n` batches are started.
    pub open spec fn started(self, n: nat) -> TaskView<T, D, D2> {
        TaskView {
            waiting: self.waiting.skip(n as int),
            running: self.running + Seq::new(
                n,
                |i: int| ((self.next + i) as u64, self.waiting[i].0),
            ),
            next: (self.next + n) as u64,
            ..self
        }
    }

    /// Nothing is left to do.
    pub open spec fn finished(self) -> bool {
        &&& self.exhausted
        &&& self.waiting.len() == 0
        &&& self.running.len() == 0
        &&& self.outbox.len() == 0
    }
}

/// The inner state of an operator with tasks.
pub struct TaskState<T, D, D2> {
    waiting: VecDeque<(T, Vec<D>)>,
    running: Vec<(u64, T)>,
    next: u64,
    max: usize,
    outbox: VecDeque<(T, Vec<D2>)>,
    exhausted: bool,
    done: bool,
}

impl<T, D, D2> View for TaskState<T, D, D2> {
    type V = TaskView<T, D, D2>;

    closed spec fn view(&self) -> TaskView<T, D, D2> {
        TaskView {
            waiting: batches(self.waiting@),
            running: self.running@,
            next: self.next,
            max: self.max,
            outbox: batches(self.outbox@),
            exhausted: self.exhausted,
            done: self.done,
        }
    }
}

impl<T: Timestamp, D, D2: Clone> TaskState<T, D, D2> {
    /// An operator that processes up to `max` batches at the same time.
    pub fn new(max: usize) -> (s: Self)
        ensures
            s@.is_fresh(max),
    {
        let s = TaskState {
            waiting: VecDeque::new(),
            running: Vec::new(),
            next: 0,
            max,
            outbox: VecDeque::new(),
            exhausted: false,
            done: false,
        };
        assert(s@.waiting =~= Seq::<(T, Seq<D>)>::empty());
        assert(s@.outbox =~= Seq::<(T, Seq<D2>)>::empty());
        s
    }

    /// Takes in one result. A failure is an error.
    fn settle_one(&mut self, r: TaskResult<D2>) -> (known: Result<bool>)
        ensures
            final(self)@ == old(self)@.settled(r),
            known is Err <==> r.result is Err && runs(old(self)@.running, r.ticket),
            known matches Err(e) ==> r.result == Err::<Vec<D2>, Error>(e),
            known matches Ok(b) ==> b == runs(old(self)@.running, r.ticket),
    {
        let mut i: usize = 0;
        while i < self.running.len() && self.running[i].0 != r.ticket
            invariant
                *self == *old(self),
                i <= self.running@.len(),
                forall|k: int| 0 <= k < i ==> (#[trigger] self.running@[k]).0 != r.ticket,
            decreases self.running@.len() - i,
        {
            i = i + 1;
        }
        if i >= self.running.len() {
            assert(!runs(self@.running, r.ticket));
            return Ok(false);
        }
        proof {
            assert(self@.running[i as int].0 == r.ticket);
            assert(runs(self@.running, r.ticket));
            lemma_place_of(self@.running, r.ticket, i as int);
        }
        let (_, time) = self.running.remove(i);
        match r.result {
            Ok(data) => {
                if data.len() > 0 {
                    let ghost before = self.outbox@;
                    let ghost batch = (time, data@);
                    self.outbox.push_back((time, data));
                    assert(batches(self.outbox@) =~= batches(before).push(batch));
                }
                Ok(true)
            },
            Err(e) => Err(e),
        }
    }

    /// Takes in results, one after the other. The first failure is an error.
    pub fn settle(&mut self, results: Vec<TaskResult<D2>>) -> (r: Result<bool>)
        ensures
            match r {
                Ok(_) => {
                    &&& final(self)@ == old(self)@.settled_all(results@)
                    &&& forall|k: int|
                        0 <= k < results@.len() ==> !#[trigger] old(self)@.fails_at(results@, k)
                },
                Err(e) => exists|k: int| #[trigger]
                    old(self)@.fails_at(results@, k) && results@[k].result == Err::<
                        Vec<D2>,
                        Error,
                    >(e) && final(self)@ == old(self)@.settled_all(results@.take(k + 1))
                        && forall|j: int|
                        0 <= j < k ==> !#[trigger] old(self)@.fails_at(results@, j),
            },
    {
        let ghost given = results@;
        let mut any = false;
        assert(given.take(0) =~= Seq::<TaskResult<D2>>::empty());
        for one in it: results
            invariant
                it.seq() == given,
                self@ == old(self)@.settled_all(given.take(it.index() as int)),
                forall|k: int|
                    0 <= k < it.index() ==> !#[trigger] old(self)@.fails_at(given, k),
        {
            let ghost k = it.index() as int;
            proof {
                let longer = given.take(k + 1);
                assert(longer.drop_last() =~= given.take(k));
                assert(longer.last() == one);
            }
            match self.settle_one(one) {
                Ok(known) => {
                    assert(!old(self)@.fails_at(given, k));
                    any = any || known;
                },
                Err(e) => {
                    assert(old(self)@.fails_at(given, k));
                    return Err(e);
                },
            }
        }
        assert(given.take(given.len() as int) =~= given);
        Ok(any)
    }

    /// Takes in the batches of a channel.
    pub fn take_in(&mut self, input: &mut Channel<T, D>)
        ensures
            final(input)@ == (ChannelView { batches: Seq::<(T, Seq<D>)>::empty(), ..old(input)@ }),
            final(self)@ == (TaskView {
                waiting: old(self)@.waiting + old(input)@.batches,
                exhausted: old(self)@.exhausted || old(input)@.closed,
                ..old(self)@
            }),
    {
        let ghost given = input@.batches;
        let ghost first = self@.waiting;
        let ghost mut k: int = 0;
        let mut more = true;
        assert(given.skip(0) =~= given);
        assert(first + given.take(0) =~= first);
        while more
            invariant
                0 <= k <= given.len(),
                given == old(input)@.batches,
                first == old(self)@.waiting,
                input@ == (ChannelView { batches: given.skip(k), ..old(input)@ }),
                self@ == (TaskView { waiting: first + given.take(k), ..old(self)@ }),
                !more ==> k == given.len(),
            decreases
                    given.len() - k,
                    (if more {
                        1int
                    } else {
                        0int
                    }),
        {
            match input.pull() {
                Some(b) => {
                    let ghost batch = (b.0, b.1@);
                    let ghost before = self.waiting@;
                    self.waiting.push_back(b);
                    proof {
                        assert(batch == given[k]);
                        assert(batches(self.waiting@) =~= batches(before).push(batch));
                        assert(first + given.take(k + 1) =~= (first + given.take(k)).push(batch));
                        assert(given.skip(k).drop_first() =~= given.skip(k + 1));
                        k = k + 1;
                    }
                },
                None => {
                    more = false;
                },
            }
        }
        assert(given.take(k) =~= given);
        assert(input@.batches =~= Seq::<(T, Seq<D>)>::empty());
        if input.is_closed() {
            self.exhausted = true;
        }
    }

    /// Starts as many batches as may be processed at the same time, oldest first.
    pub fn start(&mut self) -> (tasks: Vec<Task<T, D>>)
        ensures
            tasks@.len() == old(self)@.startable(),
            final(self)@ == old(self)@.started(old(self)@.startable()),
            forall|i: int|
                0 <= i < tasks@.len() ==> {
                    let t = #[trigger] tasks@[i];
                    &&& t.ticket == old(self)@.next + i
                    &&& (t.time, t.data@) == old(self)@.waiting[i]
                },
    {
        let mut tasks: Vec<Task<T, D>> = Vec::new();
        let ghost first = self@;
        proof {
            assert(first.started(0).waiting =~= first.waiting);
            assert(first.started(0).running =~= first.running);
        }
        while self.running.len() < self.max && self.next < u64::MAX && self.waiting.len() > 0
            invariant
                first == old(self)@,
                tasks@.len() <= first.waiting.len(),
                first.next + tasks@.len() <= u64::MAX,
                tasks@.len() > 0 ==> first.running.len() + tasks@.len() <= first.max,
                self@ == first.started(tasks@.len()),
                forall|i: int|
                    0 <= i < tasks@.len() ==> {
                        let t = #[trigger] tasks@[i];
                        &&& t.ticket == first.next + i
                        &&& (t.time, t.data@) == first.waiting[i]
                    },
            decreases self.waiting@.len(),
        {
            let ghost n = tasks@.len();
            let ghost before = self@;
            match self.waiting.pop_front() {
                Some((time, data)) => {
                    let ticket: u64 = self.next;
                    assert((time, data@) == before.waiting[0]);
                    self.running.push((ticket, time.duplicate()));
                    self.next = self.next + 1;
                    tasks.push(Task { ticket, time, data });
                    proof {
                        assert(self@.waiting =~= before.waiting.drop_first());
                        assert(self@.waiting =~= first.started(n + 1).waiting);
                        assert(self@.running =~= first.started(n + 1).running);
                    }
                },
                None => {},
            }
        }
        proof {
            let n = tasks@.len();
            assert(self@.waiting.len() == self.waiting@.len());
            assert(self@.waiting.len() == first.waiting.len() - n);
            assert(self@.running.len() == first.running.len() + n);
            assert(self@.max == first.max);
            assert(self@.next == first.next + n);
        }
        tasks
    }
}

/// The course of an activation.
pub struct TaskCourse<T, D, D2> {
    /// What was known after the results and the input were taken in.
    pub informed: TaskView<T, D, D2>,
    /// What the channels behind the operator held after output was sent.
    pub end: Seq<ChannelView<T, D2>>,
    /// What was left over of the output.
    pub left: Seq<(T, Seq<D2>)>,
}

impl<T, D, D2: Clone> TaskView<T, D, D2> {
    /// An activation that took the given course: results and input are taken in, batches are
    /// started, and output is sent. When nothing is left to do, the operator closes its channels.
    pub open spec fn steps_by(
        self,
        after: TaskView<T, D, D2>,
        results: Seq<TaskResult<D2>>,
        input: (ChannelView<T, D>, ChannelView<T, D>),
        outputs: (Seq<ChannelView<T, D2>>, Seq<ChannelView<T, D2>>),
        c: TaskCourse<T, D, D2>,
        outcome: ActivationOutcome,
    ) -> bool {
        if self.done {
            after == self && input.1 == input.0 && outputs.1 == outputs.0 && outcome is Done
        } else {
            let settled = self.settled_all(results);
            let n = c.informed.startable();
            let end = TaskView { outbox: c.left, ..c.informed.started(n) };
            &&& c.informed == (TaskView {
                waiting: settled.waiting + input.0.batches,
                exhausted: settled.exhausted || input.0.closed,
                ..settled
            })
            &&& input.1 == (ChannelView { batches: Seq::<(T, Seq<D>)>::empty(), ..input.0 })
            &&& sends(settled.outbox, outputs.0, c.left, c.end)
            &&& after == (TaskView { done: end.finished(), ..end })
            &&& if after.done {
                all_closed(c.end, outputs.1) && outcome is Done
            } else {
                &&& outputs.1 == c.end
                &&& outcome == if c.left.len() > 0 {
                    ActivationOutcome::BlockedOnBackpressure
                } else if settled.outbox.len() > 0 || settled.running.len() < self.running.len()
                    || input.0.batches.len() > 0 || n > 0 {
                    ActivationOutcome::MadeProgress
                } else if end.running.len() > 0 {
                    ActivationOutcome::WaitingForAsync
                } else {
                    ActivationOutcome::Idle
                }
            }
        }
    }

    /// An activation.
    pub open spec fn steps(
        self,
        after: TaskView<T, D, D2>,
        results: Seq<TaskResult<D2>>,
        input: (ChannelView<T, D>, ChannelView<T, D>),
        outputs: (Seq<ChannelView<T, D2>>, Seq<ChannelView<T, D2>>),
        outcome: ActivationOutcome,
    ) -> bool {
        exists|c: TaskCourse<T, D, D2>| #[trigger]
            self.steps_by(after, results, input, outputs, c, outcome)
    }
}

/// Activates an operator with tasks: takes in results and input, and hands out the batches that are
/// to be processed now. A failure of a task is an error.
pub fn task_step<T: Timestamp, D, D2: Clone>(
    state: &mut TaskState<T, D, D2>,
    results: Vec<TaskResult<D2>>,
    input: &mut Channel<T, D>,
    outputs: &mut Vec<Channel<T, D2>>,
) -> (r: Result<(ActivationOutcome, Vec<Task<T, D>>)>)
    ensures
        final(outputs)@.len() == old(outputs)@.len(),
        final(input)@.batches.len() <= old(input)@.batches.len(),
        all_same_bounds(contents(old(outputs)@), contents(final(outputs)@)),
        match r {
            Ok((outcome, tasks)) => {
                &&& old(state)@.steps(
                    final(state)@,
                    results@,
                    (old(input)@, final(input)@),
                    (contents(old(outputs)@), contents(final(outputs)@)),
                    outcome,
                )
                &&& !old(state)@.done ==> forall|k: int|
                    0 <= k < results@.len() ==> !#[trigger] old(state)@.fails_at(results@, k)
                &&& old(state)@.done ==> tasks@.len() == 0
                &&& forall|i: int|
                    0 <= i < tasks@.len() ==> {
                        let t = #[trigger] tasks@[i];
                        &&& t.ticket == old(state)@.next + i
                        &&& (t.time, t.data@) == (old(state)@.waiting + old(input)@.batches)[i]
                    }
                &&& tasks@.len() == final(state)@.next - old(state)@.next
            },
            Err(e) => !old(state)@.done && exists|k: int| #[trigger]
                old(state)@.fails_at(results@, k) && results@[k].result == Err::<Vec<D2>, Error>(
                    e,
                ),
        },
{
    let ghost in0 = input@;
    let ghost outs0 = contents(outputs@);
    if state.done {
        proof {
            let c = arbitrary();
            assert(old(state)@.steps_by(
                state@,
                results@,
                (in0, in0),
                (outs0, outs0),
                c,
                ActivationOutcome::Done,
            ));
        }
        return Ok((ActivationOutcome::Done, Vec::new()));
    }
    let before: usize = state.running.len();
    let settling = state.settle(results);
    match settling {
        Err(e) => {
            return Err(e);
        },
        Ok(_) => {},
    }
    proof {
        lemma_settled_keeps(old(state)@, results@);
    }
    let fewer = state.running.len() < before;
    let had_output = state.outbox.len() > 0;
    let had_input = input.len() > 0;
    state.take_in(input);
    let ghost informed = state@;
    let tasks = state.start();
    let _ = send_batches(&mut state.outbox, outputs);
    let ghost end = contents(outputs@);
    let ghost left = batches(state.outbox@);
    let outcome = if state.exhausted && state.waiting.len() == 0 && state.running.len() == 0
        && state.outbox.len() == 0 {
        close_all(outputs);
        state.done = true;
        ActivationOutcome::Done
    } else if state.outbox.len() > 0 {
        ActivationOutcome::BlockedOnBackpressure
    } else if had_output || fewer || had_input || tasks.len() > 0 {
        ActivationOutcome::MadeProgress
    } else if state.running.len() > 0 {
        ActivationOutcome::WaitingForAsync
    } else {
        ActivationOutcome::Idle
    };
    proof {
        let c = TaskCourse { informed, end, left };
        assert(old(state)@.steps_by(
            state@,
            results@,
            (in0, input@),
            (outs0, contents(outputs@)),
            c,
            outcome,
        ));
    }
    Ok((outcome, tasks))
}

/// Results change neither what waits nor the tickets.
proof fn lemma_settled_keeps<T, D, D2>(v: TaskView<T, D, D2>, results: Seq<TaskResult<D2>>)
    ensures
        v.settled_all(results).waiting == v.waiting,
        v.settled_all(results).next == v.next,
        v.settled_all(results).max == v.max,
        v.settled_all(results).exhausted == v.exhausted,
        v.settled_all(results).done == v.done,
    decreases results.len(),
{
    if results.len() > 0 {
        lemma_settled_keeps(v, results.drop_last());
    }
}

/// At no time are more batches processed than allowed, once no more than that are.
pub proof fn tasks_stay_within_limit<T, D, D2>(v: TaskView<T, D, D2>)
    requires
        v.running.len() <= v.max,
    ensures
        v.started(v.startable()).running.len() <= v.max,
{
}

impl<T: Timestamp, D, D2> TaskState<T, D, D2> {
    /// Whether the operator has finished.
    pub fn is_done(&self) -> (b: bool)
        ensures
            b == self@.done,
    {
        self.done
    }

    /// The times of the batches that wait, that are being processed, and that are to be sent.
    pub fn times(&self) -> (times: Vec<T>)
        ensures
            times@ == self@.waiting.map_values(|b: (T, Seq<D>)| b.0) + self@.running.map_values(
                |r: (u64, T)| r.1,
            ) + self@.outbox.map_values(|b: (T, Seq<D2>)| b.0),
    {
        let mut times: Vec<T> = Vec::new();
        let ghost a = self@.waiting.map_values(|b: (T, Seq<D>)| b.0);
        let ghost b = self@.running.map_values(|r: (u64, T)| r.1);
        let ghost c = self@.outbox.map_values(|b: (T, Seq<D2>)| b.0);
        let mut i: usize = 0;
        while i < self.waiting.len()
            invariant
                i <= self.waiting@.len(),
                a == self@.waiting.map_values(|b: (T, Seq<D>)| b.0),
                times@ == a.take(i as int),
            decreases self.waiting@.len() - i,
        {
            times.push(self.waiting[i].0.duplicate());
            i = i + 1;
            assert(times@ =~= a.take(i as int));
        }
        assert(times@ =~= a);
        let mut j: usize = 0;
        while j < self.running.len()
            invariant
                j <= self.running@.len(),
                b == self@.running.map_values(|r: (u64, T)| r.1),
                times@ == a + b.take(j as int),
            decreases self.running@.len() - j,
        {
            times.push(self.running[j].1.duplicate());
            j = j + 1;
            assert(times@ =~= a + b.take(j as int));
        }
        assert(times@ =~= a + b);
        let mut k: usize = 0;
        while k < self.outbox.len()
            invariant
                k <= self.outbox@.len(),
                c == self@.outbox.map_values(|b: (T, Seq<D2>)| b.0),
                times@ == a + b + c.take(k as int),
            decreases self.outbox@.len() - k,
        {
            times.push(self.outbox[k].0.duplicate());
            k = k + 1;
            assert(times@ =~= a + b + c.take(k as int));
        }
        assert(times@ =~= a + b + c);
        times
    }
}

} // verus!
