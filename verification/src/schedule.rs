//! Which operators are to be activated next.

use std::collections::VecDeque;
use vstd::prelude::*;
use crate::schedulable::ActivationOutcome;

verus! {

/// The operators of one stage, which are activated together.
#[derive(Debug)]
pub struct FusedStageTask {
    /// Positions of the operators, in topological order.
    pub operator_positions: Vec<usize>,
}

/// The state of the scheduling.
pub struct ScheduleView {
    /// The positions of operators, or the numbers of stage tasks, that wait for activation.
    pub ready: Seq<usize>,
    /// For each operator, whether it waits for activation.
    pub in_queue: Seq<bool>,
    /// For each operator, whether it has finished.
    pub done: Seq<bool>,
    /// For each operator, whether it awaits results of tasks in flight.
    pub waiting: Seq<bool>,
    /// For each operator, the operators that read from it.
    pub successors: Seq<Seq<usize>>,
    /// For each operator, the operators that it reads from.
    pub predecessors: Seq<Seq<usize>>,
    /// The operators of each stage task; empty if operators are scheduled one by one.
    pub tasks: Seq<Seq<usize>>,
    /// For each operator, its stage task, or the largest number if it has none.
    pub task_of: Seq<usize>,
    /// For each stage task, whether it waits for activation.
    pub task_in_queue: Seq<bool>,
}

/// A queue without repetition whose entries are exactly those that are flagged.
pub open spec fn mirrors(queue: Seq<usize>, flags: Seq<bool>) -> bool {
    &&& queue.no_duplicates()
    &&& forall|x: usize| #[trigger] queue.contains(x) <==> x < flags.len() && flags[x as int]
}

impl ScheduleView {
    /// The schedule fits `n` operators, and its queue and its flags agree.
    pub open spec fn fits(self, n: nat) -> bool {
        &&& self.in_queue.len() == n
        &&& self.done.len() == n
        &&& self.waiting.len() == n
        &&& self.tasks.len() == 0 ==> mirrors(self.ready, self.in_queue)
        &&& self.tasks.len() > 0 ==> mirrors(self.ready, self.task_in_queue)
            && self.task_in_queue.len() == self.tasks.len()
        &&& forall|t: int, i: int|
            0 <= t < self.tasks.len() && 0 <= i < self.tasks[t].len() ==> #[trigger] self.tasks[t][i]
                < n
    }

    /// All operators have finished.
    pub open spec fn all_done(self) -> bool {
        forall|p: int| 0 <= p < self.done.len() ==> #[trigger] self.done[p]
    }

    /// All operators that `p` reads from are known and have finished.
    pub open spec fn inputs_done(self, p: int) -> bool {
        p < self.predecessors.len() && forall|i: int|
            0 <= i < self.predecessors[p].len() ==> #[trigger] self.predecessors[p][i]
                < self.done.len() && self.done[self.predecessors[p][i] as int]
    }

    /// The operator at `p` is queued.
    pub open spec fn with_queued(self, p: usize) -> ScheduleView {
        ScheduleView {
            ready: self.ready.push(p),
            in_queue: self.in_queue.update(p as int, true),
            ..self
        }
    }

    /// The stage task `t` is queued.
    pub open spec fn with_task_queued(self, t: usize) -> ScheduleView {
        ScheduleView {
            ready: self.ready.push(t),
            task_in_queue: self.task_in_queue.update(t as int, true),
            ..self
        }
    }

    /// The operator at `p`, or the stage task that it belongs to, is queued unless it is already.
    pub open spec fn with_woken(self, p: usize) -> ScheduleView {
        if self.tasks.len() == 0 {
            if p < self.in_queue.len() && !self.in_queue[p as int] {
                self.with_queued(p)
            } else {
                self
            }
        } else if p < self.task_of.len() && self.task_of[p as int] < self.task_in_queue.len()
            && !self.task_in_queue[self.task_of[p as int] as int] {
            self.with_task_queued(self.task_of[p as int])
        } else {
            self
        }
    }

    /// Of the first `k` operators that read from `p`, those that have not finished although all
    /// their inputs have are queued.
    pub open spec fn with_successors_woken(self, p: int, k: nat) -> ScheduleView
        decreases k,
    {
        if k == 0 {
            self
        } else {
            let before = self.with_successors_woken(p, (k - 1) as nat);
            let s = self.successors[p][k - 1];
            if s < self.done.len() && !self.done[s as int] && self.inputs_done(s as int) {
                before.with_woken(s)
            } else {
                before
            }
        }
    }

    /// The schedule after the operator at `p` finished: the operators behind it whose inputs have
    /// all finished are queued.
    pub open spec fn with_completion(self, p: int) -> ScheduleView {
        if p < self.successors.len() {
            self.with_successors_woken(p, self.successors[p].len())
        } else {
            self
        }
    }

    /// The schedule after the operator at `p` was activated.
    pub open spec fn after(self, p: usize, outcome: ActivationOutcome) -> ScheduleView {
        match outcome {
            ActivationOutcome::MadeProgress => self.with_queued(p),
            ActivationOutcome::BlockedOnBackpressure => self.with_queued(p),
            ActivationOutcome::Idle => ScheduleView {
                waiting: self.waiting.update(p as int, false),
                ..self
            },
            ActivationOutcome::WaitingForAsync => ScheduleView {
                waiting: self.waiting.update(p as int, true),
                ..self
            },
            ActivationOutcome::Done => (ScheduleView {
                done: self.done.update(p as int, true),
                waiting: self.waiting.update(p as int, false),
                ..self
            }).with_completion(p as int),
        }
    }

    /// The schedule after the operator at `p` was activated in a fused sweep, which visits every
    /// operator anyway. Whether finishing wakes the operators behind is up to `wakes`.
    pub open spec fn after_fused(self, p: usize, outcome: ActivationOutcome, wakes: bool) -> ScheduleView {
        match outcome {
            ActivationOutcome::MadeProgress => self,
            ActivationOutcome::BlockedOnBackpressure => self,
            ActivationOutcome::Done => {
                let finished = ScheduleView {
                    done: self.done.update(p as int, true),
                    waiting: self.waiting.update(p as int, false),
                    ..self
                };
                if wakes {
                    finished.with_completion(p as int)
                } else {
                    finished
                }
            },
            _ => self.after(p, outcome),
        }
    }

    /// The first entry of the queue leaves it.
    pub open spec fn popped(self) -> ScheduleView {
        ScheduleView {
            ready: self.ready.drop_first(),
            in_queue: self.in_queue.update(self.ready[0] as int, false),
            ..self
        }
    }

    /// The operators that a sweep adds to the queue at its start: all that have not finished if
    /// the queue is empty, else those that await results and are not queued.
    pub open spec fn joins(self, p: int) -> bool {
        if self.ready.len() == 0 {
            !self.done[p]
        } else {
            self.waiting[p] && !self.in_queue[p] && !self.done[p]
        }
    }

    /// The queue with the operators below `n` that join it, in order.
    pub open spec fn with_joined(self, n: nat) -> Seq<usize>
        decreases n,
    {
        if n == 0 {
            self.ready
        } else {
            let before = self.with_joined((n - 1) as nat);
            if self.joins(n - 1) {
                before.push((n - 1) as usize)
            } else {
                before
            }
        }
    }

    /// The schedule at the start of a sweep.
    pub open spec fn refilled(self) -> ScheduleView {
        ScheduleView {
            ready: self.with_joined(self.done.len()),
            in_queue: Seq::new(self.in_queue.len(), |p: int| self.in_queue[p] || self.joins(p)),
            ..self
        }
    }

    /// The queue is empty and no operator is flagged.
    pub open spec fn emptied(self) -> ScheduleView {
        ScheduleView {
            ready: Seq::empty(),
            in_queue: Seq::new(self.in_queue.len(), |p: int| false),
            ..self
        }
    }

    /// All operators of a stage task have finished.
    pub open spec fn task_done(self, t: int) -> bool {
        forall|i: int|
            0 <= i < self.tasks[t].len() ==> self.done[(#[trigger] self.tasks[t][i]) as int]
    }

    /// A stage task has operators that have not finished.
    pub open spec fn task_pending(self, t: int) -> bool {
        self.tasks[t].len() > 0 && !self.task_done(t)
    }

    /// The numbers of the stage tasks below `n` that have operators that have not finished.
    pub open spec fn pending_tasks(self, n: nat) -> Seq<usize>
        decreases n,
    {
        if n == 0 {
            Seq::empty()
        } else {
            let before = self.pending_tasks((n - 1) as nat);
            if self.task_pending(n - 1) {
                before.push((n - 1) as usize)
            } else {
                before
            }
        }
    }

    /// The queue holds the stage tasks that have operators that have not finished.
    pub open spec fn refilled_tasks(self) -> ScheduleView {
        ScheduleView {
            ready: self.pending_tasks(self.tasks.len()),
            task_in_queue: Seq::new(self.tasks.len(), |t: int| self.task_pending(t)),
            ..self
        }
    }
}

/// The state of the scheduling: a queue, flags, and the neighbourhood of each operator.
#[derive(Debug)]
pub struct Schedule {
    pub ready_queue: VecDeque<usize>,
    pub in_queue: Vec<bool>,
    pub done: Vec<bool>,
    pub async_waiting: Vec<bool>,
    pub successors_by_pos: Vec<Vec<usize>>,
    pub predecessors_by_pos: Vec<Vec<usize>>,
    pub stage_tasks: Vec<FusedStageTask>,
    pub op_pos_to_task: Vec<usize>,
    pub task_in_queue: Vec<bool>,
}

/// Lists of numbers as sequences.
pub open spec fn lists(v: Seq<Vec<usize>>) -> Seq<Seq<usize>> {
    v.map_values(|l: Vec<usize>| l@)
}

/// The operators of stage tasks.
pub open spec fn task_lists(v: Seq<FusedStageTask>) -> Seq<Seq<usize>> {
    v.map_values(|t: FusedStageTask| t.operator_positions@)
}

impl View for Schedule {
    type V = ScheduleView;

    open spec fn view(&self) -> ScheduleView {
        ScheduleView {
            ready: self.ready_queue@,
            in_queue: self.in_queue@,
            done: self.done@,
            waiting: self.async_waiting@,
            successors: lists(self.successors_by_pos@),
            predecessors: lists(self.predecessors_by_pos@),
            tasks: task_lists(self.stage_tasks@),
            task_of: self.op_pos_to_task@,
            task_in_queue: self.task_in_queue@,
        }
    }
}

/// A queue with a new entry mirrors the flags with the new flag.
proof fn lemma_mirror_push(queue: Seq<usize>, flags: Seq<bool>, x: usize)
    requires
        mirrors(queue, flags),
        x < flags.len(),
        !flags[x as int],
    ensures
        mirrors(queue.push(x), flags.update(x as int, true)),
{
    let q = queue.push(x);
    let f = flags.update(x as int, true);
    assert(!queue.contains(x));
    assert forall|y: usize| #[trigger] q.contains(y) <==> y < f.len() && f[y as int] by {
        if queue.contains(y) {
            let i = choose|i: int| 0 <= i < queue.len() && queue[i] == y;
            assert(q[i] == y);
        }
        if y == x {
            assert(q[queue.len() as int] == y);
        }
        if q.contains(y) {
            let i = choose|i: int| 0 <= i < q.len() && q[i] == y;
            if i < queue.len() {
                assert(queue[i] == y);
                assert(queue.contains(y));
            }
        }
    }
    assert forall|i: int, j: int| 0 <= i < q.len() && 0 <= j < q.len() && i != j implies q[i]
        != q[j] by {
        if i < queue.len() && j == queue.len() {
            assert(queue.contains(queue[i]));
        }
        if j < queue.len() && i == queue.len() {
            assert(queue.contains(queue[j]));
        }
    }
}

/// A queue without its first entry mirrors the flags without that flag.
proof fn lemma_mirror_pop(queue: Seq<usize>, flags: Seq<bool>)
    requires
        mirrors(queue, flags),
        queue.len() > 0,
    ensures
        queue[0] < flags.len(),
        mirrors(queue.drop_first(), flags.update(queue[0] as int, false)),
{
    let x = queue[0];
    assert(queue.contains(x));
    let q = queue.drop_first();
    let f = flags.update(x as int, false);
    assert forall|y: usize| #[trigger] q.contains(y) <==> y < f.len() && f[y as int] by {
        if q.contains(y) {
            let i = choose|i: int| 0 <= i < q.len() && q[i] == y;
            assert(queue[i + 1] == y);
            assert(queue.contains(y));
        }
        if y < f.len() && f[y as int] {
            assert(queue.contains(y));
            let i = choose|i: int| 0 <= i < queue.len() && queue[i] == y;
            assert(q[i - 1] == y);
        }
    }
}

/// An empty queue mirrors flags that are all unset.
proof fn lemma_mirror_empty(flags: Seq<bool>)
    requires
        forall|i: int| 0 <= i < flags.len() ==> !#[trigger] flags[i],
    ensures
        mirrors(Seq::<usize>::empty(), flags),
{
}

/// Waking an operator keeps queue and flags in agreement, and touches nothing else.
pub proof fn waking_keeps_agreement(s: ScheduleView, p: usize, n: nat)
    requires
        s.fits(n),
    ensures
        s.with_woken(p).fits(n),
        s.with_woken(p).done == s.done,
        s.with_woken(p).waiting == s.waiting,
        s.with_woken(p).successors == s.successors,
        s.with_woken(p).predecessors == s.predecessors,
        s.with_woken(p).tasks == s.tasks,
        s.with_woken(p).task_of == s.task_of,
{
    if s.tasks.len() == 0 {
        if p < s.in_queue.len() && !s.in_queue[p as int] {
            lemma_mirror_push(s.ready, s.in_queue, p);
        }
    } else if p < s.task_of.len() && s.task_of[p as int] < s.task_in_queue.len()
        && !s.task_in_queue[s.task_of[p as int] as int] {
        lemma_mirror_push(s.ready, s.task_in_queue, s.task_of[p as int]);
    }
}

proof fn lemma_successors_woken(s: ScheduleView, p: int, k: nat, n: nat)
    requires
        s.fits(n),
    ensures
        s.with_successors_woken(p, k).fits(n),
        s.with_successors_woken(p, k).done == s.done,
        s.with_successors_woken(p, k).waiting == s.waiting,
        s.with_successors_woken(p, k).successors == s.successors,
        s.with_successors_woken(p, k).predecessors == s.predecessors,
        s.with_successors_woken(p, k).tasks == s.tasks,
        s.with_successors_woken(p, k).task_of == s.task_of,
    decreases k,
{
    if k > 0 {
        lemma_successors_woken(s, p, (k - 1) as nat, n);
        let before = s.with_successors_woken(p, (k - 1) as nat);
        waking_keeps_agreement(before, s.successors[p][k - 1], n);
    }
}

/// Whatever an activation achieves, queue and flags stay in agreement, and an operator that has
/// finished stays finished.
pub proof fn activation_keeps_agreement(
    s: ScheduleView,
    p: usize,
    outcome: ActivationOutcome,
    n: nat,
)
    requires
        s.fits(n),
        s.tasks.len() == 0,
        p < n,
        !s.in_queue[p as int],
    ensures
        s.after(p, outcome).fits(n),
        s.after(p, outcome).tasks == s.tasks,
        forall|q: int| 0 <= q < n && s.done[q] ==> s.after(p, outcome).done[q],
        s.after(p, outcome).done[p as int] == (s.done[p as int] || outcome is Done),
{
    match outcome {
        ActivationOutcome::MadeProgress => {
            lemma_mirror_push(s.ready, s.in_queue, p);
        },
        ActivationOutcome::BlockedOnBackpressure => {
            lemma_mirror_push(s.ready, s.in_queue, p);
        },
        ActivationOutcome::Done => {
            let finished = ScheduleView {
                done: s.done.update(p as int, true),
                waiting: s.waiting.update(p as int, false),
                ..s
            };
            if p < finished.successors.len() {
                lemma_successors_woken(finished, p as int, finished.successors[p as int].len(), n);
            }
        },
        _ => {},
    }
}

/// In a fused sweep, too, queue and flags stay in agreement, and an operator that has finished
/// stays finished.
pub proof fn fused_activation_keeps_agreement(
    s: ScheduleView,
    p: usize,
    outcome: ActivationOutcome,
    wakes: bool,
    n: nat,
)
    requires
        s.fits(n),
        p < n,
    ensures
        s.after_fused(p, outcome, wakes).fits(n),
        s.after_fused(p, outcome, wakes).tasks == s.tasks,
        forall|q: int| 0 <= q < n && s.done[q] ==> s.after_fused(p, outcome, wakes).done[q],
        s.after_fused(p, outcome, wakes).done[p as int] == (s.done[p as int] || outcome is Done),
{
    if outcome is Done {
        let finished = ScheduleView {
            done: s.done.update(p as int, true),
            waiting: s.waiting.update(p as int, false),
            ..s
        };
        if p < finished.successors.len() {
            lemma_successors_woken(finished, p as int, finished.successors[p as int].len(), n);
        }
    }
}

proof fn lemma_pending_tasks_same(a: ScheduleView, b: ScheduleView, n: nat)
    requires
        a.tasks == b.tasks,
        a.done == b.done,
    ensures
        a.pending_tasks(n) == b.pending_tasks(n),
        forall|t: int| a.task_pending(t) == b.task_pending(t),
    decreases n,
{
    assert forall|t: int| a.task_pending(t) == b.task_pending(t) by {
        assert(a.task_done(t) == b.task_done(t));
    }
    if n > 0 {
        lemma_pending_tasks_same(a, b, (n - 1) as nat);
    }
}

impl Schedule {
    /// A schedule in which all of `n` operators are queued.
    pub fn new(n: usize) -> (s: Self)
        ensures
            s@.fits(n as nat),
            s@.ready == Seq::new(n as nat, |i: int| i as usize),
            s@.in_queue == Seq::new(n as nat, |i: int| true),
            s@.done == Seq::new(n as nat, |i: int| false),
            s@.waiting == Seq::new(n as nat, |i: int| false),
            s@.successors == Seq::<Seq<usize>>::empty(),
            s@.predecessors == Seq::<Seq<usize>>::empty(),
            s@.tasks == Seq::<Seq<usize>>::empty(),
            s@.task_of == Seq::<usize>::empty(),
            s@.task_in_queue == Seq::<bool>::empty(),
    {
        let mut ready_queue: VecDeque<usize> = VecDeque::new();
        let mut in_queue: Vec<bool> = Vec::new();
        let mut done: Vec<bool> = Vec::new();
        let mut async_waiting: Vec<bool> = Vec::new();
        let mut i: usize = 0;
        while i < n
            invariant
                i <= n,
                ready_queue@ == Seq::new(i as nat, |k: int| k as usize),
                in_queue@ == Seq::new(i as nat, |k: int| true),
                done@ == Seq::new(i as nat, |k: int| false),
                async_waiting@ == Seq::new(i as nat, |k: int| false),
            decreases n - i,
        {
            ready_queue.push_back(i);
            in_queue.push(true);
            done.push(false);
            async_waiting.push(false);
            i = i + 1;
            assert(ready_queue@ =~= Seq::new(i as nat, |k: int| k as usize));
            assert(in_queue@ =~= Seq::new(i as nat, |k: int| true));
            assert(done@ =~= Seq::new(i as nat, |k: int| false));
            assert(async_waiting@ =~= Seq::new(i as nat, |k: int| false));
        }
        let s = Schedule {
            ready_queue,
            in_queue,
            done,
            async_waiting,
            successors_by_pos: Vec::new(),
            predecessors_by_pos: Vec::new(),
            stage_tasks: Vec::new(),
            op_pos_to_task: Vec::new(),
            task_in_queue: Vec::new(),
        };
        proof {
            assert(s@.successors =~= Seq::<Seq<usize>>::empty());
            assert(s@.predecessors =~= Seq::<Seq<usize>>::empty());
            assert(s@.tasks =~= Seq::<Seq<usize>>::empty());
            assert forall|x: usize| #[trigger]
                s@.ready.contains(x) <==> x < s@.in_queue.len() && s@.in_queue[x as int] by {
                if x < n {
                    assert(s@.ready[x as int] == x);
                }
            }
        }
        s
    }

    /// Whether all operators have finished.
    pub fn is_complete(&self) -> (b: bool)
        ensures
            b == self@.all_done(),
    {
        let mut i: usize = 0;
        while i < self.done.len()
            invariant
                i <= self.done@.len(),
                forall|k: int| 0 <= k < i ==> #[trigger] self.done@[k],
            decreases self.done@.len() - i,
        {
            if !self.done[i] {
                assert(!self@.done[i as int]);
                return false;
            }
            i = i + 1;
        }
        true
    }

    /// How many operators have finished.
    pub fn completed_count(&self) -> (n: usize)
        ensures
            n == count_true(self@.done),
    {
        let mut n: usize = 0;
        let mut i: usize = 0;
        assert(self.done@.take(0) =~= Seq::<bool>::empty());
        while i < self.done.len()
            invariant
                n <= i <= self.done@.len(),
                n == count_true(self.done@.take(i as int)),
            decreases self.done@.len() - i,
        {
            assert(self.done@.take(i + 1).drop_last() =~= self.done@.take(i as int));
            if self.done[i] {
                n = n + 1;
            }
            i = i + 1;
        }
        assert(self.done@.take(i as int) =~= self.done@);
        n
    }

    /// Whether some operator awaits results of tasks in flight.
    pub fn any_waiting(&self) -> (b: bool)
        ensures
            b == (exists|p: int| 0 <= p < self@.waiting.len() && #[trigger] self@.waiting[p]),
    {
        let mut i: usize = 0;
        while i < self.async_waiting.len()
            invariant
                i <= self.async_waiting@.len(),
                forall|k: int| 0 <= k < i ==> !#[trigger] self.async_waiting@[k],
            decreases self.async_waiting@.len() - i,
        {
            if self.async_waiting[i] {
                assert(self@.waiting[i as int]);
                return true;
            }
            i = i + 1;
        }
        false
    }

    /// Queues the operator at `p`, or the stage task that it belongs to, unless it is queued
    /// already. Returns whether it was queued now.
    pub fn wake(&mut self, p: usize) -> (queued: bool)
        ensures
            final(self)@ == old(self)@.with_woken(p),
            queued == (final(self)@.ready.len() > old(self)@.ready.len()),
    {
        if self.stage_tasks.len() == 0 {
            if p < self.in_queue.len() && !self.in_queue[p] {
                self.ready_queue.push_back(p);
                self.in_queue.set(p, true);
                return true;
            }
            false
        } else {
            if p < self.op_pos_to_task.len() {
                let t: usize = self.op_pos_to_task[p];
                if t < self.task_in_queue.len() && !self.task_in_queue[t] {
                    self.ready_queue.push_back(t);
                    self.task_in_queue.set(t, true);
                    return true;
                }
            }
            false
        }
    }

    /// Whether all operators that `p` reads from are known and have finished.
    fn inputs_done(&self, p: usize) -> (b: bool)
        ensures
            b == self@.inputs_done(p as int),
    {
        if p >= self.predecessors_by_pos.len() {
            return false;
        }
        let preds = &self.predecessors_by_pos[p];
        assert(self@.predecessors[p as int] == preds@);
        let mut i: usize = 0;
        while i < preds.len()
            invariant
                i <= preds@.len(),
                p < self@.predecessors.len(),
                self@.predecessors[p as int] == preds@,
                forall|k: int|
                    0 <= k < i ==> #[trigger] preds@[k] < self.done@.len()
                        && self.done@[preds@[k] as int],
            decreases preds@.len() - i,
        {
            let q: usize = preds[i];
            if q >= self.done.len() || !self.done[q] {
                assert(self@.predecessors[p as int][i as int] == q);
                return false;
            }
            i = i + 1;
        }
        true
    }

    /// Queues the operators behind a finished one that have not finished although all their
    /// inputs have.
    pub fn propagate_completion(&mut self, completed_pos: usize)
        ensures
            final(self)@ == old(self)@.with_completion(completed_pos as int),
    {
        if completed_pos >= self.successors_by_pos.len() {
            return;
        }
        let ghost start = self@;
        let count: usize = self.successors_by_pos[completed_pos].len();
        let mut k: usize = 0;
        while k < count
            invariant
                k <= count,
                completed_pos < start.successors.len(),
                count == start.successors[completed_pos as int].len(),
                self@ == start.with_successors_woken(completed_pos as int, k as nat),
                self@.done == start.done,
                self@.successors == start.successors,
                self@.predecessors == start.predecessors,
                self.successors_by_pos@.len() == start.successors.len(),
            decreases count - k,
        {
            assert(lists(self.successors_by_pos@)[completed_pos as int]
                == self.successors_by_pos@[completed_pos as int]@);
            let s: usize = self.successors_by_pos[completed_pos][k];
            assert(s == start.successors[completed_pos as int][k as int]);
            assert(self@.inputs_done(s as int) == start.inputs_done(s as int));
            if s < self.done.len() && !self.done[s] && self.inputs_done(s) {
                let _ = self.wake(s);
            }
            k = k + 1;
        }
    }

    /// Fills the queue at the start of a sweep.
    pub fn refill(&mut self)
        requires
            old(self)@.fits(old(self)@.done.len()),
            old(self)@.tasks.len() == 0,
        ensures
            final(self)@ == old(self)@.refilled(),
            final(self)@.fits(old(self)@.done.len()),
    {
        let ghost start = self@;
        let was_empty = self.ready_queue.len() == 0;
        let n: usize = self.done.len();
        let mut p: usize = 0;
        proof {
            if was_empty {
                assert forall|x: int| 0 <= x < n implies !#[trigger] start.in_queue[x] by {
                    if start.in_queue[x] {
                        assert(start.ready.contains(x as usize));
                    }
                }
            }
        }
        while p < n
            invariant
                p <= n,
                n == start.done.len(),
                start.fits(n as nat),
                start.tasks.len() == 0,
                was_empty == (start.ready.len() == 0),
                was_empty ==> forall|x: int| 0 <= x < n ==> !#[trigger] start.in_queue[x],
                self@.done == start.done,
                self@.waiting == start.waiting,
                self@.successors == start.successors,
                self@.predecessors == start.predecessors,
                self@.tasks == start.tasks,
                self@.task_of == start.task_of,
                self@.task_in_queue == start.task_in_queue,
                self@.fits(n as nat),
                self@.ready == start.with_joined(p as nat),
                forall|x: int|
                    0 <= x < p ==> #[trigger] self@.in_queue[x] == (start.in_queue[x]
                        || start.joins(x)),
                forall|x: int|
                    p <= x < n ==> #[trigger] self@.in_queue[x] == start.in_queue[x],
            decreases n - p,
        {
            let joins = if was_empty {
                !self.done[p]
            } else {
                self.async_waiting[p] && !self.in_queue[p] && !self.done[p]
            };
            assert(joins == start.joins(p as int));
            if joins {
                proof {
                    lemma_mirror_push(self@.ready, self@.in_queue, p);
                }
                self.ready_queue.push_back(p);
                self.in_queue.set(p, true);
            }
            p = p + 1;
        }
        assert(self@.in_queue =~= start.refilled().in_queue);
        assert(self@ == start.refilled());
    }

    /// Takes the first operator out of the queue.
    pub fn pop(&mut self) -> (p: usize)
        requires
            old(self)@.fits(old(self)@.done.len()),
            old(self)@.tasks.len() == 0,
            old(self)@.ready.len() > 0,
        ensures
            p == old(self)@.ready[0],
            p < old(self)@.done.len(),
            final(self)@ == old(self)@.popped(),
            final(self)@.fits(old(self)@.done.len()),
            !final(self)@.in_queue[p as int],
    {
        proof {
            lemma_mirror_pop(self@.ready, self@.in_queue);
        }
        match self.ready_queue.pop_front() {
            Some(p) => {
                self.in_queue.set(p, false);
                assert(self@.ready =~= old(self)@.ready.drop_first());
                p
            },
            None => 0,
        }
    }

    /// Takes note of what an activation achieved.
    pub fn record(&mut self, p: usize, outcome: ActivationOutcome)
        requires
            old(self)@.fits(old(self)@.done.len()),
            old(self)@.tasks.len() == 0,
            p < old(self)@.done.len(),
            !old(self)@.in_queue[p as int],
        ensures
            final(self)@ == old(self)@.after(p, outcome),
            final(self)@.fits(old(self)@.done.len()),
            final(self)@.tasks.len() == 0,
            final(self)@.done.len() == old(self)@.done.len(),
    {
        proof {
            activation_keeps_agreement(self@, p, outcome, self@.done.len());
        }
        match outcome {
            ActivationOutcome::MadeProgress | ActivationOutcome::BlockedOnBackpressure => {
                self.ready_queue.push_back(p);
                self.in_queue.set(p, true);
            },
            ActivationOutcome::Idle => {
                self.async_waiting.set(p, false);
            },
            ActivationOutcome::WaitingForAsync => {
                self.async_waiting.set(p, true);
            },
            ActivationOutcome::Done => {
                self.done.set(p, true);
                self.async_waiting.set(p, false);
                self.propagate_completion(p);
            },
        }
    }

    /// Takes note of what an activation in a fused sweep achieved.
    pub fn record_fused(&mut self, p: usize, outcome: ActivationOutcome, wakes: bool)
        requires
            old(self)@.fits(old(self)@.done.len()),
            p < old(self)@.done.len(),
        ensures
            final(self)@ == old(self)@.after_fused(p, outcome, wakes),
            final(self)@.fits(old(self)@.done.len()),
            final(self)@.tasks == old(self)@.tasks,
            final(self)@.done.len() == old(self)@.done.len(),
    {
        proof {
            fused_activation_keeps_agreement(self@, p, outcome, wakes, self@.done.len());
        }
        match outcome {
            ActivationOutcome::MadeProgress | ActivationOutcome::BlockedOnBackpressure => {},
            ActivationOutcome::Idle => {
                self.async_waiting.set(p, false);
            },
            ActivationOutcome::WaitingForAsync => {
                self.async_waiting.set(p, true);
            },
            ActivationOutcome::Done => {
                self.done.set(p, true);
                self.async_waiting.set(p, false);
                if wakes {
                    self.propagate_completion(p);
                }
            },
        }
    }

    /// Empties the queue.
    pub fn clear(&mut self)
        requires
            old(self)@.fits(old(self)@.done.len()),
            old(self)@.tasks.len() == 0,
        ensures
            final(self)@ == old(self)@.emptied(),
            final(self)@.fits(old(self)@.done.len()),
    {
        self.clear_operators();
        proof {
            lemma_mirror_empty(self@.in_queue);
        }
    }

    fn clear_operators(&mut self)
        ensures
            final(self)@ == old(self)@.emptied(),
    {
        let n: usize = self.in_queue.len();
        self.ready_queue.clear();
        let mut i: usize = 0;
        while i < n
            invariant
                i <= n,
                n == self.in_queue@.len(),
                n == old(self)@.in_queue.len(),
                self@.ready == Seq::<usize>::empty(),
                self@ == (ScheduleView {
                    ready: self@.ready,
                    in_queue: self@.in_queue,
                    ..old(self)@
                }),
                forall|k: int| 0 <= k < i ==> !#[trigger] self.in_queue@[k],
            decreases n - i,
        {
            self.in_queue.set(i, false);
            i = i + 1;
        }
        assert(self@.in_queue =~= old(self)@.emptied().in_queue);
    }

    /// Whether all operators of a stage task have finished.
    pub fn task_done(&self, t: usize) -> (b: bool)
        requires
            self@.fits(self@.done.len()),
            t < self@.tasks.len(),
        ensures
            b == self@.task_done(t as int),
    {
        let positions = &self.stage_tasks[t].operator_positions;
        assert(self@.tasks[t as int] == positions@);
        let mut i: usize = 0;
        while i < positions.len()
            invariant
                i <= positions@.len(),
                t < self@.tasks.len(),
                self@.fits(self@.done.len()),
                self@.tasks[t as int] == positions@,
                forall|k: int| 0 <= k < i ==> self.done@[(#[trigger] positions@[k]) as int],
            decreases positions@.len() - i,
        {
            assert(self@.tasks[t as int][i as int] < self@.done.len());
            if !self.done[positions[i]] {
                assert(!self@.done[self@.tasks[t as int][i as int] as int]);
                return false;
            }
            i = i + 1;
        }
        true
    }

    /// Fills the queue with the stage tasks that have operators that have not finished.
    pub fn refill_tasks(&mut self)
        requires
            old(self)@.fits(old(self)@.done.len()),
            old(self)@.tasks.len() > 0,
        ensures
            final(self)@ == old(self)@.refilled_tasks(),
            final(self)@.fits(old(self)@.done.len()),
    {
        let ghost start = self@;
        let n: usize = self.stage_tasks.len();
        self.ready_queue.clear();
        let mut i: usize = 0;
        while i < n
            invariant
                i <= n,
                n == start.tasks.len(),
                n == self.task_in_queue@.len(),
                self@ == (ScheduleView {
                    ready: Seq::<usize>::empty(),
                    task_in_queue: self@.task_in_queue,
                    ..start
                }),
                forall|k: int| 0 <= k < i ==> !#[trigger] self.task_in_queue@[k],
            decreases n - i,
        {
            self.task_in_queue.set(i, false);
            i = i + 1;
        }
        proof {
            lemma_mirror_empty(self@.task_in_queue);
        }
        let mut t: usize = 0;
        while t < n
            invariant
                t <= n,
                n == start.tasks.len(),
                n > 0,
                start.fits(start.done.len()),
                self@ == (ScheduleView {
                    ready: self@.ready,
                    task_in_queue: self@.task_in_queue,
                    ..start
                }),
                self@.fits(start.done.len()),
                self@.ready == start.pending_tasks(t as nat),
                forall|k: int|
                    0 <= k < t ==> #[trigger] self@.task_in_queue[k] == start.task_pending(k),
                forall|k: int| t <= k < n ==> !#[trigger] self@.task_in_queue[k],
            decreases n - t,
        {
            assert(self.stage_tasks@[t as int].operator_positions@ == self@.tasks[t as int]);
            assert(self@.task_done(t as int) == start.task_done(t as int));
            if self.stage_tasks[t].operator_positions.len() > 0 && !self.task_done(t) {
                proof {
                    lemma_mirror_push(self@.ready, self@.task_in_queue, t);
                }
                self.ready_queue.push_back(t);
                self.task_in_queue.set(t, true);
            }
            t = t + 1;
        }
        assert(self@.task_in_queue =~= start.refilled_tasks().task_in_queue);
    }

    /// Takes the first stage task out of the queue.
    pub fn pop_task(&mut self) -> (t: usize)
        requires
            old(self)@.fits(old(self)@.done.len()),
            old(self)@.tasks.len() > 0,
            old(self)@.ready.len() > 0,
        ensures
            t == old(self)@.ready[0],
            t < old(self)@.tasks.len(),
            final(self)@ == (ScheduleView {
                ready: old(self)@.ready.drop_first(),
                task_in_queue: old(self)@.task_in_queue.update(t as int, false),
                ..old(self)@
            }),
            final(self)@.fits(old(self)@.done.len()),
    {
        proof {
            lemma_mirror_pop(self@.ready, self@.task_in_queue);
        }
        match self.ready_queue.pop_front() {
            Some(t) => {
                self.task_in_queue.set(t, false);
                assert(self@.ready =~= old(self)@.ready.drop_first());
                t
            },
            None => 0,
        }
    }

    /// Schedules stage tasks in place of operators. `task_of` tells the task of each operator.
    pub fn set_tasks(&mut self, tasks: Vec<FusedStageTask>, task_of: Vec<usize>)
        requires
            old(self)@.fits(old(self)@.done.len()),
            forall|t: int, i: int|
                0 <= t < tasks@.len() && 0 <= i < tasks@[t].operator_positions@.len()
                    ==> #[trigger] tasks@[t].operator_positions@[i] < old(self)@.done.len(),
        ensures
            final(self)@ == (ScheduleView {
                tasks: task_lists(tasks@),
                task_of: task_of@,
                ..old(self)@
            }).emptied().refilled_tasks(),
            final(self)@.done == old(self)@.done,
            final(self)@.fits(old(self)@.done.len()),
    {
        let n: usize = tasks.len();
        let mut flags: Vec<bool> = Vec::new();
        let mut i: usize = 0;
        while i < n
            invariant
                i <= n,
                flags@.len() == i,
                forall|k: int| 0 <= k < i ==> !#[trigger] flags@[k],
            decreases n - i,
        {
            flags.push(false);
            i = i + 1;
        }
        self.stage_tasks = tasks;
        self.op_pos_to_task = task_of;
        self.task_in_queue = flags;
        self.clear_operators();
        proof {
            lemma_mirror_empty(self@.in_queue);
            lemma_mirror_empty(self@.task_in_queue);
            assert forall|t: int, i: int|
                0 <= t < self@.tasks.len() && 0 <= i
                    < self@.tasks[t].len() implies #[trigger] self@.tasks[t][i]
                < self@.done.len() by {
                assert(self@.tasks[t][i] == tasks@[t].operator_positions@[i]);
            }
        }
        let ghost base = (ScheduleView {
            tasks: task_lists(tasks@),
            task_of: task_of@,
            ..old(self)@
        }).emptied();
        if n > 0 {
            self.refill_tasks();
            assert(self@.ready =~= base.refilled_tasks().ready) by {
                lemma_pending_tasks_same(
                    ScheduleView { task_in_queue: flags@, ..base },
                    base,
                    base.tasks.len(),
                );
            }
            assert(self@.task_in_queue =~= base.refilled_tasks().task_in_queue);
        } else {
            assert(self@.task_in_queue =~= base.refilled_tasks().task_in_queue);
            assert(self@.ready =~= base.refilled_tasks().ready);
        }
        assert(self@ == base.refilled_tasks());
    }
}

/// How many entries are set.
pub open spec fn count_true(s: Seq<bool>) -> nat
    decreases s.len(),
{
    if s.len() == 0 {
        0
    } else {
        count_true(s.drop_last()) + if s.last() {
            1nat
        } else {
            0
        }
    }
}

} // verus!
