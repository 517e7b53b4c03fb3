//! Operators that hold records back until their time is complete.

use vstd::prelude::*;
use crate::error::{Error, Result};
use crate::frontier::{covers, drain_step, drains_by, Antichain, NotificatorView};
use crate::handles::{batches, with_batch, InputHandle, InputView, NotifyContext, OutputHandle};
use crate::order::Timestamp;
use crate::role::{Ending, Keeping, Role};
use crate::wired::logic::flattened;
use crate::wired::relay::RelayLogic;
use crate::wired::stash::{held_at, Stash};

verus! {

/// What is said when records are to be moved to an earlier time.
pub open spec fn early_text() -> Seq<char> {
    "delay_fn must not return a timestamp earlier than the input"@
}

/// Decides at which times the records of a batch are held.
pub trait Assign<T, D>: Sized {
    /// Under which times records are kept.
    spec fn role(&self) -> Keeping;

    /// Batches can be taken.
    spec fn ready(&self) -> bool;

    /// The records fall into these parts, each with its time.
    spec fn assigns(&self, time: T, data: Seq<D>, parts: Seq<(T, Seq<D>)>) -> bool;

    /// Some record would be moved to an earlier time.
    spec fn refuses(&self, time: T, data: Seq<D>) -> bool;

    /// Decides about a batch.
    fn assign(&mut self, time: T, data: Vec<D>) -> (r: Result<Vec<(T, Vec<D>)>>)
        requires
            old(self).ready(),
        ensures
            *final(self) == *old(self),
            r matches Ok(parts) ==> old(self).assigns(time, data@, batches(parts@)),
            r matches Err(e) ==> old(self).refuses(time, data@) && (e matches Error::InvalidConfig(
                text,
            ) && text@ == early_text()),
    ;
}

/// Holds records at their own time.
pub struct KeepTime;

impl<T, D> Assign<T, D> for KeepTime {
    open spec fn role(&self) -> Keeping {
        Keeping::Same
    }

    open spec fn ready(&self) -> bool {
        true
    }

    open spec fn assigns(&self, time: T, data: Seq<D>, parts: Seq<(T, Seq<D>)>) -> bool {
        parts == seq![(time, data)]
    }

    open spec fn refuses(&self, time: T, data: Seq<D>) -> bool {
        false
    }

    fn assign(&mut self, time: T, data: Vec<D>) -> (r: Result<Vec<(T, Vec<D>)>>) {
        let mut parts: Vec<(T, Vec<D>)> = Vec::new();
        let ghost given = data@;
        parts.push((time, data));
        assert(batches(parts@) =~= seq![(time, given)]);
        Ok(parts)
    }
}

/// Moves batches to later times.
pub struct DelayBatch<F> {
    pub delay: F,
}

impl<T: Timestamp, D, F: Fn(&T) -> T> Assign<T, D> for DelayBatch<F> {
    open spec fn role(&self) -> Keeping {
        Keeping::DelayedBatch
    }

    open spec fn ready(&self) -> bool {
        forall|t: &T| #[trigger] call_requires(self.delay, (t,))
    }

    open spec fn assigns(&self, time: T, data: Seq<D>, parts: Seq<(T, Seq<D>)>) -> bool {
        exists|later: T| #[trigger]
            call_ensures(self.delay, (&time,), later) && !later.earlier(&time) && parts == seq![
                (later, data),
            ]
    }

    open spec fn refuses(&self, time: T, data: Seq<D>) -> bool {
        exists|later: T| #[trigger]
            call_ensures(self.delay, (&time,), later) && later.earlier(&time)
    }

    fn assign(&mut self, time: T, data: Vec<D>) -> (r: Result<Vec<(T, Vec<D>)>>) {
        let later = (self.delay)(&time);
        if later.is_earlier(&time) {
            return Err(
                Error::InvalidConfig(
                    "delay_fn must not return a timestamp earlier than the input".to_owned(),
                ),
            );
        }
        let mut parts: Vec<(T, Vec<D>)> = Vec::new();
        let ghost given = data@;
        let ghost at = later;
        parts.push((later, data));
        assert(batches(parts@) =~= seq![(at, given)]);
        Ok(parts)
    }
}

/// Moves each record to a later time.
pub struct Delay<F> {
    pub delay: F,
}

/// Record `i` is moved to its time.
pub open spec fn moves<T: Timestamp, D, F: Fn(&T, &D) -> T>(
    delay: F,
    time: T,
    data: Seq<D>,
    parts: Seq<(T, Seq<D>)>,
    i: int,
) -> bool {
    &&& call_ensures(delay, (&time, &data[i]), parts[i].0)
    &&& !parts[i].0.earlier(&time)
    &&& parts[i].1 == seq![data[i]]
}

impl<T: Timestamp, D, F: Fn(&T, &D) -> T> Assign<T, D> for Delay<F> {
    open spec fn role(&self) -> Keeping {
        Keeping::Delayed
    }

    open spec fn ready(&self) -> bool {
        forall|t: &T, x: &D| #[trigger] call_requires(self.delay, (t, x))
    }

    open spec fn assigns(&self, time: T, data: Seq<D>, parts: Seq<(T, Seq<D>)>) -> bool {
        &&& parts.len() == data.len()
        &&& forall|i: int|
            0 <= i < data.len() ==> #[trigger] moves(self.delay, time, data, parts, i)
    }

    open spec fn refuses(&self, time: T, data: Seq<D>) -> bool {
        exists|i: int, later: T|
            0 <= i < data.len() && #[trigger] call_ensures(self.delay, (&time, &data[i]), later)
                && later.earlier(&time)
    }

    fn assign(&mut self, time: T, data: Vec<D>) -> (r: Result<Vec<(T, Vec<D>)>>) {
        let ghost given = data@;
        let mut parts: Vec<(T, Vec<D>)> = Vec::new();
        for x in it: data
            invariant
                it.seq() == given,
                *self == *old(self),
                forall|t: &T, x: &D| #[trigger] call_requires(old(self).delay, (t, x)),
                parts@.len() == it.index(),
                forall|i: int|
                    0 <= i < it.index() ==> #[trigger] moves(
                        self.delay,
                        time,
                        given,
                        batches(parts@),
                        i,
                    ),
        {
            let later = (self.delay)(&time, &x);
            let ghost k = it.index() as int;
            assert(x == given[k]);
            if later.is_earlier(&time) {
                assert(call_ensures(self.delay, (&time, &given[k]), later));
                return Err(
                    Error::InvalidConfig(
                        "delay_fn must not return a timestamp earlier than the input".to_owned(),
                    ),
                );
            }
            let ghost before = batches(parts@);
            let ghost at = later;
            let mut one: Vec<D> = Vec::new();
            one.push(x);
            parts.push((later, one));
            proof {
                let after = batches(parts@);
                assert(after =~= before.push((at, seq![given[k]])));
                assert forall|i: int| 0 <= i < k + 1 implies #[trigger] moves(
                    self.delay,
                    time,
                    given,
                    after,
                    i,
                ) by {
                    if i < k {
                        assert(moves(self.delay, time, given, before, i));
                    }
                }
            }
        }
        Ok(parts)
    }
}

/// Decides what becomes of the records of a complete time.
pub trait Finish<D, D2>: Sized {
    /// What is sent for a complete time.
    spec fn role(&self) -> Ending;

    /// Records can be processed.
    spec fn ready(&self) -> bool;

    /// The records of a complete time turn into `out`.
    spec fn finishes(&self, data: Seq<D>, out: Seq<D2>) -> bool;

    /// Processes the records of a complete time.
    fn finish(&mut self, data: Vec<D>) -> (out: Vec<D2>)
        requires
            old(self).ready(),
        ensures
            *final(self) == *old(self),
            old(self).finishes(data@, out@),
    ;
}

/// Passes the records on.
pub struct KeepFinish;

impl<D> Finish<D, D> for KeepFinish {
    open spec fn role(&self) -> Ending {
        Ending::Records
    }

    open spec fn ready(&self) -> bool {
        true
    }

    open spec fn finishes(&self, data: Seq<D>, out: Seq<D>) -> bool {
        out == data
    }

    fn finish(&mut self, data: Vec<D>) -> (out: Vec<D>) {
        data
    }
}

/// Counts the records.
pub struct CountFinish;

impl<D> Finish<D, usize> for CountFinish {
    open spec fn role(&self) -> Ending {
        Ending::Count
    }

    open spec fn ready(&self) -> bool {
        true
    }

    open spec fn finishes(&self, data: Seq<D>, out: Seq<usize>) -> bool {
        if data.len() == 0 {
            out.len() == 0
        } else {
            out.len() == 1 && out[0] == data.len()
        }
    }

    fn finish(&mut self, data: Vec<D>) -> (out: Vec<usize>) {
        let mut out: Vec<usize> = Vec::new();
        if data.len() > 0 {
            out.push(data.len());
        }
        out
    }
}

/// Reduces the records to one.
pub struct ReduceFinish<F> {
    pub reducer: F,
}

/// Reducing came from the value before record `i` to the value behind it.
pub open spec fn reduce_step<D, F: FnMut(D, D) -> D>(
    reducer: F,
    data: Seq<D>,
    values: Seq<D>,
    i: int,
) -> bool {
    call_ensures(reducer, (values[i - 1], data[i]), values[i])
}

/// The course of reducing records from the first to the last.
pub open spec fn reduces<D, F: FnMut(D, D) -> D>(
    reducer: F,
    data: Seq<D>,
    values: Seq<D>,
) -> bool {
    &&& values.len() == data.len()
    &&& data.len() > 0 ==> values[0] == data[0]
    &&& forall|i: int| 1 <= i < data.len() ==> #[trigger] reduce_step(reducer, data, values, i)
}

impl<D, F: FnMut(D, D) -> D> Finish<D, D> for ReduceFinish<F> {
    open spec fn role(&self) -> Ending {
        Ending::Reduction
    }

    open spec fn ready(&self) -> bool {
        forall|a: D, b: D| #[trigger] call_requires(self.reducer, (a, b))
    }

    open spec fn finishes(&self, data: Seq<D>, out: Seq<D>) -> bool {
        exists|values: Seq<D>| #[trigger]
            reduces(self.reducer, data, values) && out == if data.len() == 0 {
                Seq::<D>::empty()
            } else {
                seq![values.last()]
            }
    }

    fn finish(&mut self, data: Vec<D>) -> (out: Vec<D>) {
        let ghost given = data@;
        let ghost mut values = Seq::<D>::empty();
        let mut value: Option<D> = None;
        for x in it: data
            invariant
                it.seq() == given,
                *self == *old(self),
                forall|a: D, b: D| #[trigger] call_requires(old(self).reducer, (a, b)),
                values.len() == it.index(),
                it.index() > 0 ==> values[0] == given[0] && value == Some(values.last()),
                it.index() == 0 ==> value is None,
                forall|i: int|
                    1 <= i < it.index() ==> #[trigger] reduce_step(
                        self.reducer,
                        given,
                        values,
                        i,
                    ),
        {
            let ghost k = it.index() as int;
            let next = match value {
                Some(v) => (self.reducer)(v, x),
                None => x,
            };
            proof {
                let longer = values.push(next);
                assert forall|i: int| 1 <= i < k + 1 implies #[trigger] reduce_step(
                    self.reducer,
                    given,
                    longer,
                    i,
                ) by {
                    if i < k {
                        assert(reduce_step(self.reducer, given, values, i));
                    }
                }
                values = longer;
            }
            value = Some(next);
        }
        assert(reduces(self.reducer, given, values));
        let mut out: Vec<D> = Vec::new();
        match value {
            Some(v) => {
                out.push(v);
            },
            None => {},
        }
        assert(out@ =~= if given.len() == 0 {
            Seq::<D>::empty()
        } else {
            seq![values.last()]
        });
        out
    }
}

/// Folds the records into a value.
pub struct FoldFinish<D2, F> {
    pub init: D2,
    pub folder: F,
}

/// Folding came from the value before record `i` to the value behind it.
pub open spec fn fold_step<D, D2, F: FnMut(D2, D) -> D2>(
    folder: F,
    data: Seq<D>,
    values: Seq<D2>,
    i: int,
) -> bool {
    call_ensures(folder, (values[i], data[i]), values[i + 1])
}

/// The course of folding records from the first to the last, starting with a clone of `init`.
pub open spec fn folds<D, D2: Clone, F: FnMut(D2, D) -> D2>(
    init: D2,
    folder: F,
    data: Seq<D>,
    values: Seq<D2>,
) -> bool {
    &&& values.len() == data.len() + 1
    &&& cloned(init, values[0])
    &&& forall|i: int| 0 <= i < data.len() ==> #[trigger] fold_step(folder, data, values, i)
}

impl<D, D2: Clone, F: FnMut(D2, D) -> D2> Finish<D, D2> for FoldFinish<D2, F> {
    open spec fn role(&self) -> Ending {
        Ending::Fold
    }

    open spec fn ready(&self) -> bool {
        forall|a: D2, b: D| #[trigger] call_requires(self.folder, (a, b))
    }

    open spec fn finishes(&self, data: Seq<D>, out: Seq<D2>) -> bool {
        if data.len() == 0 {
            out.len() == 0
        } else {
            exists|values: Seq<D2>| #[trigger]
                folds(self.init, self.folder, data, values) && out == seq![values.last()]
        }
    }

    fn finish(&mut self, data: Vec<D>) -> (out: Vec<D2>) {
        let ghost given = data@;
        let mut out: Vec<D2> = Vec::new();
        if data.len() == 0 {
            return out;
        }
        let mut value: D2 = self.init.clone();
        let ghost mut values = seq![value];
        for x in it: data
            invariant
                it.seq() == given,
                *self == *old(self),
                forall|a: D2, b: D| #[trigger] call_requires(old(self).folder, (a, b)),
                values.len() == it.index() + 1,
                cloned(self.init, values[0]),
                value == values.last(),
                forall|i: int|
                    0 <= i < it.index() ==> #[trigger] fold_step(self.folder, given, values, i),
        {
            let ghost k = it.index() as int;
            let next = (self.folder)(value, x);
            proof {
                let longer = values.push(next);
                assert forall|i: int| 0 <= i < k + 1 implies #[trigger] fold_step(
                    self.folder,
                    given,
                    longer,
                    i,
                ) by {
                    if i < k {
                        assert(fold_step(self.folder, given, values, i));
                    }
                }
                values = longer;
            }
            value = next;
        }
        assert(folds(self.init, self.folder, given, values));
        out.push(value);
        assert(out@ =~= seq![values.last()]);
        out
    }
}

/// Records that wait, and the times that were requested.
#[verifier::reject_recursive_types(T)]
pub struct Waiting<T, D> {
    pub held: Map<T, Seq<D>>,
    pub requests: Seq<T>,
}

impl<T, D> Waiting<T, D> {
    /// Each time with records was requested once, and nothing else was requested.
    pub open spec fn sound(self) -> bool {
        &&& self.requests.no_duplicates()
        &&& forall|t: T| #[trigger] self.requests.contains(t) <==> self.held.dom().contains(t)
    }

    /// One more part is held.
    pub open spec fn with_part(self, time: T, data: Seq<D>) -> Waiting<T, D> {
        Waiting {
            held: self.held.insert(time, held_at(self.held, time) + data),
            requests: if self.requests.contains(time) {
                self.requests
            } else {
                self.requests.push(time)
            },
        }
    }

    /// More parts are held.
    pub open spec fn with_parts(self, parts: Seq<(T, Seq<D>)>) -> Waiting<T, D>
        decreases parts.len(),
    {
        if parts.len() == 0 {
            self
        } else {
            self.with_parts(parts.drop_last()).with_part(parts.last().0, parts.last().1)
        }
    }
}

proof fn lemma_with_part_sound<T, D>(w: Waiting<T, D>, time: T, data: Seq<D>)
    requires
        w.sound(),
    ensures
        w.with_part(time, data).sound(),
{
    let v = w.with_part(time, data);
    if !w.requests.contains(time) {
        let r = w.requests.push(time);
        assert forall|t: T| #[trigger] v.requests.contains(t) <==> v.held.dom().contains(t) by {
            if r.contains(t) {
                let i = choose|i: int| 0 <= i < r.len() && r[i] == t;
                if i < w.requests.len() {
                    assert(w.requests[i] == t);
                    assert(w.requests.contains(t));
                }
            }
            if w.requests.contains(t) {
                let i = choose|i: int| 0 <= i < w.requests.len() && w.requests[i] == t;
                assert(r[i] == t);
            }
            if t == time {
                assert(r[w.requests.len() as int] == t);
            }
        }
        assert forall|i: int, j: int| 0 <= i < r.len() && 0 <= j < r.len() && i != j implies r[i]
            != r[j] by {
            if i < w.requests.len() && j == w.requests.len() {
                assert(w.requests.contains(w.requests[i]));
            }
            if j < w.requests.len() && i == w.requests.len() {
                assert(w.requests.contains(w.requests[j]));
            }
        }
    } else {
        assert forall|t: T| #[trigger] v.requests.contains(t) <==> v.held.dom().contains(t) by {
            assert(w.requests.contains(t) <==> w.held.dom().contains(t));
        }
    }
}

/// What is still held after the records of some times were taken.
pub open spec fn released<T, D>(held: Map<T, Seq<D>>, times: Seq<T>) -> Map<T, Seq<D>>
    decreases times.len(),
{
    if times.len() == 0 {
        held
    } else {
        released(held, times.drop_last()).remove(times.last())
    }
}

/// The batches of complete times, without empty ones.
pub open spec fn emitted<T, D2>(times: Seq<T>, outs: Seq<Seq<D2>>) -> Seq<(T, Seq<D2>)>
    decreases times.len(),
{
    if times.len() == 0 {
        Seq::empty()
    } else {
        with_batch(emitted(times.drop_last(), outs), times.last(), outs[times.len() - 1])
    }
}

proof fn lemma_emitted_prefix<T, D2>(times: Seq<T>, a: Seq<Seq<D2>>, b: Seq<Seq<D2>>)
    requires
        times.len() <= a.len(),
        times.len() <= b.len(),
        forall|i: int| 0 <= i < times.len() ==> a[i] == b[i],
    ensures
        emitted(times, a) == emitted(times, b),
    decreases times.len(),
{
    if times.len() > 0 {
        lemma_emitted_prefix(times.drop_last(), a, b);
    }
}

/// A sequence without one of its entries.
proof fn lemma_remove_contains<T>(s: Seq<T>, i: int)
    requires
        s.no_duplicates(),
        0 <= i < s.len(),
    ensures
        s.remove(i).no_duplicates(),
        forall|x: T| #[trigger] s.remove(i).contains(x) <==> s.contains(x) && x != s[i],
{
    let r = s.remove(i);
    assert forall|x: T| #[trigger] r.contains(x) <==> s.contains(x) && x != s[i] by {
        if r.contains(x) {
            let k = choose|k: int| 0 <= k < r.len() && r[k] == x;
            if k < i {
                assert(s[k] == x);
            } else {
                assert(s[k + 1] == x);
            }
        }
        if s.contains(x) && x != s[i] {
            let k = choose|k: int| 0 <= k < s.len() && s[k] == x;
            if k < i {
                assert(r[k] == x);
            } else {
                assert(r[k - 1] == x);
            }
        }
    }
}

/// The course of a run.
pub struct GatherCourse<T, D, D2> {
    /// The parts that each batch fell into.
    pub parts: Seq<Seq<(T, Seq<D>)>>,
    /// The states that the requests went through while complete times were delivered.
    pub states: Seq<NotificatorView<T>>,
    /// The complete times, in the order in which they were delivered.
    pub times: Seq<T>,
    /// What became of the records of each of these times.
    pub outs: Seq<Seq<D2>>,
}

/// Holds records back until their time is complete.
pub struct StashLogic<T, D, A, K> {
    pub stash: Stash<T, D>,
    pub context: NotifyContext<T>,
    pub assigner: A,
    pub finisher: K,
}

impl<T: Timestamp, D, A: Assign<T, D>, K> StashLogic<T, D, A, K> {
    /// The records that wait, and the times that were requested.
    pub open spec fn waiting(&self) -> Waiting<T, D> {
        Waiting { held: self.stash@, requests: self.context@.pending }
    }

    /// The logic holds nothing, at the start of time.
    pub open spec fn is_fresh(&self) -> bool {
        &&& self.stash@ == Map::<T, Seq<D>>::empty()
        &&& self.context@ == (NotificatorView {
            frontier: seq![T::least()],
            pending: Seq::<T>::empty(),
        })
    }

    /// A logic that holds nothing, at the start of time.
    pub fn new(assigner: A, finisher: K) -> (l: Self)
        ensures
            l.stash.wf(),
            l.is_fresh(),
            l.waiting().sound(),
            l.assigner == assigner,
            l.finisher == finisher,
    {
        let frontier = Antichain::from_elem(T::minimum());
        let l = StashLogic {
            stash: Stash::new(),
            context: NotifyContext::new(frontier),
            assigner,
            finisher,
        };
        assert(l.context@.frontier =~= seq![T::least()]);
        l
    }

    /// Takes note of the frontier.
    pub fn advance(&mut self, frontier: &Antichain<T>)
        ensures
            *final(self) == (StashLogic { context: final(self).context, ..*old(self) }),
            final(self).context@ == (NotificatorView { frontier: frontier@, ..old(self).context@ }),
    {
        self.context.update_frontier(frontier);
    }

    /// Holds the parts of the batches of an input.
    fn gather(&mut self, input: &mut InputHandle<T, D>) -> (r: (Ghost<Seq<Seq<(T, Seq<D>)>>>, Result<
        (),
    >))
        requires
            old(self).assigner.ready(),
            old(self).stash.wf(),
            old(self).waiting().sound(),
        ensures
            final(self).assigner == old(self).assigner,
            final(self).finisher == old(self).finisher,
            final(self).context@.frontier == old(self).context@.frontier,
            final(self).stash.wf(),
            final(self).waiting().sound(),
            final(input)@.exhausted == old(input)@.exhausted,
            r.1 is Ok ==> {
                &&& final(input)@.pending.len() == 0
                &&& r.0@.len() == old(input)@.pending.len()
                &&& forall|i: int|
                    0 <= i < r.0@.len() ==> old(self).assigner.assigns(
                        old(input)@.pending[i].0,
                        old(input)@.pending[i].1,
                        #[trigger] r.0@[i],
                    )
                &&& final(self).waiting() == old(self).waiting().with_parts(flattened(r.0@))
            },
            r.1 matches Err(e) ==> (e matches Error::InvalidConfig(text) && text@ == early_text())
                && exists|i: int|
                0 <= i < old(input)@.pending.len() && old(self).assigner.refuses(
                    (#[trigger] old(input)@.pending[i]).0,
                    old(input)@.pending[i].1,
                ),
    {
        let ghost given = input@.pending;
        let ghost mut parts = Seq::<Seq<(T, Seq<D>)>>::empty();
        let ghost mut k: int = 0;
        let mut more = true;
        assert(given.skip(0) =~= given);
        while more
            invariant
                given == old(input)@.pending,
                0 <= k <= given.len(),
                parts.len() == k,
                input@.exhausted == old(input)@.exhausted,
                input@.pending == given.skip(k),
                self.assigner == old(self).assigner,
                self.assigner.ready(),
                self.finisher == old(self).finisher,
                self.context@.frontier == old(self).context@.frontier,
                self.stash.wf(),
                self.waiting().sound(),
                forall|i: int|
                    0 <= i < k ==> self.assigner.assigns(
                        given[i].0,
                        given[i].1,
                        #[trigger] parts[i],
                    ),
                self.waiting() == old(self).waiting().with_parts(flattened(parts)),
                !more ==> k == given.len(),
            decreases
                    given.len() - k,
                    (if more {
                        1int
                    } else {
                        0int
                    }),
        {
            match input.next() {
                Some((time, data)) => {
                    assert((time, data@) == given[k]);
                    match self.assigner.assign(time, data) {
                        Err(e) => {
                            assert(old(self).assigner.refuses(given[k].0, given[k].1));
                            return (Ghost(parts), Err(e));
                        },
                        Ok(split) => {
                            let ghost these = batches(split@);
                            let ghost earlier = flattened(parts);
                            self.hold(split, Ghost(old(self).waiting()), Ghost(earlier));
                            proof {
                                let longer = parts.push(these);
                                assert(longer.drop_last() =~= parts);
                                assert(flattened(longer) =~= earlier + these);
                                assert forall|i: int|
                                    0 <= i < k + 1 implies self.assigner.assigns(
                                    given[i].0,
                                    given[i].1,
                                    #[trigger] longer[i],
                                ) by {
                                    if i < k {
                                        assert(longer[i] == parts[i]);
                                    }
                                }
                                parts = longer;
                                assert(given.skip(k).drop_first() =~= given.skip(k + 1));
                                k = k + 1;
                            }
                        },
                    }
                },
                None => {
                    more = false;
                },
            }
        }
        (Ghost(parts), Ok(()))
    }

    /// Holds parts, and requests their times.
    fn hold(
        &mut self,
        split: Vec<(T, Vec<D>)>,
        first: Ghost<Waiting<T, D>>,
        earlier: Ghost<Seq<(T, Seq<D>)>>,
    )
        requires
            old(self).stash.wf(),
            old(self).waiting().sound(),
            old(self).waiting() == first@.with_parts(earlier@),
        ensures
            final(self).assigner == old(self).assigner,
            final(self).finisher == old(self).finisher,
            final(self).context@.frontier == old(self).context@.frontier,
            final(self).stash.wf(),
            final(self).waiting().sound(),
            final(self).waiting() == first@.with_parts(earlier@ + batches(split@)),
    {
        let ghost given = split@;
        assert(earlier@ + batches(given.take(0)) =~= earlier@);
        for part in it: split
            invariant
                it.seq() == given,
                self.assigner == old(self).assigner,
                self.finisher == old(self).finisher,
                self.context@.frontier == old(self).context@.frontier,
                self.stash.wf(),
                self.waiting().sound(),
                self.waiting() == first@.with_parts(
                    earlier@ + batches(given.take(it.index() as int)),
                ),
        {
            let ghost k = it.index() as int;
            let ghost before = self.waiting();
            let (time, data) = part;
            let ghost records = data@;
            let again = time.duplicate();
            self.stash.add_records(time, data);
            self.context.notify_at(again);
            proof {
                lemma_with_part_sound(before, again, records);
                assert(self.waiting() == before.with_part(again, records));
                let longer = earlier@ + batches(given.take(k + 1));
                assert(longer.drop_last() =~= earlier@ + batches(given.take(k)));
                assert(longer.last() == (again, records));
            }
        }
        assert(given.take(given.len() as int) =~= given);
    }
}

impl<T: Timestamp, D, D2, A: Assign<T, D>, K: Finish<D, D2>> RelayLogic<
    T,
    D,
    T,
    D2,
> for StashLogic<T, D, A, K> {
    open spec fn role(&self) -> Role {
        Role::Gather(self.assigner.role(), self.finisher.role())
    }

    open spec fn ready(&self) -> bool {
        &&& self.assigner.ready()
        &&& self.finisher.ready()
        &&& self.stash.wf()
        &&& self.waiting().sound()
    }

    open spec fn runs(
        &self,
        after: &Self,
        input: InputView<T, D>,
        rest: InputView<T, D>,
        out: Seq<(T, Seq<D2>)>,
        r: Result<()>,
    ) -> bool {
        match r {
            Ok(_) => exists|c: GatherCourse<T, D, D2>| #[trigger]
                gathers_by(self, after, input, rest, out, c),
            Err(e) => (e matches Error::InvalidConfig(text) && text@ == early_text()) && exists|
                i: int,
            |
                0 <= i < input.pending.len() && self.assigner.refuses(
                    (#[trigger] input.pending[i]).0,
                    input.pending[i].1,
                ),
        }
    }

    open spec fn sated(&self) -> bool {
        false
    }

    open spec fn owing(&self) -> bool {
        self.context@.pending.len() > 0
    }

    fn run(&mut self, input: &mut InputHandle<T, D>, output: &mut OutputHandle<T, D2>) -> (r:
        Result<()>) {
        let ghost given = input@;
        let (parts, gathered) = self.gather(input);
        match gathered {
            Err(e) => {
                return Err(e);
            },
            Ok(_) => {},
        }
        let ghost w = self.waiting();
        let ghost mut states = seq![self.context@];
        let ghost mut times = Seq::<T>::empty();
        let ghost mut outs = Seq::<Seq<D2>>::empty();
        let mut more = true;
        assert(drains_by(states, times));
        assert(output@ =~= emitted(times, outs));
        while more
            invariant
                self.assigner == old(self).assigner,
                self.assigner.ready(),
                self.finisher == old(self).finisher,
                self.finisher.ready(),
                self.stash.wf(),
                self.waiting().sound(),
                drains_by(states, times),
                states[0] == (NotificatorView {
                    frontier: old(self).context@.frontier,
                    pending: w.requests,
                }),
                states.last() == self.context@,
                !more ==> !self.context@.ready(),
                outs.len() == times.len(),
                forall|i: int|
                    0 <= i < times.len() ==> self.finisher.finishes(
                        w.held[#[trigger] times[i]],
                        outs[i],
                    ),
                self.stash@ == released(w.held, times),
                forall|t: T| #[trigger]
                    self.stash@.dom().contains(t) ==> w.held.dom().contains(t) && self.stash@[t]
                        == w.held[t],
                output@ == emitted(times, outs),
            decreases
                    self.context@.pending.len(),
                    (if more {
                        1int
                    } else {
                        0int
                    }),
        {
            let ghost before = self.context@;
            let ghost cur = self.stash@;
            match self.context.next_notification() {
                None => {
                    more = false;
                },
                Some(t) => {
                    let ghost i = choose|i: int| #[trigger]
                        before.is_next(i) && t == before.pending[i] && self.context@.pending
                            == before.pending.remove(i);
                    proof {
                        lemma_remove_contains(before.pending, i);
                        assert(before.pending.contains(t));
                        assert(cur.dom().contains(t));
                    }
                    match self.stash.take_records(&t) {
                        Some(data) => {
                            let ghost read = data@;
                            let done = self.finisher.finish(data);
                            let ghost written = done@;
                            let ghost at = t;
                            output.push_vec(t, done);
                            proof {
                                let longer = states.push(self.context@);
                                let more_times = times.push(at);
                                let more_outs = outs.push(written);
                                assert(more_times.drop_last() =~= times);
                                lemma_emitted_prefix(times, outs, more_outs);
                                assert forall|k: int|
                                    0 <= k < more_times.len() implies #[trigger] drain_step(
                                    longer,
                                    more_times,
                                    k,
                                ) by {
                                    if k < times.len() {
                                        assert(drain_step(states, times, k));
                                        let j = choose|j: int| #[trigger]
                                            states[k].is_next(j) && times[k]
                                                == states[k].pending[j] && states[k + 1] == (
                                            NotificatorView {
                                                pending: states[k].pending.remove(j),
                                                ..states[k]
                                            });
                                        assert(longer[k] == states[k] && longer[k + 1]
                                            == states[k + 1]);
                                        assert(longer[k].is_next(j));
                                    } else {
                                        assert(longer[k] == before);
                                        assert(longer[k].is_next(i));
                                    }
                                }
                                assert forall|k: int|
                                    0 <= k < more_times.len() implies self.finisher.finishes(
                                    w.held[#[trigger] more_times[k]],
                                    more_outs[k],
                                ) by {
                                    if k < times.len() {
                                        assert(more_times[k] == times[k]);
                                    }
                                }
                                states = longer;
                                times = more_times;
                                outs = more_outs;
                            }
                        },
                        None => {},
                    }
                },
            }
        }
        proof {
            let c = GatherCourse { parts: parts@, states, times, outs };
            assert(input@.pending =~= Seq::<(T, Seq<D>)>::empty());
            assert(gathers_by(old(self), self, given, input@, output@, c));
        }
        Ok(())
    }

    fn is_sated(&self) -> (b: bool) {
        false
    }

    fn is_owing(&self) -> (b: bool) {
        self.context.pending().len() > 0
    }
}

/// A run that took the given course: all batches fall into parts, which are held at their times;
/// then the records of each complete time are processed, in the order in which the times are
/// delivered.
pub open spec fn gathers_by<T: Timestamp, D, D2, A: Assign<T, D>, K: Finish<D, D2>>(
    before: &StashLogic<T, D, A, K>,
    after: &StashLogic<T, D, A, K>,
    input: InputView<T, D>,
    rest: InputView<T, D>,
    out: Seq<(T, Seq<D2>)>,
    c: GatherCourse<T, D, D2>,
) -> bool {
    let w = before.waiting().with_parts(flattened(c.parts));
    &&& rest == (InputView { pending: Seq::<(T, Seq<D>)>::empty(), ..input })
    &&& c.parts.len() == input.pending.len()
    &&& forall|i: int|
        0 <= i < c.parts.len() ==> before.assigner.assigns(
            input.pending[i].0,
            input.pending[i].1,
            #[trigger] c.parts[i],
        )
    &&& drains_by(c.states, c.times)
    &&& c.states[0] == (NotificatorView {
        frontier: before.context@.frontier,
        pending: w.requests,
    })
    &&& c.states.last() == after.context@
    &&& !after.context@.ready()
    &&& c.outs.len() == c.times.len()
    &&& forall|i: int|
        0 <= i < c.times.len() ==> before.finisher.finishes(
            w.held[#[trigger] c.times[i]],
            c.outs[i],
        )
    &&& after.stash@ == released(w.held, c.times)
    &&& after.assigner == before.assigner
    &&& after.finisher == before.finisher
    &&& out == emitted(c.times, c.outs)
}

pub(crate) proof fn lemma_parts_sound<T, D>(w: Waiting<T, D>, parts: Seq<(T, Seq<D>)>)
    requires
        w.sound(),
    ensures
        w.with_parts(parts).sound(),
    decreases parts.len(),
{
    if parts.len() > 0 {
        lemma_parts_sound(w, parts.drop_last());
        lemma_with_part_sound(
            w.with_parts(parts.drop_last()),
            parts.last().0,
            parts.last().1,
        );
    }
}

pub(crate) proof fn lemma_draining<T: Timestamp>(states: Seq<NotificatorView<T>>, times: Seq<T>, k: int)
    requires
        drains_by(states, times),
        states[0].pending.no_duplicates(),
        0 <= k <= times.len(),
    ensures
        states[k].frontier == states[0].frontier,
        states[k].pending.no_duplicates(),
        forall|x: T| #[trigger] states[k].pending.contains(x) ==> states[0].pending.contains(x),
        forall|j: int| 0 <= j < k ==> !states[k].pending.contains(#[trigger] times[j]),
        forall|j: int| 0 <= j < k ==> !covers(states[0].frontier, #[trigger] times[j]),
        forall|j: int| 0 <= j < k ==> states[0].pending.contains(#[trigger] times[j]),
        forall|i: int, j: int| 0 <= i < j < k ==> times[i] != times[j],
    decreases k,
{
    if k > 0 {
        lemma_draining(states, times, k - 1);
        assert(drain_step(states, times, k - 1));
        let i = choose|i: int| #[trigger]
            states[k - 1].is_next(i) && times[k - 1] == states[k - 1].pending[i]
                && states[k - 1 + 1] == (NotificatorView {
                pending: states[k - 1].pending.remove(i),
                ..states[k - 1]
            });
        lemma_remove_contains(states[k - 1].pending, i);
        assert(states[k - 1].pending.contains(times[k - 1]));
    }
}

proof fn lemma_emitted_times<T, D2>(times: Seq<T>, outs: Seq<Seq<D2>>, k: int)
    requires
        0 <= k < emitted(times, outs).len(),
    ensures
        times.contains(emitted(times, outs)[k].0),
    decreases times.len(),
{
    let before = emitted(times.drop_last(), outs);
    if k < before.len() {
        lemma_emitted_times(times.drop_last(), outs, k);
        let j = choose|j: int|
            0 <= j < times.drop_last().len() && times.drop_last()[j] == before[k].0;
        assert(times[j] == emitted(times, outs)[k].0);
    } else {
        assert(times[times.len() - 1] == emitted(times, outs)[k].0);
    }
}

/// What is sent, is sent at times that are complete.
pub proof fn gathered_times_are_complete<
    T: Timestamp,
    D,
    D2,
    A: Assign<T, D>,
    K: Finish<D, D2>,
>(
    before: &StashLogic<T, D, A, K>,
    after: &StashLogic<T, D, A, K>,
    input: InputView<T, D>,
    rest: InputView<T, D>,
    out: Seq<(T, Seq<D2>)>,
    c: GatherCourse<T, D, D2>,
    k: int,
)
    requires
        before.waiting().sound(),
        gathers_by(before, after, input, rest, out, c),
        0 <= k < out.len(),
    ensures
        !covers(before.context@.frontier, out[k].0),
{
    lemma_parts_sound(before.waiting(), flattened(c.parts));
    lemma_draining(c.states, c.times, c.times.len() as int);
    lemma_emitted_times(c.times, c.outs, k);
    let j = choose|j: int| 0 <= j < c.times.len() && c.times[j] == out[k].0;
    assert(!covers(c.states[0].frontier, c.times[j]));
}

/// A complete time is processed once: its records do not wait any more, and no other time is
/// processed for a second time.
pub proof fn complete_times_are_processed_once<
    T: Timestamp,
    D,
    D2,
    A: Assign<T, D>,
    K: Finish<D, D2>,
>(
    before: &StashLogic<T, D, A, K>,
    after: &StashLogic<T, D, A, K>,
    input: InputView<T, D>,
    rest: InputView<T, D>,
    out: Seq<(T, Seq<D2>)>,
    c: GatherCourse<T, D, D2>,
    i: int,
    j: int,
)
    requires
        before.waiting().sound(),
        gathers_by(before, after, input, rest, out, c),
        0 <= i < c.times.len(),
        0 <= j < c.times.len(),
    ensures
        i != j ==> c.times[i] != c.times[j],
        !after.stash@.dom().contains(c.times[i]),
        !after.context@.pending.contains(c.times[i]),
{
    lemma_parts_sound(before.waiting(), flattened(c.parts));
    lemma_draining(c.states, c.times, c.times.len() as int);
    lemma_released(before.waiting().with_parts(flattened(c.parts)).held, c.times, i);
}

proof fn lemma_released<T, D>(held: Map<T, Seq<D>>, times: Seq<T>, i: int)
    requires
        0 <= i < times.len(),
    ensures
        !released(held, times).dom().contains(times[i]),
    decreases times.len(),
{
    if i < times.len() - 1 {
        lemma_released(held, times.drop_last(), i);
    }
}

/// Reducing, folding and counting come to one result for the records of a time, and to none if there
/// are no records.
pub proof fn one_result_per_time<D, D2, F: FnMut(D, D) -> D, G: FnMut(D2, D) -> D2>(
    reduce: ReduceFinish<F>,
    fold: FoldFinish<D2, G>,
    data: Seq<D>,
    reduced: Seq<D>,
    folded: Seq<D2>,
    counted: Seq<usize>,
) where D2: Clone
    requires
        reduce.finishes(data, reduced),
        fold.finishes(data, folded),
        CountFinish.finishes(data, counted),
    ensures
        reduced.len() == if data.len() == 0 {
            0int
        } else {
            1int
        },
        folded.len() == reduced.len(),
        counted.len() == reduced.len(),
{
}

} // verus!
