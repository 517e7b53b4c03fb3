//! What operators make of a batch.

use vstd::prelude::*;
use crate::operators::branch::select;
use crate::role::Role;

verus! {

/// What an operator makes of the records of a batch.
pub trait BatchLogic<T, D, D2> {
    /// What an operator with this logic is there for.
    spec fn role(&self) -> Role;

    /// Batches can be processed.
    spec fn ready(&self) -> bool;

    /// A batch turns the logic into `after` and the records into `out`.
    spec fn applies(&self, after: &Self, time: T, data: Seq<D>, out: Seq<D2>) -> bool;

    /// Nothing will ever come of any more batches.
    spec fn sated(&self) -> bool;

    /// Processes a batch.
    fn apply(&mut self, time: &T, data: Vec<D>) -> (out: Vec<D2>)
        requires
            old(self).ready(),
        ensures
            final(self).ready(),
            old(self).applies(final(self), *time, data@, out@),
    ;

    /// Whether nothing will ever come of any more batches.
    fn is_sated(&self) -> (b: bool)
        ensures
            b == self.sated(),
    ;
}

/// Turns each record into another.
pub struct MapLogic<F> {
    pub logic: F,
}

impl<T, D, D2, F: FnMut(&T, D) -> D2> BatchLogic<T, D, D2> for MapLogic<F> {
    open spec fn role(&self) -> Role {
        Role::MapEach
    }

    open spec fn ready(&self) -> bool {
        forall|t: &T, x: D| #[trigger] call_requires(self.logic, (t, x))
    }

    open spec fn applies(&self, after: &Self, time: T, data: Seq<D>, out: Seq<D2>) -> bool {
        &&& *after == *self
        &&& out.len() == data.len()
        &&& forall|i: int|
            0 <= i < data.len() ==> call_ensures(self.logic, (&time, data[i]), #[trigger] out[i])
    }

    open spec fn sated(&self) -> bool {
        false
    }

    fn apply(&mut self, time: &T, data: Vec<D>) -> (out: Vec<D2>) {
        let ghost given = data@;
        let mut out: Vec<D2> = Vec::new();
        for x in it: data
            invariant
                it.seq() == given,
                *self == *old(self),
                forall|t: &T, x: D| #[trigger] call_requires(old(self).logic, (t, x)),
                out@.len() == it.index(),
                forall|i: int|
                    0 <= i < it.index() ==> call_ensures(
                        self.logic,
                        (time, given[i]),
                        #[trigger] out@[i],
                    ),
        {
            out.push((self.logic)(time, x));
        }
        out
    }

    fn is_sated(&self) -> (b: bool) {
        false
    }
}

/// Two functions, one after the other, can turn `x` into `z`.
pub open spec fn leads_on<T, D, D2, D3, F: FnMut(&T, D) -> D2, G: FnMut(&T, D2) -> D3>(
    f: F,
    g: G,
    time: T,
    x: D,
    z: D3,
) -> bool {
    exists|y: D2| #[trigger] call_ensures(f, (&time, x), y) && call_ensures(g, (&time, y), z)
}

/// Two maps in a row make of a batch what one map with the composed function makes of it.
pub proof fn maps_compose<
    T,
    D,
    D2,
    D3,
    F: FnMut(&T, D) -> D2,
    G: FnMut(&T, D2) -> D3,
    H: FnMut(&T, D) -> D3,
>(f: F, g: G, h: H, time: T, data: Seq<D>, out: Seq<D3>)
    requires
        forall|x: D, z: D3| #[trigger]
            call_ensures(h, (&time, x), z) <==> leads_on(f, g, time, x, z),
    ensures
        (MapLogic { logic: h }).applies(&(MapLogic { logic: h }), time, data, out) <==> exists|
            mid: Seq<D2>,
        | #[trigger]
            (MapLogic { logic: f }).applies(&(MapLogic { logic: f }), time, data, mid)
                && (MapLogic { logic: g }).applies(&(MapLogic { logic: g }), time, mid, out),
{
    let (mf, mg, mh) = (MapLogic { logic: f }, MapLogic { logic: g }, MapLogic { logic: h });
    if mh.applies(&mh, time, data, out) {
        let mid = Seq::new(
            data.len(),
            |i: int|
                choose|y: D2| #[trigger]
                    call_ensures(f, (&time, data[i]), y) && call_ensures(g, (&time, y), out[i]),
        );
        assert forall|i: int| 0 <= i < data.len() implies call_ensures(
            f,
            (&time, data[i]),
            #[trigger] mid[i],
        ) && call_ensures(g, (&time, mid[i]), out[i]) by {
            assert(call_ensures(h, (&time, data[i]), out[i]));
            assert(leads_on(f, g, time, data[i], out[i]));
        }
        assert(mf.applies(&mf, time, data, mid));
        assert(mg.applies(&mg, time, mid, out));
    }
    if exists|mid: Seq<D2>| #[trigger]
        mf.applies(&mf, time, data, mid) && mg.applies(&mg, time, mid, out) {
        let mid = choose|mid: Seq<D2>| #[trigger]
            mf.applies(&mf, time, data, mid) && mg.applies(&mg, time, mid, out);
        assert forall|i: int| 0 <= i < data.len() implies call_ensures(
            h,
            (&time, data[i]),
            #[trigger] out[i],
        ) by {
            assert(call_ensures(f, (&time, data[i]), mid[i]));
            assert(leads_on(f, g, time, data[i], out[i]));
        }
    }
}

/// Keeps the records that satisfy a predicate.
pub struct FilterLogic<F> {
    pub predicate: F,
}

/// Possible answers of a predicate to the records of a batch.
pub open spec fn answers<T, D, F: FnMut(&T, &D) -> bool>(
    predicate: F,
    time: T,
    data: Seq<D>,
    given: Seq<bool>,
) -> bool {
    &&& given.len() == data.len()
    &&& forall|i: int|
        0 <= i < data.len() ==> call_ensures(predicate, (&time, &data[i]), #[trigger] given[i])
}

proof fn lemma_select_push<D>(data: Seq<D>, flags: Seq<bool>, x: D, flag: bool, want: bool)
    requires
        flags.len() == data.len(),
    ensures
        select(data.push(x), flags.push(flag), want) == if flag == want {
            select(data, flags, want).push(x)
        } else {
            select(data, flags, want)
        },
{
    assert(data.push(x).drop_last() =~= data);
    lemma_select_prefix(data, flags, flags.push(flag), want);
}

proof fn lemma_select_prefix<D>(data: Seq<D>, a: Seq<bool>, b: Seq<bool>, want: bool)
    requires
        data.len() <= a.len(),
        data.len() <= b.len(),
        forall|i: int| 0 <= i < data.len() ==> a[i] == b[i],
    ensures
        select(data, a, want) == select(data, b, want),
    decreases data.len(),
{
    if data.len() > 0 {
        lemma_select_prefix(data.drop_last(), a, b, want);
    }
}

impl<T, D, F: FnMut(&T, &D) -> bool> BatchLogic<T, D, D> for FilterLogic<F> {
    open spec fn role(&self) -> Role {
        Role::Filter
    }

    open spec fn ready(&self) -> bool {
        forall|t: &T, x: &D| #[trigger] call_requires(self.predicate, (t, x))
    }

    open spec fn applies(&self, after: &Self, time: T, data: Seq<D>, out: Seq<D>) -> bool {
        &&& *after == *self
        &&& exists|given: Seq<bool>| #[trigger]
            answers(self.predicate, time, data, given) && out == select(data, given, true)
    }

    open spec fn sated(&self) -> bool {
        false
    }

    fn apply(&mut self, time: &T, data: Vec<D>) -> (out: Vec<D>) {
        let ghost all = data@;
        let ghost mut flags = Seq::<bool>::empty();
        let mut out: Vec<D> = Vec::new();
        assert(all.take(0) =~= Seq::<D>::empty());
        for x in it: data
            invariant
                it.seq() == all,
                *self == *old(self),
                forall|t: &T, x: &D| #[trigger] call_requires(old(self).predicate, (t, x)),
                answers(self.predicate, *time, all.take(it.index() as int), flags),
                out@ == select(all.take(it.index() as int), flags, true),
        {
            let keep = (self.predicate)(time, &x);
            proof {
                let k = it.index() as int;
                assert(all.take(k + 1) =~= all.take(k).push(x));
                lemma_select_push(all.take(k), flags, x, keep, true);
                let before = flags;
                flags = flags.push(keep);
                assert forall|i: int| 0 <= i < k + 1 implies call_ensures(
                    self.predicate,
                    (time, &all.take(k + 1)[i]),
                    #[trigger] flags[i],
                ) by {
                    if i < k {
                        assert(flags[i] == before[i]);
                        assert(all.take(k + 1)[i] == all.take(k)[i]);
                    }
                }
            }
            if keep {
                out.push(x);
            }
        }
        assert(all.take(all.len() as int) =~= all);
        assert(answers(self.predicate, *time, all, flags));
        out
    }

    fn is_sated(&self) -> (b: bool) {
        false
    }
}

/// Looks at each record and passes the batch on.
pub struct InspectLogic<F> {
    pub logic: F,
}

impl<T, D, F: FnMut(&T, &D)> BatchLogic<T, D, D> for InspectLogic<F> {
    open spec fn role(&self) -> Role {
        Role::Inspect
    }

    open spec fn ready(&self) -> bool {
        forall|t: &T, x: &D| #[trigger] call_requires(self.logic, (t, x))
    }

    open spec fn applies(&self, after: &Self, time: T, data: Seq<D>, out: Seq<D>) -> bool {
        &&& *after == *self
        &&& out == data
        &&& forall|i: int|
            0 <= i < data.len() ==> call_ensures(self.logic, (&time, #[trigger] &data[i]), ())
    }

    open spec fn sated(&self) -> bool {
        false
    }

    fn apply(&mut self, time: &T, data: Vec<D>) -> (out: Vec<D>) {
        let mut i: usize = 0;
        while i < data.len()
            invariant
                i <= data@.len(),
                *self == *old(self),
                forall|t: &T, x: &D| #[trigger] call_requires(old(self).logic, (t, x)),
                forall|k: int|
                    0 <= k < i ==> call_ensures(self.logic, (time, #[trigger] &data@[k]), ()),
            decreases data@.len() - i,
        {
            (self.logic)(time, &data[i]);
            i = i + 1;
        }
        data
    }

    fn is_sated(&self) -> (b: bool) {
        false
    }
}

/// The logic was shown the records of a batch.
pub open spec fn saw_batch<T, D, F: FnMut(&T, &[D])>(logic: F, time: T, data: Seq<D>) -> bool {
    exists|b: &[D]| b@ == data && #[trigger] call_ensures(logic, (&time, b), ())
}

/// Looks at each batch and passes it on.
pub struct InspectBatchLogic<F> {
    pub logic: F,
}

impl<T, D, F: FnMut(&T, &[D])> BatchLogic<T, D, D> for InspectBatchLogic<F> {
    open spec fn role(&self) -> Role {
        Role::InspectBatch
    }

    open spec fn ready(&self) -> bool {
        forall|t: &T, b: &[D]| #[trigger] call_requires(self.logic, (t, b))
    }

    open spec fn applies(&self, after: &Self, time: T, data: Seq<D>, out: Seq<D>) -> bool {
        &&& *after == *self
        &&& out == data
        &&& saw_batch(self.logic, time, data)
    }

    open spec fn sated(&self) -> bool {
        false
    }

    fn apply(&mut self, time: &T, data: Vec<D>) -> (out: Vec<D>) {
        (self.logic)(time, data.as_slice());
        data
    }

    fn is_sated(&self) -> (b: bool) {
        false
    }
}

/// Turns each record into any number of others.
pub struct FlatMapLogic<F> {
    pub logic: F,
}

/// The records of all parts, one part after the other.
pub open spec fn flattened<D>(parts: Seq<Seq<D>>) -> Seq<D>
    decreases parts.len(),
{
    if parts.len() == 0 {
        Seq::empty()
    } else {
        flattened(parts.drop_last()) + parts.last()
    }
}

/// Possible parts that a logic makes of the records of a batch.
pub open spec fn expands<T, D, D2, F: FnMut(&T, D) -> Vec<D2>>(
    logic: F,
    time: T,
    data: Seq<D>,
    parts: Seq<Vec<D2>>,
) -> bool {
    &&& parts.len() == data.len()
    &&& forall|i: int|
        0 <= i < data.len() ==> call_ensures(logic, (&time, data[i]), #[trigger] parts[i])
}

/// Vectors as sequences.
pub open spec fn part_seqs<D>(parts: Seq<Vec<D>>) -> Seq<Seq<D>> {
    parts.map_values(|p: Vec<D>| p@)
}

impl<T, D, D2, F: FnMut(&T, D) -> Vec<D2>> BatchLogic<T, D, D2> for FlatMapLogic<F> {
    open spec fn role(&self) -> Role {
        Role::FlatMap
    }

    open spec fn ready(&self) -> bool {
        forall|t: &T, x: D| #[trigger] call_requires(self.logic, (t, x))
    }

    open spec fn applies(&self, after: &Self, time: T, data: Seq<D>, out: Seq<D2>) -> bool {
        &&& *after == *self
        &&& exists|parts: Seq<Vec<D2>>| #[trigger]
            expands(self.logic, time, data, parts) && out == flattened(part_seqs(parts))
    }

    open spec fn sated(&self) -> bool {
        false
    }

    fn apply(&mut self, time: &T, data: Vec<D>) -> (out: Vec<D2>) {
        let ghost all = data@;
        let ghost mut parts = Seq::<Vec<D2>>::empty();
        let mut out: Vec<D2> = Vec::new();
        for x in it: data
            invariant
                it.seq() == all,
                *self == *old(self),
                forall|t: &T, x: D| #[trigger] call_requires(old(self).logic, (t, x)),
                expands(self.logic, *time, all.take(it.index() as int), parts),
                out@ == flattened(part_seqs(parts)),
        {
            let part = (self.logic)(time, x);
            let ghost kept = part;
            let mut part = part;
            out.append(&mut part);
            proof {
                let k = it.index() as int;
                let before = parts;
                parts = parts.push(kept);
                assert(part_seqs(parts).drop_last() =~= part_seqs(before));
                assert(part_seqs(parts).last() == kept@);
                assert forall|i: int| 0 <= i < k + 1 implies call_ensures(
                    self.logic,
                    (time, all.take(k + 1)[i]),
                    #[trigger] parts[i],
                ) by {
                    if i < k {
                        assert(parts[i] == before[i]);
                        assert(all.take(k + 1)[i] == all.take(k)[i]);
                    }
                }
            }
        }
        assert(all.take(all.len() as int) =~= all);
        assert(expands(self.logic, *time, all, parts));
        out
    }

    fn is_sated(&self) -> (b: bool) {
        false
    }
}

/// Turns each batch into another.
pub struct MapBatchLogic<F> {
    pub logic: F,
}

impl<T, D, D2, F: FnMut(&T, Vec<D>) -> Vec<D2>> BatchLogic<T, D, D2> for MapBatchLogic<F> {
    open spec fn role(&self) -> Role {
        Role::MapBatch
    }

    open spec fn ready(&self) -> bool {
        forall|t: &T, b: Vec<D>| #[trigger] call_requires(self.logic, (t, b))
    }

    open spec fn applies(&self, after: &Self, time: T, data: Seq<D>, out: Seq<D2>) -> bool {
        &&& *after == *self
        &&& exists|b: Vec<D>, c: Vec<D2>|
            b@ == data && c@ == out && #[trigger] call_ensures(self.logic, (&time, b), c)
    }

    open spec fn sated(&self) -> bool {
        false
    }

    fn apply(&mut self, time: &T, data: Vec<D>) -> (out: Vec<D2>) {
        (self.logic)(time, data)
    }

    fn is_sated(&self) -> (b: bool) {
        false
    }
}

/// Lets a limited number of records pass.
pub struct TakeLogic {
    pub remaining: usize,
}

impl<T, D> BatchLogic<T, D, D> for TakeLogic {
    open spec fn role(&self) -> Role {
        Role::Take(self.remaining)
    }

    open spec fn ready(&self) -> bool {
        true
    }

    open spec fn applies(&self, after: &Self, time: T, data: Seq<D>, out: Seq<D>) -> bool {
        if data.len() <= self.remaining {
            out == data && after.remaining == self.remaining - data.len()
        } else {
            out == data.take(self.remaining as int) && after.remaining == 0
        }
    }

    open spec fn sated(&self) -> bool {
        self.remaining == 0
    }

    fn apply(&mut self, time: &T, data: Vec<D>) -> (out: Vec<D>) {
        let mut data = data;
        if data.len() > self.remaining {
            data.truncate(self.remaining);
        }
        self.remaining = self.remaining - data.len();
        data
    }

    fn is_sated(&self) -> (b: bool) {
        self.remaining == 0
    }
}

/// Lets records pass until one does not satisfy a predicate.
pub struct TakeWhileLogic<F> {
    pub predicate: F,
    pub stopped: bool,
}

/// The first `k` records satisfy the predicate, and the one behind them, if there is one, does not.
pub open spec fn stops_at<T, D, F: FnMut(&T, &D) -> bool>(
    predicate: F,
    time: T,
    data: Seq<D>,
    k: int,
) -> bool {
    &&& 0 <= k <= data.len()
    &&& forall|i: int|
        0 <= i < k ==> call_ensures(predicate, (&time, #[trigger] &data[i]), true)
    &&& k < data.len() ==> call_ensures(predicate, (&time, &data[k]), false)
}

impl<T, D, F: FnMut(&T, &D) -> bool> BatchLogic<T, D, D> for TakeWhileLogic<F> {
    open spec fn role(&self) -> Role {
        Role::TakeWhile
    }

    open spec fn ready(&self) -> bool {
        forall|t: &T, x: &D| #[trigger] call_requires(self.predicate, (t, x))
    }

    open spec fn applies(&self, after: &Self, time: T, data: Seq<D>, out: Seq<D>) -> bool {
        &&& after.predicate == self.predicate
        &&& if self.stopped {
            after.stopped && out.len() == 0
        } else {
            exists|k: int| #[trigger]
                stops_at(self.predicate, time, data, k) && out == data.take(k) && after.stopped
                    == (k < data.len())
        }
    }

    open spec fn sated(&self) -> bool {
        self.stopped
    }

    fn apply(&mut self, time: &T, data: Vec<D>) -> (out: Vec<D>) {
        let mut data = data;
        if self.stopped {
            return Vec::new();
        }
        let ghost given = data@;
        let mut k: usize = 0;
        let mut passing = true;
        while passing && k < data.len()
            invariant
                k <= data@.len(),
                data@ == given,
                self.predicate == old(self).predicate,
                !self.stopped,
                forall|t: &T, x: &D| #[trigger] call_requires(old(self).predicate, (t, x)),
                forall|i: int|
                    0 <= i < k ==> call_ensures(
                        self.predicate,
                        (time, #[trigger] &given[i]),
                        true,
                    ),
                !passing ==> k < data@.len() && call_ensures(
                    self.predicate,
                    (time, &given[k as int]),
                    false,
                ),
            decreases
                    data@.len() - k,
                    (if passing {
                        1int
                    } else {
                        0int
                    }),
        {
            if (self.predicate)(time, &data[k]) {
                k = k + 1;
            } else {
                passing = false;
            }
        }
        assert(stops_at(self.predicate, *time, given, k as int));
        if k < data.len() {
            self.stopped = true;
            data.truncate(k);
        }
        assert(data@ =~= given.take(k as int));
        data
    }

    fn is_sated(&self) -> (b: bool) {
        self.stopped
    }
}

/// Passes batches on as they are.
pub struct PassLogic;

impl<T, D> BatchLogic<T, D, D> for PassLogic {
    open spec fn role(&self) -> Role {
        Role::Pass
    }

    open spec fn ready(&self) -> bool {
        true
    }

    open spec fn applies(&self, after: &Self, time: T, data: Seq<D>, out: Seq<D>) -> bool {
        out == data
    }

    open spec fn sated(&self) -> bool {
        false
    }

    fn apply(&mut self, time: &T, data: Vec<D>) -> (out: Vec<D>) {
        data
    }

    fn is_sated(&self) -> (b: bool) {
        false
    }
}

/// Batches go through a logic one after the other.
pub open spec fn applies_in_turn<T, D, D2, B: BatchLogic<T, D, D2>>(
    states: Seq<B>,
    times: Seq<T>,
    data: Seq<Seq<D>>,
    outs: Seq<Seq<D2>>,
) -> bool {
    &&& states.len() == data.len() + 1
    &&& times.len() == data.len()
    &&& outs.len() == data.len()
    &&& forall|i: int|
        0 <= i < data.len() ==> states[i].applies(
            &states[i + 1],
            times[i],
            data[i],
            #[trigger] outs[i],
        )
}

/// Of all records, however they are divided into batches, just the first ones pass, as many as there
/// should.
pub proof fn take_keeps_the_first<T, D>(
    states: Seq<TakeLogic>,
    times: Seq<T>,
    data: Seq<Seq<D>>,
    outs: Seq<Seq<D>>,
)
    requires
        applies_in_turn::<T, D, D, TakeLogic>(states, times, data, outs),
    ensures
        flattened(outs) == if flattened(data).len() <= states[0].remaining {
            flattened(data)
        } else {
            flattened(data).take(states[0].remaining as int)
        },
        states.last().remaining == if flattened(data).len() <= states[0].remaining {
            states[0].remaining - flattened(data).len()
        } else {
            0
        },
    decreases data.len(),
{
    if data.len() > 0 {
        let n = data.len() - 1;
        assert forall|i: int| 0 <= i < n implies states.drop_last()[i].applies(
            &states.drop_last()[i + 1],
            times.drop_last()[i],
            data.drop_last()[i],
            #[trigger] outs.drop_last()[i],
        ) by {
            assert(outs[i] == outs.drop_last()[i]);
        }
        take_keeps_the_first(
            states.drop_last(),
            times.drop_last(),
            data.drop_last(),
            outs.drop_last(),
        );
        let before = flattened(data.drop_last());
        let all = flattened(data);
        let limit = states[0].remaining as int;
        assert(states[n].applies(&states[n + 1], times[n], data[n], outs[n]));
        if all.len() <= limit {
            assert(flattened(outs) =~= all);
        } else if before.len() <= limit {
            assert(flattened(outs) =~= all.take(limit));
        } else {
            assert(outs[n] =~= Seq::<D>::empty());
            assert(flattened(outs) =~= all.take(limit));
        }
    }
}

/// Of all records, however they are divided into batches, those that pass are the ones at the start.
pub proof fn take_while_keeps_a_prefix<T, D, F: FnMut(&T, &D) -> bool>(
    states: Seq<TakeWhileLogic<F>>,
    times: Seq<T>,
    data: Seq<Seq<D>>,
    outs: Seq<Seq<D>>,
)
    requires
        applies_in_turn::<T, D, D, TakeWhileLogic<F>>(states, times, data, outs),
    ensures
        flattened(outs).is_prefix_of(flattened(data)),
        !states.last().stopped ==> flattened(outs) == flattened(data),
        states[0].stopped ==> states.last().stopped,
    decreases data.len(),
{
    if data.len() > 0 {
        let n = data.len() - 1;
        assert forall|i: int| 0 <= i < n implies states.drop_last()[i].applies(
            &states.drop_last()[i + 1],
            times.drop_last()[i],
            data.drop_last()[i],
            #[trigger] outs.drop_last()[i],
        ) by {
            assert(outs[i] == outs.drop_last()[i]);
        }
        take_while_keeps_a_prefix(
            states.drop_last(),
            times.drop_last(),
            data.drop_last(),
            outs.drop_last(),
        );
        let before = flattened(data.drop_last());
        assert(states[n].applies(&states[n + 1], times[n], data[n], outs[n]));
        if states[n].stopped {
            assert(flattened(outs) =~= flattened(outs.drop_last()));
        } else {
            assert(flattened(outs) =~= before + outs[n]);
        }
        assert(flattened(outs) =~= flattened(data).take(flattened(outs).len() as int));
    }
}

} // verus!
