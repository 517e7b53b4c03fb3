//! Streams that are merged.

use vstd::multiset::Multiset;
use vstd::prelude::*;
use crate::channel::ChannelView;
use crate::error::Result;
use crate::handles::{batches, without_empty};
use crate::operators::concat::merged;
use crate::order::Timestamp;
use crate::schedulable::ActivationOutcome;
use crate::wired::composing::{clones_are_equal, lemma_equal_copies};
use crate::wired::joins::{queued, MergeCourse, MergeView};
use crate::wired::operator::{LogReceipt, MergeCore, MergeTraffic};
use crate::wired::outbox::{lemma_received_more, received};
use crate::wired::passage::{
    all_taken, lemma_end_is_read, readers_miss_nothing, taken, Reading, Writing,
};
use crate::wired::splitting::records;

verus! {

/// All of it together.
pub open spec fn together<X>(parts: Seq<Multiset<X>>) -> Multiset<X>
    decreases parts.len(),
{
    if parts.len() == 0 {
        Multiset::empty()
    } else {
        together(parts.drop_last()).add(parts.last())
    }
}

proof fn lemma_together_more<X>(a: Seq<Multiset<X>>, b: Seq<Multiset<X>>, c: Seq<Multiset<X>>)
    requires
        a.len() == b.len(),
        c.len() == a.len(),
        forall|k: int| 0 <= k < a.len() ==> #[trigger] c[k] == a[k].add(b[k]),
    ensures
        together(c) == together(a).add(together(b)),
    decreases a.len(),
{
    if a.len() > 0 {
        lemma_together_more(a.drop_last(), b.drop_last(), c.drop_last());
    }
    assert(together(c) =~= together(a).add(together(b)));
}

proof fn lemma_together_nothing<X>(a: Seq<Multiset<X>>)
    requires
        forall|k: int| 0 <= k < a.len() ==> #[trigger] a[k] == Multiset::<X>::empty(),
    ensures
        together(a) == Multiset::<X>::empty(),
    decreases a.len(),
{
    if a.len() > 0 {
        lemma_together_nothing(a.drop_last());
    }
    assert(together(a) =~= Multiset::<X>::empty());
}

proof fn lemma_records_both<T, D>(a: Seq<(T, Seq<D>)>, b: Seq<(T, Seq<D>)>)
    ensures
        records(a + b) == records(a).add(records(b)),
    decreases b.len(),
{
    if b.len() == 0 {
        assert(a + b =~= a);
    } else {
        assert((a + b).drop_last() =~= a + b.drop_last());
        lemma_records_both(a, b.drop_last());
    }
    assert(records(a + b) =~= records(a).add(records(b)));
}

proof fn lemma_records_filled<T, D>(s: Seq<(T, Seq<D>)>)
    ensures
        records(without_empty(s)) == records(s),
    decreases s.len(),
{
    reveal(Seq::filter);
    if s.len() > 0 {
        lemma_records_filled(s.drop_last());
        let before = without_empty(s.drop_last());
        if s.last().1.len() > 0 {
            assert(before.push(s.last()).drop_last() =~= before);
        }
    }
    assert(records(without_empty(s)) =~= records(s));
}

/// The records of each list of batches.
pub open spec fn records_of_each<T, D>(lists: Seq<Seq<(T, Seq<D>)>>) -> Seq<Multiset<(T, D)>> {
    lists.map_values(|s: Seq<(T, Seq<D>)>| records(s))
}

proof fn lemma_merged<T, D>(inputs: Seq<Seq<(T, Seq<D>)>>)
    ensures
        records(merged(Seq::<(T, Seq<D>)>::empty(), inputs)) == together(records_of_each(inputs)),
    decreases inputs.len(),
{
    if inputs.len() > 0 {
        let less = inputs.drop_last();
        lemma_merged(less);
        lemma_records_both(
            merged(Seq::<(T, Seq<D>)>::empty(), less),
            without_empty(inputs.last()),
        );
        lemma_records_filled(inputs.last());
        assert(records_of_each(inputs).drop_last() =~= records_of_each(less));
    }
    assert(records(merged(Seq::<(T, Seq<D>)>::empty(), inputs)) =~= together(
        records_of_each(inputs),
    ));
}

/// What was taken of each input.
pub open spec fn taken_of_each<T, D>(
    inputs: (Seq<ChannelView<T, D>>, Seq<ChannelView<T, D>>),
) -> Seq<Seq<(T, Seq<D>)>> {
    Seq::new(inputs.0.len(), |k: int| taken((inputs.0[k], inputs.1[k])))
}

proof fn lemma_merge_once<T, D: Clone>(
    before: MergeView<T, D>,
    after: MergeView<T, D>,
    inputs: (Seq<ChannelView<T, D>>, Seq<ChannelView<T, D>>),
    from: ChannelView<T, D>,
    to: ChannelView<T, D>,
    outcome: ActivationOutcome,
) -> (sent: Seq<(T, Seq<D>)>)
    requires
        before.steps(after, inputs, (seq![from], seq![to]), outcome),
        inputs.1.len() == inputs.0.len(),
        !from.abandoned,
    ensures
        forall|k: int|
            0 <= k < inputs.0.len() ==> (#[trigger] inputs.1[k]).batches.len()
                <= inputs.0[k].batches.len(),
        records(before.pending).add(together(records_of_each(taken_of_each(inputs)))) == records(
            sent,
        ).add(records(after.pending)),
        received(from, ChannelView { closed: from.closed, ..to }, sent),
        to.closed == (from.closed || (after.done && !before.done)),
        before.done ==> after == before,
        after.done && !before.done ==> after.pending.len() == 0 && forall|k: int|
            0 <= k < inputs.0.len() ==> (#[trigger] inputs.0[k]).closed
                && inputs.1[k].batches.len() == 0,
{
    let c = choose|c: MergeCourse<T, D>| #[trigger]
        before.steps_by(after, inputs, (seq![from], seq![to]), c, outcome);
    let none = Seq::<(T, Seq<D>)>::empty();
    let waiting = before.pending;
    let each = taken_of_each(inputs);
    assert(seq![to][0] == to);
    assert(seq![from][0] == from);
    if before.done || c.left.len() > 0 {
        assert forall|k: int| 0 <= k < each.len() implies #[trigger] records_of_each(each)[k]
            == Multiset::<(T, D)>::empty() by {
            assert(each[k] =~= none);
        }
        lemma_together_nothing(records_of_each(each));
    }
    if before.done {
        assert(from.batches.take(from.batches.len() as int) =~= from.batches);
        assert(records(waiting).add(Multiset::empty()) =~= records(none).add(
            records(after.pending),
        ));
        none
    } else if c.left.len() > 0 {
        let k = waiting.len() - c.left.len();
        assert(received(seq![from][0], c.mid[0], waiting.take(k)));
        lemma_records_both(waiting.take(k), c.left);
        assert(waiting.take(k) + c.left =~= waiting);
        assert(to == c.mid[0]);
        assert(records(waiting).add(Multiset::empty()) =~= records(waiting));
        waiting.take(k)
    } else {
        let fresh = merged(none, queued(inputs.0));
        let k = fresh.len() - after.pending.len();
        assert(waiting.take(waiting.len() as int) =~= waiting);
        assert(received(seq![from][0], c.mid[0], waiting));
        assert(received(c.mid[0], c.end[0], fresh.take(k)));
        lemma_received_more(from, c.mid[0], c.end[0], waiting, fresh.take(k));
        assert(each =~= queued(inputs.0)) by {
            assert forall|j: int| 0 <= j < each.len() implies each[j] == queued(inputs.0)[j] by {
                assert(inputs.1[j].batches.len() == 0);
                assert(each[j] =~= inputs.0[j].batches);
            }
        }
        lemma_merged(queued(inputs.0));
        let sent = waiting + fresh.take(k);
        assert(sent + after.pending =~= waiting + fresh);
        lemma_records_both(sent, after.pending);
        lemma_records_both(waiting, fresh);
        if after.done {
            assert(seq![to][0] == (ChannelView { closed: true, ..c.end[0] }));
        } else {
            assert(to == c.end[0]);
        }
        assert((ChannelView { closed: from.closed, ..to }) == c.end[0]);
        sent
    }
}

/// The run of an operator that merges streams.
pub struct MergeRun<T, D, P> {
    pub cores: Seq<MergeCore<T, D, P>>,
    pub results: Seq<Result<ActivationOutcome>>,
    pub traffic: Seq<MergeTraffic<T, D>>,
    pub traces: Seq<(Seq<LogReceipt<T, D>>, LogReceipt<T, D>)>,
}

impl<T: Timestamp, D: Clone, P> MergeRun<T, D, P> {
    /// The number of activations.
    pub open spec fn len(self) -> int {
        self.traces.len() as int
    }

    /// The number of inputs.
    pub open spec fn width(self) -> int {
        self.cores[0].inputs@.len() as int
    }

    /// How the input `k` was read.
    pub open spec fn reading(self, k: int) -> Reading<T, D> {
        Reading {
            cells: self.cores.map_values(|c: MergeCore<T, D, P>| c.inputs@[k]),
            found: self.traces.map_values(
                |t: (Seq<LogReceipt<T, D>>, LogReceipt<T, D>)| t.0[k],
            ),
            places: self.traffic.map_values(|t: MergeTraffic<T, D>| t.places[k]),
            inputs: self.traffic.map_values(
                |t: MergeTraffic<T, D>| (t.inputs.0[k], t.inputs.1[k]),
            ),
        }
    }

    /// How the output was written.
    pub open spec fn writing(self) -> Writing<T, D> {
        Writing {
            wrote: self.traces.map_values(
                |t: (Seq<LogReceipt<T, D>>, LogReceipt<T, D>)| t.1,
            ),
        }
    }

    /// The `i`-th activation.
    pub open spec fn works_at(self, i: int) -> bool {
        self.cores[i].works_by(
            &self.cores[i + 1],
            self.results[i],
            self.traffic[i],
            self.traces[i],
        )
    }

    /// The log of the input `k` went on before the `i`-th activation, and nothing was forgotten that
    /// was not read.
    pub open spec fn goes_on_at(self, i: int, k: int) -> bool {
        &&& i > 0 ==> self.traces[i - 1].0[k].before()@.leads_to(self.traces[i].0[k].before()@)
        &&& self.traces[i].0[k].before()@.past.len() <= self.cores[i].inputs@[k].cursor()
    }

    /// The activations follow each other. To the log that is written nobody else wrote.
    pub open spec fn wf(self) -> bool {
        let n = self.len();
        &&& n > 0
        &&& self.cores.len() == n + 1
        &&& self.results.len() == n
        &&& self.traffic.len() == n
        &&& forall|i: int| 0 <= i < n ==> #[trigger] self.works_at(i)
        &&& forall|i: int, k: int|
            0 <= i < n && 0 <= k < self.width() ==> #[trigger] self.goes_on_at(i, k)
        &&& forall|k: int|
            0 <= k < self.width() ==> (#[trigger] self.cores[0].inputs@[k]).cursor() == 0
        &&& self.writing().wf()
        &&& self.writing().log(0).is_fresh()
        &&& self.cores[0].state.outbox@.len() == 0
        &&& !self.cores[0].state.done
    }

    /// What was taken of each input in the first `n` activations.
    pub open spec fn taken_by(self, n: int) -> Seq<Seq<(T, Seq<D>)>> {
        Seq::new(self.width() as nat, |k: int| all_taken(self.reading(k).inputs, n))
    }

    /// What was sent through the input `k`, as it was found last.
    pub open spec fn given(self, k: int) -> Seq<(T, Seq<D>)> {
        self.traces.last().0[k].before()@.written()
    }
}

/// An operator that merges streams, at any moment: what was sent and what waits for room are, together,
/// all records that were taken of the streams, each under its time. Clones are equal.
pub proof fn merges_lose_nothing<T: Timestamp, D: Clone, P>(run: MergeRun<T, D, P>, n: int)
    requires
        clones_are_equal::<D>(),
        run.wf(),
        0 <= n <= run.len(),
    ensures
        run.cores[n].inputs@.len() == run.width(),
        forall|i: int, k: int|
            0 <= i < n && 0 <= k < run.width() ==> (
            #[trigger] run.traffic[i].inputs.1[k]).batches.len()
                <= run.traffic[i].inputs.0[k].batches.len(),
        records(run.writing().log(n).written()).add(
            records(batches(run.cores[n].state.outbox@)),
        ) == together(records_of_each(run.taken_by(n))),
        run.cores[n].state.done ==> run.cores[n].state.outbox@.len() == 0
            && run.writing().log(n).channel.closed && exists|j: int|
            0 <= j < n && #[trigger] ends_at(run, j),
    decreases n,
{
    let none = Seq::<(T, Seq<D>)>::empty();
    let w = run.writing();
    if n == 0 {
        assert(batches(run.cores[0].state.outbox@) =~= none);
        assert(w.log(0).written() =~= none);
        assert forall|k: int| 0 <= k < run.width() implies #[trigger] records_of_each(
            run.taken_by(0),
        )[k] == Multiset::<(T, D)>::empty() by {
            assert(run.taken_by(0)[k] == none);
        }
        lemma_together_nothing(records_of_each(run.taken_by(0)));
        assert(records(none).add(records(none)) =~= Multiset::<(T, D)>::empty());
    } else {
        let i = n - 1;
        merges_lose_nothing(run, i);
        assert(run.works_at(i));
        let a = run.cores[i].state@;
        let b = run.cores[n].state@;
        let t = run.traffic[i];
        let before = run.traces[i].1.before()@;
        let after = run.traces[i].1.after()@;
        assert(w.wrote[i] == run.traces[i].1);
        let sent = lemma_merge_once(
            a,
            b,
            t.inputs,
            before.channel,
            after.channel,
            run.results[i]->Ok_0,
        );
        let m = before.channel.batches.len() as int;
        lemma_equal_copies(sent, after.channel.batches.skip(m));
        assert(after.channel.batches =~= before.channel.batches + sent) by {
            assert(after.channel.batches =~= after.channel.batches.take(m)
                + after.channel.batches.skip(m));
        }
        assert(after.written() =~= before.written() + sent);
        if n < run.len() {
            assert(w.wrote[n] == run.traces[n].1);
            assert(w.wrote[n - 1].after()@.written() == w.wrote[n].before()@.written());
        }
        lemma_records_both(before.written(), sent);
        let old_parts = records_of_each(run.taken_by(i));
        let new_parts = records_of_each(taken_of_each(t.inputs));
        let all_parts = records_of_each(run.taken_by(n));
        assert forall|k: int| 0 <= k < old_parts.len() implies #[trigger] all_parts[k]
            == old_parts[k].add(new_parts[k]) by {
            assert(run.reading(k).inputs[i] == (t.inputs.0[k], t.inputs.1[k]));
            lemma_records_both(
                all_taken(run.reading(k).inputs, i),
                taken((t.inputs.0[k], t.inputs.1[k])),
            );
        }
        lemma_together_more(old_parts, new_parts, all_parts);
        let x = records(before.written());
        let y = records(a.pending);
        let s = records(sent);
        let z = records(b.pending);
        let p = together(new_parts);
        assert(y.add(p) == s.add(z));
        assert(x.add(s).add(z) =~= x.add(s.add(z)));
        assert(x.add(y).add(p) =~= x.add(y.add(p)));
        if run.cores[n].state.done {
            if run.cores[i].state.done {
                let j = choose|j: int| 0 <= j < i && #[trigger] ends_at(run, j);
                assert(ends_at(run, j));
            } else {
                assert(ends_at(run, i));
            }
        }
    }
}

/// In the `j`-th activation all inputs had ended, and everything was taken.
pub open spec fn ends_at<T: Timestamp, D: Clone, P>(run: MergeRun<T, D, P>, j: int) -> bool {
    forall|k: int|
        0 <= k < run.width() ==> (#[trigger] run.traffic[j].inputs.0[k]).closed
            && run.traffic[j].inputs.1[k].batches.len() == 0
}

/// An operator that merges streams and is through has sent each record of each stream once, under its
/// time, and nothing else, and closed its output. Clones are equal.
pub proof fn merges_pass_everything<T: Timestamp, D: Clone, P>(run: MergeRun<T, D, P>)
    requires
        clones_are_equal::<D>(),
        run.wf(),
        run.cores.last().state.done,
    ensures
        records(run.traces.last().1.after()@.written()) == together(
            Seq::new(run.width() as nat, |k: int| records(run.given(k))),
        ),
        run.traces.last().1.after()@.channel.closed,
        forall|k: int|
            0 <= k < run.width() ==> (
            #[trigger] run.traces.last().0[k]).before()@.channel.closed,
{
    let n = run.len();
    merges_lose_nothing(run, n);
    let j = choose|j: int| 0 <= j < n && #[trigger] ends_at(run, j);
    let all = Seq::new(run.width() as nat, |k: int| records(run.given(k)));
    assert forall|k: int| 0 <= k < run.width() implies run.taken_by(n)[k] == run.given(k)
        && run.traces[n - 1].0[k].before()@.channel.closed by {
        let r = run.reading(k);
        assert forall|i: int| 0 <= i < n implies #[trigger] r.reads_at(i) by {
            merges_lose_nothing(run, i);
            assert(run.works_at(i));
            assert(run.goes_on_at(i, k));
            assert(run.cores[i + 1].inputs@[k] == r.cells[i + 1]);
            assert(run.traffic[i].inputs.1[k].batches.len()
                <= run.traffic[i].inputs.0[k].batches.len());
        }
        assert forall|i: int| 0 < i < n implies r.found[i - 1].before()@.leads_to(
            (#[trigger] r.found[i]).before()@,
        ) by {
            assert(run.goes_on_at(i, k));
        }
        assert(run.cores[0].inputs@[k].cursor() == 0);
        assert(r.wf());
        assert(r.inputs[j] == (run.traffic[j].inputs.0[k], run.traffic[j].inputs.1[k]));
        readers_miss_nothing(r, n);
        assert(run.traffic[j].inputs.0[k].closed);
        lemma_end_is_read(r, j, n);
        let given = r.log(n - 1).written();
        assert(given.subrange(0, given.len() as int) =~= given);
        lemma_equal_copies(given, all_taken(r.inputs, n));
    }
    assert(records_of_each(run.taken_by(n)) =~= all) by {
        assert forall|k: int| 0 <= k < run.width() implies records_of_each(run.taken_by(n))[k]
            == all[k] by {
            assert(run.taken_by(n)[k] == run.given(k));
        }
    }
    assert(batches(run.cores[n].state.outbox@) =~= Seq::<(T, Seq<D>)>::empty());
    assert(run.writing().log(n) == run.traces[n - 1].1.after()@);
    let out = records(run.traces[n - 1].1.after()@.written());
    assert(out.add(Multiset::empty()) =~= out);
    assert forall|k: int| 0 <= k < run.width() implies (
    #[trigger] run.traces.last().0[k]).before()@.channel.closed by {
        assert(run.taken_by(n)[k] == run.given(k));
    }
}

} // verus!
