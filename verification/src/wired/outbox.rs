//! Batches on their way out of an operator.

use std::collections::VecDeque;
use vstd::prelude::*;
use crate::channel::{Channel, ChannelView};
use crate::handles::batches;
use crate::order::Timestamp;

verus! {

/// The contents of channels.
pub open spec fn contents<T, D>(channels: Seq<Channel<T, D>>) -> Seq<ChannelView<T, D>> {
    channels.map_values(|c: Channel<T, D>| c@)
}

/// `b` is `a` or a clone of it.
pub open spec fn same_or_cloned<D: Clone>(a: D, b: D) -> bool {
    a == b || cloned(a, b)
}

/// Batches with the same times whose records are the same or clones of each other.
pub open spec fn copies<T, D: Clone>(a: Seq<(T, Seq<D>)>, b: Seq<(T, Seq<D>)>) -> bool {
    &&& a.len() == b.len()
    &&& forall|i: int| 0 <= i < a.len() ==> is_copy(#[trigger] a[i], b[i])
}

/// A batch with the same time whose records are the same or clones.
pub open spec fn is_copy<T, D: Clone>(a: (T, Seq<D>), b: (T, Seq<D>)) -> bool {
    &&& a.0 == b.0
    &&& a.1.len() == b.1.len()
    &&& forall|i: int| 0 <= i < a.1.len() ==> #[trigger] same_or_cloned(a.1[i], b.1[i])
}

/// The channel received the batches.
pub open spec fn received<T, D: Clone>(
    before: ChannelView<T, D>,
    after: ChannelView<T, D>,
    sent: Seq<(T, Seq<D>)>,
) -> bool {
    if before.abandoned {
        after == before
    } else {
        &&& after.capacity == before.capacity
        &&& after.closed == before.closed
        &&& !after.abandoned
        &&& after.batches.len() == before.batches.len() + sent.len()
        &&& after.batches.take(before.batches.len() as int) == before.batches
        &&& copies(sent, after.batches.skip(before.batches.len() as int))
    }
}

/// All channels received the batches.
pub open spec fn all_received<T, D: Clone>(
    before: Seq<ChannelView<T, D>>,
    after: Seq<ChannelView<T, D>>,
    sent: Seq<(T, Seq<D>)>,
) -> bool {
    &&& after.len() == before.len()
    &&& forall|j: int| 0 <= j < before.len() ==> received(#[trigger] before[j], after[j], sent)
}

/// All channels take a batch now.
pub open spec fn all_have_room<T, D>(channels: Seq<ChannelView<T, D>>) -> bool {
    forall|j: int| 0 <= j < channels.len() ==> (#[trigger] channels[j]).has_room()
}

/// As many batches as possible were sent to all channels, oldest first: a batch is sent when all
/// channels have room for it, and is forgotten if there is no channel.
pub open spec fn sends<T, D: Clone>(
    pending: Seq<(T, Seq<D>)>,
    before: Seq<ChannelView<T, D>>,
    left: Seq<(T, Seq<D>)>,
    after: Seq<ChannelView<T, D>>,
) -> bool {
    let k = pending.len() - left.len();
    &&& 0 <= k
    &&& left == pending.skip(k)
    &&& all_received(before, after, pending.take(k))
    &&& left.len() > 0 ==> !all_have_room(after)
}

/// A channel can hold as much as before, and was not abandoned in between.
pub open spec fn same_bounds<T, D>(before: ChannelView<T, D>, after: ChannelView<T, D>) -> bool {
    &&& after.capacity == before.capacity
    &&& after.abandoned ==> before.abandoned
}

/// All channels can hold as much as before, and none was abandoned in between.
pub open spec fn all_same_bounds<T, D>(
    before: Seq<ChannelView<T, D>>,
    after: Seq<ChannelView<T, D>>,
) -> bool {
    &&& after.len() == before.len()
    &&& forall|j: int| 0 <= j < before.len() ==> same_bounds(before[j], #[trigger] after[j])
}

fn have_room<T, D>(outputs: &Vec<Channel<T, D>>) -> (b: bool)
    ensures
        b == all_have_room(contents(outputs@)),
{
    let mut j: usize = 0;
    while j < outputs.len()
        invariant
            j <= outputs@.len(),
            forall|i: int| 0 <= i < j ==> (#[trigger] contents(outputs@)[i]).has_room(),
        decreases outputs@.len() - j,
    {
        if !outputs[j].has_room() {
            assert(!contents(outputs@)[j as int].has_room());
            return false;
        }
        j = j + 1;
    }
    true
}

/// A copy of records.
pub(crate) fn clone_batch<D: Clone>(data: &Vec<D>) -> (out: Vec<D>)
    ensures
        out@.len() == data@.len(),
        forall|i: int| 0 <= i < data@.len() ==> #[trigger] same_or_cloned(data@[i], out@[i]),
{
    let mut out: Vec<D> = Vec::new();
    let mut i: usize = 0;
    while i < data.len()
        invariant
            i <= data@.len(),
            out@.len() == i,
            forall|k: int| 0 <= k < i ==> #[trigger] same_or_cloned(data@[k], out@[k]),
        decreases data@.len() - i,
    {
        out.push(data[i].clone());
        i = i + 1;
    }
    out
}

/// The channel received one batch.
proof fn lemma_received_one<T, D: Clone>(
    before: ChannelView<T, D>,
    time: T,
    data: Seq<D>,
    copy: Seq<D>,
)
    requires
        is_copy((time, data), (time, copy)),
    ensures
        received(before, before.pushed(time, copy), seq![(time, data)]),
{
    let after = before.pushed(time, copy);
    if !before.abandoned {
        let n = before.batches.len() as int;
        assert(after.batches.take(n) =~= before.batches);
        assert(after.batches.skip(n) =~= seq![(time, copy)]);
    }
}

/// The channel received first these and then those batches.
pub(crate) proof fn lemma_received_more<T, D: Clone>(
    a: ChannelView<T, D>,
    b: ChannelView<T, D>,
    c: ChannelView<T, D>,
    first: Seq<(T, Seq<D>)>,
    second: Seq<(T, Seq<D>)>,
)
    requires
        received(a, b, first),
        received(b, c, second),
    ensures
        received(a, c, first + second),
{
    if !a.abandoned {
        let n = a.batches.len() as int;
        let m = b.batches.len() as int;
        assert(c.batches.take(n) =~= a.batches) by {
            assert(c.batches.take(n) =~= c.batches.take(m).take(n));
        }
        assert forall|i: int| 0 <= i < (first + second).len() implies is_copy(
            #[trigger] (first + second)[i],
            c.batches.skip(n)[i],
        ) by {
            if i < first.len() {
                assert(is_copy(first[i], b.batches.skip(n)[i]));
                assert(c.batches.take(m)[n + i] == b.batches[n + i]);
            } else {
                assert(is_copy(second[i - first.len()], c.batches.skip(m)[i - first.len()]));
            }
        }
    }
}

/// Pushes a batch to all channels, which have room for it. All but the last get clones.
fn push_to_all<T: Timestamp, D: Clone>(time: T, data: Vec<D>, outputs: &mut Vec<Channel<T, D>>)
    requires
        all_have_room(contents(old(outputs)@)),
    ensures
        all_received(
            contents(old(outputs)@),
            contents(final(outputs)@),
            seq![(time, data@)],
        ),
{
    let n: usize = outputs.len();
    if n == 0 {
        return;
    }
    let last: usize = n - 1;
    let ghost before = contents(outputs@);
    let ghost sent = seq![(time, data@)];
    let mut j: usize = 0;
    while j < last
        invariant
            j <= last,
            last + 1 == n,
            n == outputs@.len(),
            before.len() == n,
            sent == seq![(time, data@)],
            all_have_room(before),
            forall|i: int|
                0 <= i < j ==> received(#[trigger] before[i], contents(outputs@)[i], sent),
            forall|i: int| j <= i < n ==> contents(outputs@)[i] == #[trigger] before[i],
        decreases last - j,
    {
        let copy = clone_batch(&data);
        let ghost mid = contents(outputs@);
        assert(before[j as int].has_room());
        let _ = outputs[j].try_push(time.duplicate(), copy);
        proof {
            lemma_received_one(before[j as int], time, data@, copy@);
            assert forall|i: int| 0 <= i < n && i != j implies #[trigger] contents(outputs@)[i]
                == mid[i] by {}
        }
        j = j + 1;
    }
    let ghost mid = contents(outputs@);
    let ghost given = data@;
    assert(before[last as int].has_room());
    let _ = outputs[last].try_push(time, data);
    proof {
        lemma_received_one(before[last as int], time, given, given);
        assert forall|i: int| 0 <= i < n && i != last implies #[trigger] contents(outputs@)[i]
            == mid[i] by {}
    }
}

/// Sends as many batches as possible to all channels. Returns whether one was sent.
pub fn send_batches<T: Timestamp, D: Clone>(
    pending: &mut VecDeque<(T, Vec<D>)>,
    outputs: &mut Vec<Channel<T, D>>,
) -> (sent: bool)
    ensures
        sends(
            batches(old(pending)@),
            contents(old(outputs)@),
            batches(final(pending)@),
            contents(final(outputs)@),
        ),
        sent == (final(pending)@.len() < old(pending)@.len()),
        final(outputs)@.len() == old(outputs)@.len(),
        all_same_bounds(contents(old(outputs)@), contents(final(outputs)@)),
{
    let ghost given = batches(pending@);
    let ghost before = contents(outputs@);
    let ghost mut k: int = 0;
    let mut sent = false;
    proof {
        assert(given.skip(0) =~= given);
        assert forall|j: int| 0 <= j < before.len() implies received(
            #[trigger] before[j],
            before[j],
            given.take(0),
        ) by {
            let n = before[j].batches.len() as int;
            assert(before[j].batches.take(n) =~= before[j].batches);
        }
    }
    while pending.len() > 0 && have_room(outputs)
        invariant
            0 <= k <= given.len(),
            batches(pending@) == given.skip(k),
            all_received(before, contents(outputs@), given.take(k)),
            sent == (k > 0),
        decreases pending@.len(),
    {
        let ghost left = batches(pending@);
        let ghost mid = contents(outputs@);
        match pending.pop_front() {
            Some((time, data)) => {
                assert((time, data@) == left[0]);
                assert(batches(pending@) =~= left.drop_first());
                push_to_all(time, data, outputs);
                proof {
                    let one = seq![(time, data@)];
                    assert(given.take(k + 1) =~= given.take(k) + one);
                    assert(given.skip(k + 1) =~= left.drop_first());
                    let after = contents(outputs@);
                    assert forall|j: int| 0 <= j < before.len() implies received(
                        #[trigger] before[j],
                        after[j],
                        given.take(k + 1),
                    ) by {
                        assert(received(mid[j], after[j], one));
                        lemma_received_more(before[j], mid[j], after[j], given.take(k), one);
                    }
                    k = k + 1;
                }
                sent = true;
            },
            None => {},
        }
    }
    proof {
        let after = contents(outputs@);
        assert forall|j: int| 0 <= j < before.len() implies same_bounds(
            before[j],
            #[trigger] after[j],
        ) by {
            assert(received(before[j], after[j], given.take(k)));
        }
    }
    sent
}

} // verus!
