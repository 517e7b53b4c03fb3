//! Batches make their way through operators.
//!
//! The laws here speak of whole runs: of the activations of an operator, one after the other, with
//! whatever room there is in between.

use vstd::prelude::*;
use crate::builder::DataflowBuilder;
use crate::channel::ChannelView;
use crate::error::Result;
use crate::handles::{batches, InputView};
use crate::order::Timestamp;
use crate::pipe::Pipe;
use crate::ports::collects;
use crate::schedulable::ActivationOutcome;
use crate::shared::{Anything, Receipt, Shared};
use crate::strand::{ChannelCell, LogView};
use crate::wired::logic::BatchLogic;
use crate::wired::operator::{
    reads, runs, AsIs, CollectCore, LogReceipt, RelayCore, SinkTraffic, SourceCore, Traffic,
};
use crate::wired::outbox::{copies, is_copy, lemma_received_more, received, sends};
use crate::wired::relay::{
    applies_all, applies_at, made_batches, Batched, RelayCourse, RelayLogic, RelayState,
};
use crate::wired::streams::{leads_all, lemma_retimed_same, retimed, RetimeLogic, TimeChange};

verus! {

/// What was taken of what was seen.
pub open spec fn taken<T, D>(input: (ChannelView<T, D>, ChannelView<T, D>)) -> Seq<(T, Seq<D>)> {
    input.0.batches.take(input.0.batches.len() - input.1.batches.len())
}

/// What was taken, the first `n` times.
pub open spec fn all_taken<T, D>(
    inputs: Seq<(ChannelView<T, D>, ChannelView<T, D>)>,
    n: int,
) -> Seq<(T, Seq<D>)>
    decreases n,
{
    if n <= 0 {
        Seq::empty()
    } else {
        all_taken(inputs, n - 1) + taken(inputs[n - 1])
    }
}

/// How a reader went through a log: as it was before the first time, between them and after the last;
/// what it found each time, and what it took.
pub struct Reading<T, D> {
    pub cells: Seq<ChannelCell<T, D>>,
    pub found: Seq<LogReceipt<T, D>>,
    pub places: Seq<int>,
    pub inputs: Seq<(ChannelView<T, D>, ChannelView<T, D>)>,
}

impl<T, D: Clone> Reading<T, D> {
    /// The reader read each time, the log went on in between, and nothing was forgotten that the
    /// reader had not read.
    pub open spec fn wf(self) -> bool {
        let n = self.found.len();
        &&& n > 0
        &&& self.cells.len() == n + 1
        &&& self.places.len() == n
        &&& self.inputs.len() == n
        &&& forall|i: int| 0 <= i < n ==> #[trigger] self.reads_at(i)
        &&& forall|i: int|
            0 < i < n ==> self.found[i - 1].before()@.leads_to(
                (#[trigger] self.found[i]).before()@,
            )
        &&& self.cells[0].cursor() <= self.log(0).written().len()
    }

    /// The reader read the `i`-th time.
    pub open spec fn reads_at(self, i: int) -> bool {
        &&& reads(
            self.cells[i],
            self.cells[i + 1],
            self.found[i],
            self.places[i],
            self.inputs[i],
        )
        &&& self.inputs[i].1.batches.len() <= self.inputs[i].0.batches.len()
        &&& self.log(i).past.len() <= self.cells[i].cursor()
    }

    /// What the reader found the `i`-th time.
    pub open spec fn log(self, i: int) -> LogView<T, D> {
        self.found[i].before()@
    }
}

proof fn lemma_reads_once<T, D: Clone>(r: Reading<T, D>, i: int)
    requires
        r.wf(),
        0 <= i < r.found.len(),
        r.cells[i].cursor() <= r.log(i).written().len(),
    ensures
        r.cells[i].cursor() <= r.cells[i + 1].cursor() <= r.log(i).written().len(),
        copies(
            r.log(i).written().subrange(
                r.cells[i].cursor() as int,
                r.cells[i + 1].cursor() as int,
            ),
            taken(r.inputs[i]),
        ),
        r.inputs[i].0.closed && r.inputs[i].1.batches.len() == 0 ==> r.log(i).channel.closed
            && r.cells[i + 1].cursor() == r.log(i).written().len(),
{
    assert(r.reads_at(i));
    let all = r.log(i).written();
    let at = r.places[i];
    let c = r.inputs[i].0;
    let rest = all.skip(at);
    assert(at == r.cells[i].cursor());
    let part = all.subrange(r.cells[i].cursor() as int, r.cells[i + 1].cursor() as int);
    assert forall|k: int| 0 <= k < part.len() implies is_copy(
        #[trigger] part[k],
        taken(r.inputs[i])[k],
    ) by {
        let n = c.batches.len() as int;
        assert(rest.take(n)[k] == part[k]);
        assert(is_copy(rest.take(n)[k], c.batches[k]));
    }
}

/// A reader takes copies of what was sent, in order: nothing is left out and nothing comes twice.
pub proof fn readers_miss_nothing<T, D: Clone>(r: Reading<T, D>, n: int)
    requires
        r.wf(),
        0 < n <= r.found.len(),
    ensures
        r.cells[0].cursor() <= r.cells[n].cursor() <= r.log(n - 1).written().len(),
        copies(
            r.log(n - 1).written().subrange(
                r.cells[0].cursor() as int,
                r.cells[n].cursor() as int,
            ),
            all_taken(r.inputs, n),
        ),
    decreases n,
{
    let start = r.cells[0].cursor() as int;
    let mid = r.cells[n - 1].cursor() as int;
    let all = r.log(n - 1).written();
    let before = all_taken(r.inputs, n - 1);
    if n > 1 {
        readers_miss_nothing(r, n - 1);
        let shorter = r.log(n - 2).written();
        assert(r.found[n - 2].before()@.leads_to(r.found[n - 1].before()@));
        assert(all.subrange(start, mid) =~= shorter.subrange(start, mid)) by {
            assert forall|k: int| start <= k < mid implies all[k] == shorter[k] by {
                assert(all.take(shorter.len() as int)[k] == all[k]);
            }
        }
    } else {
        assert(all.subrange(start, mid) =~= Seq::<(T, Seq<D>)>::empty());
    }
    lemma_reads_once(r, n - 1);
    let end = r.cells[n].cursor() as int;
    let whole = all.subrange(start, end);
    let last = taken(r.inputs[n - 1]);
    assert forall|k: int| 0 <= k < whole.len() implies is_copy(
        #[trigger] whole[k],
        (before + last)[k],
    ) by {
        if k < mid - start {
            assert(is_copy(all.subrange(start, mid)[k], before[k]));
        } else {
            let j = k - (mid - start);
            assert(is_copy(all.subrange(mid, end)[j], last[j]));
        }
    }
}

/// How a writer added to a log, each time.
pub struct Writing<T, D> {
    pub wrote: Seq<LogReceipt<T, D>>,
}

impl<T, D> Writing<T, D> {
    /// Nobody else sent anything in between, and someone reads.
    pub open spec fn wf(self) -> bool {
        let n = self.wrote.len();
        &&& n > 0
        &&& forall|i: int|
            0 < i < n ==> {
                let a = self.wrote[i - 1].after()@;
                let b = (#[trigger] self.wrote[i]).before()@;
                a.written() == b.written() && a.channel.closed == b.channel.closed
            }
        &&& forall|i: int| 0 <= i < n ==> !(#[trigger] self.wrote[i]).before()@.channel.abandoned
    }

    /// What the log held before the writer wrote the `i`-th time, or after it wrote the last time.
    pub open spec fn log(self, i: int) -> LogView<T, D> {
        if i < self.wrote.len() {
            self.wrote[i].before()@
        } else {
            self.wrote[i - 1].after()@
        }
    }
}

/// What was sent came behind what was there.
proof fn lemma_sent_more<T, D: Clone>(
    first: Seq<(T, Seq<D>)>,
    sent: Seq<(T, Seq<D>)>,
    more: Seq<(T, Seq<D>)>,
    before: LogView<T, D>,
    after: LogView<T, D>,
)
    requires
        first.len() <= before.written().len(),
        before.written().take(first.len() as int) == first,
        copies(sent, before.written().skip(first.len() as int)),
        after == (LogView { channel: after.channel, ..before }),
        !before.channel.abandoned,
        received(
            before.channel,
            ChannelView { closed: before.channel.closed, ..after.channel },
            more,
        ),
    ensures
        first.len() <= after.written().len(),
        after.written().take(first.len() as int) == first,
        copies(sent + more, after.written().skip(first.len() as int)),
        before.written().len() <= after.written().len(),
        after.written().take(before.written().len() as int) == before.written(),
{
    let n = first.len() as int;
    let m = before.channel.batches.len() as int;
    let old_part = before.channel.batches;
    let new_part = after.channel.batches;
    assert forall|k: int| 0 <= k < before.written().len() implies after.written()[k]
        == before.written()[k] by {
        if k >= before.past.len() {
            assert(new_part.take(m)[k - before.past.len()] == old_part[k - before.past.len()]);
        }
    }
    assert(after.written().take(before.written().len() as int) =~= before.written());
    assert(after.written().take(n) =~= first) by {
        assert forall|k: int| 0 <= k < n implies after.written()[k] == first[k] by {
            assert(before.written().take(n)[k] == first[k]);
        }
    }
    let behind = after.written().skip(n);
    assert forall|k: int| 0 <= k < (sent + more).len() implies is_copy(
        #[trigger] (sent + more)[k],
        behind[k],
    ) by {
        if k < sent.len() {
            assert(is_copy(sent[k], before.written().skip(n)[k]));
        } else {
            let j = k - sent.len();
            assert(is_copy(more[j], new_part.skip(m)[j]));
        }
    }
}

/// What a logic makes of batches, one after the other, and what becomes of it.
pub open spec fn turns<T, D, D2, B: BatchLogic<T, D, D2>>(
    from: B,
    to: B,
    given: Seq<(T, Seq<D>)>,
    out: Seq<(T, Seq<D2>)>,
) -> bool {
    exists|states: Seq<B>, made: Seq<Seq<D2>>| #[trigger]
        applies_all(states, given, made) && states[0] == from && states.last() == to && out
            == made_batches(given, made)
}

proof fn lemma_turns_nothing<T, D, D2, B: BatchLogic<T, D, D2>>(logic: B)
    ensures
        turns(logic, logic, Seq::<(T, Seq<D>)>::empty(), Seq::<(T, Seq<D2>)>::empty()),
{
    let none = Seq::<(T, Seq<D>)>::empty();
    let made = Seq::<Seq<D2>>::empty();
    assert(made_batches(none, made) =~= Seq::<(T, Seq<D2>)>::empty());
    assert(applies_all(seq![logic], none, made));
}

proof fn lemma_made_more<T, D, D2>(
    a: Seq<(T, Seq<D>)>,
    b: Seq<(T, Seq<D>)>,
    x: Seq<Seq<D2>>,
    y: Seq<Seq<D2>>,
)
    requires
        a.len() == x.len(),
        b.len() <= y.len(),
    ensures
        made_batches(a + b, x + y) == made_batches(a, x) + made_batches(b, y),
    decreases b.len(),
{
    if b.len() == 0 {
        assert(a + b =~= a);
        lemma_made_prefix_only(a, x, x + y);
        assert(made_batches(a, x) + made_batches(b, y) =~= made_batches(a, x));
    } else {
        lemma_made_more(a, b.drop_last(), x, y);
        assert((a + b).drop_last() =~= a + b.drop_last());
        assert((x + y)[a.len() + b.len() - 1] == y[b.len() - 1]);
        assert(made_batches(a + b, x + y) =~= made_batches(a, x) + made_batches(b, y));
    }
}

proof fn lemma_made_prefix_only<T, D, D2>(
    given: Seq<(T, Seq<D>)>,
    a: Seq<Seq<D2>>,
    b: Seq<Seq<D2>>,
)
    requires
        given.len() <= a.len() <= b.len(),
        forall|i: int| 0 <= i < given.len() ==> a[i] == b[i],
    ensures
        made_batches(given, a) == made_batches(given, b),
    decreases given.len(),
{
    if given.len() > 0 {
        lemma_made_prefix_only(given.drop_last(), a, b);
    }
}

/// What a logic makes of some batches and then of others is what it makes of them all.
pub proof fn turns_go_on<T, D, D2, B: BatchLogic<T, D, D2>>(
    a: B,
    b: B,
    c: B,
    first: Seq<(T, Seq<D>)>,
    second: Seq<(T, Seq<D>)>,
    out: Seq<(T, Seq<D2>)>,
    more: Seq<(T, Seq<D2>)>,
)
    requires
        turns(a, b, first, out),
        turns(b, c, second, more),
    ensures
        turns(a, c, first + second, out + more),
{
    let (s1, m1) = choose|states: Seq<B>, made: Seq<Seq<D2>>| #[trigger]
        applies_all(states, first, made) && states[0] == a && states.last() == b && out
            == made_batches(first, made);
    let (s2, m2) = choose|states: Seq<B>, made: Seq<Seq<D2>>| #[trigger]
        applies_all(states, second, made) && states[0] == b && states.last() == c && more
            == made_batches(second, made);
    let states = s1 + s2.drop_first();
    let made = m1 + m2;
    let given = first + second;
    assert forall|i: int| 0 <= i < given.len() implies #[trigger] applies_at(
        states,
        given,
        made,
        i,
    ) by {
        if i < first.len() {
            assert(applies_at(s1, first, m1, i));
            assert(states[i] == s1[i]);
            assert(states[i + 1] == s1[i + 1]);
        } else {
            let j = i - first.len();
            assert(applies_at(s2, second, m2, j));
            assert(states[i] == s2[j]);
            assert(states[i + 1] == s2[j + 1]);
        }
    }
    lemma_made_more(first, second, m1, m2);
    assert(states.last() == c);
    assert(applies_all(states, given, made));
}

/// `makes` tells what a logic makes of its input, and what becomes of it: nothing of nothing; of some
/// input and then of more, what it makes of both; and it never fails or leaves input lying about.
#[verifier::opaque]
pub open spec fn tells_course<T1, D1, T2, D2, L: RelayLogic<T1, D1, T2, D2>>(
    makes: spec_fn(L, L, Seq<(T1, Seq<D1>)>, Seq<(T2, Seq<D2>)>) -> bool,
) -> bool {
    &&& forall|l: L| #[trigger]
        makes(l, l, Seq::<(T1, Seq<D1>)>::empty(), Seq::<(T2, Seq<D2>)>::empty())
    &&& forall|
        a: L,
        b: L,
        c: L,
        x: Seq<(T1, Seq<D1>)>,
        y: Seq<(T1, Seq<D1>)>,
        u: Seq<(T2, Seq<D2>)>,
        v: Seq<(T2, Seq<D2>)>,
    |
        #[trigger] makes(a, b, x, u) && #[trigger] makes(b, c, y, v) ==> makes(a, c, x + y, u + v)
    &&& forall|
        a: L,
        b: L,
        input: InputView<T1, D1>,
        rest: InputView<T1, D1>,
        out: Seq<(T2, Seq<D2>)>,
        r: Result<()>,
    | #[trigger]
        a.runs(&b, input, rest, out, r) ==> r is Ok && rest == (InputView {
            pending: Seq::<(T1, Seq<D1>)>::empty(),
            ..input
        }) && makes(a, b, input.pending, out)
}

proof fn lemma_course_starts<T1, D1, T2, D2, L: RelayLogic<T1, D1, T2, D2>>(
    makes: spec_fn(L, L, Seq<(T1, Seq<D1>)>, Seq<(T2, Seq<D2>)>) -> bool,
    l: L,
)
    requires
        tells_course(makes),
    ensures
        makes(l, l, Seq::<(T1, Seq<D1>)>::empty(), Seq::<(T2, Seq<D2>)>::empty()),
{
    reveal(tells_course);
}

proof fn lemma_course_goes_on<T1, D1, T2, D2, L: RelayLogic<T1, D1, T2, D2>>(
    makes: spec_fn(L, L, Seq<(T1, Seq<D1>)>, Seq<(T2, Seq<D2>)>) -> bool,
    logics: (L, L, L),
    x: Seq<(T1, Seq<D1>)>,
    y: Seq<(T1, Seq<D1>)>,
    u: Seq<(T2, Seq<D2>)>,
    v: Seq<(T2, Seq<D2>)>,
)
    requires
        tells_course(makes),
        makes(logics.0, logics.1, x, u),
        makes(logics.1, logics.2, y, v),
    ensures
        makes(logics.0, logics.2, x + y, u + v),
{
    reveal(tells_course);
}

proof fn lemma_course_runs<T1, D1, T2, D2, L: RelayLogic<T1, D1, T2, D2>>(
    makes: spec_fn(L, L, Seq<(T1, Seq<D1>)>, Seq<(T2, Seq<D2>)>) -> bool,
    logics: (L, L),
    input: InputView<T1, D1>,
    rest: InputView<T1, D1>,
    out: Seq<(T2, Seq<D2>)>,
    r: Result<()>,
)
    requires
        tells_course(makes),
        logics.0.runs(&logics.1, input, rest, out, r),
    ensures
        r is Ok,
        rest == (InputView { pending: Seq::<(T1, Seq<D1>)>::empty(), ..input }),
        makes(logics.0, logics.1, input.pending, out),
{
    reveal(tells_course);
}

/// What comes of an activation of an operator: what its logic makes of what it took, and what it sent
/// of that and of what was waiting.
pub(crate) proof fn lemma_activation<T1, D1, T2, D2: Clone, L: RelayLogic<T1, D1, T2, D2>>(
    makes: spec_fn(L, L, Seq<(T1, Seq<D1>)>, Seq<(T2, Seq<D2>)>) -> bool,
    before: RelayState<T1, D1, T2, D2, L>,
    after: RelayState<T1, D1, T2, D2, L>,
    input: (ChannelView<T1, D1>, ChannelView<T1, D1>),
    from: ChannelView<T2, D2>,
    to: ChannelView<T2, D2>,
    r: Result<ActivationOutcome>,
) -> (p: (Seq<(T2, Seq<D2>)>, Seq<(T2, Seq<D2>)>))
    requires
        tells_course(makes),
        before.steps(&after, input, (seq![from], seq![to]), false, r),
        before.input@.pending.len() == 0,
        !from.abandoned,
    ensures
        after.input@.pending.len() == 0,
        input.1.batches.len() <= input.0.batches.len(),
        makes(before.logic, after.logic, taken(input), p.0),
        batches(before.outbox@) + p.0 == p.1 + batches(after.outbox@),
        received(from, ChannelView { closed: from.closed, ..to }, p.1),
        to.closed == (from.closed || (after.done && !before.done)),
        before.done ==> after == before,
        after.done && !before.done ==> after.outbox@.len() == 0 && (after.input@.exhausted
            || after.logic.sated()),
        after.input@.exhausted ==> before.input@.exhausted || (input.0.closed
            && input.1.batches.len() == 0),
{
    let c = choose|c: RelayCourse<T2, D2>| #[trigger]
        before.steps_by(&after, input, (seq![from], seq![to]), false, c, r);
    let none = Seq::<(T2, Seq<D2>)>::empty();
    let waiting = batches(before.outbox@);
    let a = before.logic;
    lemma_course_starts(makes, a);
    assert(seq![to][0] == to);
    assert(seq![from][0] == from);
    if before.done {
        assert(taken(input) =~= Seq::<(T1, Seq<D1>)>::empty());
        assert(from.batches.take(from.batches.len() as int) =~= from.batches);
        assert(to == from);
        assert(waiting + none =~= none + batches(after.outbox@));
        (none, none)
    } else if c.left.len() > 0 {
        let k = waiting.len() - c.left.len();
        assert(received(seq![from][0], c.mid[0], waiting.take(k)));
        assert(taken(input) =~= Seq::<(T1, Seq<D1>)>::empty());
        assert(waiting + none =~= waiting.take(k) + c.left);
        assert(to == c.mid[0]);
        (none, waiting.take(k))
    } else {
        let k = c.out.len() - after.outbox@.len();
        assert(waiting.take(waiting.len() as int) =~= waiting);
        assert(received(seq![from][0], c.mid[0], waiting));
        let offered = before.offered(input.0);
        assert(offered.pending =~= input.0.batches);
        if before.has_work(input.0, false) {
            lemma_course_runs(
                makes,
                (a, after.logic),
                offered,
                after.input@,
                c.out,
                c.answer,
            );
            assert(taken(input) =~= input.0.batches);
        } else {
            assert(c.out =~= none);
            assert(taken(input) =~= Seq::<(T1, Seq<D1>)>::empty());
        }
        let left = batches(after.outbox@);
        assert(left.len() == after.outbox@.len());
        assert(received(c.mid[0], c.end[0], c.out.take(k)));
        lemma_received_more(from, c.mid[0], c.end[0], waiting, c.out.take(k));
        assert(waiting + c.out =~= (waiting + c.out.take(k)) + left);
        if after.done {
            assert(seq![to][0] == (ChannelView { closed: true, ..c.end[0] }));
        } else {
            assert(to == c.end[0]);
        }
        assert((ChannelView { closed: from.closed, ..to }) == c.end[0]);
        (c.out, waiting + c.out.take(k))
    }
}

/// If two receipts are for the same log, the second one was given after the first.
pub open spec fn succeeds<T, D>(first: LogReceipt<T, D>, second: LogReceipt<T, D>) -> bool {
    second.cell() == first.cell() ==> first.after()@.leads_to(second.before()@)
}

/// If two receipts are for the same log, one was given after the other.
pub open spec fn in_some_order<T, D>(a: LogReceipt<T, D>, b: LogReceipt<T, D>) -> bool {
    a.cell() == b.cell() ==> a.before()@.leads_to(b.before()@) || b.before()@.leads_to(a.before()@)
}

/// What an operator makes of what is sent to it: it takes copies, and sends what its logic makes of
/// them.
pub open spec fn passes<T, D: Clone, D2: Clone, B: BatchLogic<T, D, D2>>(
    given: Seq<(T, Seq<D>)>,
    from: B,
    to: B,
    got: Seq<(T, Seq<D2>)>,
) -> bool {
    exists|read: Seq<(T, Seq<D>)>, out: Seq<(T, Seq<D2>)>|
        copies(given, read) && #[trigger] turns(from, to, read, out) && #[trigger] copies(out, got)
}

/// The run of an operator with one input: the operator before the first activation, between them and
/// after the last; what each came to, and the receipts for what was read and written.
pub struct RelayRun<T1, D1, T2, D2, L, P1, P2> {
    pub cores: Seq<RelayCore<T1, D1, T2, D2, L, P1, P2>>,
    pub results: Seq<Result<ActivationOutcome>>,
    pub traffic: Seq<Traffic<T1, D1, T2, D2>>,
    pub traces: Seq<(LogReceipt<T1, D1>, LogReceipt<T2, D2>)>,
}

/// The run of an operator that works batch by batch.
pub type BatchRun<T, D, D2, B> = RelayRun<T, D, T, D2, Batched<B>, AsIs, AsIs>;

impl<
    T1: Timestamp,
    D1: Clone,
    T2: Timestamp,
    D2: Clone,
    L: RelayLogic<T1, D1, T2, D2>,
    P1,
    P2,
> RelayRun<T1, D1, T2, D2, L, P1, P2> {
    /// How the input was read.
    pub open spec fn reading(self) -> Reading<T1, D1> {
        Reading {
            cells: self.cores.map_values(|c: RelayCore<T1, D1, T2, D2, L, P1, P2>| c.input),
            found: self.traces.map_values(|t: (LogReceipt<T1, D1>, LogReceipt<T2, D2>)| t.0),
            places: self.traffic.map_values(|t: Traffic<T1, D1, T2, D2>| t.at),
            inputs: self.traffic.map_values(|t: Traffic<T1, D1, T2, D2>| t.input),
        }
    }

    /// How the output was written.
    pub open spec fn writing(self) -> Writing<T2, D2> {
        Writing {
            wrote: self.traces.map_values(|t: (LogReceipt<T1, D1>, LogReceipt<T2, D2>)| t.1),
        }
    }

    /// The `i`-th activation.
    pub open spec fn works_at(self, i: int) -> bool {
        &&& self.cores[i].works_by(
            &self.cores[i + 1],
            self.results[i],
            self.traffic[i],
            self.traces[i],
        )
        &&& !self.traffic[i].wants
    }

    /// The number of activations.
    pub open spec fn len(self) -> int {
        self.traces.len() as int
    }

    /// The activations follow each other. The log that is read went on in between, and nothing was
    /// forgotten that was not read; to the log that is written nobody else wrote.
    pub open spec fn wf(self) -> bool {
        let n = self.len();
        &&& n > 0
        &&& self.cores.len() == n + 1
        &&& self.results.len() == n
        &&& self.traffic.len() == n
        &&& forall|i: int| 0 <= i < n ==> #[trigger] self.works_at(i)
        &&& forall|i: int|
            0 < i < n ==> self.traces[i - 1].0.before()@.leads_to(
                (#[trigger] self.traces[i]).0.before()@,
            )
        &&& forall|i: int|
            0 <= i < n ==> (#[trigger] self.traces[i]).0.before()@.past.len()
                <= self.cores[i].input.cursor()
        &&& self.writing().wf()
        &&& self.writing().log(0).is_fresh()
        &&& self.cores[0].is_fresh(self.cores[0].input.strand(), self.cores[0].outlets)
    }
}

impl<T: Timestamp, D: Clone, D2: Clone, B: BatchLogic<T, D, D2>> BatchRun<T, D, D2, B> {
    /// What the logic was at first and is at last.
    pub open spec fn logics(self) -> (B, B) {
        (self.cores[0].state.logic.logic, self.cores.last().state.logic.logic)
    }
}

proof fn lemma_relay<
    T1: Timestamp,
    D1: Clone,
    T2: Timestamp,
    D2: Clone,
    L: RelayLogic<T1, D1, T2, D2>,
    P1,
    P2,
>(
    makes: spec_fn(L, L, Seq<(T1, Seq<D1>)>, Seq<(T2, Seq<D2>)>) -> bool,
    run: RelayRun<T1, D1, T2, D2, L, P1, P2>,
    k: int,
) -> (p: (Seq<(T2, Seq<D2>)>, Seq<(T2, Seq<D2>)>))
    requires
        tells_course(makes),
        run.wf(),
        0 <= k <= run.len(),
    ensures
        run.cores[k].state.input@.pending.len() == 0,
        forall|i: int|
            0 <= i < k ==> (#[trigger] run.traffic[i]).input.1.batches.len()
                <= run.traffic[i].input.0.batches.len(),
        makes(
            run.cores[0].state.logic,
            run.cores[k].state.logic,
            all_taken(run.reading().inputs, k),
            p.0,
        ),
        p.0 == p.1 + batches(run.cores[k].state.outbox@),
        copies(p.1, run.writing().log(k).written()),
        run.cores[k].state.done ==> run.cores[k].state.outbox@.len() == 0
            && run.writing().log(k).channel.closed && (run.cores[k].state.input@.exhausted
            || run.cores[k].state.logic.sated()),
        run.cores[k].state.input@.exhausted ==> exists|j: int|
            0 <= j < k && (#[trigger] run.traffic[j]).input.0.closed
                && run.traffic[j].input.1.batches.len() == 0,
        run.cores[k].input.strand() == run.cores[0].input.strand(),
        run.cores[k].outlets == run.cores[0].outlets,
    decreases k,
{
    let none = Seq::<(T2, Seq<D2>)>::empty();
    let w = run.writing();
    if k == 0 {
        let l = run.cores[0].state.logic;
        lemma_course_starts(makes, l);
        assert(batches(run.cores[0].state.outbox@) =~= none);
        assert(none =~= none + none);
        (none, none)
    } else {
        let (out, sent) = lemma_relay(makes, run, k - 1);
        let i = k - 1;
        assert(run.works_at(i));
        let a = run.cores[i].state;
        let b = run.cores[k].state;
        let t = run.traffic[i];
        let before = run.traces[i].1.before()@;
        let after = run.traces[i].1.after()@;
        assert(w.wrote[i] == run.traces[i].1);
        assert(w.log(i) == before);
        let (more, gone) = lemma_activation(
            makes,
            a,
            b,
            t.input,
            before.channel,
            after.channel,
            run.results[i],
        );
        assert(before.written().take(0) =~= none);
        assert(before.written().skip(0) =~= before.written());
        lemma_sent_more(none, sent, gone, before, after);
        assert(after.written().skip(0) =~= after.written());
        if k < run.len() {
            assert(w.wrote[k] == run.traces[k].1);
            assert(w.wrote[k - 1].after()@.written() == w.wrote[k].before()@.written());
        }
        assert(run.reading().inputs[i] == t.input);
        lemma_course_goes_on(
            makes,
            (run.cores[0].state.logic, a.logic, b.logic),
            all_taken(run.reading().inputs, i),
            taken(t.input),
            out,
            more,
        );
        let waiting = batches(a.outbox@);
        assert(out + more =~= (sent + gone) + batches(b.outbox@)) by {
            assert(out + more =~= sent + (waiting + more));
            assert((sent + gone) + batches(b.outbox@) =~= sent + (gone + batches(b.outbox@)));
        }
        if b.input@.exhausted {
            if a.input@.exhausted {
                let j = choose|j: int|
                    0 <= j < k - 1 && (#[trigger] run.traffic[j]).input.0.closed
                        && run.traffic[j].input.1.batches.len() == 0;
                assert(run.traffic[j].input.0.closed);
            } else {
                assert(run.traffic[i].input.0.closed);
            }
        }
        (out + more, sent + gone)
    }
}

/// How an operator with one input read its input is in order.
proof fn lemma_relay_reads<
    T1: Timestamp,
    D1: Clone,
    T2: Timestamp,
    D2: Clone,
    L: RelayLogic<T1, D1, T2, D2>,
    P1,
    P2,
>(
    makes: spec_fn(L, L, Seq<(T1, Seq<D1>)>, Seq<(T2, Seq<D2>)>) -> bool,
    run: RelayRun<T1, D1, T2, D2, L, P1, P2>,
)
    requires
        tells_course(makes),
        run.wf(),
    ensures
        run.reading().wf(),
{
    let n = run.len();
    let r = run.reading();
    let _ = lemma_relay(makes, run, n);
    assert forall|i: int| 0 <= i < n implies #[trigger] r.reads_at(i) by {
        assert(run.works_at(i));
        assert(run.traffic[i].input.1.batches.len() <= run.traffic[i].input.0.batches.len());
        assert(run.traces[i].0.before()@.past.len() <= run.cores[i].input.cursor());
    }
    assert forall|i: int| 0 < i < n implies r.found[i - 1].before()@.leads_to(
        (#[trigger] r.found[i]).before()@,
    ) by {
        assert(run.traces[i - 1].0.before()@.leads_to(run.traces[i].0.before()@));
    }
    assert(r.cells[0] == run.cores[0].input);
}

/// What a logic makes of batches one after the other tells the course of an operator.
pub(crate) proof fn lemma_batches_tell<T: Timestamp, D, D2, B: BatchLogic<T, D, D2>>() -> (makes: spec_fn(
    Batched<B>,
    Batched<B>,
    Seq<(T, Seq<D>)>,
    Seq<(T, Seq<D2>)>,
) -> bool)
    ensures
        tells_course(makes),
        forall|a: Batched<B>, b: Batched<B>, x: Seq<(T, Seq<D>)>, u: Seq<(T, Seq<D2>)>|
            #[trigger] makes(a, b, x, u) <==> turns(a.logic, b.logic, x, u),
{
    reveal(tells_course);
    let makes = |a: Batched<B>, b: Batched<B>, x: Seq<(T, Seq<D>)>, u: Seq<(T, Seq<D2>)>|
        turns(a.logic, b.logic, x, u);
    assert forall|l: Batched<B>| #[trigger]
        makes(l, l, Seq::<(T, Seq<D>)>::empty(), Seq::<(T, Seq<D2>)>::empty()) by {
        lemma_turns_nothing::<T, D, D2, B>(l.logic);
    }
    assert forall|
        a: Batched<B>,
        b: Batched<B>,
        c: Batched<B>,
        x: Seq<(T, Seq<D>)>,
        y: Seq<(T, Seq<D>)>,
        u: Seq<(T, Seq<D2>)>,
        v: Seq<(T, Seq<D2>)>,
    |
        #[trigger] makes(a, b, x, u) && #[trigger] makes(b, c, y, v) implies makes(
        a,
        c,
        x + y,
        u + v,
    ) by {
        turns_go_on(a.logic, b.logic, c.logic, x, y, u, v);
    }
    makes
}

/// A reader who has seen the end has read everything.
pub(crate) proof fn lemma_end_is_read<T, D: Clone>(r: Reading<T, D>, j: int, n: int)
    requires
        r.wf(),
        0 <= j < n <= r.found.len(),
        r.inputs[j].0.closed,
        r.inputs[j].1.batches.len() == 0,
    ensures
        r.log(n - 1).channel.closed,
        r.cells[n].cursor() == r.log(n - 1).written().len(),
    decreases n,
{
    if n > 1 {
        readers_miss_nothing(r, n - 1);
        assert(r.found[n - 2].before()@.leads_to(r.found[n - 1].before()@));
    }
    lemma_reads_once(r, n - 1);
    if j < n - 1 {
        lemma_end_is_read(r, j, n - 1);
    }
}

/// An operator that works batch by batch and is through has sent what its logic makes of copies of
/// everything that was sent to it, in order, and closed its output. It may have stopped before if
/// nothing would ever come of any more input.
pub proof fn operators_pass_everything<
    T: Timestamp,
    D: Clone,
    D2: Clone,
    B: BatchLogic<T, D, D2>,
>(run: BatchRun<T, D, D2, B>) -> (m: int)
    requires
        run.wf(),
        run.cores.last().state.done,
    ensures
        ({
            let given = run.traces.last().0.before()@;
            let got = run.traces.last().1.after()@;
            &&& 0 <= m <= given.written().len()
            &&& passes(given.written().take(m), run.logics().0, run.logics().1, got.written())
            &&& got.channel.closed
            &&& run.logics().1.sated() || (given.channel.closed && m == given.written().len())
        }),
{
    let n = run.len();
    let r = run.reading();
    let makes = lemma_batches_tell::<T, D, D2, B>();
    let (out, sent) = lemma_relay(makes, run, n);
    lemma_relay_reads(makes, run);
    readers_miss_nothing(r, n);
    let given = run.traces[n - 1].0.before()@.written();
    let m = run.cores[n].input.cursor() as int;
    assert(r.log(n - 1).written() == given);
    assert(r.cells[n] == run.cores[n].input);
    assert(r.cells[0] == run.cores[0].input);
    assert(given.subrange(0, m) =~= given.take(m));
    assert(batches(run.cores[n].state.outbox@) =~= Seq::<(T, Seq<D2>)>::empty());
    assert(out =~= sent);
    assert(run.writing().log(n) == run.traces[n - 1].1.after()@);
    let state = run.cores[n].state;
    if !state.logic.logic.sated() {
        assert(state.input@.exhausted);
        let j = choose|j: int|
            0 <= j < n && (#[trigger] run.traffic[j]).input.0.closed
                && run.traffic[j].input.1.batches.len() == 0;
        assert(r.inputs[j] == run.traffic[j].input);
        lemma_end_is_read(r, j, n);
    }
    let read = all_taken(r.inputs, n);
    assert(turns(run.logics().0, run.logics().1, read, out));
    assert(copies(out, run.traces[n - 1].1.after()@.written()));
    m
}

/// What an operator that works batch by batch has done by some moment.
pub struct Progress<T, D, D2> {
    /// How many batches it has read.
    pub count: int,
    /// What it has read.
    pub read: Seq<(T, Seq<D>)>,
    /// What its logic made of that.
    pub made: Seq<(T, Seq<D2>)>,
    /// What it has sent of that.
    pub sent: Seq<(T, Seq<D2>)>,
}

/// An operator that works batch by batch, at any moment: what was sent, followed by what waits for
/// room, is what its logic makes of copies of the first batches that were sent to it, in order.
pub proof fn operators_pass_in_order<
    T: Timestamp,
    D: Clone,
    D2: Clone,
    B: BatchLogic<T, D, D2>,
>(run: BatchRun<T, D, D2, B>, k: int) -> (p: Progress<T, D, D2>)
    requires
        run.wf(),
        0 < k <= run.len(),
    ensures
        ({
            let given = run.traces[k - 1].0.before()@.written();
            &&& p.count == run.cores[k].input.cursor()
            &&& 0 <= p.count <= given.len()
            &&& copies(given.take(p.count), p.read)
            &&& turns(
                run.cores[0].state.logic.logic,
                run.cores[k].state.logic.logic,
                p.read,
                p.made,
            )
            &&& p.made == p.sent + batches(run.cores[k].state.outbox@)
            &&& copies(p.sent, run.traces[k - 1].1.after()@.written())
        }),
{
    let r = run.reading();
    let makes = lemma_batches_tell::<T, D, D2, B>();
    let (made, sent) = lemma_relay(makes, run, k);
    lemma_relay_reads(makes, run);
    readers_miss_nothing(r, k);
    let given = run.traces[k - 1].0.before()@.written();
    let m = run.cores[k].input.cursor() as int;
    assert(r.cells[k] == run.cores[k].input);
    assert(r.cells[0] == run.cores[0].input);
    assert(r.log(k - 1).written() == given);
    assert(given.subrange(0, m) =~= given.take(m));
    let w = run.writing();
    assert(w.wrote[k - 1] == run.traces[k - 1].1);
    if k < run.len() {
        assert(w.wrote[k] == run.traces[k].1);
        assert(w.wrote[k - 1].after()@.written() == w.wrote[k].before()@.written());
    }
    Progress { count: m, read: all_taken(r.inputs, k), made, sent }
}

proof fn lemma_retimed_more<T1, T2, D, C: TimeChange<T1, T2>>(
    change: C,
    a: Seq<(T1, Seq<D>)>,
    b: Seq<(T1, Seq<D>)>,
)
    ensures
        retimed(a + b, leads_all::<T1, T2, D, C>(change, a + b)) == retimed(
            a,
            leads_all::<T1, T2, D, C>(change, a),
        ) + retimed(b, leads_all::<T1, T2, D, C>(change, b)),
    decreases b.len(),
{
    let all = a + b;
    let ta = leads_all::<T1, T2, D, C>(change, a);
    let tb = leads_all::<T1, T2, D, C>(change, b);
    let tall = leads_all::<T1, T2, D, C>(change, all);
    if b.len() == 0 {
        assert(all =~= a);
        assert(retimed(b, tb) =~= Seq::<(T2, Seq<D>)>::empty());
        assert(retimed(a, ta) + retimed(b, tb) =~= retimed(a, ta));
    } else {
        let less = b.drop_last();
        lemma_retimed_more::<T1, T2, D, C>(change, a, less);
        assert(all.drop_last() =~= a + less);
        lemma_retimed_same(a + less, tall, leads_all::<T1, T2, D, C>(change, a + less));
        lemma_retimed_same(less, tb, leads_all::<T1, T2, D, C>(change, less));
        assert(retimed(all, tall) =~= retimed(a, ta) + retimed(b, tb));
    }
}

/// At a border of a loop, at any moment: what was sent, followed by what waits for room, are copies of
/// what was read with the times that they lead to, and what was read are copies of the first `m`
/// batches that were sent to the border.
pub proof fn borders_change_times_only<
    T1: Timestamp,
    T2: Timestamp,
    D: Clone,
    C: TimeChange<T1, T2>,
    P1,
    P2,
>(run: RelayRun<T1, D, T2, D, RetimeLogic<C>, P1, P2>, k: int) -> (x: (
    int,
    Seq<(T1, Seq<D>)>,
    Seq<(T2, Seq<D>)>,
))
    requires
        run.wf(),
        0 < k <= run.len(),
    ensures
        ({
            let given = run.traces[k - 1].0.before()@.written();
            let change = run.cores[0].state.logic.change;
            &&& x.0 == run.cores[k].input.cursor()
            &&& 0 <= x.0 <= given.len()
            &&& copies(given.take(x.0), x.1)
            &&& retimed(x.1, leads_all::<T1, T2, D, C>(change, x.1)) == x.2 + batches(
                run.cores[k].state.outbox@,
            )
            &&& copies(x.2, run.traces[k - 1].1.after()@.written())
        }),
{
    let makes = |
        a: RetimeLogic<C>,
        b: RetimeLogic<C>,
        x: Seq<(T1, Seq<D>)>,
        u: Seq<(T2, Seq<D>)>,
    |
        b == a && u == retimed(x, leads_all::<T1, T2, D, C>(a.change, x));
    assert(tells_course(makes)) by {
        reveal(tells_course);
        assert forall|l: RetimeLogic<C>| #[trigger]
            makes(l, l, Seq::<(T1, Seq<D>)>::empty(), Seq::<(T2, Seq<D>)>::empty()) by {
            assert(retimed(
                Seq::<(T1, Seq<D>)>::empty(),
                leads_all::<T1, T2, D, C>(l.change, Seq::<(T1, Seq<D>)>::empty()),
            ) =~= Seq::<(T2, Seq<D>)>::empty());
        }
        assert forall|
            a: RetimeLogic<C>,
            b: RetimeLogic<C>,
            c: RetimeLogic<C>,
            x: Seq<(T1, Seq<D>)>,
            y: Seq<(T1, Seq<D>)>,
            u: Seq<(T2, Seq<D>)>,
            v: Seq<(T2, Seq<D>)>,
        |
            #[trigger] makes(a, b, x, u) && #[trigger] makes(b, c, y, v) implies makes(
            a,
            c,
            x + y,
            u + v,
        ) by {
            lemma_retimed_more::<T1, T2, D, C>(a.change, x, y);
        }
    }
    let r = run.reading();
    let (out, sent) = lemma_relay(makes, run, k);
    lemma_relay_reads(makes, run);
    readers_miss_nothing(r, k);
    let given = run.traces[k - 1].0.before()@.written();
    let m = run.cores[k].input.cursor() as int;
    assert(r.cells[k] == run.cores[k].input);
    assert(r.cells[0] == run.cores[0].input);
    assert(r.log(k - 1).written() == given);
    assert(given.subrange(0, m) =~= given.take(m));
    let w = run.writing();
    assert(w.wrote[k - 1] == run.traces[k - 1].1);
    if k < run.len() {
        assert(w.wrote[k] == run.traces[k].1);
        assert(w.wrote[k - 1].after()@.written() == w.wrote[k].before()@.written());
    }
    (m, all_taken(r.inputs, k), sent)
}

/// The run of a source.
pub struct SourceRun<T, D> {
    pub cores: Seq<SourceCore<T, D>>,
    pub results: Seq<Result<ActivationOutcome>>,
    pub traces: Seq<LogReceipt<T, D>>,
}

impl<T: Timestamp, D: Clone> SourceRun<T, D> {
    /// The `i`-th activation.
    pub open spec fn works_at(self, i: int) -> bool {
        self.cores[i].works_by(
            &self.cores[i + 1],
            self.results[i],
            seq![self.traces[i].before()@.channel],
            seq![self.traces[i].after()@.channel],
            self.traces[i],
        )
    }

    /// How the output was written.
    pub open spec fn writing(self) -> Writing<T, D> {
        Writing { wrote: self.traces }
    }

    /// The activations follow each other. Nobody else wrote to the log.
    pub open spec fn wf(self) -> bool {
        let n = self.traces.len();
        &&& n > 0
        &&& self.cores.len() == n + 1
        &&& self.results.len() == n
        &&& forall|i: int| 0 <= i < n ==> #[trigger] self.works_at(i)
        &&& self.writing().wf()
        &&& self.writing().log(0).is_fresh()
        &&& !self.cores[0].state.done
    }

    /// What the source is to send.
    pub open spec fn given(self) -> Seq<(T, Seq<D>)> {
        batches(self.cores[0].state.outbox@)
    }
}

proof fn lemma_source<T: Timestamp, D: Clone>(run: SourceRun<T, D>, k: int) -> (sent: Seq<
    (T, Seq<D>),
>)
    requires
        run.wf(),
        0 <= k <= run.traces.len(),
    ensures
        run.given() == sent + batches(run.cores[k].state.outbox@),
        copies(sent, run.writing().log(k).written()),
        run.cores[k].state.done ==> run.cores[k].state.outbox@.len() == 0
            && run.writing().log(k).channel.closed,
        run.cores[k].outlets == run.cores[0].outlets,
    decreases k,
{
    let none = Seq::<(T, Seq<D>)>::empty();
    let w = run.writing();
    if k == 0 {
        assert(run.given() =~= none + run.given());
        none
    } else {
        let sent = lemma_source(run, k - 1);
        let i = k - 1;
        assert(run.works_at(i));
        let a = run.cores[i].state@;
        let b = run.cores[k].state@;
        let before = run.traces[i].before()@;
        let after = run.traces[i].after()@;
        let from = seq![before.channel];
        let to = seq![after.channel];
        assert(w.log(i) == before);
        assert(from[0] == before.channel);
        assert(to[0] == after.channel);
        let outcome = run.results[i]->Ok_0;
        let mid = choose|mid: Seq<ChannelView<T, D>>| #[trigger]
            a.steps_by(b, from, to, mid, outcome);
        let n = if a.done {
            0
        } else {
            a.pending.len() - b.pending.len()
        };
        let gone = a.pending.take(n);
        if a.done {
            assert(before.channel.batches.take(before.channel.batches.len() as int)
                =~= before.channel.batches);
            assert(gone =~= none);
        } else {
            assert(received(from[0], mid[0], gone));
        }
        assert(received(
            before.channel,
            ChannelView { closed: before.channel.closed, ..after.channel },
            gone,
        ));
        assert(before.written().take(0) =~= none);
        assert(before.written().skip(0) =~= before.written());
        lemma_sent_more(none, sent, gone, before, after);
        assert(after.written().skip(0) =~= after.written());
        if k < run.traces.len() {
            assert(w.wrote[k - 1].after()@.written() == w.wrote[k].before()@.written());
        }
        assert(run.given() =~= (sent + gone) + b.pending);
        sent + gone
    }
}

/// A source that is through has sent everything, in order, and closed its output.
pub proof fn sources_send_everything<T: Timestamp, D: Clone>(run: SourceRun<T, D>)
    requires
        run.wf(),
        run.cores.last().state.done,
    ensures
        copies(run.given(), run.traces.last().after()@.written()),
        run.traces.last().after()@.channel.closed,
{
    let n = run.traces.len() as int;
    let sent = lemma_source(run, n);
    assert(batches(run.cores[n].state.outbox@) =~= Seq::<(T, Seq<D>)>::empty());
    assert(run.given() =~= sent);
    assert(run.writing().log(n) == run.traces[n - 1].after()@);
}

/// The run of a sink.
pub struct SinkRun<T, D> {
    pub cores: Seq<CollectCore<T, D>>,
    pub results: Seq<Result<ActivationOutcome>>,
    pub traffic: Seq<SinkTraffic<T, D>>,
    pub traces: Seq<(LogReceipt<T, D>, Receipt<Vec<(T, Vec<D>)>, Anything>)>,
}

impl<T: Timestamp, D: Clone> SinkRun<T, D> {
    /// How the input was read.
    pub open spec fn reading(self) -> Reading<T, D> {
        Reading {
            cells: self.cores.map_values(|c: CollectCore<T, D>| c.input),
            found: self.traces.map_values(
                |t: (LogReceipt<T, D>, Receipt<Vec<(T, Vec<D>)>, Anything>)| t.0,
            ),
            places: self.traffic.map_values(|t: SinkTraffic<T, D>| t.at),
            inputs: self.traffic.map_values(|t: SinkTraffic<T, D>| t.input),
        }
    }

    /// The `i`-th activation.
    pub open spec fn works_at(self, i: int) -> bool {
        self.cores[i].works_by(
            &self.cores[i + 1],
            self.results[i],
            self.traffic[i],
            self.traces[i],
        )
    }

    /// The activations follow each other. The log went on in between, and nothing was forgotten that
    /// was not read; what was collected was left alone.
    pub open spec fn wf(self) -> bool {
        let n = self.traces.len();
        &&& n > 0
        &&& self.cores.len() == n + 1
        &&& self.results.len() == n
        &&& self.traffic.len() == n
        &&& forall|i: int| 0 <= i < n ==> #[trigger] self.works_at(i)
        &&& forall|i: int|
            0 < i < n ==> self.traces[i - 1].0.before()@.leads_to(
                (#[trigger] self.traces[i]).0.before()@,
            ) && self.traces[i].1.before() == self.traces[i - 1].1.after()
        &&& forall|i: int|
            0 <= i < n ==> (#[trigger] self.traces[i]).0.before()@.past.len()
                <= self.cores[i].input.cursor()
        &&& self.cores[0].input.cursor() == 0
        &&& !self.cores[0].done
    }

    /// What was collected before the first activation and after the last.
    pub open spec fn collected(self) -> (Seq<(T, Seq<D>)>, Seq<(T, Seq<D>)>) {
        (
            batches(self.traces[0].1.before()@),
            batches(self.traces.last().1.after()@),
        )
    }
}

proof fn lemma_sink<T: Timestamp, D: Clone>(run: SinkRun<T, D>, k: int)
    requires
        run.wf(),
        0 <= k <= run.traces.len(),
    ensures
        forall|i: int|
            0 <= i < k ==> (#[trigger] run.traffic[i]).input.1.batches.len()
                <= run.traffic[i].input.0.batches.len(),
        k > 0 ==> batches(run.traces[k - 1].1.after()@) == run.collected().0 + all_taken(
            run.reading().inputs,
            k,
        ),
        run.cores[k].done ==> exists|j: int|
            0 <= j < k && (#[trigger] run.traffic[j]).input.0.closed
                && run.traffic[j].input.1.batches.len() == 0,
        run.cores[k].input.strand() == run.cores[0].input.strand(),
        run.cores[k].collector == run.cores[0].collector,
    decreases k,
{
    if k > 0 {
        lemma_sink(run, k - 1);
        let i = k - 1;
        assert(run.works_at(i));
        let t = run.traffic[i];
        assert(run.reading().inputs[i] == t.input);
        let got = if run.cores[i].done {
            Seq::<(T, Seq<D>)>::empty()
        } else {
            t.input.0.batches
        };
        assert(taken(t.input) =~= got);
        let first = run.collected().0;
        let before = all_taken(run.reading().inputs, i);
        if i > 0 {
            assert(run.traces[i].1.before() == run.traces[i - 1].1.after());
        }
        assert(t.collected.0 =~= first + before);
        assert(t.collected.1 =~= first + (before + got));
        if run.cores[k].done {
            if run.cores[i].done {
                let j = choose|j: int|
                    0 <= j < k - 1 && (#[trigger] run.traffic[j]).input.0.closed
                        && run.traffic[j].input.1.batches.len() == 0;
                assert(run.traffic[j].input.0.closed);
            } else {
                assert(run.traffic[i].input.0.closed);
            }
        }
    }
}

/// A sink that is through has collected copies of everything that was sent to it, in order, behind
/// what was collected before.
pub proof fn sinks_take_everything<T: Timestamp, D: Clone>(run: SinkRun<T, D>) -> (got: Seq<
    (T, Seq<D>),
>)
    requires
        run.wf(),
        run.cores.last().done,
    ensures
        run.traces.last().0.before()@.channel.closed,
        copies(run.traces.last().0.before()@.written(), got),
        run.collected().1 == run.collected().0 + got,
{
    let n = run.traces.len() as int;
    let r = run.reading();
    lemma_sink(run, n);
    assert forall|i: int| 0 <= i < n implies #[trigger] r.reads_at(i) by {
        assert(run.works_at(i));
        assert(run.traffic[i].input.1.batches.len() <= run.traffic[i].input.0.batches.len());
        assert(run.traces[i].0.before()@.past.len() <= run.cores[i].input.cursor());
    }
    assert forall|i: int| 0 < i < n implies r.found[i - 1].before()@.leads_to(
        (#[trigger] r.found[i]).before()@,
    ) by {
        assert(run.traces[i - 1].0.before()@.leads_to(run.traces[i].0.before()@));
    }
    assert(r.wf());
    readers_miss_nothing(r, n);
    let j = choose|j: int|
        0 <= j < n && (#[trigger] run.traffic[j]).input.0.closed
            && run.traffic[j].input.1.batches.len() == 0;
    assert(r.inputs[j] == run.traffic[j].input);
    lemma_end_is_read(r, j, n);
    let given = run.traces[n - 1].0.before()@.written();
    assert(r.log(n - 1).written() == given);
    assert(given.subrange(0, given.len() as int) =~= given);
    all_taken(r.inputs, n)
}

/// An operator reads the log of its strand, to the last.
pub(crate) proof fn lemma_reads_its_strand<
    T: Timestamp,
    D: Clone,
    D2: Clone,
    B: BatchLogic<T, D, D2>,
>(run: BatchRun<T, D, D2, B>)
    requires
        run.wf(),
    ensures
        run.traces.last().0.cell() == run.cores[0].input.strand().log(),
{
    let makes = lemma_batches_tell::<T, D, D2, B>();
    let _ = lemma_relay(makes, run, run.len() - 1);
    assert(run.works_at(run.len() - 1));
}

/// What an operator reads last is what the source in front of it sent, if the source is through.
pub proof fn strands_stay<T: Timestamp, D: Clone, D2: Clone, B: BatchLogic<T, D, D2>>(
    source: SourceRun<T, D>,
    operator: BatchRun<T, D, D2, B>,
)
    requires
        source.wf() && operator.wf(),
        operator.cores[0].input.strand() == source.cores[0].outlets.strand(),
        source.cores.last().state.done,
        succeeds(source.traces.last(), operator.traces.last().0),
    ensures
        operator.traces.last().0.before()@.written() == source.traces.last().after()@.written(),
{
    sources_send_everything(source);
    let _ = lemma_source(source, source.traces.len() - 1);
    let makes = lemma_batches_tell::<T, D, D2, B>();
    let _ = lemma_relay(makes, operator, operator.len() - 1);
    assert(source.works_at(source.traces.len() - 1));
    assert(operator.works_at(operator.len() - 1));
}

/// What an operator reads last is what the operator in front of it sent, if that one is through.
pub proof fn strands_stay_between<
    T: Timestamp,
    D: Clone,
    D2: Clone,
    D3: Clone,
    B: BatchLogic<T, D, D2>,
    C: BatchLogic<T, D2, D3>,
>(first: BatchRun<T, D, D2, B>, second: BatchRun<T, D2, D3, C>)
    requires
        first.wf() && second.wf(),
        second.cores[0].input.strand() == first.cores[0].outlets.strand(),
        first.cores.last().state.done,
        succeeds(first.traces.last().1, second.traces.last().0),
    ensures
        second.traces.last().0.before()@.written() == first.traces.last().1.after()@.written(),
{
    let _ = operators_pass_everything(first);
    let makes = lemma_batches_tell::<T, D, D2, B>();
    let _ = lemma_relay(makes, first, first.len() - 1);
    let makes_next = lemma_batches_tell::<T, D2, D3, C>();
    let _ = lemma_relay(makes_next, second, second.len() - 1);
    assert(first.works_at(first.len() - 1));
    assert(second.works_at(second.len() - 1));
}

/// What a sink reads last is what the operator in front of it sent, if the operator is through.
pub proof fn strands_stay_last<T: Timestamp, D: Clone, D2: Clone, B: BatchLogic<T, D, D2>>(
    operator: BatchRun<T, D, D2, B>,
    sink: SinkRun<T, D2>,
)
    requires
        operator.wf() && sink.wf(),
        sink.cores[0].input.strand() == operator.cores[0].outlets.strand(),
        operator.cores.last().state.done,
        succeeds(operator.traces.last().1, sink.traces.last().0),
    ensures
        sink.traces.last().0.before()@.written() == operator.traces.last().1.after()@.written(),
{
    let _ = operators_pass_everything(operator);
    let makes = lemma_batches_tell::<T, D, D2, B>();
    let _ = lemma_relay(makes, operator, operator.len() - 1);
    lemma_sink(sink, sink.traces.len() - 1);
    assert(operator.works_at(operator.len() - 1));
    assert(sink.works_at(sink.traces.len() - 1));
}

/// What a pipeline comes to: what its source gives is sent, its operator makes something of that, and
/// its sink collects copies.
pub open spec fn comes_to<T, D: Clone, D2: Clone, B: BatchLogic<T, D, D2>>(
    given: Seq<(T, Seq<D>)>,
    from: B,
    to: B,
    got: Seq<(T, Seq<D2>)>,
) -> bool {
    exists|sent: Seq<(T, Seq<D>)>, made: Seq<(T, Seq<D2>)>|
        copies(given, sent) && #[trigger] passes(sent, from, to, made) && #[trigger] copies(
            made,
            got,
        )
}

proof fn lemma_copies_prefix<T, D: Clone>(a: Seq<(T, Seq<D>)>, b: Seq<(T, Seq<D>)>, m: int)
    requires
        copies(a, b),
        0 <= m <= a.len(),
    ensures
        copies(a.take(m), b.take(m)),
{
    assert forall|i: int| 0 <= i < m implies is_copy(#[trigger] a.take(m)[i], b.take(m)[i]) by {
        assert(is_copy(a[i], b[i]));
    }
}

/// A source, an operator behind it that works batch by batch, and a sink behind that collect, when
/// they are through, what the logic of the operator makes of the batches of the source, in order,
/// whatever order they were activated in and whatever room there was. It may be that only the first
/// `m` batches count, if nothing would ever come of any more.
pub proof fn pipelines_deliver<T: Timestamp, D: Clone, D2: Clone, B: BatchLogic<T, D, D2>>(
    source: SourceRun<T, D>,
    operator: BatchRun<T, D, D2, B>,
    sink: SinkRun<T, D2>,
) -> (x: (int, Seq<(T, Seq<D2>)>))
    requires
        source.wf() && operator.wf() && sink.wf(),
        operator.cores[0].input.strand() == source.cores[0].outlets.strand(),
        sink.cores[0].input.strand() == operator.cores[0].outlets.strand(),
        source.cores.last().state.done,
        operator.cores.last().state.done,
        sink.cores.last().done,
        succeeds(source.traces.last(), operator.traces.last().0),
        succeeds(operator.traces.last().1, sink.traces.last().0),
    ensures
        0 <= x.0 <= source.given().len(),
        comes_to(
            source.given().take(x.0),
            operator.logics().0,
            operator.logics().1,
            x.1,
        ),
        operator.logics().1.sated() || x.0 == source.given().len(),
        sink.collected().1 == sink.collected().0 + x.1,
{
    sources_send_everything(source);
    let m = operators_pass_everything(operator);
    let got = sinks_take_everything(sink);
    strands_stay(source, operator);
    strands_stay_last(operator, sink);
    let sent = source.traces.last().after()@.written();
    let made = operator.traces.last().1.after()@.written();
    lemma_copies_prefix(source.given(), sent, m);
    assert(passes(sent.take(m), operator.logics().0, operator.logics().1, made));
    assert(copies(made, got));
    (m, got)
}

/// The operators that a source, an operator behind it and a sink behind that are put together of are
/// joined: each reads, from the start, the strand that the one in front of it writes to. The three
/// builders are what the dataflow in the making was after each step.
pub proof fn pipelines_are_joined<
    T: Timestamp + 'static,
    D: Clone + 'static,
    D2: Clone + 'static,
    B: BatchLogic<T, D, D2> + 'static,
>(
    steps: (DataflowBuilder<T>, DataflowBuilder<T>, DataflowBuilder<T>),
    source: SourceCore<T, D>,
    pipes: (Pipe<T, D>, Pipe<T, D2>),
    logic: B,
    limits: (usize, usize),
    collector: Shared<Vec<(T, Vec<D2>)>>,
) -> (cores: (RelayCore<T, D, T, D2, Batched<B>, AsIs, AsIs>, CollectCore<T, D2>))
    requires
        runs(steps.0.latest(), source),
        source.outlets == pipes.0.outlets(),
        pipes.0.leads_with(steps.1, pipes.1, Batched { logic }, limits.0),
        collects(steps.2.latest(), pipes.1.strand(), limits.1, collector),
    ensures
        runs(steps.1.latest(), cores.0),
        runs(steps.2.latest(), cores.1),
        cores.0.state.logic.logic == logic,
        cores.0.is_fresh(source.outlets.strand(), pipes.1.outlets()),
        cores.1.input.strand() == cores.0.outlets.strand(),
        cores.1.input.cursor() == 0,
        cores.1.collector == collector,
        !cores.1.done,
{
    let operator = choose|core: RelayCore<T, D, T, D2, Batched<B>, AsIs, AsIs>| #[trigger]
        runs(steps.1.latest(), core) && core.state.logic == (Batched { logic }) && core.is_fresh(
            pipes.0.strand(),
            pipes.1.outlets(),
        ) && core.input.limit() == limits.0;
    let sink = choose|core: CollectCore<T, D2>| #[trigger]
        runs(steps.2.latest(), core) && core.input.strand() == pipes.1.strand()
            && core.input.cursor() == 0 && core.input.limit() == limits.1 && core.collector
            == collector && !core.done;
    (operator, sink)
}

} // verus!
