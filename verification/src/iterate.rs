//! Loops.

use std::collections::VecDeque;
use core::marker::PhantomData;
use vstd::prelude::*;
use crate::builder::{
    all_looped, channel_factory, describes, edge_of, BuilderView, DataflowBuilder,
};
use crate::error::Error;
use crate::graph::{ChannelKind, EdgeInfo, GraphView, OperatorInfo};
use crate::order::{Product, Timestamp};
use crate::pipe::{one, Pipe};
use crate::progress::SubgraphView;
use crate::role::{Duty, Line, Role};
use crate::schedulable::{BoxedChannelFactory, BoxedOperator};
use crate::shared::Mark;
use crate::stage::StageId;
use crate::strand::{ChannelCell, Outlets, Strand};
use crate::stream::Slot;
use crate::text::joined;
use crate::wired::joins::MergeState;
use crate::wired::operator::{
    marks, merges, read_from_start, runs, AsIs, MergeCore, Outside, Projection, RelayCore, WiredCore,
    WiredOperator,
};
use crate::wired::streams::{Entering, Leaving, RetimeLogic, Returning, TimeChange};

verus! {

/// What the inside of a loop makes of the records: those that go round once more, and those that
/// leave the loop.
pub struct IterateResult<T, D> {
    pub feedback: Pipe<T, D>,
    pub output: Pipe<T, D>,
}

/// The first output of an operator.
pub open spec fn out_port(i: int) -> Slot {
    Slot { operator_index: i as usize, slot_index: 0 }
}

/// An input of an operator.
pub open spec fn in_port(i: int, k: int) -> Slot {
    Slot { operator_index: i as usize, slot_index: k as usize }
}

/// An edge inside a stage.
pub open spec fn plain_edge(from: Slot, to: Slot) -> EdgeInfo {
    edge_of(from, to, ChannelKind::Pipeline, None)
}

/// The operators at the borders of a loop: the way in, the way back, the place where both meet, and
/// the way out.
pub open spec fn gains_borders(
    before: Map<usize, OperatorInfo>,
    after: Map<usize, OperatorInfo>,
    i: int,
    name: Seq<char>,
) -> bool {
    &&& after.dom() == before.dom().insert(i as usize).insert((i + 1) as usize).insert(
        (i + 2) as usize,
    ).insert((i + 3) as usize)
    &&& describes(after[i as usize], i as usize, name + "::enter"@, 1, 1)
    &&& describes(after[(i + 1) as usize], (i + 1) as usize, name + "::feedback"@, 1, 1)
    &&& describes(after[(i + 2) as usize], (i + 2) as usize, name + "::concat"@, 2, 1)
    &&& describes(after[(i + 3) as usize], (i + 3) as usize, name + "::leave"@, 1, 1)
    &&& forall|x: usize| #[trigger] before.dom().contains(x) && x < i ==> after[x] == before[x]
}

/// The marks of the outlets at the borders of a loop.
pub struct LoopMarks {
    pub entered: Mark,
    pub returned: Mark,
    pub round: Mark,
}

impl LoopMarks {
    /// The outlets are those of the way in, the way back, and the place where both meet.
    pub open spec fn are_told_apart(self, i: int) -> bool {
        &&& self.entered.rule().number@ == Some(i)
        &&& self.returned.rule().number@ == Some(i + 1)
        &&& self.round.rule().number@ == Some(i + 2)
    }
}

/// A dataflow after the borders of a loop were added. The records that enter come from `source`,
/// through the channel `line`. The factories of the way back and the way out are not there yet.
pub open spec fn opens_loop(
    before: BuilderView,
    after: BuilderView,
    name: Seq<char>,
    source: Slot,
    line: Line,
    marks: LoopMarks,
) -> bool {
    let i = before.next as int;
    let enter = i as usize;
    let feedback = (i + 1) as usize;
    let concat = (i + 2) as usize;
    let leave = (i + 3) as usize;
    let n = before.graph.edges.len() as int;
    let entering = Duty { role: Role::Enter, reads: seq![line.mark], writes: seq![marks.entered] };
    let meeting = Duty {
        role: Role::Merge,
        reads: seq![marks.entered, marks.returned],
        writes: seq![marks.round],
    };
    &&& gains_borders(before.graph.operators, after.graph.operators, i, name)
    &&& after == (BuilderView {
        graph: GraphView {
            operators: after.graph.operators,
            edges: before.graph.edges.push(plain_edge(source, in_port(i, 0))).push(
                plain_edge(out_port(i), in_port(i + 2, 0)),
            ).push(plain_edge(out_port(i + 1), in_port(i + 2, 1))),
            feedback_edges: before.graph.feedback_edges,
        },
        subgraph: SubgraphView {
            operators: before.subgraph.operators.push(enter).push(feedback).push(concat).push(
                leave,
            ),
            links: before.subgraph.links.push((source.operator_index, enter)).push(
                (enter, concat),
            ).push((feedback, concat)),
            sources: before.subgraph.sources,
        },
        operators: before.operators.push(
            (enter, Some((enter, name + "::enter"@, entering))),
        ).push((concat, Some((concat, name + "::concat"@, meeting)))),
        channels: before.channels.push((n as usize, line)).push(
            ((n + 1) as usize, Line { capacity: before.capacity, mark: marks.entered }),
        ).push(((n + 2) as usize, Line { capacity: before.capacity, mark: marks.returned })),
        next: (i + 4) as usize,
        ..before
    })
}

/// A dataflow after the inside of a loop was closed: what leaves the loop leads to the way out, and
/// what goes round once more to the way back. The loop began at the index `i`; the factory of the way
/// back is put in at the place `at`.
pub open spec fn with_loop_closed(
    b: BuilderView,
    i: int,
    at: int,
    name: Seq<char>,
    output: (Slot, Line),
    feedback: (Slot, Line),
    returned: Mark,
    writes: Mark,
) -> BuilderView {
    b.with_edge(plain_edge(output.0, in_port(i + 3, 0)), output.1).with_feedback_edge(
        plain_edge(feedback.0, in_port(i + 1, 0)),
        feedback.1,
    ).with_maker_at(
        at,
        (i + 1) as usize,
        name + "::feedback"@,
        Duty { role: Role::Return, reads: seq![feedback.1.mark], writes: seq![returned] },
    ).with_maker(
        (i + 3) as usize,
        name + "::leave"@,
        Duty { role: Role::Leave, reads: seq![output.1.mark], writes: seq![writes] },
    )
}

/// How the inside of a loop begins: nothing is there yet but the records that go round.
pub open spec fn starts_loop<T: Timestamp + 'static, TInner: Timestamp + 'static, D: Clone + 'static>(
    outside: BuilderView,
    start: DataflowBuilder<Product<T, TInner>>,
    entry: Pipe<Product<T, TInner>, D>,
) -> bool {
    &&& start.wf()
    &&& start@.is_blank()
    &&& start@.next == outside.next + 4
    &&& start@.capacity == outside.capacity
    &&& start@.preallocate == outside.preallocate
    &&& entry.heads(start, (outside.next + 2) as usize)
}

/// What the inside of a loop consists of belongs to the builder that it began with.
pub open spec fn stays_inside<T: Timestamp + 'static, TInner: Timestamp + 'static, D>(
    start: DataflowBuilder<Product<T, TInner>>,
    r: (DataflowBuilder<Product<T, TInner>>, IterateResult<Product<T, TInner>, D>),
) -> bool {
    &&& start.stays(r.0)
    &&& r.0@.first == start@.first
    &&& r.1.feedback.seal() == start.seal()
    &&& r.1.output.seal() == start.seal()
}

/// The error about pipes that are held after the inside of a loop was described.
pub open spec fn is_held_pipe_error(e: Error) -> bool {
    e matches Error::InvalidConfig(m) && m@
        == "iterate body must not hold Pipe references after returning"@
}

/// The outlets at the borders of a loop: of the way in, the way back, and the place where both meet.
pub struct Borders<T, D> {
    pub entered: Outlets<T, D>,
    pub returned: Outlets<T, D>,
    pub round: Outlets<T, D>,
}

impl<T, D> Borders<T, D> {
    /// The marks of the outlets.
    pub open spec fn marks(self) -> LoopMarks {
        LoopMarks {
            entered: self.entered.mark(),
            returned: self.returned.mark(),
            round: self.round.mark(),
        }
    }
}

/// How a loop came about.
#[verifier::reject_recursive_types(T)]
#[verifier::reject_recursive_types(TInner)]
pub struct LoopCourse<T: Timestamp, TInner: Timestamp, D> {
    /// After the borders were added.
    pub opened: BuilderView,
    pub crew: Seq<BoxedOperator<T>>,
    pub borders: Borders<Product<T, TInner>, D>,
    /// What the inside began with.
    pub start: DataflowBuilder<Product<T, TInner>>,
    pub entry: Pipe<Product<T, TInner>, D>,
    /// What the inside came to.
    pub inner: DataflowBuilder<Product<T, TInner>>,
    pub result: IterateResult<Product<T, TInner>, D>,
    /// Whether pipes of the inside are still held.
    pub held: bool,
}

/// Where records leave the inside of a loop, to go round once more or for good.
pub struct End<T, D> {
    pub port: Slot,
    pub line: Line,
    pub strand: Strand<T, D>,
}

/// Where the records of a pipe leave the inside of a loop.
pub open spec fn end_of<T, D>(pipe: Pipe<T, D>, inside: BuilderView) -> End<T, D> {
    End {
        port: pipe.source(),
        line: Line { capacity: pipe.limit(inside), mark: pipe.mark() },
        strand: pipe.strand(),
    }
}

/// What the inside of a loop came to was taken over, and the loop was closed. The loop began at the
/// index `i`.
pub open spec fn closes_loop<T, D>(
    opened: BuilderView,
    after: BuilderView,
    i: int,
    at: int,
    name: Seq<char>,
    inside: BuilderView,
    output: End<T, D>,
    feedback: End<T, D>,
    returned: Mark,
    writes: Mark,
) -> bool {
    after == with_loop_closed(
        opened.merged(inside),
        i,
        at,
        name,
        (output.port, output.line),
        (feedback.port, feedback.line),
        returned,
        writes,
    )
}

/// A loop came about in the given way: its borders were added; `body` described the inside; the
/// inside was taken over and closed. If pipes of the inside are still held, it is not taken over, and
/// an error is noted instead.
pub open spec fn loops_by<
    T: Timestamp + 'static,
    TInner: Timestamp + 'static,
    D: Clone + 'static,
    F: FnOnce(DataflowBuilder<Product<T, TInner>>, Pipe<Product<T, TInner>, D>) -> (
        DataflowBuilder<Product<T, TInner>>,
        IterateResult<Product<T, TInner>, D>,
    ),
>(
    before: BuilderView,
    after: BuilderView,
    name: Seq<char>,
    source: Slot,
    line: Line,
    body: F,
    writes: Mark,
    c: LoopCourse<T, TInner, D>,
) -> bool {
    &&& opens_loop(before, c.opened, name, source, line, c.borders.marks())
    &&& c.borders.marks().are_told_apart(before.next as int)
    &&& starts_loop(before, c.start, c.entry)
    &&& c.entry.outlets() == c.borders.round
    &&& call_ensures(body, (c.start, c.entry), (c.inner, c.result))
    &&& c.inner.seal().answered(c.held)
    &&& if c.held {
        exists|e: Error| #[trigger] is_held_pipe_error(e) && after == c.opened.with_error(e)
    } else {
        closes_loop(
            c.opened,
            after,
            before.next as int,
            before.operators.len() + 1int,
            name,
            c.inner@,
            end_of(c.result.output, c.inner@),
            end_of(c.result.feedback, c.inner@),
            c.borders.returned.mark(),
            writes,
        )
    }
}

/// An operator gives batches other times. It reads a strand from the start, up to `limit` batches at
/// a time, and writes to the given outlets.
pub open spec fn retimes<
    T: Timestamp + 'static,
    T1: Timestamp + 'static,
    T2: Timestamp + 'static,
    D: Clone + 'static,
    C: TimeChange<T1, T2> + 'static,
    P1: Projection<T1, T> + 'static,
    P2: Projection<T2, T> + 'static,
>(
    op: BoxedOperator<T>,
    change: C,
    input: Strand<T1, D>,
    limit: usize,
    outlets: Outlets<T2, D>,
) -> bool {
    exists|core: RelayCore<T1, D, T2, D, RetimeLogic<C>, P1, P2>| #[trigger]
        runs(op, core) && core.state.logic.change == change && core.is_fresh(input, outlets)
            && core.input.limit() == limit
}

/// The operators of a dataflow after the borders of a loop were added, but for the way back and the
/// way out: the way in, and the place where both ways meet.
pub open spec fn opens_with<
    T: Timestamp + 'static,
    TInner: Timestamp + 'static,
    D: Clone + 'static,
>(
    before: Seq<BoxedOperator<T>>,
    after: Seq<BoxedOperator<T>>,
    input: Strand<T, D>,
    limit: usize,
    borders: Borders<Product<T, TInner>, D>,
) -> bool {
    let n = before.len() as int;
    &&& after == before.push(after[n]).push(after[n + 1])
    &&& retimes::<T, T, Product<T, TInner>, D, Entering, AsIs, Outside>(
        after[n],
        Entering,
        input,
        limit,
        borders.entered,
    )
    &&& merges::<T, Product<T, TInner>, D, Outside>(
        after[n + 1],
        seq![borders.entered.strand(), borders.returned.strand()],
        borders.round,
    )
}

/// The operators of a dataflow after a loop was closed: the inside, the way back at the place `at`, on
/// which times advance by the summary, and the way out.
pub open spec fn closes_with<
    T: Timestamp + 'static,
    TInner: Timestamp + 'static,
    D: Clone + 'static,
>(
    opened: Seq<BoxedOperator<T>>,
    after: Seq<BoxedOperator<T>>,
    at: int,
    summary: TInner::Summary,
    inside: Seq<BoxedOperator<Product<T, TInner>>>,
    output: End<Product<T, TInner>, D>,
    feedback: End<Product<T, TInner>, D>,
    returned: Outlets<Product<T, TInner>, D>,
    outlets: Outlets<T, D>,
) -> bool where TInner::Summary: 'static {
    &&& after == (opened + all_looped::<T, TInner>(inside)).insert(at, after[at]).push(
        after.last(),
    )
    &&& retimes::<
        T,
        Product<T, TInner>,
        Product<T, TInner>,
        D,
        Returning<TInner::Summary>,
        Outside,
        Outside,
    >(
        after[at],
        Returning { summary },
        feedback.strand,
        feedback.line.capacity,
        returned,
    )
    &&& retimes::<T, Product<T, TInner>, T, D, Leaving, Outside, AsIs>(
        after.last(),
        Leaving,
        output.strand,
        output.line.capacity,
        outlets,
    )
}

/// The operators of a dataflow after a loop was added: the borders and the inside.
pub open spec fn gains_loop<
    T: Timestamp + 'static,
    TInner: Timestamp + 'static,
    D: Clone + 'static,
>(
    before: Seq<BoxedOperator<T>>,
    after: Seq<BoxedOperator<T>>,
    input: Strand<T, D>,
    limit: usize,
    summary: TInner::Summary,
    c: LoopCourse<T, TInner, D>,
    outlets: Outlets<T, D>,
) -> bool where TInner::Summary: 'static {
    &&& opens_with::<T, TInner, D>(before, c.crew, input, limit, c.borders)
    &&& if c.held {
        after == c.crew
    } else {
        closes_with(
            c.crew,
            after,
            before.len() + 1int,
            summary,
            c.inner.crew(),
            end_of(c.result.output, c.inner@),
            end_of(c.result.feedback, c.inner@),
            c.borders.returned,
            outlets,
        )
    }
}

/// An operator that runs a core.
fn wired<T: Timestamp + 'static, C: WiredCore<T> + 'static>(
    name: &String,
    index: usize,
    core: C,
) -> (op: BoxedOperator<T>)
    requires
        core.sound(),
    ensures
        op.id() == index,
        op.label() == name@,
        op.duty() == core.duty(),
        runs(op, core),
{
    let op = WiredOperator::new(name.clone(), index, StageId::new(0), core);
    assert(op.holds(core));
    BoxedOperator::new(op)
}

/// A reader at the place where records leave the inside of a loop.
pub struct LoopEnd<T, D> {
    cell: ChannelCell<T, D>,
    port: Slot,
    channel: BoxedChannelFactory,
}

impl<T, D> LoopEnd<T, D> {
    /// Where the records leave.
    pub closed spec fn end(&self) -> End<T, D> {
        End { port: self.port, line: self.channel.line(), strand: self.cell.strand() }
    }

    /// The reader begins at the start, and sees as much at a time as the channel holds.
    pub closed spec fn wf(&self) -> bool {
        &&& self.channel.ready()
        &&& self.cell.cursor() == 0
        &&& self.cell.limit() == self.channel.line().capacity
        &&& self.cell.mark() == self.channel.line().mark
    }
}

impl<T: Timestamp + 'static, D: Clone + 'static> LoopEnd<T, D> {
    /// Where the records of a pipe leave, for the input at the port `to`.
    pub fn new(pipe: Pipe<T, D>, b: &DataflowBuilder<T>, to: Slot) -> (e: Self)
        ensures
            e.wf(),
            e.end() == end_of(pipe, b@),
    {
        let (cell, port, channel) = pipe.tap(b, to);
        LoopEnd { cell, port, channel }
    }
}

/// Closes a loop that was opened at the index `index`: takes over what the inside came to, and adds
/// the way back, whose factory is put in at the place `at`, and the way out. If pipes of the inside are
/// held, an error is noted instead.
pub fn close_loop<T: Timestamp + 'static, TInner: Timestamp + 'static, D: Clone + 'static>(
    b: &mut DataflowBuilder<T>,
    inner: DataflowBuilder<Product<T, TInner>>,
    output: LoopEnd<Product<T, TInner>, D>,
    feedback: LoopEnd<Product<T, TInner>, D>,
    name: &str,
    summary: TInner::Summary,
    index: usize,
    at: usize,
    returned: Outlets<Product<T, TInner>, D>,
    held: bool,
) -> (out: Pipe<T, D>) where TInner::Summary: 'static
    requires
        old(b).wf(),
        inner.wf(),
        output.wf(),
        feedback.wf(),
        old(b)@.first <= index,
        index + 4 == old(b)@.next,
        inner@.first == old(b)@.next,
        at <= old(b)@.operators.len(),
        at <= old(b).crew().len(),
    ensures
        old(b).stays(*final(b)),
        held ==> final(b).crew() == old(b).crew() && exists|e: Error| #[trigger]
            is_held_pipe_error(e) && final(b)@ == old(b)@.with_error(e),
        !held ==> closes_loop(
            old(b)@,
            final(b)@,
            index as int,
            at as int,
            name@,
            inner@,
            output.end(),
            feedback.end(),
            returned.mark(),
            out.mark(),
        ) && closes_with(
            old(b).crew(),
            final(b).crew(),
            at as int,
            summary,
            inner.crew(),
            output.end(),
            feedback.end(),
            returned,
            out.outlets(),
        ),
        out.heads(*final(b), (index + 3) as usize),
{
    let outlets: Outlets<T, D> = Outlets::new(index + 3);
    if held {
        let e = Error::InvalidConfig(
            "iterate body must not hold Pipe references after returning".to_owned(),
        );
        b.add_error(e);
        assert(is_held_pipe_error(e));
        return Pipe::first_output(b, index + 3, outlets);
    }
    let ghost crew = b.crew();
    proof {
        b.is_sound();
        inner.is_sound();
    }
    let ghost ends = (output.end(), feedback.end());
    let LoopEnd { cell: left, port: output_port, channel: left_channel } = output;
    let LoopEnd { cell: back, port: feedback_port, channel: back_channel } = feedback;
    b.absorb(inner);
    let ghost absorbed = b.crew();
    proof {
        b.is_sound();
    }
    b.connect(output_port, Slot::new(index + 3, 0), left_channel);
    b.connect_back(feedback_port, Slot::new(index + 1, 0), back_channel);
    let core: RelayCore<
        Product<T, TInner>,
        D,
        Product<T, TInner>,
        D,
        RetimeLogic<Returning<TInner::Summary>>,
        Outside,
        Outside,
    > = RelayCore::new(RetimeLogic { change: Returning { summary } }, back, returned);
    let back_op = wired(&joined(name, "::feedback"), index + 1, core);
    assert(runs(back_op, core));
    b.equip_at(at, back_op);
    let core: RelayCore<
        Product<T, TInner>,
        D,
        T,
        D,
        RetimeLogic<Leaving>,
        Outside,
        AsIs,
    > = RelayCore::new(RetimeLogic { change: Leaving }, left, outlets.share());
    let leave_op = wired(&joined(name, "::leave"), index + 3, core);
    assert(runs(leave_op, core));
    b.equip(leave_op);
    proof {
        let after = b.crew();
        assert(after[at as int] == back_op);
        assert(after.last() == leave_op);
        assert(after == absorbed.insert(at as int, back_op).push(leave_op));
        assert(retimes::<
            T,
            Product<T, TInner>,
            Product<T, TInner>,
            D,
            Returning<TInner::Summary>,
            Outside,
            Outside,
        >(
            after[at as int],
            Returning { summary },
            ends.1.strand,
            ends.1.line.capacity,
            returned,
        ));
        assert(retimes::<T, Product<T, TInner>, T, D, Leaving, Outside, AsIs>(
            after.last(),
            Leaving,
            ends.0.strand,
            ends.0.line.capacity,
            outlets,
        ));
    }
    Pipe::first_output(b, index + 3, outlets)
}

impl<T: Timestamp + 'static, D: Clone + 'static> Pipe<T, D> {
    /// Adds the borders of a loop, but for the factories of the way back and the way out.
    fn open_loop<TInner: Timestamp + 'static>(self, b: &mut DataflowBuilder<T>, name: &str) -> (borders:
        Borders<Product<T, TInner>, D>)
        requires
            self.seal() == old(b).seal(),
            old(b).has_room(4),
        ensures
            old(b).stays(*final(b)),
            opens_loop(
                old(b)@,
                final(b)@,
                name@,
                self.source(),
                (Line { capacity: self.limit(old(b)@), mark: self.mark() }),
                borders.marks(),
            ),
            opens_with::<T, TInner, D>(
                old(b).crew(),
                final(b).crew(),
                self.strand(),
                self.limit(old(b)@),
                borders,
            ),
            borders.marks().are_told_apart(old(b)@.next as int),
            borders.round.strand().calls() is None,
    {
        let ghost before = b@;
        proof {
            b.is_sound();
        }
        let preallocate = b.usual_preallocation();
        let capacity: usize = b.usual_capacity();
        let enter_name = joined(name, "::enter");
        let feedback_name = joined(name, "::feedback");
        let concat_name = joined(name, "::concat");
        let leave_name = joined(name, "::leave");
        let index: usize = b.upcoming();
        let entered: Outlets<Product<T, TInner>, D> = Outlets::new(index);
        let returned: Outlets<Product<T, TInner>, D> = Outlets::new(index + 1);
        let round: Outlets<Product<T, TInner>, D> = Outlets::new(index + 2);
        let (cell, from, channel) = self.tap(b, Slot::new(index, 0));
        let enter: usize = b.register(enter_name.as_str(), 1, 1, false);
        let ghost m1 = b@.graph.operators;
        b.connect(from, Slot::new(enter, 0), channel);
        let core: RelayCore<
            T,
            D,
            Product<T, TInner>,
            D,
            RetimeLogic<Entering>,
            AsIs,
            Outside,
        > = RelayCore::new(RetimeLogic { change: Entering }, cell, entered.share());
        let op = wired(&enter_name, enter, core);
        assert(runs(op, core));
        b.equip(op);
        let feedback: usize = b.register(feedback_name.as_str(), 1, 1, false);
        let ghost m2 = b@.graph.operators;
        let concat: usize = b.register(concat_name.as_str(), 2, 1, false);
        let ghost m3 = b@.graph.operators;
        let first = entered.reader(Slot::new(concat, 0), capacity);
        let later = returned.reader(Slot::new(concat, 1), capacity);
        let channel = channel_factory(
            first.share_strand(),
            Slot::new(concat, 0),
            capacity,
            preallocate,
        );
        b.connect(Slot::new(enter, 0), Slot::new(concat, 0), channel);
        let channel = channel_factory(
            later.share_strand(),
            Slot::new(concat, 1),
            capacity,
            preallocate,
        );
        b.connect(Slot::new(feedback, 0), Slot::new(concat, 1), channel);
        let mut inputs = one(first);
        inputs.push(later);
        let core: MergeCore<Product<T, TInner>, D, Outside> = MergeCore {
            state: MergeState { outbox: VecDeque::new(), done: false },
            inputs,
            outlets: round.share(),
            marker: PhantomData,
        };
        proof {
            assert(marks(core.inputs@) =~= seq![entered.mark(), returned.mark()]);
            assert(read_from_start(core.inputs@, seq![entered.strand(), returned.strand()]));
        }
        let op = wired(&concat_name, concat, core);
        assert(runs(op, core));
        b.equip(op);
        let _ = b.register(leave_name.as_str(), 1, 1, false);
        proof {
            let i = before.next as int;
            let m4 = b@.graph.operators;
            assert(m1.dom().contains(enter));
            assert(m2.dom().contains(enter) && m2.dom().contains(feedback));
            assert(m3.dom().contains(enter) && m3.dom().contains(feedback) && m3.dom().contains(
                concat,
            ));
            assert forall|x: usize| #[trigger]
                before.graph.operators.dom().contains(x) && x < i implies m4[x]
                == before.graph.operators[x] by {
                assert(m1.dom().contains(x) && m2.dom().contains(x) && m3.dom().contains(x));
            }
            assert(gains_borders(before.graph.operators, m4, i, name@));
        }
        Borders { entered, returned, round }
    }

    /// Lets records go round: they enter the loop, `body` describes what becomes of them in each
    /// round, and `summary` how the time advances from one round to the next. A record that `body`
    /// leads to the output leaves the loop with the time that it entered with.
    pub fn iterate<
        TInner: Timestamp + 'static,
        F: FnOnce(DataflowBuilder<Product<T, TInner>>, Pipe<Product<T, TInner>, D>) -> (
            DataflowBuilder<Product<T, TInner>>,
            IterateResult<Product<T, TInner>, D>,
        ),
    >(
        self,
        b: &mut DataflowBuilder<T>,
        name: &str,
        summary: TInner::Summary,
        body: F,
    ) -> (out: Pipe<T, D>) where TInner::Summary: 'static
        requires
            self.seal() == old(b).seal(),
            old(b).has_room(4),
            forall|
                s: DataflowBuilder<Product<T, TInner>>,
                p: Pipe<Product<T, TInner>, D>,
            | #[trigger]
                starts_loop(old(b)@, s, p) ==> call_requires(body, (s, p)),
            forall|
                s: DataflowBuilder<Product<T, TInner>>,
                p: Pipe<Product<T, TInner>, D>,
                r: (DataflowBuilder<Product<T, TInner>>, IterateResult<Product<T, TInner>, D>),
            |
                starts_loop(old(b)@, s, p) && #[trigger] call_ensures(body, (s, p), r)
                    ==> stays_inside(s, r),
        ensures
            old(b).stays(*final(b)),
            exists|c: LoopCourse<T, TInner, D>| #[trigger]
                loops_by(
                    old(b)@,
                    final(b)@,
                    name@,
                    self.source(),
                    (Line { capacity: self.limit(old(b)@), mark: self.mark() }),
                    body,
                    out.mark(),
                    c,
                ) && gains_loop(
                    old(b).crew(),
                    final(b).crew(),
                    self.strand(),
                    self.limit(old(b)@),
                    summary,
                    c,
                    out.outlets(),
                ),
            out.heads(*final(b), (old(b)@.next + 3) as usize),
    {
        let ghost before = b@;
        proof {
            b.is_sound();
        }
        let index: usize = b.upcoming();
        let ghost given = self;
        let ghost line = Line { capacity: self.limit(before), mark: self.mark() };
        let borders: Borders<Product<T, TInner>, D> = self.open_loop::<TInner>(b, name);
        let ghost opened = b@;
        let ghost crew = b.crew();
        let makers: usize = b.maker_count();
        let start: DataflowBuilder<Product<T, TInner>> = b.inner();
        let entry: Pipe<Product<T, TInner>, D> = Pipe::first_output(
            &start,
            index + 2,
            borders.round.share(),
        );
        let ghost start0 = start;
        let ghost entry0 = entry;
        assert(starts_loop(before, start, entry));
        let (inner, result) = body(start, entry);
        proof {
            assert(stays_inside(start0, (inner, result)));
            b.is_sound();
        }
        let ghost mut c = LoopCourse {
            opened,
            crew,
            borders,
            start: start0,
            entry: entry0,
            inner,
            result,
            held: false,
        };
        let mut inner = inner;
        let output = LoopEnd::new(result.output, &inner, Slot::new(index + 3, 0));
        let feedback = LoopEnd::new(result.feedback, &inner, Slot::new(index + 1, 0));
        let held = inner.take_seal().is_held_elsewhere();
        proof {
            c.held = held;
        }
        let out = close_loop(
            b,
            inner,
            output,
            feedback,
            name,
            summary,
            index,
            makers - 1,
            borders.returned.share(),
            held,
        );
        proof {
            assert(gains_loop(
                old(b).crew(),
                b.crew(),
                given.strand(),
                given.limit(before),
                summary,
                c,
                out.outlets(),
            ));
            assert(loops_by(before, b@, name@, given.source(), line, body, out.mark(), c));
        }
        out
    }
}

} // verus!
