//! Splitting and joining streams.

use std::collections::VecDeque;
use std::rc::Rc;
use core::marker::PhantomData;
use vstd::prelude::*;
use crate::builder::{taps, BuilderView, DataflowBuilder, NewOperator};
use crate::error::{Error, Result};
use crate::graph::ChannelKind;
use crate::handles::{InputHandle, OutputHandle};
use crate::order::Timestamp;
use crate::pipe::{one, reading, Pipe};
use crate::role::{Duty, Line, Role};
use crate::schedulable::BoxedChannelFactory;
use crate::shared::Mark;
use crate::strand::{ChannelCell, Outlets, Strand};
use crate::stream::Slot;
use crate::text::joined;
use crate::wired::joins::{JoinState, MergeState};
use crate::wired::operator::{
    marks, merges, read_from_start, runs, AsIs, JoinCore, MergeCore, TaskBoard, TaskCore,
};
use crate::wired::relay::Batched;
use crate::wired::streams::{
    AndThenLogic, BranchLogic, ErrLogic, FilterOkLogic, MapOkLogic, OkLogic,
};
use crate::wired::tasks::TaskState;

verus! {

/// The ports and channels of streams that are joined.
pub open spec fn joined_inputs<T, D>(
    streams: Seq<Pipe<T, D>>,
    before: BuilderView,
) -> Seq<(Slot, Line)> {
    Seq::new(
        streams.len(),
        |k: int|
            (
                streams[k].source(),
                Line { capacity: streams[k].limit(before), mark: streams[k].mark() },
            ),
    )
}

/// The strands that streams come through.
pub open spec fn strands_of<T, D>(streams: Seq<Pipe<T, D>>) -> Seq<Strand<T, D>> {
    Seq::new(streams.len(), |k: int| streams[k].strand())
}

/// All streams belong to the same builder.
pub open spec fn share_builder<T, D>(streams: Seq<Pipe<T, D>>) -> bool {
    forall|k: int| 0 <= k < streams.len() ==> (#[trigger] streams[k]).seal() == streams[0].seal()
}

/// An operator that merges streams.
pub open spec fn merging(inputs: Seq<(Slot, Line)>, writes: Mark) -> NewOperator {
    NewOperator {
        name: "concat"@,
        duty: Duty {
            role: Role::Merge,
            reads: inputs.map_values(|x: (Slot, Line)| x.1.mark),
            writes: seq![writes],
        },
        inputs,
        outputs: 1,
        kind: ChannelKind::Pipeline,
        width: None,
    }
}

/// The ports and channels of two streams that are joined.
pub open spec fn pair_inputs<T, D, D2>(
    left: Pipe<T, D>,
    right: Pipe<T, D2>,
    before: BuilderView,
) -> Seq<(Slot, Line)> {
    seq![
        (left.source(), Line { capacity: left.limit(before), mark: left.mark() }),
        (right.source(), Line { capacity: right.limit(before), mark: right.mark() }),
    ]
}

/// One of the operators that a stream is split by.
pub struct Part {
    pub name: Seq<char>,
    pub role: Role,
    pub writes: Mark,
}

/// Two operators that read the same port were added one after the other. The first one has a channel
/// of the usual capacity.
pub open spec fn splits_by<T: Timestamp + 'static>(
    before: DataflowBuilder<T>,
    mid: DataflowBuilder<T>,
    after: DataflowBuilder<T>,
    source: Slot,
    line: Line,
    first: Part,
    second: Part,
) -> bool {
    &&& before.grows(
        mid,
        reading(
            source,
            Line { capacity: before@.capacity, mark: line.mark },
            first.name,
            first.role,
            seq![first.writes],
            1,
        ),
    )
    &&& mid.grows(
        after,
        reading(
            source,
            line,
            second.name,
            second.role,
            seq![second.writes],
            1,
        ),
    )
}

fn all_share_builder<T, D>(streams: &Vec<Pipe<T, D>>) -> (b: bool)
    ensures
        b == share_builder(streams@),
{
    let mut k: usize = 0;
    while k < streams.len()
        invariant
            k <= streams@.len(),
            forall|j: int|
                0 <= j < k ==> (#[trigger] streams@[j]).seal() == streams@[0].seal(),
        decreases streams@.len() - k,
    {
        if !streams[k].shares_builder(&streams[0]) {
            assert(streams@[k as int].seal() != streams@[0].seal());
            return false;
        }
        k = k + 1;
    }
    true
}

impl<T: Timestamp + 'static, D: Clone + 'static> Pipe<T, D> {
    /// The operator that was added to a builder last keeps the records to which the predicate gives
    /// the answer `want`.
    pub open spec fn branches_by<F: Fn(&T, &D) -> bool + 'static>(
        &self,
        b: DataflowBuilder<T>,
        out: Pipe<T, D>,
        predicate: F,
        want: bool,
        limit: usize,
    ) -> bool {
        exists|l: Batched<BranchLogic<F>>| #[trigger]
            self.leads_with(b, out, l, limit) && *l.logic.predicate == predicate && l.logic.want == want
    }

    /// Splits the stream into the records for which the predicate holds and the others.
    pub fn branch<F: Fn(&T, &D) -> bool + 'static>(
        self,
        b: &mut DataflowBuilder<T>,
        name: &str,
        predicate: F,
    ) -> (out: (Pipe<T, D>, Pipe<T, D>))
        requires
            self.seal() == old(b).seal(),
            old(b).has_room(2),
            forall|t: &T, x: &D| #[trigger] call_requires(predicate, (t, x)),
        ensures
            exists|mid: DataflowBuilder<T>| #[trigger]
                splits_by(
                    *old(b),
                    mid,
                    *final(b),
                    self.source(),
                    (Line { capacity: self.limit(old(b)@), mark: self.mark() }),
                    (Part {
                        name: name@ + "::true"@,
                        role: Role::Branch(true),
                        writes: out.0.mark(),
                    }),
                    (Part {
                        name: name@ + "::false"@,
                        role: Role::Branch(false),
                        writes: out.1.mark(),
                    }),
                ) && self.branches_by(
                    mid,
                    out.0,
                    predicate,
                    true,
                    old(b)@.capacity,
                ) && self.branches_by(
                    *final(b),
                    out.1,
                    predicate,
                    false,
                    self.limit(old(b)@),
                ),
            out.0.heads(*final(b), old(b)@.next),
            out.1.heads(*final(b), (old(b)@.next + 1) as usize),
    {
        let true_name = joined(name, "::true");
        let false_name = joined(name, "::false");
        let shared = Rc::new(predicate);
        let yes = Batched { logic: BranchLogic { predicate: shared.clone(), want: true } };
        let no = Batched { logic: BranchLogic { predicate: shared, want: false } };
        let copy = self.clone();
        let yes_out = copy.relay(b, true_name.as_str(), yes);
        let ghost mid = *b;
        let no_out = self.relay(b, false_name.as_str(), no);
        proof {
            let usual = old(b)@.capacity;
            let limit = self.limit(old(b)@);
            assert(self.leads_with(mid, yes_out, yes, usual));
            assert(self.branches_by(mid, yes_out, predicate, true, usual));
            assert(self.leads_with(*b, no_out, no, limit));
            assert(self.branches_by(*b, no_out, predicate, false, limit));
            assert(splits_by(
                *old(b),
                mid,
                *b,
                self.source(),
                Line { capacity: self.limit(old(b)@), mark: self.mark() },
                Part { name: name@ + "::true"@, role: Role::Branch(true), writes: yes_out.mark() },
                Part { name: name@ + "::false"@, role: Role::Branch(false), writes: no_out.mark() },
            ));
        }
        (yes_out, no_out)
    }

    /// Lets a closure read two inputs and write the output. Both streams must belong to the same
    /// builder.
    pub fn binary<
        D2: Clone + 'static,
        D3: Clone + 'static,
        L: FnMut(
            &mut InputHandle<T, D>,
            &mut InputHandle<T, D2>,
            &mut OutputHandle<T, D3>,
        ) -> Result<()> + 'static,
    >(self, b: &mut DataflowBuilder<T>, other: Pipe<T, D2>, name: &str, logic: L) -> (r: Result<
        Pipe<T, D3>,
    >)
        requires
            self.seal() == old(b).seal(),
            old(b).has_room(1),
            forall|
                x: &mut InputHandle<T, D>,
                y: &mut InputHandle<T, D2>,
                o: &mut OutputHandle<T, D3>,
            | #[trigger]
                call_requires(logic, (x, y, o)),
        ensures
            r is Ok <==> other.seal() == self.seal(),
            r matches Ok(out) ==> {
                &&& old(b).grows(
                    *final(b),
                    (NewOperator {
                        name: name@,
                        duty: Duty {
                            role: Role::Join,
                            reads: seq![self.mark(), other.mark()],
                            writes: seq![out.mark()],
                        },
                        inputs: pair_inputs(self, other, old(b)@),
                        outputs: 1,
                        kind: ChannelKind::Pipeline,
                        width: None,
                    }),
                )
                &&& exists|core: JoinCore<T, D, D2, D3, L>| #[trigger]
                    runs(final(b).latest(), core) && core.state.logic == logic
                        && core.state.left@.pending.len() == 0 && !core.state.left@.exhausted
                        && core.state.right@.pending.len() == 0 && !core.state.right@.exhausted
                        && core.state.outbox@.len() == 0 && !core.state.done && core.outlets
                        == out.outlets() && core.left.strand() == self.strand()
                        && core.left.cursor() == 0 && core.left.limit() == self.limit(old(b)@)
                        && core.right.strand() == other.strand() && core.right.cursor() == 0
                        && core.right.limit() == other.limit(old(b)@)
                &&& out.heads(*final(b), old(b)@.next)
            },
            r matches Err(e) ==> {
                &&& *final(b) == *old(b)
                &&& e matches Error::InvalidConfig(m) && m@
                    == "binary operator streams must belong to the same DataflowBuilder"@
            },
    {
        if !self.shares_builder(&other) {
            return Err(
                Error::InvalidConfig(
                    "binary operator streams must belong to the same DataflowBuilder".to_owned(),
                ),
            );
        }
        let (left, from_left, left_channel) = self.tap(b, Slot::new(b.upcoming(), 0));
        let (right, from_right, right_channel) = other.tap(b, Slot::new(b.upcoming(), 1));
        let outlets: Outlets<T, D3> = Outlets::new(b.upcoming());
        let core = JoinCore {
            state: JoinState {
                left: InputHandle::new(String::new()),
                right: InputHandle::new(String::new()),
                output: OutputHandle::new(String::new()),
                outbox: VecDeque::new(),
                logic,
                done: false,
            },
            left,
            right,
            outlets: outlets.share(),
        };
        let ghost lines = (left_channel.line(), right_channel.line());
        let mut inputs = one((from_left, left_channel));
        inputs.push((from_right, right_channel));
        let ghost given = taps(inputs@);
        let index: usize = b.attach_core(name, inputs, 1, core);
        proof {
            assert(given[0] == (self.source(), lines.0));
            assert(given[1] == (other.source(), lines.1));
            assert(given =~= pair_inputs(self, other, old(b)@));
            assert(runs(b.latest(), core));
        }
        Ok(Pipe::first_output(b, index, outlets))
    }

    /// Merges streams, which must belong to the same builder.
    pub fn concat(b: &mut DataflowBuilder<T>, streams: Vec<Pipe<T, D>>) -> (r: Result<Pipe<T, D>>)
        requires
            streams@.len() > 0 ==> streams@[0].seal() == old(b).seal(),
            old(b).has_room(1),
        ensures
            r is Ok <==> streams@.len() > 0 && share_builder(streams@),
            r matches Ok(out) ==> {
                &&& old(b).grows(
                    *final(b),
                    merging(joined_inputs(streams@, old(b)@), out.mark()),
                )
                &&& merges::<T, T, D, AsIs>(
                    final(b).latest(),
                    strands_of(streams@),
                    out.outlets(),
                )
                &&& out.heads(*final(b), old(b)@.next)
            },
            r matches Err(e) ==> {
                &&& *final(b) == *old(b)
                &&& e matches Error::InvalidConfig(m) && m@ == if streams@.len() == 0 {
                    "concat requires at least one Pipe"@
                } else {
                    "concat streams must belong to the same DataflowBuilder"@
                }
            },
    {
        if streams.len() == 0 {
            return Err(Error::InvalidConfig("concat requires at least one Pipe".to_owned()));
        }
        if !all_share_builder(&streams) {
            return Err(
                Error::InvalidConfig(
                    "concat streams must belong to the same DataflowBuilder".to_owned(),
                ),
            );
        }
        let ghost given = streams@;
        let ghost before = b@;
        let mut cells: Vec<ChannelCell<T, D>> = Vec::new();
        let mut inputs: Vec<(Slot, BoxedChannelFactory)> = Vec::new();
        for stream in it: streams
            invariant
                it.seq() == given,
                inputs@.len() == it.index(),
                b@ == before,
                forall|k: int| 0 <= k < inputs@.len() ==> (#[trigger] inputs@[k]).1.ready(),
                cells@.len() == inputs@.len(),
                forall|k: int|
                    0 <= k < inputs@.len() ==> (#[trigger] inputs@[k]).0 == given[k].source()
                        && inputs@[k].1.line() == (Line {
                        capacity: given[k].limit(before),
                        mark: given[k].mark(),
                    }),
                forall|k: int|
                    0 <= k < cells@.len() ==> (#[trigger] cells@[k]).strand() == given[k].strand()
                        && cells@[k].cursor() == 0,
        {
            let (cell, from, channel) = stream.tap(b, Slot::new(b.upcoming(), inputs.len()));
            cells.push(cell);
            inputs.push((from, channel));
        }
        let outlets: Outlets<T, D> = Outlets::new(b.upcoming());
        let core: MergeCore<T, D, AsIs> = MergeCore {
            state: MergeState { outbox: VecDeque::new(), done: false },
            inputs: cells,
            outlets: outlets.share(),
            marker: PhantomData,
        };
        let ghost tapped = taps(inputs@);
        let ghost read = marks(core.inputs@);
        let index: usize = b.attach_core("concat", inputs, 1, core);
        proof {
            let all = joined_inputs(given, before);
            assert(tapped =~= all);
            assert(read_from_start(core.inputs@, strands_of(given)));
            assert(read =~= all.map_values(|x: (Slot, Line)| x.1.mark));
            assert(runs(b.latest(), core));
        }
        Ok(Pipe::first_output(b, index, outlets))
    }

    /// Merges the stream with another one of the same builder.
    pub fn merge(self, b: &mut DataflowBuilder<T>, other: Pipe<T, D>) -> (r: Result<Pipe<T, D>>)
        requires
            self.seal() == old(b).seal(),
            old(b).has_room(1),
        ensures
            r is Ok <==> other.seal() == self.seal(),
            r matches Ok(out) ==> {
                &&& old(b).grows(
                    *final(b),
                    merging(pair_inputs(self, other, old(b)@), out.mark()),
                )
                &&& merges::<T, T, D, AsIs>(
                    final(b).latest(),
                    seq![self.strand(), other.strand()],
                    out.outlets(),
                )
                &&& out.heads(*final(b), old(b)@.next)
            },
            r matches Err(e) ==> {
                &&& *final(b) == *old(b)
                &&& e matches Error::InvalidConfig(m) && m@
                    == "concat streams must belong to the same DataflowBuilder"@
            },
    {
        let mut streams = one(self);
        streams.push(other);
        proof {
            assert(streams@ =~= seq![self, other]);
            assert(share_builder(streams@) <==> other.seal() == self.seal()) by {
                assert(streams@[1] == other);
                assert(streams@[0] == self);
            }
        }
        let r = Self::concat(b, streams);
        proof {
            assert(joined_inputs(seq![self, other], old(b)@) =~= pair_inputs(
                self,
                other,
                old(b)@,
            ));
            assert(strands_of(seq![self, other]) =~= seq![self.strand(), other.strand()]);
        }
        r
    }

    /// Processes each batch by a task, up to `max_concurrency` of them at the same time. The tasks
    /// are taken from the board, and their results are put on it.
    pub fn unary_async<D2: Clone + 'static>(
        self,
        b: &mut DataflowBuilder<T>,
        name: &str,
        max_concurrency: usize,
    ) -> (r: (Pipe<T, D2>, TaskBoard<T, D, D2>))
        requires
            self.fits(*old(b)),
        ensures
            old(b).grows(
                *final(b),
                self.reader(
                    old(b)@,
                    name@,
                    Role::Tasks(max_concurrency),
                    seq![r.0.mark()],
                    1,
                ),
            ),
            exists|core: TaskCore<T, D, D2>| #[trigger]
                runs(final(b).latest(), core) && core.board == r.1 && core.state@.is_fresh(
                    max_concurrency,
                ) && !core.given_up && core.outlets == r.0.outlets() && core.input.strand()
                    == self.strand() && core.input.cursor() == 0 && core.input.limit()
                    == self.limit(old(b)@),
            r.1.belongs_to(old(b)@.next),
            r.0.heads(*final(b), old(b)@.next),
    {
        let (cell, from, channel) = self.tap(b, Slot::new(b.upcoming(), 0));
        let outlets: Outlets<T, D2> = Outlets::new(b.upcoming());
        let board: TaskBoard<T, D, D2> = TaskBoard::new(b.upcoming());
        let core = TaskCore {
            state: TaskState::new(max_concurrency),
            input: cell,
            outlets: outlets.share(),
            board: board.share(),
            given_up: false,
        };
        let ghost line = channel.line();
        let inputs = one((from, channel));
        proof {
            assert(taps(inputs@) =~= seq![(self.source(), line)]);
        }
        let index: usize = b.attach_core(name, inputs, 1, core);
        assert(runs(b.latest(), core));
        (Pipe::first_output(b, index, outlets), board)
    }
}

impl<T: Timestamp + 'static, V: Clone + 'static, E: Clone + 'static> Pipe<
    T,
    core::result::Result<V, E>,
> {
    /// Turns each value into another and passes errors on.
    pub fn map_ok<V2: Clone + 'static, F: FnMut(&T, V) -> V2 + 'static>(
        self,
        b: &mut DataflowBuilder<T>,
        name: &str,
        logic: F,
    ) -> (out: Pipe<T, core::result::Result<V2, E>>)
        requires
            self.fits(*old(b)),
            forall|t: &T, x: V| #[trigger] call_requires(logic, (t, x)),
        ensures
            old(b).grows(
                *final(b),
                self.reader(
                    old(b)@,
                    name@,
                    Role::MapOk,
                    seq![out.mark()],
                    1,
                ),
            ),
            self.leads_by(*final(b), out, (Batched { logic: MapOkLogic { logic } })),
            out.heads(*final(b), old(b)@.next),
    {
        self.relay(b, name, Batched { logic: MapOkLogic { logic } })
    }

    /// Keeps the values for which the predicate holds and passes errors on.
    pub fn filter_ok<F: FnMut(&T, &V) -> bool + 'static>(
        self,
        b: &mut DataflowBuilder<T>,
        name: &str,
        predicate: F,
    ) -> (out: Pipe<T, core::result::Result<V, E>>)
        requires
            self.fits(*old(b)),
            forall|t: &T, x: &V| #[trigger] call_requires(predicate, (t, x)),
        ensures
            old(b).grows(
                *final(b),
                self.reader(
                    old(b)@,
                    name@,
                    Role::FilterOk,
                    seq![out.mark()],
                    1,
                ),
            ),
            self.leads_by(*final(b), out, (Batched { logic: FilterOkLogic { predicate } })),
            out.heads(*final(b), old(b)@.next),
    {
        self.relay(b, name, Batched { logic: FilterOkLogic { predicate } })
    }

    /// Turns each value into another or an error, and passes errors on.
    pub fn and_then<
        V2: Clone + 'static,
        F: FnMut(&T, V) -> core::result::Result<V2, E> + 'static,
    >(self, b: &mut DataflowBuilder<T>, name: &str, logic: F) -> (out: Pipe<
        T,
        core::result::Result<V2, E>,
    >)
        requires
            self.fits(*old(b)),
            forall|t: &T, x: V| #[trigger] call_requires(logic, (t, x)),
        ensures
            old(b).grows(
                *final(b),
                self.reader(
                    old(b)@,
                    name@,
                    Role::AndThen,
                    seq![out.mark()],
                    1,
                ),
            ),
            self.leads_by(*final(b), out, (Batched { logic: AndThenLogic { logic } })),
            out.heads(*final(b), old(b)@.next),
    {
        self.relay(b, name, Batched { logic: AndThenLogic { logic } })
    }

    /// Splits the stream into the values and the errors.
    pub fn branch_result(self, b: &mut DataflowBuilder<T>, name: &str) -> (out: (
        Pipe<T, V>,
        Pipe<T, E>,
    ))
        requires
            self.seal() == old(b).seal(),
            old(b).has_room(2),
        ensures
            exists|mid: DataflowBuilder<T>| #[trigger]
                splits_by(
                    *old(b),
                    mid,
                    *final(b),
                    self.source(),
                    (Line { capacity: self.limit(old(b)@), mark: self.mark() }),
                    (Part { name: name@ + "::ok"@, role: Role::OkPart, writes: out.0.mark() }),
                    (Part { name: name@ + "::err"@, role: Role::ErrPart, writes: out.1.mark() }),
                ) && self.leads_with(
                    mid,
                    out.0,
                    (Batched { logic: OkLogic }),
                    old(b)@.capacity,
                ) && self.leads_by(*final(b), out.1, (Batched { logic: ErrLogic })),
            out.0.heads(*final(b), old(b)@.next),
            out.1.heads(*final(b), (old(b)@.next + 1) as usize),
    {
        let ok_name = joined(name, "::ok");
        let err_name = joined(name, "::err");
        let copy = self.clone();
        let ok_out = copy.relay(b, ok_name.as_str(), Batched { logic: OkLogic });
        let ghost mid = *b;
        let err_out = self.relay(b, err_name.as_str(), Batched { logic: ErrLogic });
        proof {
            assert(self.leads_with(
                mid,
                ok_out,
                Batched { logic: OkLogic },
                old(b)@.capacity,
            ));
            assert(splits_by(
                *old(b),
                mid,
                *b,
                self.source(),
                Line { capacity: self.limit(old(b)@), mark: self.mark() },
                Part { name: name@ + "::ok"@, role: Role::OkPart, writes: ok_out.mark() },
                Part { name: name@ + "::err"@, role: Role::ErrPart, writes: err_out.mark() },
            ));
        }
        (ok_out, err_out)
    }
}

} // verus!
