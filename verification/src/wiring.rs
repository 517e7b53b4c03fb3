//! Operators read the channels of the edges that lead to them, and what they read is what the operators
//! at the other ends write.

use vstd::prelude::*;
use crate::builder::{new_edge, BuilderView, NewOperator};
use crate::graph::EdgeInfo;
use crate::iterate::{in_port, opens_loop, out_port, plain_edge, with_loop_closed, LoopMarks};
use crate::role::{Duty, Line};
use crate::shared::Mark;
use crate::stream::Slot;

verus! {

/// What a factory makes reads the channel at the input that the edge leads to, if the edge leads to
/// what it makes.
pub open spec fn feeds(
    e: EdgeInfo,
    channel: (usize, Line),
    maker: (usize, Option<(usize, Seq<char>, Duty)>),
) -> bool {
    maker.0 == e.target.operator_index ==> {
        &&& maker.1 is Some
        &&& e.target.slot_index < (maker.1->0).2.reads.len()
        &&& (maker.1->0).2.reads[e.target.slot_index as int] == channel.1.mark
    }
}

/// All edges lead to operators with smaller indices than the next one.
pub open spec fn leads_below(edges: Seq<EdgeInfo>, next: int) -> bool {
    forall|n: int| 0 <= n < edges.len() ==> (#[trigger] edges[n]).target.operator_index < next
}

/// Operators read the channels of the edges that lead to them.
pub open spec fn wired_up(v: BuilderView) -> bool {
    &&& forall|n: int, k: int|
        0 <= n < v.graph.edges.len() && 0 <= k < v.operators.len() ==> #[trigger] feeds(
            v.graph.edges[n],
            v.channels[n],
            v.operators[k],
        )
    &&& forall|n: int, k: int|
        0 <= n < v.graph.feedback_edges.len() && 0 <= k < v.operators.len() ==> #[trigger] feeds(
            v.graph.feedback_edges[n],
            v.feedback_channels[n],
            v.operators[k],
        )
    &&& leads_below(v.graph.edges, v.next as int)
    &&& leads_below(v.graph.feedback_edges, v.next as int)
}

/// An operator that reads the channels of its edges keeps a dataflow wired up.
pub proof fn adding_keeps_wired(before: BuilderView, after: BuilderView, op: NewOperator)
    requires
        before.sound(),
        before.next < usize::MAX,
        wired_up(before),
        before.adds(after, op),
        op.inputs.len() <= usize::MAX,
        op.duty.reads == op.inputs.map_values(|x: (Slot, Line)| x.1.mark),
    ensures
        wired_up(after),
{
    let i = before.next;
    let m = before.graph.edges.len();
    let last = before.operators.len() as int;
    assert forall|n: int, k: int|
        0 <= n < after.graph.edges.len() && 0 <= k < after.operators.len() implies #[trigger] feeds(
        after.graph.edges[n],
        after.channels[n],
        after.operators[k],
    ) by {
        if n < m {
            assert(after.graph.edges[n] == before.graph.edges[n]);
            assert(after.channels[n] == before.channels[n]);
            if k < last {
                assert(after.operators[k] == before.operators[k]);
                assert(feeds(before.graph.edges[n], before.channels[n], before.operators[k]));
            }
        } else {
            assert(after.graph.edges[n] == new_edge(op, i, n - m));
            assert(after.channels[n].1 == op.inputs[n - m].1);
            if k < last {
                assert(after.operators[k] == before.operators[k]);
            }
        }
    }
    assert forall|n: int, k: int|
        0 <= n < after.graph.feedback_edges.len() && 0 <= k
            < after.operators.len() implies #[trigger] feeds(
        after.graph.feedback_edges[n],
        after.feedback_channels[n],
        after.operators[k],
    ) by {
        if k < last {
            assert(after.operators[k] == before.operators[k]);
            assert(feeds(
                before.graph.feedback_edges[n],
                before.feedback_channels[n],
                before.operators[k],
            ));
        }
    }
    assert forall|n: int| 0 <= n < after.graph.edges.len() implies (
    #[trigger] after.graph.edges[n]).target.operator_index < after.next by {
        if n < m {
            assert(after.graph.edges[n] == before.graph.edges[n]);
        } else {
            assert(after.graph.edges[n] == new_edge(op, i, n - m));
        }
    }
}

/// A loop whose inside is wired up keeps a dataflow wired up.
pub proof fn loops_keep_wired(
    before: BuilderView,
    opened: BuilderView,
    inner: BuilderView,
    name: Seq<char>,
    marks: LoopMarks,
    source: (Slot, Line),
    output: (Slot, Line),
    feedback: (Slot, Line),
    writes: Mark,
)
    requires
        before.sound(),
        before.next + 4 <= usize::MAX,
        wired_up(before),
        opens_loop(before, opened, name, source.0, source.1, marks),
        inner.sound(),
        inner.first == before.next + 4,
        wired_up(inner),
        forall|n: int|
            0 <= n < inner.graph.edges.len() ==> (
            #[trigger] inner.graph.edges[n]).target.operator_index >= inner.first,
        forall|n: int|
            0 <= n < inner.graph.feedback_edges.len() ==> (
            #[trigger] inner.graph.feedback_edges[n]).target.operator_index >= inner.first,
    ensures
        wired_up(
            with_loop_closed(
                opened.merged(inner),
                before.next as int,
                before.operators.len() + 1int,
                name,
                output,
                feedback,
                marks.returned,
                writes,
            ),
        ),
{
    let i = before.next as int;
    let after = with_loop_closed(
        opened.merged(inner),
        i,
        before.operators.len() + 1int,
        name,
        output,
        feedback,
        marks.returned,
        writes,
    );
    let m = before.graph.edges.len() as int;
    let w = inner.graph.edges.len() as int;
    let f = before.graph.feedback_edges.len() as int;
    let g = inner.graph.feedback_edges.len() as int;
    let o = before.operators.len() as int;
    let q = inner.operators.len() as int;
    // The factories, by the indices of what they make.
    assert forall|k: int| 0 <= k < o implies #[trigger] after.operators[k] == before.operators[k]
        && after.operators[k].0 < i by {
        assert(before.operators[k].0 < before.next);
    }
    assert(after.operators[o].0 == i);
    assert(after.operators[o + 1].0 == i + 1);
    assert(after.operators[o + 2].0 == i + 2);
    assert forall|k: int| o + 3 <= k < o + 3 + q implies #[trigger] after.operators[k]
        == inner.operators[k - o - 3] && after.operators[k].0 >= i + 4 by {
        assert(inner.operators[k - o - 3].0 >= inner.first);
    }
    assert(after.operators[o + 3 + q].0 == i + 3);
    assert(after.operators.len() == o + 4 + q);
    assert(after.graph.edges.len() == m + 4 + w);
    assert(after.graph.feedback_edges.len() == f + g + 1);
    assert forall|n: int, k: int|
        0 <= n < after.graph.edges.len() && 0 <= k < after.operators.len() implies #[trigger] feeds(
        after.graph.edges[n],
        after.channels[n],
        after.operators[k],
    ) by {
        if n < m {
            assert(after.graph.edges[n] == before.graph.edges[n]);
            assert(after.channels[n] == before.channels[n]);
            assert(before.graph.edges[n].target.operator_index < i);
            if k < o {
                assert(feeds(before.graph.edges[n], before.channels[n], before.operators[k]));
            }
        } else if n == m {
            assert(after.graph.edges[n] == plain_edge(source.0, in_port(i, 0)));
            assert(after.channels[n] == opened.channels[n]);
        } else if n == m + 1 || n == m + 2 {
            assert(after.graph.edges[n].target == in_port(i + 2, n - m - 1));
            assert(after.channels[n] == opened.channels[n]);
        } else if n < m + 3 + w {
            let e = inner.graph.edges[n - m - 3];
            assert(after.graph.edges[n] == e);
            assert(after.channels[n].1 == inner.channels[n - m - 3].1);
            if o + 3 <= k < o + 3 + q {
                assert(feeds(e, inner.channels[n - m - 3], inner.operators[k - o - 3]));
            }
        } else {
            assert(after.graph.edges[n] == plain_edge(output.0, in_port(i + 3, 0)));
            assert(after.channels[n].1 == output.1);
        }
    }
    assert forall|n: int, k: int|
        0 <= n < after.graph.feedback_edges.len() && 0 <= k
            < after.operators.len() implies #[trigger] feeds(
        after.graph.feedback_edges[n],
        after.feedback_channels[n],
        after.operators[k],
    ) by {
        if n < f {
            assert(after.graph.feedback_edges[n] == before.graph.feedback_edges[n]);
            assert(after.feedback_channels[n] == before.feedback_channels[n]);
            assert(before.graph.feedback_edges[n].target.operator_index < i);
            if k < o {
                assert(feeds(
                    before.graph.feedback_edges[n],
                    before.feedback_channels[n],
                    before.operators[k],
                ));
            }
        } else if n < f + g {
            let e = inner.graph.feedback_edges[n - f];
            assert(after.graph.feedback_edges[n] == e);
            assert(after.feedback_channels[n].1 == inner.feedback_channels[n - f].1);
            if o + 3 <= k < o + 3 + q {
                assert(feeds(e, inner.feedback_channels[n - f], inner.operators[k - o - 3]));
            }
        } else {
            assert(after.graph.feedback_edges[n] == plain_edge(feedback.0, in_port(i + 1, 0)));
            assert(after.feedback_channels[n].1 == feedback.1);
        }
    }
    assert forall|n: int| 0 <= n < after.graph.edges.len() implies (
    #[trigger] after.graph.edges[n]).target.operator_index < after.next by {
        if n < m {
            assert(after.graph.edges[n] == before.graph.edges[n]);
        } else if m + 3 <= n < m + 3 + w {
            assert(after.graph.edges[n] == inner.graph.edges[n - m - 3]);
        }
    }
    assert forall|n: int| 0 <= n < after.graph.feedback_edges.len() implies (
    #[trigger] after.graph.feedback_edges[n]).target.operator_index < after.next by {
        if n < f {
            assert(after.graph.feedback_edges[n] == before.graph.feedback_edges[n]);
        } else if n < f + g {
            assert(after.graph.feedback_edges[n] == inner.graph.feedback_edges[n - f]);
        }
    }
}

/// What has the given mark is written at the port, as far as the operator of the port has a factory.
pub open spec fn comes_from(v: BuilderView, port: Slot, mark: Mark) -> bool {
    &&& port.operator_index < v.next
    &&& forall|k: int|
        0 <= k < v.operators.len() && (#[trigger] v.operators[k]).0 == port.operator_index
            ==> is_written(v.operators[k], port.slot_index, mark)
}

/// What a factory makes writes what has the given mark, at its output with the given number.
pub open spec fn is_written(
    maker: (usize, Option<(usize, Seq<char>, Duty)>),
    slot: usize,
    mark: Mark,
) -> bool {
    &&& maker.1 is Some
    &&& slot < (maker.1->0).2.writes.len()
    &&& (maker.1->0).2.writes[slot as int] == mark
}

/// The channel of each edge carries what is written at the source of the edge.
pub open spec fn carried(v: BuilderView) -> bool {
    &&& forall|n: int|
        0 <= n < v.graph.edges.len() ==> comes_from(
            v,
            (#[trigger] v.graph.edges[n]).source,
            v.channels[n].1.mark,
        )
    &&& forall|n: int|
        0 <= n < v.graph.feedback_edges.len() ==> comes_from(
            v,
            (#[trigger] v.graph.feedback_edges[n]).source,
            v.feedback_channels[n].1.mark,
        )
}

/// What came from a port still does after an operator was added.
pub proof fn adding_keeps_origins(
    before: BuilderView,
    after: BuilderView,
    op: NewOperator,
    port: Slot,
    mark: Mark,
)
    requires
        before.next < usize::MAX,
        before.adds(after, op),
        comes_from(before, port, mark),
    ensures
        comes_from(after, port, mark),
{
    assert forall|k: int|
        0 <= k < after.operators.len() && (#[trigger] after.operators[k]).0
            == port.operator_index implies is_written(
        after.operators[k],
        port.slot_index,
        mark,
    ) by {
        if k < before.operators.len() {
            assert(after.operators[k] == before.operators[k]);
        }
    }
}

/// An operator whose inputs come from where its edges lead from keeps a dataflow carrying what is
/// written; and what it writes itself comes from it.
pub proof fn adding_keeps_carried(before: BuilderView, after: BuilderView, op: NewOperator)
    requires
        before.sound(),
        before.next < usize::MAX,
        carried(before),
        before.adds(after, op),
        forall|k: int|
            0 <= k < op.inputs.len() ==> comes_from(
                before,
                (#[trigger] op.inputs[k]).0,
                op.inputs[k].1.mark,
            ),
    ensures
        carried(after),
        op.duty.writes.len() > 0 ==> comes_from(
            after,
            Slot { operator_index: before.next, slot_index: 0 },
            op.duty.writes[0],
        ),
{
    let i = before.next;
    let m = before.graph.edges.len();
    assert forall|n: int| 0 <= n < after.graph.edges.len() implies comes_from(
        after,
        (#[trigger] after.graph.edges[n]).source,
        after.channels[n].1.mark,
    ) by {
        if n < m {
            assert(after.graph.edges[n] == before.graph.edges[n]);
            assert(after.channels[n] == before.channels[n]);
            adding_keeps_origins(
                before,
                after,
                op,
                before.graph.edges[n].source,
                before.channels[n].1.mark,
            );
        } else {
            assert(after.graph.edges[n] == new_edge(op, i, n - m));
            assert(after.channels[n].1 == op.inputs[n - m].1);
            adding_keeps_origins(
                before,
                after,
                op,
                op.inputs[n - m].0,
                op.inputs[n - m].1.mark,
            );
        }
    }
    assert forall|n: int| 0 <= n < after.graph.feedback_edges.len() implies comes_from(
        after,
        (#[trigger] after.graph.feedback_edges[n]).source,
        after.feedback_channels[n].1.mark,
    ) by {
        adding_keeps_origins(
            before,
            after,
            op,
            before.graph.feedback_edges[n].source,
            before.feedback_channels[n].1.mark,
        );
    }
    if op.duty.writes.len() > 0 {
        assert forall|k: int|
            0 <= k < after.operators.len() && (#[trigger] after.operators[k]).0
                == i implies is_written(after.operators[k], 0, op.duty.writes[0]) by {
            if k < before.operators.len() {
                assert(after.operators[k] == before.operators[k]);
                assert(before.operators[k].0 < before.next);
            }
        }
    }
}

/// Where what is read inside a loop comes from: from inside, or from where the records that go round
/// come from.
pub open spec fn comes_from_within(inner: BuilderView, i: int, round: Mark, port: Slot, m: Mark) -> bool {
    &&& comes_from(inner, port, m)
    &&& port.operator_index >= inner.first || (port == out_port(i + 2) && m == round)
}

/// What comes from inside a loop, or from where the records that go round come from, still does after
/// the loop was closed.
proof fn lemma_loop_origin(
    before: BuilderView,
    inner: BuilderView,
    after: BuilderView,
    marks: LoopMarks,
    port: Slot,
    m: Mark,
)
    requires
        before.sound(),
        before.next + 4 <= usize::MAX,
        inner.sound(),
        inner.first == before.next + 4,
        after.next == inner.next,
        loop_makers(before, inner, after, marks),
        comes_from_within(inner, before.next as int, marks.round, port, m) || (comes_from(
            before,
            port,
            m,
        )),
    ensures
        comes_from(after, port, m),
{
    let i = before.next as int;
    let o = before.operators.len() as int;
    let q = inner.operators.len() as int;
    assert forall|k: int|
        0 <= k < after.operators.len() && (#[trigger] after.operators[k]).0
            == port.operator_index implies is_written(
        after.operators[k],
        port.slot_index,
        m,
    ) by {
        if k < o {
            assert(after.operators[k] == before.operators[k]);
            assert(before.operators[k].0 < before.next);
        } else if o + 3 <= k < o + 3 + q {
            assert(after.operators[k] == inner.operators[k - o - 3]);
            assert(inner.operators[k - o - 3].0 >= inner.first);
        }
    }
}

/// The factories after a loop was added: those from before, the way in, the way back, the place where
/// both meet, the inside, and the way out.
pub open spec fn loop_makers(
    before: BuilderView,
    inner: BuilderView,
    after: BuilderView,
    marks: LoopMarks,
) -> bool {
    let i = before.next as int;
    let o = before.operators.len() as int;
    let q = inner.operators.len() as int;
    &&& after.operators.len() == o + 4 + q
    &&& forall|k: int| 0 <= k < o ==> #[trigger] after.operators[k] == before.operators[k]
    &&& forall|k: int|
        o + 3 <= k < o + 3 + q ==> #[trigger] after.operators[k] == inner.operators[k - o - 3]
    &&& after.operators[o].0 == i
    &&& is_written(after.operators[o], 0, marks.entered)
    &&& after.operators[o + 1].0 == i + 1
    &&& is_written(after.operators[o + 1], 0, marks.returned)
    &&& after.operators[o + 2].0 == i + 2
    &&& is_written(after.operators[o + 2], 0, marks.round)
    &&& after.operators[o + 3 + q].0 == i + 3
}

/// A loop whose inside carries what is written, and which is closed by what comes from its inside,
/// keeps a dataflow carrying what is written.
pub proof fn loops_keep_carried(
    before: BuilderView,
    opened: BuilderView,
    inner: BuilderView,
    name: Seq<char>,
    marks: LoopMarks,
    source: (Slot, Line),
    output: (Slot, Line),
    feedback: (Slot, Line),
    writes: Mark,
)
    requires
        before.sound(),
        before.next + 4 <= usize::MAX,
        carried(before),
        comes_from(before, source.0, source.1.mark),
        opens_loop(before, opened, name, source.0, source.1, marks),
        inner.sound(),
        inner.first == before.next + 4,
        forall|n: int|
            0 <= n < inner.graph.edges.len() ==> comes_from_within(
                inner,
                before.next as int,
                marks.round,
                (#[trigger] inner.graph.edges[n]).source,
                inner.channels[n].1.mark,
            ),
        forall|n: int|
            0 <= n < inner.graph.feedback_edges.len() ==> comes_from_within(
                inner,
                before.next as int,
                marks.round,
                (#[trigger] inner.graph.feedback_edges[n]).source,
                inner.feedback_channels[n].1.mark,
            ),
        comes_from_within(inner, before.next as int, marks.round, output.0, output.1.mark),
        comes_from_within(inner, before.next as int, marks.round, feedback.0, feedback.1.mark),
    ensures
        carried(
            with_loop_closed(
                opened.merged(inner),
                before.next as int,
                before.operators.len() + 1int,
                name,
                output,
                feedback,
                marks.returned,
                writes,
            ),
        ),
{
    let i = before.next as int;
    let after = with_loop_closed(
        opened.merged(inner),
        i,
        before.operators.len() + 1int,
        name,
        output,
        feedback,
        marks.returned,
        writes,
    );
    let m = before.graph.edges.len() as int;
    let w = inner.graph.edges.len() as int;
    let f = before.graph.feedback_edges.len() as int;
    let g = inner.graph.feedback_edges.len() as int;
    let o = before.operators.len() as int;
    let q = inner.operators.len() as int;
    assert(loop_makers(before, inner, after, marks));
    assert forall|n: int| 0 <= n < after.graph.edges.len() implies comes_from(
        after,
        (#[trigger] after.graph.edges[n]).source,
        after.channels[n].1.mark,
    ) by {
        if n < m {
            let e = before.graph.edges[n];
            assert(after.graph.edges[n] == e);
            assert(after.channels[n] == before.channels[n]);
            let mark = before.channels[n].1.mark;
            lemma_loop_origin(before, inner, after, marks, e.source, mark);
        } else if n == m {
            assert(after.graph.edges[n] == plain_edge(source.0, in_port(i, 0)));
            assert(after.channels[n].1 == source.1);
            lemma_loop_origin(before, inner, after, marks, source.0, source.1.mark);
        } else if n == m + 1 || n == m + 2 {
            let x = i + (n - m - 1);
            let mark = if n == m + 1 {
                marks.entered
            } else {
                marks.returned
            };
            assert(after.graph.edges[n].source == out_port(x));
            assert(after.channels[n].1.mark == mark);
            assert forall|k: int|
                0 <= k < after.operators.len() && (#[trigger] after.operators[k]).0
                    == x implies is_written(after.operators[k], 0, mark) by {
                if k < o {
                    assert(after.operators[k] == before.operators[k]);
                    assert(before.operators[k].0 < before.next);
                } else if o + 3 <= k < o + 3 + q {
                    assert(after.operators[k] == inner.operators[k - o - 3]);
                    assert(inner.operators[k - o - 3].0 >= inner.first);
                }
            }
        } else if n < m + 3 + w {
            let e = inner.graph.edges[n - m - 3];
            assert(after.graph.edges[n] == e);
            assert(after.channels[n].1 == inner.channels[n - m - 3].1);
            let mark = inner.channels[n - m - 3].1.mark;
            lemma_loop_origin(before, inner, after, marks, e.source, mark);
        } else {
            assert(after.graph.edges[n] == plain_edge(output.0, in_port(i + 3, 0)));
            assert(after.channels[n].1 == output.1);
            lemma_loop_origin(before, inner, after, marks, output.0, output.1.mark);
        }
    }
    assert forall|n: int| 0 <= n < after.graph.feedback_edges.len() implies comes_from(
        after,
        (#[trigger] after.graph.feedback_edges[n]).source,
        after.feedback_channels[n].1.mark,
    ) by {
        if n < f {
            let e = before.graph.feedback_edges[n];
            assert(after.graph.feedback_edges[n] == e);
            assert(after.feedback_channels[n] == before.feedback_channels[n]);
            let mark = before.feedback_channels[n].1.mark;
            lemma_loop_origin(before, inner, after, marks, e.source, mark);
        } else if n < f + g {
            let e = inner.graph.feedback_edges[n - f];
            assert(after.graph.feedback_edges[n] == e);
            assert(after.feedback_channels[n].1 == inner.feedback_channels[n - f].1);
            let mark = inner.feedback_channels[n - f].1.mark;
            lemma_loop_origin(before, inner, after, marks, e.source, mark);
        } else {
            assert(after.graph.feedback_edges[n] == plain_edge(feedback.0, in_port(i + 1, 0)));
            assert(after.feedback_channels[n].1 == feedback.1);
            lemma_loop_origin(before, inner, after, marks, feedback.0, feedback.1.mark);
        }
    }
}

/// At each edge, what is read at its target is what is written at its source.
pub proof fn edges_join_writers_and_readers(v: BuilderView, n: int, j: int, k: int)
    requires
        wired_up(v),
        carried(v),
        0 <= n < v.graph.edges.len(),
        0 <= j < v.operators.len(),
        0 <= k < v.operators.len(),
        v.operators[j].0 == v.graph.edges[n].source.operator_index,
        v.operators[k].0 == v.graph.edges[n].target.operator_index,
    ensures
        ({
            let e = v.graph.edges[n];
            let writer = (v.operators[j].1->0).2;
            let reader = (v.operators[k].1->0).2;
            &&& e.source.slot_index < writer.writes.len()
            &&& e.target.slot_index < reader.reads.len()
            &&& reader.reads[e.target.slot_index as int] == writer.writes[e.source.slot_index as int]
        }),
{
    let e = v.graph.edges[n];
    assert(comes_from(v, e.source, v.channels[n].1.mark));
    assert(is_written(v.operators[j], e.source.slot_index, v.channels[n].1.mark));
    assert(feeds(v.graph.edges[n], v.channels[n], v.operators[k]));
}

} // verus!
