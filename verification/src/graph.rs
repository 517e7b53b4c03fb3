//! The logical topology of a dataflow: registered operators and the edges between their ports.

use vstd::prelude::*;
use crate::error::{Error, Result};
use crate::operators::branch::select;
use crate::ordered::{insert, strictly_increasing};
use crate::stage::RegionId;
use crate::stream::{slot_text, Slot};
use crate::text::{decimal, push_usize};
use crate::topology::{
    has_cycle, settle, settles, settles_unless_cyclic, settling_order, settling_order_is_unique,
};

verus! {

/// Metadata of a registered operator.
#[derive(Debug)]
pub struct OperatorInfo {
    /// Index of the operator, unique within its graph.
    pub index: usize,
    /// Human-readable name.
    pub name: String,
    /// The region that the operator belongs to.
    pub region_id: RegionId,
    /// Number of input ports.
    pub input_count: usize,
    /// Number of output ports.
    pub output_count: usize,
}

impl OperatorInfo {
    /// Describes an operator.
    pub fn new(
        index: usize,
        name: &str,
        region_id: RegionId,
        input_count: usize,
        output_count: usize,
    ) -> (info: Self)
        ensures
            info.index == index,
            info.name@ == name@,
            info.region_id == region_id,
            info.input_count == input_count,
            info.output_count == output_count,
    {
        OperatorInfo { index, name: name.to_owned(), region_id, input_count, output_count }
    }

    /// The operator on one line, `Op[3] 'filter' (region=0, in=1, out=1)`.
    pub fn to_text(&self) -> (text: String)
        ensures
            text@ == operator_text(*self),
    {
        let mut text = "Op[".to_owned();
        push_usize(&mut text, self.index);
        text.append("] '");
        text.append(self.name.as_str());
        text.append("' (region=");
        push_usize(&mut text, self.region_id.0);
        text.append(", in=");
        push_usize(&mut text, self.input_count);
        text.append(", out=");
        push_usize(&mut text, self.output_count);
        text.append(")");
        text
    }
}

impl Clone for OperatorInfo {
    fn clone(&self) -> (copy: Self)
        ensures
            copy == *self,
    {
        OperatorInfo {
            index: self.index,
            name: self.name.clone(),
            region_id: self.region_id,
            input_count: self.input_count,
            output_count: self.output_count,
        }
    }
}

/// How an operator is written.
pub open spec fn operator_text(op: OperatorInfo) -> Seq<char> {
    "Op["@ + decimal(op.index as nat) + "] '"@ + op.name@ + "' (region="@ + decimal(
        op.region_id.0 as nat,
    ) + ", in="@ + decimal(op.input_count as nat) + ", out="@ + decimal(op.output_count as nat)
        + ")"@
}

/// How the data of an edge travels.
#[derive(Clone, Copy, Debug, PartialEq, Eq, Structural)]
pub enum ChannelKind {
    /// Within one worker.
    Pipeline,
    /// Across workers, repartitioned.
    Exchange,
}

/// A directed edge from an output port to an input port.
#[derive(Clone, Copy, Debug, PartialEq, Eq, Structural)]
pub struct EdgeInfo {
    /// The output port that the edge leaves.
    pub source: Slot,
    /// The input port that the edge enters.
    pub target: Slot,
    /// Region of the source operator.
    pub source_region: RegionId,
    /// Region of the target operator.
    pub target_region: RegionId,
    /// How the data travels.
    pub kind: ChannelKind,
    /// The degree of parallelism behind an exchange, where one was asked for.
    pub target_parallelism: Option<usize>,
}

impl EdgeInfo {
    /// A pipeline edge.
    pub fn new(
        source: Slot,
        target: Slot,
        source_region: RegionId,
        target_region: RegionId,
    ) -> (edge: Self)
        ensures
            edge == pipeline_edge(source, target, source_region, target_region),
    {
        EdgeInfo {
            source,
            target,
            source_region,
            target_region,
            kind: ChannelKind::Pipeline,
            target_parallelism: None,
        }
    }

    /// An exchange edge.
    pub fn exchange(
        source: Slot,
        target: Slot,
        source_region: RegionId,
        target_region: RegionId,
        target_parallelism: Option<usize>,
    ) -> (edge: Self)
        ensures
            edge == exchange_edge(source, target, source_region, target_region, target_parallelism),
    {
        EdgeInfo {
            source,
            target,
            source_region,
            target_region,
            kind: ChannelKind::Exchange,
            target_parallelism,
        }
    }

    /// Whether the edge is an exchange.
    pub fn is_exchange(&self) -> (b: bool)
        ensures
            b == (self.kind is Exchange),
    {
        match self.kind {
            ChannelKind::Exchange => true,
            ChannelKind::Pipeline => false,
        }
    }

    /// The edge on one line, `Op2:Slot0 → Op3:Slot1`.
    pub fn to_text(&self) -> (text: String)
        ensures
            text@ == edge_text(*self),
    {
        let mut text = self.source.to_text();
        text.append(" → ");
        text.append(self.target.to_text().as_str());
        text
    }
}

/// A pipeline edge between two ports.
pub open spec fn pipeline_edge(source: Slot, target: Slot, from: RegionId, to: RegionId) -> EdgeInfo {
    EdgeInfo {
        source,
        target,
        source_region: from,
        target_region: to,
        kind: ChannelKind::Pipeline,
        target_parallelism: None,
    }
}

/// The numbers of the exchange edges, in ascending order.
pub open spec fn exchange_edges(edges: Seq<EdgeInfo>) -> Seq<usize>
    decreases edges.len(),
{
    if edges.len() == 0 {
        Seq::empty()
    } else {
        let before = exchange_edges(edges.drop_last());
        if edges.last().kind is Exchange {
            before.push((edges.len() - 1) as usize)
        } else {
            before
        }
    }
}

/// The exchange edges are listed without omission, and in ascending order.
pub proof fn exchange_edges_are_all(edges: Seq<EdgeInfo>)
    requires
        edges.len() <= usize::MAX,
    ensures
        forall|i: usize| #[trigger]
            exchange_edges(edges).contains(i) <==> i < edges.len() && edges[i as int].kind is Exchange,
        forall|i: int, j: int|
            0 <= i < j < exchange_edges(edges).len() ==> #[trigger] exchange_edges(edges)[i]
                < #[trigger] exchange_edges(edges)[j],
        forall|k: int|
            0 <= k < exchange_edges(edges).len() ==> #[trigger] exchange_edges(edges)[k]
                < edges.len(),
    decreases edges.len(),
{
    if edges.len() > 0 {
        let rest = edges.drop_last();
        let list = exchange_edges(edges);
        let before = exchange_edges(rest);
        exchange_edges_are_all(rest);
        assert forall|i: usize| #[trigger] list.contains(i) <==> i < edges.len()
            && edges[i as int].kind is Exchange by {
            if list.contains(i) {
                let k = choose|k: int| 0 <= k < list.len() && list[k] == i;
                if k < before.len() {
                    assert(before.contains(i));
                }
            }
            if i < edges.len() && edges[i as int].kind is Exchange {
                if i < edges.len() - 1 {
                    assert(rest[i as int] == edges[i as int]);
                    assert(before.contains(i));
                    let k = choose|k: int| 0 <= k < before.len() && before[k] == i;
                    assert(list[k] == i);
                } else {
                    assert(list[list.len() - 1] == i);
                }
            }
        }
        assert forall|k: int| 0 <= k < list.len() implies #[trigger] list[k] < edges.len() by {
            if k < before.len() {
                assert(list[k] == before[k]);
            }
        }
        assert forall|i: int, j: int| 0 <= i < j < list.len() implies #[trigger] list[i]
            < #[trigger] list[j] by {
            assert(list[i] == before[i]);
            if j < before.len() {
                assert(list[j] == before[j]);
            }
        }
    }
}

/// The exchange edges of two lists, one behind the other.
pub(crate) proof fn lemma_exchange_edges_concat(a: Seq<EdgeInfo>, b: Seq<EdgeInfo>)
    requires
        a.len() + b.len() <= usize::MAX,
    ensures
        exchange_edges(a + b) == exchange_edges(a) + exchange_edges(b).map_values(
            |i: usize| (i + a.len()) as usize,
        ),
    decreases b.len(),
{
    let more = |i: usize| (i + a.len()) as usize;
    if b.len() == 0 {
        assert(a + b =~= a);
        assert(exchange_edges(a) + exchange_edges(b).map_values(more) =~= exchange_edges(a));
    } else {
        assert((a + b).drop_last() =~= a + b.drop_last());
        lemma_exchange_edges_concat(a, b.drop_last());
        assert(exchange_edges(a + b) =~= exchange_edges(a) + exchange_edges(b).map_values(more));
    }
}

/// Which edges are exchange edges depends on their kinds alone.
pub(crate) proof fn lemma_exchange_edges_kinds(a: Seq<EdgeInfo>, b: Seq<EdgeInfo>)
    requires
        a.len() == b.len(),
        forall|i: int| 0 <= i < a.len() ==> (#[trigger] a[i]).kind == b[i].kind,
    ensures
        exchange_edges(a) == exchange_edges(b),
    decreases a.len(),
{
    if a.len() > 0 {
        assert forall|i: int| 0 <= i < a.len() - 1 implies (#[trigger] a.drop_last()[i]).kind
            == b.drop_last()[i].kind by {
            assert(a[i].kind == b[i].kind);
        }
        lemma_exchange_edges_kinds(a.drop_last(), b.drop_last());
        assert(a[a.len() - 1].kind == b[b.len() - 1].kind);
    }
}

/// An exchange edge between two ports.
pub open spec fn exchange_edge(
    source: Slot,
    target: Slot,
    from: RegionId,
    to: RegionId,
    target_parallelism: Option<usize>,
) -> EdgeInfo {
    EdgeInfo {
        source,
        target,
        source_region: from,
        target_region: to,
        kind: ChannelKind::Exchange,
        target_parallelism,
    }
}

/// How an edge is written.
pub open spec fn edge_text(edge: EdgeInfo) -> Seq<char> {
    slot_text(edge.source) + " → "@ + slot_text(edge.target)
}

/// What a graph holds.
pub struct GraphView {
    /// The registered operators by index.
    pub operators: Map<usize, OperatorInfo>,
    /// The regular edges in the order in which they were added.
    pub edges: Seq<EdgeInfo>,
    /// The edges that close loops, in the order in which they were added.
    pub feedback_edges: Seq<EdgeInfo>,
}

/// The topology of a dataflow.
#[derive(Debug)]
pub struct DataflowGraph {
    operators: Vec<OperatorInfo>,
    edges: Vec<EdgeInfo>,
    feedback_edges: Vec<EdgeInfo>,
}

/// The operators of a list are in the order of their indices.
pub open spec fn sorted_by_index(ops: Seq<OperatorInfo>) -> bool {
    forall|i: int, j: int| 0 <= i < j < ops.len() ==> ops[i].index < ops[j].index
}

/// The position of the operator with the given index.
pub open spec fn position_of(ops: Seq<OperatorInfo>, index: usize) -> int {
    choose|i: int| 0 <= i < ops.len() && #[trigger] ops[i].index == index
}

/// Whether a list holds an operator with the given index.
pub open spec fn holds_index(ops: Seq<OperatorInfo>, index: usize) -> bool {
    exists|i: int| 0 <= i < ops.len() && #[trigger] ops[i].index == index
}

/// The operators of a list by index.
pub open spec fn by_index(ops: Seq<OperatorInfo>) -> Map<usize, OperatorInfo> {
    Map::new(|index: usize| holds_index(ops, index), |index: usize| ops[position_of(ops, index)])
}

impl View for DataflowGraph {
    type V = GraphView;

    closed spec fn view(&self) -> GraphView {
        GraphView {
            operators: by_index(self.operators@),
            edges: self.edges@,
            feedback_edges: self.feedback_edges@,
        }
    }
}

/// What stands at a position is found under its index.
proof fn lemma_by_index(ops: Seq<OperatorInfo>, i: int)
    requires
        sorted_by_index(ops),
        0 <= i < ops.len(),
    ensures
        by_index(ops).contains_key(ops[i].index),
        by_index(ops)[ops[i].index] == ops[i],
        position_of(ops, ops[i].index) == i,
{
    let index = ops[i].index;
    let p = position_of(ops, index);
    assert(ops[i].index == index);
    assert(0 <= p < ops.len() && ops[p].index == index);
    assert(p == i);
}

/// Every key is the index of the operator that is found under it.
proof fn lemma_by_index_key(ops: Seq<OperatorInfo>, index: usize)
    requires
        sorted_by_index(ops),
        by_index(ops).contains_key(index),
    ensures
        0 <= position_of(ops, index) < ops.len(),
        ops[position_of(ops, index)].index == index,
        by_index(ops)[index] == ops[position_of(ops, index)],
{
}

/// There are as many keys as operators.
proof fn lemma_by_index_len(ops: Seq<OperatorInfo>)
    requires
        sorted_by_index(ops),
    ensures
        by_index(ops).dom().finite(),
        by_index(ops).dom().len() == ops.len(),
    decreases ops.len(),
{
    if ops.len() == 0 {
        assert(by_index(ops).dom() =~= Set::empty());
    } else {
        let rest = ops.drop_last();
        lemma_by_index_len(rest);
        let last = ops.last().index;
        assert(by_index(ops).dom() =~= by_index(rest).dom().insert(last)) by {
            assert forall|x: usize| by_index(ops).dom().contains(x) <==> by_index(rest).dom().insert(
                last,
            ).contains(x) by {
                if holds_index(ops, x) {
                    let i = choose|i: int| 0 <= i < ops.len() && #[trigger] ops[i].index == x;
                    if i < rest.len() {
                        assert(rest[i].index == x);
                    }
                }
                if holds_index(rest, x) {
                    let i = choose|i: int| 0 <= i < rest.len() && #[trigger] rest[i].index == x;
                    assert(ops[i].index == x);
                }
                if x == last {
                    assert(ops[ops.len() - 1].index == x);
                }
            }
        }
        assert(!by_index(rest).dom().contains(last)) by {
            if holds_index(rest, last) {
                let i = choose|i: int| 0 <= i < rest.len() && #[trigger] rest[i].index == last;
                assert(ops[i].index < ops[ops.len() - 1].index);
            }
        }
    }
}

impl DataflowGraph {
    /// The operators stand in the order of their indices.
    #[verifier::type_invariant]
    spec fn inv(self) -> bool {
        sorted_by_index(self.operators@)
    }

    /// A graph without operators and edges.
    pub fn new() -> (graph: Self)
        ensures
            graph@.operators == Map::<usize, OperatorInfo>::empty(),
            graph@.edges == Seq::<EdgeInfo>::empty(),
            graph@.feedback_edges == Seq::<EdgeInfo>::empty(),
    {
        let graph = DataflowGraph {
            operators: Vec::new(),
            edges: Vec::new(),
            feedback_edges: Vec::new(),
        };
        assert(graph@.operators =~= Map::<usize, OperatorInfo>::empty());
        graph
    }

    /// The number of registered operators.
    pub fn operator_count(&self) -> (n: usize)
        ensures
            self@.operators.dom().finite(),
            n == self@.operators.dom().len(),
    {
        proof {
            use_type_invariant(self);
            lemma_by_index_len(self.operators@);
        }
        self.operators.len()
    }

    /// The number of regular edges.
    pub fn edge_count(&self) -> (n: usize)
        ensures
            n == self@.edges.len(),
    {
        self.edges.len()
    }

    /// Where the operator with the given index stands.
    fn find(&self, index: usize) -> (pos: Option<usize>)
        ensures
            sorted_by_index(self.operators@),
            pos matches Some(p) ==> p < self.operators@.len() && self.operators@[p as int].index
                == index && self@.operators.contains_key(index) && self@.operators[index]
                == self.operators@[p as int] && position_of(self.operators@, index) == p,
            pos is None ==> !self@.operators.contains_key(index),
    {
        proof {
            use_type_invariant(self);
        }
        let mut i: usize = 0;
        while i < self.operators.len()
            invariant
                sorted_by_index(self.operators@),
                i <= self.operators@.len(),
                forall|k: int| 0 <= k < i ==> self.operators@[k].index != index,
            decreases self.operators@.len() - i,
        {
            if self.operators[i].index == index {
                proof {
                    lemma_by_index(self.operators@, i as int);
                }
                return Some(i);
            }
            i = i + 1;
        }
        None
    }

    /// The operator with the given index.
    pub fn operator(&self, index: usize) -> (op: Option<&OperatorInfo>)
        ensures
            op matches Some(o) ==> self@.operators.contains_key(index) && *o
                == self@.operators[index] && o.index == index,
            op is None ==> !self@.operators.contains_key(index),
    {
        match self.find(index) {
            Some(p) => Some(&self.operators[p]),
            None => None,
        }
    }

    /// The registered operators in the order of their indices.
    pub fn operators(&self) -> (ops: &Vec<OperatorInfo>)
        ensures
            sorted_by_index(ops@),
            by_index(ops@) == self@.operators,
    {
        proof {
            use_type_invariant(self);
        }
        &self.operators
    }

    /// The regular edges in the order in which they were added.
    pub fn edges(&self) -> (edges: &Vec<EdgeInfo>)
        ensures
            edges@ == self@.edges,
    {
        &self.edges
    }

    /// The edges that close loops, in the order in which they were added.
    pub fn feedback_edges(&self) -> (edges: &Vec<EdgeInfo>)
        ensures
            edges@ == self@.feedback_edges,
    {
        &self.feedback_edges
    }

    /// Registers an operator under its index. An index that is taken is an error, and the graph
    /// stays as it was.
    pub fn register_operator(&mut self, info: OperatorInfo) -> (r: Result<()>)
        ensures
            final(self)@.edges == old(self)@.edges,
            final(self)@.feedback_edges == old(self)@.feedback_edges,
            r is Ok <==> !old(self)@.operators.contains_key(info.index),
            r is Ok ==> final(self)@.operators == old(self)@.operators.insert(info.index, info),
            r matches Err(e) ==> {
                &&& final(self)@.operators == old(self)@.operators
                &&& e == (Error::DuplicateOperator {
                    index: info.index,
                    name: info.name,
                    existing: old(self)@.operators[info.index].name,
                })
            },
    {
        if let Some(p) = self.find(info.index) {
            return Err(
                Error::DuplicateOperator {
                    index: info.index,
                    name: info.name,
                    existing: self.operators[p].name.clone(),
                },
            );
        }
        let ghost before = self.operators@;
        let index: usize = info.index;
        let mut ops: Vec<OperatorInfo> = Vec::new();
        core::mem::swap(&mut ops, &mut self.operators);
        let mut at: usize = 0;
        while at < ops.len() && ops[at].index < index
            invariant
                sorted_by_index(ops@),
                index == info.index,
                at <= ops@.len(),
                forall|k: int| 0 <= k < at ==> ops@[k].index < index,
            decreases ops@.len() - at,
        {
            at = at + 1;
        }
        proof {
            lemma_by_index_insert(ops@, at as int, info);
        }
        ops.insert(at, info);
        self.operators = ops;
        Ok(())
    }

    /// Takes over the operators and edges of another graph, whose operators have other indices.
    pub fn absorb(&mut self, other: DataflowGraph)
        requires
            old(self)@.operators.dom().disjoint(other@.operators.dom()),
        ensures
            final(self)@ == (GraphView {
                operators: old(self)@.operators.union_prefer_right(other@.operators),
                edges: old(self)@.edges + other@.edges,
                feedback_edges: old(self)@.feedback_edges + other@.feedback_edges,
            }),
    {
        proof {
            use_type_invariant(&other);
        }
        let ghost ops = other.operators@;
        let ghost start = self@;
        let DataflowGraph { operators, edges, feedback_edges } = other;
        proof {
            assert(ops.take(0) =~= Seq::<OperatorInfo>::empty());
            assert(start.operators.union_prefer_right(by_index(ops.take(0)))
                =~= start.operators);
        }
        for info in it: operators
            invariant
                it.seq() == ops,
                sorted_by_index(ops),
                start.operators.dom().disjoint(by_index(ops).dom()),
                self@ == (GraphView {
                    operators: start.operators.union_prefer_right(
                        by_index(ops.take(it.index() as int)),
                    ),
                    ..start
                }),
        {
            let ghost k = it.index() as int;
            proof {
                let seen = ops.take(k);
                assert(sorted_by_index(seen));
                lemma_by_index(ops, k);
                assert(ops[k] == info);
                assert(by_index(ops).dom().contains(info.index));
                assert(!by_index(seen).dom().contains(info.index)) by {
                    if holds_index(seen, info.index) {
                        let j = choose|j: int|
                            0 <= j < seen.len() && (#[trigger] seen[j]).index == info.index;
                        assert(ops[j].index < ops[k].index);
                    }
                }
                lemma_by_index_insert(seen, k, info);
                assert(seen.insert(k, info) =~= ops.take(k + 1));
            }
            let _ = self.register_operator(info);
            proof {
                assert(self@.operators =~= start.operators.union_prefer_right(
                    by_index(ops.take(k + 1)),
                ));
            }
        }
        proof {
            assert(ops.take(ops.len() as int) =~= ops);
            use_type_invariant(&*self);
        }
        let mut edges = edges;
        let mut feedback_edges = feedback_edges;
        let mut own_edges: Vec<EdgeInfo> = Vec::new();
        core::mem::swap(&mut own_edges, &mut self.edges);
        own_edges.append(&mut edges);
        self.edges = own_edges;
        let mut own_feedback: Vec<EdgeInfo> = Vec::new();
        core::mem::swap(&mut own_feedback, &mut self.feedback_edges);
        own_feedback.append(&mut feedback_edges);
        self.feedback_edges = own_feedback;
    }

    /// Adds a regular edge. Whether its ports exist is for [`validate`](Self::validate) to say.
    pub fn add_edge(&mut self, edge: EdgeInfo)
        ensures
            final(self)@.operators == old(self)@.operators,
            final(self)@.edges == old(self)@.edges.push(edge),
            final(self)@.feedback_edges == old(self)@.feedback_edges,
    {
        proof {
            use_type_invariant(&*self);
        }
        let mut edges: Vec<EdgeInfo> = Vec::new();
        core::mem::swap(&mut edges, &mut self.edges);
        edges.push(edge);
        self.edges = edges;
    }

    /// Adds an edge that closes a loop. Such edges take no part in the topological order.
    pub fn add_feedback_edge(&mut self, edge: EdgeInfo)
        ensures
            final(self)@.operators == old(self)@.operators,
            final(self)@.edges == old(self)@.edges,
            final(self)@.feedback_edges == old(self)@.feedback_edges.push(edge),
    {
        proof {
            use_type_invariant(&*self);
        }
        let mut edges: Vec<EdgeInfo> = Vec::new();
        core::mem::swap(&mut edges, &mut self.feedback_edges);
        edges.push(edge);
        self.feedback_edges = edges;
    }

    /// Replaces the metadata at a position by metadata with the same index.
    fn replace_at(&mut self, p: usize, info: OperatorInfo)
        requires
            p < old(self).operators@.len(),
            old(self).operators@[p as int].index == info.index,
        ensures
            final(self)@.operators == old(self)@.operators.insert(info.index, info),
            final(self)@.edges == old(self)@.edges,
            final(self)@.feedback_edges == old(self)@.feedback_edges,
            final(self).operators@.len() == old(self).operators@.len(),
            forall|k: int|
                0 <= k < old(self).operators@.len() && k != p ==> final(self).operators@[k]
                    == old(self).operators@[k],
    {
        proof {
            use_type_invariant(&*self);
            lemma_by_index_update(self.operators@, p as int, info);
        }
        let mut ops: Vec<OperatorInfo> = Vec::new();
        core::mem::swap(&mut ops, &mut self.operators);
        ops.set(p, info);
        self.operators = ops;
    }

    /// Gives a registered operator one more input port. Returns `false`, and changes nothing, if
    /// the operator is not registered.
    pub fn increment_input_count(&mut self, operator_index: usize) -> (known: bool)
        requires
            old(self)@.operators.contains_key(operator_index) ==> old(
                self,
            )@.operators[operator_index].input_count < usize::MAX,
        ensures
            final(self)@.edges == old(self)@.edges,
            final(self)@.feedback_edges == old(self)@.feedback_edges,
            known == old(self)@.operators.contains_key(operator_index),
            !known ==> final(self)@.operators == old(self)@.operators,
            known ==> final(self)@.operators == old(self)@.operators.insert(
                operator_index,
                with_input_count(
                    old(self)@.operators[operator_index],
                    old(self)@.operators[operator_index].input_count + 1,
                ),
            ),
    {
        match self.find(operator_index) {
            Some(p) => {
                let op = &self.operators[p];
                let info = OperatorInfo {
                    index: op.index,
                    name: op.name.clone(),
                    region_id: op.region_id,
                    input_count: op.input_count + 1,
                    output_count: op.output_count,
                };
                self.replace_at(p, info);
                true
            },
            None => false,
        }
    }

    /// Gives a registered operator one more output port. Returns `false`, and changes nothing, if
    /// the operator is not registered.
    pub fn increment_output_count(&mut self, operator_index: usize) -> (known: bool)
        requires
            old(self)@.operators.contains_key(operator_index) ==> old(
                self,
            )@.operators[operator_index].output_count < usize::MAX,
        ensures
            final(self)@.edges == old(self)@.edges,
            final(self)@.feedback_edges == old(self)@.feedback_edges,
            known == old(self)@.operators.contains_key(operator_index),
            !known ==> final(self)@.operators == old(self)@.operators,
            known ==> final(self)@.operators == old(self)@.operators.insert(
                operator_index,
                with_output_count(
                    old(self)@.operators[operator_index],
                    old(self)@.operators[operator_index].output_count + 1,
                ),
            ),
    {
        match self.find(operator_index) {
            Some(p) => {
                let op = &self.operators[p];
                let info = OperatorInfo {
                    index: op.index,
                    name: op.name.clone(),
                    region_id: op.region_id,
                    input_count: op.input_count,
                    output_count: op.output_count + 1,
                };
                self.replace_at(p, info);
                true
            },
            None => false,
        }
    }

    /// The edges that leave the given operator, in the order in which they were added.
    pub fn edges_from(&self, operator_index: usize) -> (found: Vec<&EdgeInfo>)
        ensures
            found@.map_values(|e: &EdgeInfo| *e) == self@.edges.filter(
                |e: EdgeInfo| e.source.operator_index == operator_index,
            ),
    {
        let mut found: Vec<&EdgeInfo> = Vec::new();
        let ghost leaves = |e: EdgeInfo| e.source.operator_index == operator_index;
        let mut i: usize = 0;
        assert(self.edges@.take(0) =~= Seq::empty());
        assert(found@.map_values(|e: &EdgeInfo| *e) =~= self.edges@.take(0).filter(leaves)) by {
            reveal(Seq::filter);
        }
        while i < self.edges.len()
            invariant
                i <= self.edges@.len(),
                leaves == (|e: EdgeInfo| e.source.operator_index == operator_index),
                found@.map_values(|e: &EdgeInfo| *e) == self.edges@.take(i as int).filter(leaves),
            decreases self.edges@.len() - i,
        {
            proof {
                lemma_filter_step(self.edges@, i as int, leaves);
            }
            if self.edges[i].source.operator_index == operator_index {
                let ghost before = found@;
                found.push(&self.edges[i]);
                assert(found@.map_values(|e: &EdgeInfo| *e) =~= before.map_values(
                    |e: &EdgeInfo| *e,
                ).push(self.edges@[i as int]));
            }
            i = i + 1;
        }
        assert(self.edges@.take(i as int) =~= self.edges@);
        found
    }

    /// The edges that enter the given operator, in the order in which they were added.
    pub fn edges_to(&self, operator_index: usize) -> (found: Vec<&EdgeInfo>)
        ensures
            found@.map_values(|e: &EdgeInfo| *e) == self@.edges.filter(
                |e: EdgeInfo| e.target.operator_index == operator_index,
            ),
    {
        let mut found: Vec<&EdgeInfo> = Vec::new();
        let ghost enters = |e: EdgeInfo| e.target.operator_index == operator_index;
        let mut i: usize = 0;
        assert(self.edges@.take(0) =~= Seq::empty());
        assert(found@.map_values(|e: &EdgeInfo| *e) =~= self.edges@.take(0).filter(enters)) by {
            reveal(Seq::filter);
        }
        while i < self.edges.len()
            invariant
                i <= self.edges@.len(),
                enters == (|e: EdgeInfo| e.target.operator_index == operator_index),
                found@.map_values(|e: &EdgeInfo| *e) == self.edges@.take(i as int).filter(enters),
            decreases self.edges@.len() - i,
        {
            proof {
                lemma_filter_step(self.edges@, i as int, enters);
            }
            if self.edges[i].target.operator_index == operator_index {
                let ghost before = found@;
                found.push(&self.edges[i]);
                assert(found@.map_values(|e: &EdgeInfo| *e) =~= before.map_values(
                    |e: &EdgeInfo| *e,
                ).push(self.edges@[i as int]));
            }
            i = i + 1;
        }
        assert(self.edges@.take(i as int) =~= self.edges@);
        found
    }

    /// The indices of the operators that an edge of the given operator leads to, each once, in
    /// increasing order.
    pub fn successors(&self, operator_index: usize) -> (succs: Vec<usize>)
        ensures
            strictly_increasing(succs@),
            forall|x: usize| #[trigger]
                succs@.contains(x) <==> leads_to(self@.edges, operator_index, x),
    {
        let mut succs: Vec<usize> = Vec::new();
        let mut i: usize = 0;
        while i < self.edges.len()
            invariant
                i <= self.edges@.len(),
                strictly_increasing(succs@),
                forall|x: usize| #[trigger]
                    succs@.contains(x) <==> leads_to(self.edges@.take(i as int), operator_index, x),
            decreases self.edges@.len() - i,
        {
            let e = self.edges[i];
            let ghost before = succs@;
            proof {
                assert forall|x: usize| #[trigger]
                    leads_to(self.edges@.take(i + 1), operator_index, x) <==> leads_to(
                        self.edges@.take(i as int),
                        operator_index,
                        x,
                    ) || (e.source.operator_index == operator_index && e.target.operator_index
                        == x) by {
                    lemma_leads_to_step(self.edges@, i as int, operator_index, x);
                }
            }
            if e.source.operator_index == operator_index {
                insert(&mut succs, e.target.operator_index);
            }
            i = i + 1;
        }
        assert(self.edges@.take(i as int) =~= self.edges@);
        succs
    }

    /// The indices of the operators from which an edge leads to the given operator, each once, in
    /// increasing order.
    pub fn predecessors(&self, operator_index: usize) -> (preds: Vec<usize>)
        ensures
            strictly_increasing(preds@),
            forall|x: usize| #[trigger]
                preds@.contains(x) <==> leads_to(self@.edges, x, operator_index),
    {
        let mut preds: Vec<usize> = Vec::new();
        let mut i: usize = 0;
        while i < self.edges.len()
            invariant
                i <= self.edges@.len(),
                strictly_increasing(preds@),
                forall|x: usize| #[trigger]
                    preds@.contains(x) <==> leads_to(self.edges@.take(i as int), x, operator_index),
            decreases self.edges@.len() - i,
        {
            let e = self.edges[i];
            proof {
                assert forall|x: usize| #[trigger]
                    leads_to(self.edges@.take(i + 1), x, operator_index) <==> leads_to(
                        self.edges@.take(i as int),
                        x,
                        operator_index,
                    ) || (e.target.operator_index == operator_index && e.source.operator_index
                        == x) by {
                    lemma_leads_to_step(self.edges@, i as int, x, operator_index);
                }
            }
            if e.target.operator_index == operator_index {
                insert(&mut preds, e.source.operator_index);
            }
            i = i + 1;
        }
        assert(self.edges@.take(i as int) =~= self.edges@);
        preds
    }

    /// The indices of the registered operators in increasing order.
    fn indices(&self) -> (indices: Vec<usize>)
        ensures
            strictly_increasing(indices@),
            indices@.to_set() == self@.operators.dom(),
            indices@.len() == self@.operators.dom().len(),
            self@.operators.dom().finite(),
            indices@.len() <= usize::MAX,
    {
        proof {
            use_type_invariant(self);
            lemma_by_index_len(self.operators@);
        }
        let mut indices: Vec<usize> = Vec::new();
        let mut i: usize = 0;
        while i < self.operators.len()
            invariant
                sorted_by_index(self.operators@),
                i <= self.operators@.len(),
                indices@.len() == i,
                forall|k: int| 0 <= k < i ==> indices@[k] == self.operators@[k].index,
            decreases self.operators@.len() - i,
        {
            indices.push(self.operators[i].index);
            i = i + 1;
        }
        assert forall|x: usize| #[trigger]
            indices@.to_set().contains(x) <==> self@.operators.dom().contains(x) by {
            if indices@.contains(x) {
                let k = choose|k: int| 0 <= k < indices@.len() && indices@[k] == x;
                assert(self.operators@[k].index == x);
            }
            if holds_index(self.operators@, x) {
                let k = choose|k: int|
                    0 <= k < self.operators@.len() && #[trigger] self.operators@[k].index == x;
                assert(indices@[k] == x);
            }
        }
        assert(indices@.to_set() =~= self@.operators.dom());
        indices
    }

    /// The operators in an order in which every edge leads forward. An operator comes as soon as
    /// everything before it has come; operators that become free together come in the order of
    /// their indices. If not all operators can be placed, that is an error.
    pub fn topological_order(&self) -> (r: Result<Vec<usize>>)
        ensures
            self@.operators.dom().finite(),
            settles(
                self@.operators.dom(),
                self@.edges,
                settling_order(self@.operators.dom(), self@.edges),
            ),
            is_topological_result(self@, r),
    {
        let indices = self.indices();
        let order = settle(&indices, &self.edges);
        proof {
            vstd::seq_lib::seq_to_set_is_finite(indices@);
            settling_order_is_unique(
                self@.operators.dom(),
                self@.edges,
                order@,
                settling_order(self@.operators.dom(), self@.edges),
            );
        }
        if order.len() != indices.len() {
            return Err(
                Error::CycleDetected { processed: order.len(), total: indices.len() },
            );
        }
        Ok(order)
    }

    /// Checks that every edge joins existing ports of registered operators, that no two edges join
    /// the same ports, and that the edges form no cycle.
    pub fn validate(&self) -> (r: Result<()>)
        ensures
            r is Ok <==> is_valid(self@),
            r is Ok <==> is_well_wired(self@) && !has_cycle(self@.edges),
            r matches Err(e) ==> is_first_fault(self@, e),
    {
        let mut i: usize = 0;
        while i < self.edges.len()
            invariant
                i <= self.edges@.len(),
                forall|k: int| 0 <= k < i ==> #[trigger] edge_fault(self@, k) is None,
            decreases self.edges@.len() - i,
        {
            let edge = self.edges[i];
            let ghost at = i as int;
            let src_op = match self.operator(edge.source.operator_index) {
                Some(op) => op,
                None => {
                    assert(edge_fault(self@, at) is Some);
                    return Err(
                        Error::SourceNotRegistered {
                            edge: i,
                            operator_index: edge.source.operator_index,
                        },
                    );
                },
            };
            let tgt_op = match self.operator(edge.target.operator_index) {
                Some(op) => op,
                None => {
                    assert(edge_fault(self@, at) is Some);
                    return Err(
                        Error::TargetNotRegistered {
                            edge: i,
                            operator_index: edge.target.operator_index,
                        },
                    );
                },
            };
            if edge.source.slot_index >= src_op.output_count {
                assert(edge_fault(self@, at) is Some);
                return Err(
                    Error::SourcePortOutOfRange {
                        edge: i,
                        port: edge.source.slot_index,
                        operator: src_op.name.clone(),
                        count: src_op.output_count,
                    },
                );
            }
            if edge.target.slot_index >= tgt_op.input_count {
                assert(edge_fault(self@, at) is Some);
                return Err(
                    Error::TargetPortOutOfRange {
                        edge: i,
                        port: edge.target.slot_index,
                        operator: tgt_op.name.clone(),
                        count: tgt_op.input_count,
                    },
                );
            }
            i = i + 1;
        }
        let mut j: usize = 0;
        while j < self.edges.len()
            invariant
                j <= self.edges@.len(),
                forall|k: int| 0 <= k < self.edges@.len() ==> #[trigger] edge_fault(self@, k) is None,
                forall|k: int| 0 <= k < j ==> !#[trigger] is_repeated(self@.edges, k),
            decreases self.edges@.len() - j,
        {
            let edge = self.edges[j];
            let mut k: usize = 0;
            while k < j
                invariant
                    k <= j < self.edges@.len(),
                    edge == self.edges@[j as int],
                    forall|m: int| 0 <= m < self.edges@.len() ==> #[trigger] edge_fault(self@, m) is None,
                    forall|m: int| 0 <= m < j ==> !#[trigger] is_repeated(self@.edges, m),
                    forall|m: int| 0 <= m < k ==> !same_ports(#[trigger] self.edges@[m], edge),
                decreases j - k,
            {
                if self.edges[k].source == edge.source && self.edges[k].target == edge.target {
                    assert(same_ports(self.edges@[k as int], edge));
                    assert(is_repeated(self@.edges, j as int));
                    return Err(
                        Error::DuplicateEdge {
                            source: edge.source,
                            target: edge.target,
                            position: j,
                        },
                    );
                }
                k = k + 1;
            }
            j = j + 1;
        }
        let order = self.topological_order();
        proof {
            let ops = self@.operators.dom();
            assert forall|k: int| 0 <= k < self@.edges.len() implies ops.contains(
                (#[trigger] self@.edges[k]).source.operator_index,
            ) && ops.contains(self@.edges[k].target.operator_index) by {
                assert(edge_fault(self@, k) is None);
            }
            settles_unless_cyclic(ops, self@.edges, settling_order(ops, self@.edges));
        }
        match order {
            Ok(_) => Ok(()),
            Err(e) => Err(e),
        }
    }

    /// The graph as text: a heading, then the operators in the order of their indices, then the
    /// regular edges, one per line.
    pub fn to_text(&self) -> (text: String)
        ensures
            exists|ops: Seq<OperatorInfo>|
                sorted_by_index(ops) && #[trigger] by_index(ops) == self@.operators && text@
                    == graph_text(ops, self@.edges),
    {
        proof {
            use_type_invariant(self);
        }
        let mut text = "DataflowGraph (".to_owned();
        push_usize(&mut text, self.operators.len());
        text.append(" operators, ");
        push_usize(&mut text, self.edges.len());
        text.append(" edges)\n");
        let ghost heading = text@;
        let mut i: usize = 0;
        while i < self.operators.len()
            invariant
                i <= self.operators@.len(),
                text@ == heading + operator_lines(self.operators@.take(i as int)),
            decreases self.operators@.len() - i,
        {
            let ghost before = text@;
            text.append("  ");
            text.append(self.operators[i].to_text().as_str());
            text.append("\n");
            proof {
                assert(self.operators@.take(i + 1).drop_last() =~= self.operators@.take(i as int));
                assert(text@ =~= heading + operator_lines(self.operators@.take(i + 1)));
            }
            i = i + 1;
        }
        assert(self.operators@.take(i as int) =~= self.operators@);
        let ghost upper = text@;
        let mut k: usize = 0;
        while k < self.edges.len()
            invariant
                k <= self.edges@.len(),
                text@ == upper + edge_lines(self.edges@.take(k as int)),
            decreases self.edges@.len() - k,
        {
            text.append("  ");
            text.append(self.edges[k].to_text().as_str());
            text.append("\n");
            proof {
                assert(self.edges@.take(k + 1).drop_last() =~= self.edges@.take(k as int));
                assert(text@ =~= upper + edge_lines(self.edges@.take(k + 1)));
            }
            k = k + 1;
        }
        assert(self.edges@.take(k as int) =~= self.edges@);
        assert(text@ =~= graph_text(self.operators@, self.edges@));
        assert(by_index(self.operators@) == self@.operators);
        text
    }
}

impl Default for DataflowGraph {
    fn default() -> (graph: Self)
        ensures
            graph@.operators == Map::<usize, OperatorInfo>::empty(),
            graph@.edges == Seq::<EdgeInfo>::empty(),
            graph@.feedback_edges == Seq::<EdgeInfo>::empty(),
    {
        Self::new()
    }
}

/// One line per operator.
pub open spec fn operator_lines(ops: Seq<OperatorInfo>) -> Seq<char>
    decreases ops.len(),
{
    if ops.len() == 0 {
        Seq::empty()
    } else {
        operator_lines(ops.drop_last()) + "  "@ + operator_text(ops.last()) + "\n"@
    }
}

/// One line per edge.
pub open spec fn edge_lines(edges: Seq<EdgeInfo>) -> Seq<char>
    decreases edges.len(),
{
    if edges.len() == 0 {
        Seq::empty()
    } else {
        edge_lines(edges.drop_last()) + "  "@ + edge_text(edges.last()) + "\n"@
    }
}

/// How a graph is written.
pub open spec fn graph_text(ops: Seq<OperatorInfo>, edges: Seq<EdgeInfo>) -> Seq<char> {
    "DataflowGraph ("@ + decimal(ops.len()) + " operators, "@ + decimal(edges.len()) + " edges)\n"@
        + operator_lines(ops) + edge_lines(edges)
}

/// What the topological order of a graph is: all operators as they settle, or an error if some
/// do not.
pub open spec fn is_topological_result(g: GraphView, r: Result<Vec<usize>>) -> bool {
    let order = settling_order(g.operators.dom(), g.edges);
    let total = g.operators.dom().len();
    match r {
        Ok(v) => order.len() == total && v@ == order,
        Err(e) => order.len() != total && e == (Error::CycleDetected {
            processed: order.len() as usize,
            total: total as usize,
        }),
    }
}

/// What is wrong with the ports of an edge, if anything.
pub open spec fn edge_fault(g: GraphView, i: int) -> Option<Error> {
    let e = g.edges[i];
    let source = e.source.operator_index;
    let target = e.target.operator_index;
    if !g.operators.contains_key(source) {
        Some(Error::SourceNotRegistered { edge: i as usize, operator_index: source })
    } else if !g.operators.contains_key(target) {
        Some(Error::TargetNotRegistered { edge: i as usize, operator_index: target })
    } else if e.source.slot_index >= g.operators[source].output_count {
        Some(
            Error::SourcePortOutOfRange {
                edge: i as usize,
                port: e.source.slot_index,
                operator: g.operators[source].name,
                count: g.operators[source].output_count,
            },
        )
    } else if e.target.slot_index >= g.operators[target].input_count {
        Some(
            Error::TargetPortOutOfRange {
                edge: i as usize,
                port: e.target.slot_index,
                operator: g.operators[target].name,
                count: g.operators[target].input_count,
            },
        )
    } else {
        None
    }
}

/// Two edges join the same ports.
pub open spec fn same_ports(a: EdgeInfo, b: EdgeInfo) -> bool {
    a.source == b.source && a.target == b.target
}

/// An earlier edge joins the same ports.
pub open spec fn is_repeated(edges: Seq<EdgeInfo>, i: int) -> bool {
    exists|k: int| 0 <= k < i && same_ports(#[trigger] edges[k], edges[i])
}

/// All edges join existing ports, no two the same ones.
pub open spec fn is_well_wired(g: GraphView) -> bool {
    &&& forall|i: int| 0 <= i < g.edges.len() ==> #[trigger] edge_fault(g, i) is None
    &&& forall|i: int| 0 <= i < g.edges.len() ==> !#[trigger] is_repeated(g.edges, i)
}

/// The graph can be run: it is well wired and all its operators can be ordered.
pub open spec fn is_valid(g: GraphView) -> bool {
    is_well_wired(g) && settling_order(g.operators.dom(), g.edges).len() == g.operators.dom().len()
}

/// The fault that validation reports: the first edge with a faulty port; else the first repeated
/// edge; else the cycle.
pub open spec fn is_first_fault(g: GraphView, e: Error) -> bool {
    ||| exists|i: int|
        0 <= i < g.edges.len() && #[trigger] edge_fault(g, i) == Some(e) && forall|k: int|
            0 <= k < i ==> #[trigger] edge_fault(g, k) is None
    ||| (forall|i: int| 0 <= i < g.edges.len() ==> #[trigger] edge_fault(g, i) is None) && exists|
        j: int,
    |
        0 <= j < g.edges.len() && #[trigger] is_repeated(g.edges, j) && (forall|k: int|
            0 <= k < j ==> !#[trigger] is_repeated(g.edges, k)) && e == (Error::DuplicateEdge {
            source: g.edges[j].source,
            target: g.edges[j].target,
            position: j as usize,
        })
    ||| is_well_wired(g) && e == (Error::CycleDetected {
        processed: settling_order(g.operators.dom(), g.edges).len() as usize,
        total: g.operators.dom().len() as usize,
    })
}

/// The same operator with another number of input ports.
pub open spec fn with_input_count(op: OperatorInfo, count: int) -> OperatorInfo {
    OperatorInfo { input_count: count as usize, ..op }
}

/// The same operator with another number of output ports.
pub open spec fn with_output_count(op: OperatorInfo, count: int) -> OperatorInfo {
    OperatorInfo { output_count: count as usize, ..op }
}

/// Some edge leads from `from` to `to`.
pub open spec fn leads_to(edges: Seq<EdgeInfo>, from: usize, to: usize) -> bool {
    exists|i: int|
        0 <= i < edges.len() && #[trigger] edges[i].source.operator_index == from
            && edges[i].target.operator_index == to
}

proof fn lemma_leads_to_step(edges: Seq<EdgeInfo>, i: int, from: usize, to: usize)
    requires
        0 <= i < edges.len(),
    ensures
        leads_to(edges.take(i + 1), from, to) <==> leads_to(edges.take(i), from, to) || (
        edges[i].source.operator_index == from && edges[i].target.operator_index == to),
{
    let shorter = edges.take(i);
    let longer = edges.take(i + 1);
    if leads_to(longer, from, to) {
        let k = choose|k: int|
            0 <= k < longer.len() && #[trigger] longer[k].source.operator_index == from
                && longer[k].target.operator_index == to;
        if k < i {
            assert(shorter[k].source.operator_index == from);
        }
    }
    if leads_to(shorter, from, to) {
        let k = choose|k: int|
            0 <= k < shorter.len() && #[trigger] shorter[k].source.operator_index == from
                && shorter[k].target.operator_index == to;
        assert(longer[k].source.operator_index == from);
    }
    assert(longer[i] == edges[i]);
}

proof fn lemma_filter_step<A>(s: Seq<A>, i: int, keep: spec_fn(A) -> bool)
    requires
        0 <= i < s.len(),
    ensures
        s.take(i + 1).filter(keep) == if keep(s[i]) {
            s.take(i).filter(keep).push(s[i])
        } else {
            s.take(i).filter(keep)
        },
{
    reveal(Seq::filter);
    assert(s.take(i + 1).drop_last() =~= s.take(i));
    assert(s.take(i + 1).last() == s[i]);
}

/// Putting an operator where it belongs adds it under its index.
proof fn lemma_by_index_insert(ops: Seq<OperatorInfo>, at: int, info: OperatorInfo)
    requires
        sorted_by_index(ops),
        0 <= at <= ops.len(),
        forall|k: int| 0 <= k < at ==> ops[k].index < info.index,
        forall|k: int| at <= k < ops.len() ==> ops[k].index > info.index,
    ensures
        sorted_by_index(ops.insert(at, info)),
        by_index(ops.insert(at, info)) == by_index(ops).insert(info.index, info),
{
    let longer = ops.insert(at, info);
    assert(sorted_by_index(longer));
    let m = by_index(longer);
    assert forall|x: usize| m.contains_key(x) <==> by_index(ops).insert(
        info.index,
        info,
    ).contains_key(x) by {
        if holds_index(longer, x) {
            let i = choose|i: int| 0 <= i < longer.len() && #[trigger] longer[i].index == x;
            if i < at {
                assert(ops[i].index == x);
            } else if i > at {
                assert(ops[i - 1].index == x);
            }
        }
        if holds_index(ops, x) {
            let i = choose|i: int| 0 <= i < ops.len() && #[trigger] ops[i].index == x;
            if i < at {
                assert(longer[i].index == x);
            } else {
                assert(longer[i + 1].index == x);
            }
        }
        assert(longer[at].index == info.index);
    }
    assert forall|x: usize| m.contains_key(x) implies m[x] == by_index(ops).insert(
        info.index,
        info,
    )[x] by {
        let i = position_of(longer, x);
        lemma_by_index(longer, i);
        if i < at {
            lemma_by_index(ops, i);
        } else if i > at {
            lemma_by_index(ops, i - 1);
        }
    }
    assert(m =~= by_index(ops).insert(info.index, info));
}

/// Replacing an operator by one with the same index replaces it under that index.
proof fn lemma_by_index_update(ops: Seq<OperatorInfo>, p: int, info: OperatorInfo)
    requires
        sorted_by_index(ops),
        0 <= p < ops.len(),
        ops[p].index == info.index,
    ensures
        sorted_by_index(ops.update(p, info)),
        by_index(ops.update(p, info)) == by_index(ops).insert(info.index, info),
{
    let other = ops.update(p, info);
    assert(sorted_by_index(other));
    let m = by_index(other);
    assert forall|x: usize| m.contains_key(x) <==> by_index(ops).insert(
        info.index,
        info,
    ).contains_key(x) by {
        if holds_index(other, x) {
            let i = choose|i: int| 0 <= i < other.len() && #[trigger] other[i].index == x;
            assert(ops[i].index == x);
        }
        if holds_index(ops, x) {
            let i = choose|i: int| 0 <= i < ops.len() && #[trigger] ops[i].index == x;
            assert(other[i].index == x);
        }
        assert(other[p].index == info.index);
    }
    assert forall|x: usize| m.contains_key(x) implies m[x] == by_index(ops).insert(
        info.index,
        info,
    )[x] by {
        let i = position_of(other, x);
        lemma_by_index(other, i);
        lemma_by_index(ops, i);
    }
    assert(m =~= by_index(ops).insert(info.index, info));
}

/// The region that a list puts an operator into; later entries count.
pub open spec fn region_in(of: Seq<(usize, RegionId)>, op: usize) -> Option<RegionId>
    decreases of.len(),
{
    if of.len() == 0 {
        None
    } else if of.last().0 == op {
        Some(of.last().1)
    } else {
        region_in(of.drop_last(), op)
    }
}

/// The operator in the region that a list puts it into.
pub open spec fn op_in_region(of: Seq<(usize, RegionId)>, op: OperatorInfo) -> OperatorInfo {
    match region_in(of, op.index) {
        Some(r) => OperatorInfo { region_id: r, ..op },
        None => op,
    }
}

/// The edge between the regions that a list puts its operators into.
pub open spec fn edge_in_regions(of: Seq<(usize, RegionId)>, e: EdgeInfo) -> EdgeInfo {
    EdgeInfo {
        source_region: match region_in(of, e.source.operator_index) {
            Some(r) => r,
            None => e.source_region,
        },
        target_region: match region_in(of, e.target.operator_index) {
            Some(r) => r,
            None => e.target_region,
        },
        ..e
    }
}

impl GraphView {
    /// The graph with its operators in the regions that a list puts them into.
    pub open spec fn in_regions(self, of: Seq<(usize, RegionId)>) -> GraphView {
        GraphView {
            operators: Map::new(
                |i: usize| self.operators.dom().contains(i),
                |i: usize| op_in_region(of, self.operators[i]),
            ),
            edges: self.edges.map_values(|e: EdgeInfo| edge_in_regions(of, e)),
            ..self
        }
    }
}

fn find_region(of: &Vec<(usize, RegionId)>, op: usize) -> (r: Option<RegionId>)
    ensures
        r == region_in(of@, op),
{
    let mut k: usize = of.len();
    assert(of@.take(k as int) =~= of@);
    while k > 0
        invariant
            k <= of@.len(),
            region_in(of@, op) == region_in(of@.take(k as int), op),
        decreases k,
    {
        k = k - 1;
        proof {
            let longer = of@.take(k + 1);
            assert(longer.drop_last() =~= of@.take(k as int));
            assert(longer.last() == of@[k as int]);
        }
        if of[k].0 == op {
            return Some(of[k].1);
        }
    }
    None
}

/// Operators whose metadata changed, but for their indices.
proof fn lemma_by_index_same(a: Seq<OperatorInfo>, b: Seq<OperatorInfo>)
    requires
        sorted_by_index(a),
        a.len() == b.len(),
        forall|i: int| 0 <= i < a.len() ==> (#[trigger] b[i]).index == a[i].index,
    ensures
        sorted_by_index(b),
        by_index(b).dom() == by_index(a).dom(),
        forall|x: usize| #[trigger]
            by_index(a).dom().contains(x) ==> 0 <= position_of(a, x) < a.len() && by_index(a)[x]
                == a[position_of(a, x)] && by_index(b)[x] == b[position_of(a, x)],
{
    assert forall|i: int, j: int| 0 <= i < j < b.len() implies b[i].index < b[j].index by {
        assert(b[i].index == a[i].index);
        assert(b[j].index == a[j].index);
    }
    assert forall|x: usize| holds_index(a, x) <==> holds_index(b, x) by {
        if holds_index(a, x) {
            let i = choose|i: int| 0 <= i < a.len() && #[trigger] a[i].index == x;
            assert(b[i].index == x);
        }
        if holds_index(b, x) {
            let i = choose|i: int| 0 <= i < b.len() && #[trigger] b[i].index == x;
            assert(a[i].index == x);
        }
    }
    assert(by_index(b).dom() =~= by_index(a).dom());
    assert forall|x: usize| #[trigger] by_index(a).dom().contains(x) implies 0 <= position_of(a, x)
        < a.len() && by_index(a)[x] == a[position_of(a, x)] && by_index(b)[x] == b[position_of(
        a,
        x,
    )] by {
        lemma_by_index_key(a, x);
        let p = position_of(a, x);
        assert(b[p].index == x);
        lemma_by_index(b, p);
    }
}

impl DataflowGraph {
    /// Puts operators, and the ends of the regular edges, into the regions that a list gives them.
    pub fn assign_regions(&mut self, of: &Vec<(usize, RegionId)>)
        ensures
            final(self)@ == old(self)@.in_regions(of@),
    {
        proof {
            use_type_invariant(&*self);
        }
        let mut ops: Vec<OperatorInfo> = Vec::new();
        let mut i: usize = 0;
        while i < self.operators.len()
            invariant
                *self == *old(self),
                i <= self.operators@.len(),
                ops@.len() == i,
                forall|k: int|
                    0 <= k < i ==> #[trigger] ops@[k] == op_in_region(of@, self.operators@[k]),
            decreases self.operators@.len() - i,
        {
            let op = &self.operators[i];
            let region = match find_region(of, op.index) {
                Some(r) => r,
                None => op.region_id,
            };
            ops.push(
                OperatorInfo {
                    index: op.index,
                    name: op.name.clone(),
                    region_id: region,
                    input_count: op.input_count,
                    output_count: op.output_count,
                },
            );
            i = i + 1;
        }
        let mut edges: Vec<EdgeInfo> = Vec::new();
        let mut j: usize = 0;
        while j < self.edges.len()
            invariant
                *self == *old(self),
                j <= self.edges@.len(),
                edges@.len() == j,
                forall|k: int|
                    0 <= k < j ==> #[trigger] edges@[k] == edge_in_regions(of@, self.edges@[k]),
            decreases self.edges@.len() - j,
        {
            let e = self.edges[j];
            let source_region = match find_region(of, e.source.operator_index) {
                Some(r) => r,
                None => e.source_region,
            };
            let target_region = match find_region(of, e.target.operator_index) {
                Some(r) => r,
                None => e.target_region,
            };
            edges.push(
                EdgeInfo {
                    source: e.source,
                    target: e.target,
                    source_region,
                    target_region,
                    kind: e.kind,
                    target_parallelism: e.target_parallelism,
                },
            );
            j = j + 1;
        }
        let ghost before = self.operators@;
        proof {
            lemma_by_index_same(before, ops@);
        }
        self.operators = ops;
        self.edges = edges;
        proof {
            let target = old(self)@.in_regions(of@);
            assert(self@.operators =~= target.operators) by {
                assert forall|x: usize| target.operators.dom().contains(x) implies #[trigger]
                    self@.operators[x] == target.operators[x] by {
                    assert(by_index(before).dom().contains(x));
                    let p = position_of(before, x);
                    assert(self.operators@[p] == op_in_region(of@, before[p]));
                }
            }
            assert(self@.edges =~= target.edges);
        }
    }

    /// Keeps the regular edges that are flagged.
    pub fn retain_edges(&mut self, keep: &Vec<bool>)
        requires
            keep@.len() == old(self)@.edges.len(),
        ensures
            final(self)@ == (GraphView {
                edges: select(old(self)@.edges, keep@, true),
                ..old(self)@
            }),
    {
        proof {
            use_type_invariant(&*self);
        }
        let kept = keep_edges(&self.edges, keep);
        self.edges = kept;
    }

    /// Keeps the edges that close loops and are flagged.
    pub fn retain_feedback_edges(&mut self, keep: &Vec<bool>)
        requires
            keep@.len() == old(self)@.feedback_edges.len(),
        ensures
            final(self)@ == (GraphView {
                feedback_edges: select(old(self)@.feedback_edges, keep@, true),
                ..old(self)@
            }),
    {
        proof {
            use_type_invariant(&*self);
        }
        let kept = keep_edges(&self.feedback_edges, keep);
        self.feedback_edges = kept;
    }

    /// Keeps the listed operators.
    pub fn retain_operators(&mut self, listed: &Vec<usize>)
        ensures
            final(self)@ == (GraphView {
                operators: old(self)@.operators.restrict(
                    Set::new(|i: usize| listed@.contains(i)),
                ),
                ..old(self)@
            }),
    {
        proof {
            use_type_invariant(&*self);
        }
        let mut ops: Vec<OperatorInfo> = Vec::new();
        let mut i: usize = 0;
        while i < self.operators.len()
            invariant
                *self == *old(self),
                sorted_by_index(self.operators@),
                i <= self.operators@.len(),
                sorted_by_index(ops@),
                forall|k: int|
                    0 <= k < ops@.len() ==> listed@.contains((#[trigger] ops@[k]).index)
                        && self.operators@.take(i as int).contains(ops@[k]),
                forall|k: int|
                    0 <= k < i && listed@.contains(self.operators@[k].index) ==> ops@.contains(
                        #[trigger] self.operators@[k],
                    ),
            decreases self.operators@.len() - i,
        {
            let ghost before = ops@;
            let ghost upto = self.operators@.take(i as int);
            let ghost next = self.operators@.take(i + 1);
            let kept = is_listed(listed, self.operators[i].index);
            if kept {
                ops.push(self.operators[i].clone());
            }
            proof {
                let op = self.operators@[i as int];
                assert(next[i as int] == op);
                assert forall|k: int| 0 <= k < ops@.len() implies listed@.contains(
                    (#[trigger] ops@[k]).index,
                ) && next.contains(ops@[k]) by {
                    if k < before.len() {
                        assert(ops@[k] == before[k]);
                        let m = choose|m: int| 0 <= m < upto.len() && upto[m] == before[k];
                        assert(next[m] == before[k]);
                    }
                }
                assert forall|k: int|
                    0 <= k < i + 1 && listed@.contains(
                        self.operators@[k].index,
                    ) implies ops@.contains(#[trigger] self.operators@[k]) by {
                    if k < i {
                        let m = choose|m: int| 0 <= m < before.len() && before[m] == self.operators@[k];
                        assert(ops@[m] == self.operators@[k]);
                    } else {
                        assert(ops@[before.len() as int] == self.operators@[k]);
                    }
                }
                assert forall|a: int, b: int| 0 <= a < b < ops@.len() implies ops@[a].index
                    < ops@[b].index by {
                    if b == before.len() {
                        assert(ops@[a] == before[a]);
                        let m = choose|m: int| 0 <= m < upto.len() && upto[m] == before[a];
                        assert(self.operators@[m] == before[a]);
                        assert(self.operators@[m].index < self.operators@[i as int].index);
                    } else {
                        assert(before[a].index < before[b].index);
                    }
                }
            }
            i = i + 1;
        }
        let ghost before = self.operators@;
        assert(before.take(i as int) =~= before);
        self.operators = ops;
        proof {
            let target = by_index(before).restrict(Set::new(|i: usize| listed@.contains(i)));
            assert forall|x: usize| by_index(ops@).dom().contains(x) <==> target.dom().contains(
                x,
            ) by {
                if by_index(ops@).dom().contains(x) {
                    let k = choose|k: int| 0 <= k < ops@.len() && #[trigger] ops@[k].index == x;
                    let m = choose|m: int| 0 <= m < before.len() && before[m] == ops@[k];
                    lemma_by_index(before, m);
                }
                if target.dom().contains(x) {
                    lemma_by_index_key(before, x);
                    let m = position_of(before, x);
                    assert(ops@.contains(before[m]));
                    let k = choose|k: int| 0 <= k < ops@.len() && ops@[k] == before[m];
                    lemma_by_index(ops@, k);
                }
            }
            assert forall|x: usize| target.dom().contains(x) implies #[trigger] by_index(ops@)[x]
                == target[x] by {
                lemma_by_index_key(before, x);
                let m = position_of(before, x);
                assert(ops@.contains(before[m]));
                let k = choose|k: int| 0 <= k < ops@.len() && ops@[k] == before[m];
                lemma_by_index(ops@, k);
                assert(ops@[k].index == x);
            }
            assert(self@.operators =~= target);
        }
    }
}

fn is_listed(listed: &Vec<usize>, x: usize) -> (b: bool)
    ensures
        b == listed@.contains(x),
{
    let mut i: usize = 0;
    while i < listed.len()
        invariant
            i <= listed@.len(),
            forall|k: int| 0 <= k < i ==> listed@[k] != x,
        decreases listed@.len() - i,
    {
        if listed[i] == x {
            return true;
        }
        i = i + 1;
    }
    false
}

/// The flagged edges.
fn keep_edges(edges: &Vec<EdgeInfo>, keep: &Vec<bool>) -> (kept: Vec<EdgeInfo>)
    requires
        keep@.len() == edges@.len(),
    ensures
        kept@ == select(edges@, keep@, true),
{
    let mut kept: Vec<EdgeInfo> = Vec::new();
    let mut i: usize = 0;
    assert(edges@.take(0) =~= Seq::<EdgeInfo>::empty());
    while i < edges.len()
        invariant
            keep@.len() == edges@.len(),
            i <= edges@.len(),
            kept@ == select(edges@.take(i as int), keep@, true),
        decreases edges@.len() - i,
    {
        proof {
            let longer = edges@.take(i + 1);
            assert(longer.drop_last() =~= edges@.take(i as int));
            assert(longer.last() == edges@[i as int]);
        }
        if keep[i] {
            kept.push(edges[i]);
        }
        i = i + 1;
    }
    assert(edges@.take(i as int) =~= edges@);
    kept
}

} // verus!
