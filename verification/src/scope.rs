//! Scopes: where operators get their indices, and where their graph is collected.

use core::marker::PhantomData;
use vstd::prelude::*;
use crate::error::{Error, Result};
use crate::graph::{
    with_input_count, with_output_count, DataflowGraph, EdgeInfo, GraphView, OperatorInfo,
};
use crate::order::{Product, Timestamp};
use crate::stage::{RegionId, StageId};

verus! {

/// What a scope holds.
pub struct ScopeView {
    pub name: Seq<char>,
    /// The indices of the enclosing subscopes, outermost first.
    pub addr: Seq<usize>,
    /// The first index that the scope hands out.
    pub first_index: int,
    /// The next index that the scope hands out.
    pub next_index: int,
    /// The degree of parallelism of each stage.
    pub parallelism: Seq<usize>,
    /// How many streams enter the scope.
    pub ingress: int,
    /// How many streams leave the scope.
    pub egress: int,
    pub graph: GraphView,
}

impl ScopeView {
    /// No operator is registered under an index that is still to be handed out.
    pub open spec fn fresh_above(self) -> bool {
        forall|i: usize| i >= self.next_index ==> !self.graph.operators.contains_key(i)
    }
}

/// A scope whose streams carry times of type `T`.
#[derive(Debug)]
pub struct Scope<T> {
    name: String,
    addr: Vec<usize>,
    first_index: usize,
    next_index: usize,
    parallelism: Vec<usize>,
    ingress: usize,
    egress: usize,
    graph: DataflowGraph,
    time: PhantomData<T>,
}

/// The outermost scope of a dataflow.
pub type RootScope<T> = Scope<T>;

/// The scope of a loop.
pub type ChildScope<T> = Scope<T>;

impl<T> View for Scope<T> {
    type V = ScopeView;

    closed spec fn view(&self) -> ScopeView {
        ScopeView {
            name: self.name@,
            addr: self.addr@,
            first_index: self.first_index as int,
            next_index: self.next_index as int,
            parallelism: self.parallelism@,
            ingress: self.ingress as int,
            egress: self.egress as int,
            graph: self.graph@,
        }
    }
}

/// A scope that hands out indices from `first` on and runs its first stage `parallelism` wide.
pub open spec fn fresh_scope(
    name: Seq<char>,
    addr: Seq<usize>,
    first: int,
    parallelism: usize,
) -> ScopeView {
    ScopeView {
        name,
        addr,
        first_index: first,
        next_index: first,
        parallelism: seq![parallelism],
        ingress: 0,
        egress: 0,
        graph: GraphView {
            operators: Map::empty(),
            edges: Seq::empty(),
            feedback_edges: Seq::empty(),
        },
    }
}

impl<T> Scope<T> {
    fn starting_at(name: &str, addr: Vec<usize>, first: usize, parallelism: usize) -> (scope: Self)
        ensures
            scope@ == fresh_scope(name@, addr@, first as int, parallelism),
    {
        let mut stages: Vec<usize> = Vec::new();
        stages.push(parallelism);
        let scope = Scope {
            name: name.to_owned(),
            addr,
            first_index: first,
            next_index: first,
            parallelism: stages,
            ingress: 0,
            egress: 0,
            graph: DataflowGraph::new(),
            time: PhantomData,
        };
        assert(scope@.parallelism =~= seq![parallelism]);
        scope
    }

    /// An outermost scope whose first operator has index 0.
    pub fn new(name: &str, parallelism: usize) -> (scope: Self)
        ensures
            scope@ == fresh_scope(name@, Seq::empty(), 0, parallelism),
    {
        Self::starting_at(name, Vec::new(), 0, parallelism)
    }

    /// An outermost scope that keeps index 0 for its boundary, so that its first operator has
    /// index 1.
    pub fn with_boundary(name: &str, parallelism: usize) -> (scope: Self)
        ensures
            scope@ == fresh_scope(name@, Seq::empty(), 1, parallelism),
    {
        Self::starting_at(name, Vec::new(), 1, parallelism)
    }

    /// The name of the scope.
    pub fn name(&self) -> (name: &str)
        ensures
            name@ == self@.name,
    {
        self.name.as_str()
    }

    /// The indices of the enclosing subscopes, outermost first.
    pub fn addr(&self) -> (addr: &Vec<usize>)
        ensures
            addr@ == self@.addr,
    {
        &self.addr
    }

    /// How deep the scope is nested.
    pub fn depth(&self) -> (depth: usize)
        ensures
            depth == self@.addr.len(),
    {
        self.addr.len()
    }

    /// The number of indices that were handed out.
    pub fn operator_count(&self) -> (n: usize)
        requires
            self@.first_index <= self@.next_index,
        ensures
            n == self@.next_index - self@.first_index,
    {
        self.next_index - self.first_index
    }

    /// The graph that was collected.
    pub fn graph(&self) -> (graph: &DataflowGraph)
        ensures
            graph@ == self@.graph,
    {
        &self.graph
    }

    /// The stage in which a scope starts.
    pub fn current_stage_id(&self) -> (stage: StageId)
        ensures
            stage == StageId(0),
    {
        StageId(0)
    }

    /// The region in which a scope starts.
    pub fn current_region(&self) -> (region: RegionId)
        ensures
            region == StageId(0),
    {
        StageId(0)
    }

    /// The degree of parallelism of a stage, if the scope has it.
    pub fn stage_parallelism(&self, stage: StageId) -> (p: Option<usize>)
        ensures
            p == stage_width(self@, stage),
    {
        if stage.0 < self.parallelism.len() {
            Some(self.parallelism[stage.0])
        } else {
            None
        }
    }

    /// Adds a stage.
    pub fn new_stage(&mut self, parallelism: usize) -> (stage: StageId)
        ensures
            stage.0 == old(self)@.parallelism.len(),
            final(self)@ == (ScopeView {
                parallelism: old(self)@.parallelism.push(parallelism),
                ..old(self)@
            }),
    {
        let stage = StageId(self.parallelism.len());
        self.parallelism.push(parallelism);
        stage
    }

    /// The next free operator index.
    pub fn allocate_operator_index(&mut self) -> (index: usize)
        requires
            old(self)@.next_index < usize::MAX,
        ensures
            index == old(self)@.next_index,
            final(self)@ == (ScopeView { next_index: old(self)@.next_index + 1, ..old(self)@ }),
    {
        let index: usize = self.next_index;
        self.next_index = index + 1;
        index
    }

    /// Registers an operator in the graph of the scope.
    pub fn register_operator(&mut self, info: OperatorInfo) -> (r: Result<()>)
        ensures
            r is Ok <==> !old(self)@.graph.operators.contains_key(info.index),
            r is Ok ==> final(self)@ == (ScopeView {
                graph: GraphView {
                    operators: old(self)@.graph.operators.insert(info.index, info),
                    ..old(self)@.graph
                },
                ..old(self)@
            }),
            r matches Err(e) ==> final(self)@ == old(self)@ && e == (Error::DuplicateOperator {
                index: info.index,
                name: info.name,
                existing: old(self)@.graph.operators[info.index].name,
            }),
    {
        self.graph.register_operator(info)
    }

    /// Adds an edge to the graph of the scope.
    pub fn add_edge(&mut self, edge: EdgeInfo)
        ensures
            final(self)@ == (ScopeView {
                graph: GraphView {
                    edges: old(self)@.graph.edges.push(edge),
                    ..old(self)@.graph
                },
                ..old(self)@
            }),
    {
        self.graph.add_edge(edge);
    }

    /// Gives a registered operator one more input port, if it is there.
    pub fn increment_operator_input_count(&mut self, index: usize) -> (known: bool)
        requires
            old(self)@.graph.operators.contains_key(index) ==> old(
                self,
            )@.graph.operators[index].input_count < usize::MAX,
        ensures
            known == old(self)@.graph.operators.contains_key(index),
            final(self)@ == (ScopeView {
                graph: with_extra_input(old(self)@.graph, index),
                ..old(self)@
            }),
    {
        self.graph.increment_input_count(index)
    }

    /// Gives a registered operator one more output port, if it is there.
    pub fn increment_operator_output_count(&mut self, index: usize) -> (known: bool)
        requires
            old(self)@.graph.operators.contains_key(index) ==> old(
                self,
            )@.graph.operators[index].output_count < usize::MAX,
        ensures
            known == old(self)@.graph.operators.contains_key(index),
            final(self)@ == (ScopeView {
                graph: with_extra_output(old(self)@.graph, index),
                ..old(self)@
            }),
    {
        self.graph.increment_output_count(index)
    }

    /// A port of the boundary for one more stream that enters the scope.
    pub fn allocate_ingress_slot(&mut self) -> (slot: usize)
        requires
            old(self)@.ingress < usize::MAX,
        ensures
            slot == old(self)@.ingress,
            final(self)@ == (ScopeView { ingress: old(self)@.ingress + 1, ..old(self)@ }),
    {
        let slot: usize = self.ingress;
        self.ingress = slot + 1;
        slot
    }

    /// A port of the boundary for one more stream that leaves the scope.
    pub fn allocate_egress_slot(&mut self) -> (slot: usize)
        requires
            old(self)@.egress < usize::MAX,
        ensures
            slot == old(self)@.egress,
            final(self)@ == (ScopeView { egress: old(self)@.egress + 1, ..old(self)@ }),
    {
        let slot: usize = self.egress;
        self.egress = slot + 1;
        slot
    }
}

impl<T: Timestamp> Scope<T> {
    /// Opens a loop scope. The loop takes one operator index of this scope, which ends its
    /// address; its own operators are numbered from 1, as 0 is its boundary.
    pub fn iterative<TInner: Timestamp>(&mut self, name: &str) -> (child: ChildScope<
        Product<T, TInner>,
    >)
        requires
            old(self)@.next_index < usize::MAX,
            old(self)@.fresh_above(),
            old(self)@.parallelism.len() > 0,
        ensures
            child@ == fresh_scope(
                name@,
                old(self)@.addr.push(old(self)@.next_index as usize),
                1,
                old(self)@.parallelism[0],
            ),
            exists|info: OperatorInfo|
                info.name@ == name@ && info.index == old(self)@.next_index && info.region_id
                    == StageId(0) && info.input_count == 0 && info.output_count == 0
                    && #[trigger] with_operator(old(self)@, info) == final(self)@,
    {
        let index: usize = self.allocate_operator_index();
        let info = OperatorInfo::new(index, name, StageId(0), 0, 0);
        let ghost registered = info;
        let _ = self.register_operator(info);
        let mut addr: Vec<usize> = Vec::new();
        let mut i: usize = 0;
        while i < self.addr.len()
            invariant
                i <= self.addr@.len(),
                addr@ == self.addr@.take(i as int),
            decreases self.addr@.len() - i,
        {
            addr.push(self.addr[i]);
            assert(addr@ =~= self.addr@.take(i + 1));
            i = i + 1;
        }
        assert(self.addr@.take(i as int) =~= self.addr@);
        addr.push(index);
        assert(with_operator(old(self)@, registered) == self@);
        Scope::starting_at(name, addr, 1, self.parallelism[0])
    }
}

/// A scope after an operator took its next index.
pub open spec fn with_operator(s: ScopeView, info: OperatorInfo) -> ScopeView {
    ScopeView {
        next_index: s.next_index + 1,
        graph: GraphView {
            operators: s.graph.operators.insert(s.next_index as usize, info),
            ..s.graph
        },
        ..s
    }
}

/// A scope with one more edge.
pub open spec fn with_edge(s: ScopeView, edge: EdgeInfo) -> ScopeView {
    ScopeView { graph: GraphView { edges: s.graph.edges.push(edge), ..s.graph }, ..s }
}

/// The degree of parallelism of a stage, if the scope has it.
pub open spec fn stage_width(s: ScopeView, stage: StageId) -> Option<usize> {
    if stage.0 < s.parallelism.len() {
        Some(s.parallelism[stage.0 as int])
    } else {
        None
    }
}

/// A graph in which the given operator, if it is there, has one more input port.
pub open spec fn with_extra_input(g: GraphView, index: usize) -> GraphView {
    if g.operators.contains_key(index) {
        GraphView {
            operators: g.operators.insert(
                index,
                with_input_count(g.operators[index], g.operators[index].input_count + 1),
            ),
            ..g
        }
    } else {
        g
    }
}

/// A graph in which the given operator, if it is there, has one more output port.
pub open spec fn with_extra_output(g: GraphView, index: usize) -> GraphView {
    if g.operators.contains_key(index) {
        GraphView {
            operators: g.operators.insert(
                index,
                with_output_count(g.operators[index], g.operators[index].output_count + 1),
            ),
            ..g
        }
    } else {
        g
    }
}

} // verus!
