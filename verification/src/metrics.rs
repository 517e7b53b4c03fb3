//! Counters of what a dataflow did.

use vstd::prelude::*;

verus! {

/// The counters of an operator.
#[derive(Debug)]
pub struct OperatorMetrics {
    pub name: String,
    pub activations: u64,
    /// How long the activations took together, in nanoseconds.
    pub cpu_nanos: u64,
}

/// The counters of a dataflow.
#[derive(Debug)]
pub struct DataflowMetrics {
    name: String,
    operators: Vec<OperatorMetrics>,
    wall_nanos: u64,
}

/// What was counted.
pub struct MetricsView {
    pub name: Seq<char>,
    /// The names of the operators.
    pub operators: Seq<Seq<char>>,
    /// The number of activations of each operator.
    pub activations: Seq<u64>,
    /// How long the activations of each operator took together.
    pub cpu_nanos: Seq<u64>,
    /// How long the dataflow has been running.
    pub wall_nanos: u64,
}

impl View for DataflowMetrics {
    type V = MetricsView;

    closed spec fn view(&self) -> MetricsView {
        MetricsView {
            name: self.name@,
            operators: self.operators@.map_values(|m: OperatorMetrics| m.name@),
            activations: self.operators@.map_values(|m: OperatorMetrics| m.activations),
            cpu_nanos: self.operators@.map_values(|m: OperatorMetrics| m.cpu_nanos),
            wall_nanos: self.wall_nanos,
        }
    }
}

impl MetricsView {
    /// After an activation of the operator at `pos` was counted that took so long, if there is a
    /// counter for it.
    pub open spec fn recorded(self, pos: int, nanos: u64) -> MetricsView {
        if 0 <= pos < self.activations.len() {
            MetricsView {
                activations: self.activations.update(pos, counted(self.activations[pos])),
                cpu_nanos: self.cpu_nanos.update(
                    pos,
                    tallied(self.cpu_nanos[pos], nanos as int),
                ),
                ..self
            }
        } else {
            self
        }
    }
}

/// One more, unless the counter has reached its end.
pub open spec fn counted(n: u64) -> u64 {
    if n < u64::MAX {
        (n + 1) as u64
    } else {
        n
    }
}

/// `k` more, as far as it can be counted.
pub open spec fn tallied(n: u64, k: int) -> u64 {
    if n + k <= u64::MAX {
        (n + k) as u64
    } else {
        u64::MAX
    }
}

/// The sum of the counters, as far as it can be counted.
pub open spec fn total(counters: Seq<u64>) -> int
    decreases counters.len(),
{
    if counters.len() == 0 {
        0
    } else {
        let sum = total(counters.drop_last()) + counters.last();
        if sum <= u64::MAX {
            sum
        } else {
            u64::MAX as int
        }
    }
}

impl DataflowMetrics {
    /// Counters at zero, for no operator.
    pub fn new(name: &str) -> (m: Self)
        ensures
            m@ == (MetricsView {
                name: name@,
                operators: Seq::<Seq<char>>::empty(),
                activations: Seq::<u64>::empty(),
                cpu_nanos: Seq::<u64>::empty(),
                wall_nanos: 0,
            }),
    {
        let m = DataflowMetrics { name: name.to_owned(), operators: Vec::new(), wall_nanos: 0 };
        assert(m@.operators =~= Seq::<Seq<char>>::empty());
        assert(m@.activations =~= Seq::<u64>::empty());
        assert(m@.cpu_nanos =~= Seq::<u64>::empty());
        m
    }

    /// Adds a counter for an operator.
    pub fn register_operator(&mut self, name: &str)
        ensures
            final(self)@ == (MetricsView {
                operators: old(self)@.operators.push(name@),
                activations: old(self)@.activations.push(0),
                cpu_nanos: old(self)@.cpu_nanos.push(0),
                ..old(self)@
            }),
    {
        self.operators.push(
            OperatorMetrics { name: name.to_owned(), activations: 0, cpu_nanos: 0 },
        );
        assert(self@.operators =~= old(self)@.operators.push(name@));
        assert(self@.activations =~= old(self)@.activations.push(0));
        assert(self@.cpu_nanos =~= old(self)@.cpu_nanos.push(0));
    }

    /// Counts an activation of the operator at `pos` that took so long, if there is a counter for
    /// it.
    pub fn record_activation(&mut self, pos: usize, nanos: u64)
        ensures
            final(self)@ == old(self)@.recorded(pos as int, nanos),
    {
        if pos < self.operators.len() {
            let n: u64 = self.operators[pos].activations;
            let spent: u64 = self.operators[pos].cpu_nanos;
            let name = self.operators[pos].name.clone();
            self.operators.set(
                pos,
                OperatorMetrics {
                    name,
                    activations: n.saturating_add(1),
                    cpu_nanos: spent.saturating_add(nanos),
                },
            );
            proof {
                let after = old(self)@.recorded(pos as int, nanos);
                assert(self@.operators =~= after.operators);
                assert(self@.activations =~= after.activations);
                assert(self@.cpu_nanos =~= after.cpu_nanos);
            }
        }
    }

    /// Notes how long the dataflow has been running.
    pub fn set_wall_nanos(&mut self, nanos: u64)
        ensures
            final(self)@ == (MetricsView { wall_nanos: nanos, ..old(self)@ }),
    {
        self.wall_nanos = nanos;
    }

    /// How long the dataflow has been running, in nanoseconds.
    pub fn wall_nanos(&self) -> (nanos: u64)
        ensures
            nanos == self@.wall_nanos,
    {
        self.wall_nanos
    }

    /// The number of operators with a counter.
    pub fn operator_count(&self) -> (n: usize)
        ensures
            n == self@.activations.len(),
    {
        self.operators.len()
    }

    /// The number of all activations, as far as it can be counted.
    pub fn total_activations(&self) -> (n: u64)
        ensures
            n == total(self@.activations),
    {
        let mut n: u64 = 0;
        let mut i: usize = 0;
        assert(self@.activations.take(0) =~= Seq::<u64>::empty());
        while i < self.operators.len()
            invariant
                i <= self.operators@.len(),
                n == total(self@.activations.take(i as int)),
            decreases self.operators@.len() - i,
        {
            assert(self@.activations.take(i + 1).drop_last() =~= self@.activations.take(i as int));
            n = n.saturating_add(self.operators[i].activations);
            i = i + 1;
        }
        assert(self@.activations.take(i as int) =~= self@.activations);
        n
    }

    /// The counters of the operators.
    pub fn operator_snapshots(&self) -> (ops: &Vec<OperatorMetrics>)
        ensures
            ops@.map_values(|m: OperatorMetrics| m.name@) == self@.operators,
            ops@.map_values(|m: OperatorMetrics| m.activations) == self@.activations,
            ops@.map_values(|m: OperatorMetrics| m.cpu_nanos) == self@.cpu_nanos,
    {
        &self.operators
    }
}

} // verus!
