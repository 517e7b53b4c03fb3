//! Distributing records over workers.

use vstd::prelude::*;
use crate::builder::{BoxedPlan, BuilderView, DataflowBuilder, NewOperator};
use crate::error::{Error, Result};
use crate::graph::ChannelKind;
use crate::order::Timestamp;
use crate::partition::{PartitionKey, PartitionStrategy};
use crate::pipe::Pipe;
use crate::role::{Duty, Line, Role};
use crate::strand::Outlets;
use crate::stream::Slot;
use crate::wired::logic::PassLogic;
use crate::wired::operator::{runs, AsIs, RelayCore};
use crate::wired::relay::Batched;

verus! {

/// The error about a degree of parallelism of 0.
pub open spec fn is_width_error(e: Error) -> bool {
    e matches Error::InvalidConfig(m) && m@ == "target_parallelism must be > 0"@
}

impl<T: Timestamp + 'static, D: Clone + 'static> Pipe<T, D> {
    /// An operator behind an exchange edge was added that passes records on. How the records are
    /// distributed was noted.
    pub open spec fn spreads(
        &self,
        before: DataflowBuilder<T>,
        after: DataflowBuilder<T>,
        name: Seq<char>,
        width: Option<usize>,
        plan: BoxedPlan,
        label: Seq<char>,
        out: Pipe<T, D>,
    ) -> bool {
        let line = Line { capacity: self.limit(before@), mark: self.mark() };
        &&& before.stays(after)
        &&& before@.adds(
            (BuilderView { exchanges: before@.exchanges, ..after@ }),
            (NewOperator {
                name,
                duty: Duty { role: Role::Pass, reads: seq![line.mark], writes: seq![out.mark()] },
                inputs: seq![(self.source(), line)],
                outputs: 1,
                kind: ChannelKind::Exchange,
                width,
            }),
        )
        &&& after@.exchanges == before@.exchanges.push(
            (before@.graph.edges.len() as usize, self.limit(before@), plan, label),
        )
        &&& after.crew() == before.crew().push(after.latest())
        &&& self.leads_by(after, out, (Batched { logic: PassLogic }))
    }

    /// Adds an operator behind an exchange edge.
    fn spread(
        self,
        b: &mut DataflowBuilder<T>,
        name: &str,
        width: Option<usize>,
        strategy: PartitionStrategy<D>,
        label: &str,
    ) -> (out: Pipe<T, D>)
        requires
            self.fits(*old(b)),
        ensures
            self.spreads(
                *old(b),
                *final(b),
                name@,
                width,
                BoxedPlan::of(strategy),
                label@,
                out,
            ),
            out.heads(*final(b), old(b)@.next),
    {
        let capacity: usize = self.resolve(b);
        let (cell, from, channel) = self.tap(b, Slot::new(b.upcoming(), 0));
        let outlets: Outlets<T, D> = Outlets::new(b.upcoming());
        let core: RelayCore<T, D, T, D, Batched<PassLogic>, AsIs, AsIs> = RelayCore::new(
            Batched { logic: PassLogic },
            cell,
            outlets.share(),
        );
        let plan = BoxedPlan::new(strategy);
        let index: usize = b.attach_exchange(
            name,
            from,
            channel,
            width,
            core,
            capacity,
            plan,
            label,
        );
        assert(runs(b.latest(), core));
        Pipe::first_output(b, index, outlets)
    }

    /// Distributes the records by keys: records with equal keys go to the same worker.
    pub fn exchange<K: PartitionKey + 'static, F: Fn(&D) -> K + 'static>(
        self,
        b: &mut DataflowBuilder<T>,
        name: &str,
        key_fn: F,
    ) -> (out: Pipe<T, D>)
        requires
            self.fits(*old(b)),
            forall|r: D| call_requires(key_fn, (&r,)),
        ensures
            exists|s: PartitionStrategy<D>| #[trigger]
                self.spreads(
                    *old(b),
                    *final(b),
                    "exchange"@,
                    None,
                    BoxedPlan::of(s),
                    name@,
                    out,
                ) && s.routes_by_key::<K, F>(name@, key_fn),
            out.heads(*final(b), old(b)@.next),
    {
        let strategy = PartitionStrategy::exchange_by_key(name, key_fn);
        self.spread(b, "exchange", None, strategy, name)
    }

    /// Distributes the records by keys over the given number of workers.
    pub fn exchange_to<K: PartitionKey + 'static, F: Fn(&D) -> K + 'static>(
        self,
        b: &mut DataflowBuilder<T>,
        name: &str,
        target_parallelism: usize,
        key_fn: F,
    ) -> (r: Result<Pipe<T, D>>)
        requires
            self.fits(*old(b)),
            forall|r: D| call_requires(key_fn, (&r,)),
        ensures
            r is Ok <==> target_parallelism > 0,
            r matches Ok(out) ==> {
                &&& out.heads(*final(b), old(b)@.next)
                &&& exists|s: PartitionStrategy<D>| #[trigger]
                    self.spreads(
                        *old(b),
                        *final(b),
                        "exchange"@,
                        Some(target_parallelism),
                        BoxedPlan::of(s),
                        name@,
                        out,
                    ) && s.routes_by_key::<K, F>(name@, key_fn)
            },
            r matches Err(e) ==> *final(b) == *old(b) && is_width_error(e),
    {
        if target_parallelism == 0 {
            return Err(Error::InvalidConfig("target_parallelism must be > 0".to_owned()));
        }
        let strategy = PartitionStrategy::exchange_by_key(name, key_fn);
        Ok(self.spread(b, "exchange", Some(target_parallelism), strategy, name))
    }

    /// Distributes the records by numbers: records with equal numbers go to the same worker.
    pub fn exchange_by_hash<F: Fn(&D) -> u64 + 'static>(
        self,
        b: &mut DataflowBuilder<T>,
        name: &str,
        hash_fn: F,
    ) -> (out: Pipe<T, D>)
        requires
            self.fits(*old(b)),
            forall|r: D| call_requires(hash_fn, (&r,)),
        ensures
            exists|s: PartitionStrategy<D>| #[trigger]
                self.spreads(
                    *old(b),
                    *final(b),
                    "exchange"@,
                    None,
                    BoxedPlan::of(s),
                    name@,
                    out,
                ) && s.routes_by_hash(name@, hash_fn),
            out.heads(*final(b), old(b)@.next),
    {
        let strategy = PartitionStrategy::exchange(name, hash_fn);
        self.spread(b, "exchange", None, strategy, name)
    }

    /// Distributes the records by numbers over the given number of workers.
    pub fn exchange_by_hash_to<F: Fn(&D) -> u64 + 'static>(
        self,
        b: &mut DataflowBuilder<T>,
        name: &str,
        target_parallelism: usize,
        hash_fn: F,
    ) -> (r: Result<Pipe<T, D>>)
        requires
            self.fits(*old(b)),
            forall|r: D| call_requires(hash_fn, (&r,)),
        ensures
            r is Ok <==> target_parallelism > 0,
            r matches Ok(out) ==> {
                &&& out.heads(*final(b), old(b)@.next)
                &&& exists|s: PartitionStrategy<D>| #[trigger]
                    self.spreads(
                        *old(b),
                        *final(b),
                        "exchange"@,
                        Some(target_parallelism),
                        BoxedPlan::of(s),
                        name@,
                        out,
                    ) && s.routes_by_hash(name@, hash_fn)
            },
            r matches Err(e) ==> *final(b) == *old(b) && is_width_error(e),
    {
        if target_parallelism == 0 {
            return Err(Error::InvalidConfig("target_parallelism must be > 0".to_owned()));
        }
        let strategy = PartitionStrategy::exchange(name, hash_fn);
        Ok(self.spread(b, "exchange", Some(target_parallelism), strategy, name))
    }

    /// Sends all records to one worker.
    pub fn gather(self, b: &mut DataflowBuilder<T>, name: &str) -> (out: Pipe<T, D>)
        requires
            self.fits(*old(b)),
        ensures
            self.spreads(
                *old(b),
                *final(b),
                "exchange"@,
                None,
                BoxedPlan::of(PartitionStrategy::<D>::Gather),
                name@,
                out,
            ),
            out.heads(*final(b), old(b)@.next),
    {
        self.spread(b, "exchange", None, PartitionStrategy::Gather, name)
    }

    /// Sends the records to the workers in turn.
    pub fn rebalance(self, b: &mut DataflowBuilder<T>, name: &str) -> (out: Pipe<T, D>)
        requires
            self.fits(*old(b)),
        ensures
            self.spreads(
                *old(b),
                *final(b),
                "exchange"@,
                None,
                BoxedPlan::of(PartitionStrategy::<D>::Rebalance),
                name@,
                out,
            ),
            out.heads(*final(b), old(b)@.next),
    {
        self.spread(b, "exchange", None, PartitionStrategy::Rebalance, name)
    }

    /// Sends the records to the given number of workers in turn.
    pub fn rebalance_to(
        self,
        b: &mut DataflowBuilder<T>,
        name: &str,
        target_parallelism: usize,
    ) -> (r: Result<Pipe<T, D>>)
        requires
            self.fits(*old(b)),
        ensures
            r is Ok <==> target_parallelism > 0,
            r matches Ok(out) ==> self.spreads(
                *old(b),
                *final(b),
                "exchange"@,
                Some(target_parallelism),
                BoxedPlan::of(PartitionStrategy::<D>::Rebalance),
                name@,
                out,
            ) && out.heads(*final(b), old(b)@.next),
            r matches Err(e) ==> *final(b) == *old(b) && is_width_error(e),
    {
        if target_parallelism == 0 {
            return Err(Error::InvalidConfig("target_parallelism must be > 0".to_owned()));
        }
        let strategy = PartitionStrategy::Rebalance;
        Ok(self.spread(b, "exchange", Some(target_parallelism), strategy, name))
    }

    /// Sends each record to all workers.
    pub fn broadcast(self, b: &mut DataflowBuilder<T>, name: &str) -> (out: Pipe<T, D>)
        requires
            self.fits(*old(b)),
        ensures
            self.spreads(
                *old(b),
                *final(b),
                "broadcast"@,
                None,
                BoxedPlan::of(PartitionStrategy::<D>::Broadcast),
                name@,
                out,
            ),
            out.heads(*final(b), old(b)@.next),
    {
        self.spread(b, "broadcast", None, PartitionStrategy::Broadcast, name)
    }
}

} // verus!
