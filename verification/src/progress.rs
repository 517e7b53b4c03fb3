//! Progress: which times may still reach which operator.

use vstd::prelude::*;
use crate::error::{Error, Result};
use crate::frontier::{covers, incomparable, Antichain};
use crate::order::Timestamp;
use crate::ordered::{contains, insert, strictly_increasing};
use crate::shared::{Anything, Shared};

verus! {

/// A time that may still cause something: that of a batch that waits at the input of an operator,
/// or one at which an operator may still send on its own account.
#[derive(Debug)]
pub struct Outstanding<T> {
    pub operator: usize,
    /// Whether it is the time of a waiting batch.
    pub queued: bool,
    pub time: T,
}

/// A connection between operators: from whom, to whom.
pub type Link = (usize, usize);

/// From `a` one can come to `b` along at least one and at most `n` links.
pub open spec fn reaches_within(links: Seq<Link>, a: usize, b: usize, n: nat) -> bool
    decreases n,
{
    n > 0 && exists|i: int|
        0 <= i < links.len() && #[trigger] links[i].0 == a && (links[i].1 == b || reaches_within(
            links,
            links[i].1,
            b,
            (n - 1) as nat,
        ))
}

/// From `a` one can come to `b` along links.
pub open spec fn reaches(links: Seq<Link>, a: usize, b: usize) -> bool {
    exists|n: nat| #[trigger] reaches_within(links, a, b, n)
}

/// What is outstanding at an operator may cause a batch at the input of `op`.
pub open spec fn may_arrive<T>(links: Seq<Link>, o: Outstanding<T>, op: usize) -> bool {
    (o.operator == op && o.queued) || reaches(links, o.operator, op)
}

/// A batch with a time at or before `t` may still arrive at the input of `op`.
pub open spec fn expects<T: Timestamp>(
    links: Seq<Link>,
    outstanding: Seq<Outstanding<T>>,
    op: usize,
    t: T,
) -> bool {
    exists|i: int|
        0 <= i < outstanding.len() && may_arrive(links, #[trigger] outstanding[i], op)
            && outstanding[i].time.le(&t)
}

/// A frontier says exactly which times may still arrive.
pub open spec fn is_frontier<T: Timestamp>(
    links: Seq<Link>,
    outstanding: Seq<Outstanding<T>>,
    op: usize,
    frontier: Seq<T>,
) -> bool {
    &&& incomparable(frontier)
    &&& forall|t: T| #[trigger] covers(frontier, t) <==> expects(links, outstanding, op, t)
}

proof fn lemma_reaches_step(links: Seq<Link>, i: int, b: usize)
    requires
        0 <= i < links.len(),
        links[i].1 == b || reaches(links, links[i].1, b),
    ensures
        reaches(links, links[i].0, b),
{
    if links[i].1 == b {
        assert(reaches_within(links, links[i].0, b, 1));
    } else {
        let n = choose|n: nat| #[trigger] reaches_within(links, links[i].1, b, n);
        assert(reaches_within(links, links[i].0, b, n + 1)) by {
            assert(links[i].0 == links[i].0);
        }
    }
}

/// A set that holds, with the target of a link, also its source, holds all that reach the target.
proof fn lemma_closed_holds(links: Seq<Link>, set: Seq<usize>, a: usize, b: usize, n: nat)
    requires
        forall|i: int|
            0 <= i < links.len() && (links[i].1 == b || set.contains(links[i].1)) ==> set.contains(
                (#[trigger] links[i]).0,
            ),
        reaches_within(links, a, b, n),
    ensures
        set.contains(a),
    decreases n,
{
    let i = choose|i: int|
        0 <= i < links.len() && #[trigger] links[i].0 == a && (links[i].1 == b || reaches_within(
            links,
            links[i].1,
            b,
            (n - 1) as nat,
        ));
    if links[i].1 != b {
        lemma_closed_holds(links, set, links[i].1, b, (n - 1) as nat);
    }
}

proof fn lemma_sources_bound(links: Seq<Link>, set: Seq<usize>)
    requires
        strictly_increasing(set),
        forall|x: usize| #[trigger]
            set.contains(x) ==> exists|i: int| 0 <= i < links.len() && #[trigger] links[i].0 == x,
    ensures
        set.len() <= links.len(),
{
    let sources = links.map_values(|l: Link| l.0);
    assert(set.no_duplicates());
    set.unique_seq_to_set();
    sources.lemma_cardinality_of_set();
    assert(set.to_set().subset_of(sources.to_set())) by {
        assert forall|x: usize| set.to_set().contains(x) implies sources.to_set().contains(x) by {
            assert(set.contains(x));
            let i = choose|i: int| 0 <= i < links.len() && #[trigger] links[i].0 == x;
            assert(sources[i] == x);
        }
    }
    vstd::set_lib::lemma_len_subset(set.to_set(), sources.to_set());
}

/// The operators from which `op` can be reached.
pub fn upstream(links: &Vec<Link>, op: usize) -> (set: Vec<usize>)
    ensures
        strictly_increasing(set@),
        forall|a: usize| #[trigger] set@.contains(a) <==> reaches(links@, a, op),
{
    let mut set: Vec<usize> = Vec::new();
    let mut changed = true;
    while changed
        invariant
            strictly_increasing(set@),
            forall|a: usize| #[trigger] set@.contains(a) ==> reaches(links@, a, op),
            forall|a: usize| #[trigger]
                set@.contains(a) ==> exists|i: int|
                    0 <= i < links@.len() && #[trigger] links@[i].0 == a,
            !changed ==> forall|i: int|
                0 <= i < links@.len() && (links@[i].1 == op || set@.contains(links@[i].1))
                    ==> set@.contains((#[trigger] links@[i]).0),
            set@.len() <= links@.len(),
        decreases links@.len() - set@.len(), (if changed { 1int } else { 0int }),
    {
        changed = false;
        let ghost before = set@;
        let mut i: usize = 0;
        while i < links.len()
            invariant
                i <= links@.len(),
                strictly_increasing(set@),
                forall|a: usize| #[trigger] set@.contains(a) ==> reaches(links@, a, op),
                forall|a: usize| #[trigger]
                    set@.contains(a) ==> exists|k: int|
                        0 <= k < links@.len() && #[trigger] links@[k].0 == a,
                !changed ==> set@ == before,
                changed ==> set@.len() > before.len(),
                !changed ==> forall|k: int|
                    0 <= k < i && (links@[k].1 == op || set@.contains(links@[k].1))
                        ==> set@.contains((#[trigger] links@[k]).0),
            decreases links@.len() - i,
        {
            let link = links[i];
            if (link.1 == op || contains(&set, link.1)) && !contains(&set, link.0) {
                proof {
                    lemma_reaches_step(links@, i as int, op);
                    assert(links@[i as int].0 == link.0);
                }
                insert(&mut set, link.0);
                changed = true;
            }
            i = i + 1;
        }
        proof {
            lemma_sources_bound(links@, set@);
        }
    }
    proof {
        assert forall|a: usize| #[trigger] set@.contains(a) <==> reaches(links@, a, op) by {
            if reaches(links@, a, op) {
                let n = choose|n: nat| #[trigger] reaches_within(links@, a, op, n);
                lemma_closed_holds(links@, set@, a, op, n);
            }
        }
    }
    set
}

/// The frontier at the input of `op`.
pub fn compute_frontier<T: Timestamp>(
    links: &Vec<Link>,
    outstanding: &Vec<Outstanding<T>>,
    op: usize,
) -> (frontier: Antichain<T>)
    ensures
        is_frontier(links@, outstanding@, op, frontier@),
{
    let set = upstream(links, op);
    let mut frontier: Antichain<T> = Antichain::new();
    let mut i: usize = 0;
    proof {
        assert forall|t: T| #[trigger] covers(frontier@, t) <==> expects(
            links@,
            outstanding@.take(0),
            op,
            t,
        ) by {}
    }
    while i < outstanding.len()
        invariant
            i <= outstanding@.len(),
            strictly_increasing(set@),
            forall|a: usize| #[trigger] set@.contains(a) <==> reaches(links@, a, op),
            is_frontier(links@, outstanding@.take(i as int), op, frontier@),
        decreases outstanding@.len() - i,
    {
        let o = &outstanding[i];
        let ghost before = frontier@;
        let arrives = (o.operator == op && o.queued) || contains(&set, o.operator);
        assert(arrives == may_arrive(links@, *o, op));
        if arrives {
            let t = o.time.duplicate();
            let _ = frontier.insert(t);
        }
        proof {
            assert forall|t: T| #[trigger] covers(frontier@, t) <==> expects(
                links@,
                outstanding@.take(i + 1),
                op,
                t,
            ) by {
                let shorter = outstanding@.take(i as int);
                let longer = outstanding@.take(i + 1);
                assert(covers(before, t) <==> expects(links@, shorter, op, t));
                if expects(links@, shorter, op, t) {
                    let k = choose|k: int|
                        0 <= k < shorter.len() && may_arrive(links@, #[trigger] shorter[k], op)
                            && shorter[k].time.le(&t);
                    assert(longer[k] == shorter[k]);
                }
                if expects(links@, longer, op, t) {
                    let k = choose|k: int|
                        0 <= k < longer.len() && may_arrive(links@, #[trigger] longer[k], op)
                            && longer[k].time.le(&t);
                    if k < i {
                        assert(shorter[k] == longer[k]);
                    }
                }
                assert(longer[i as int] == *o);
            }
        }
        i = i + 1;
    }
    assert(outstanding@.take(i as int) =~= outstanding@);
    frontier
}

/// Whether two antichains cover the same times.
fn same_cover<T: Timestamp>(a: &Antichain<T>, b: &Antichain<T>) -> (same: bool)
    ensures
        same <==> forall|t: T| covers(a@, t) <==> covers(b@, t),
{
    let left = all_covered(a, b);
    let right = all_covered(b, a);
    proof {
        if left && right {
            assert forall|t: T| covers(a@, t) <==> covers(b@, t) by {
                if covers(a@, t) {
                    lemma_covered(a@, b@, t);
                }
                if covers(b@, t) {
                    lemma_covered(b@, a@, t);
                }
            }
        }
        if !left {
            let i = choose|i: int| 0 <= i < a@.len() && !covers(b@, #[trigger] a@[i]);
            a@[i].le_reflexive();
            assert(covers(a@, a@[i]));
        }
        if !right {
            let i = choose|i: int| 0 <= i < b@.len() && !covers(a@, #[trigger] b@[i]);
            b@[i].le_reflexive();
            assert(covers(b@, b@[i]));
        }
    }
    left && right
}

/// Whether every element of `a` is covered by `b`.
fn all_covered<T: Timestamp>(a: &Antichain<T>, b: &Antichain<T>) -> (all: bool)
    ensures
        all <==> forall|i: int| 0 <= i < a@.len() ==> covers(b@, #[trigger] a@[i]),
{
    let elements = a.elements();
    let mut i: usize = 0;
    while i < elements.len()
        invariant
            i <= elements@.len(),
            elements@ == a@,
            forall|k: int| 0 <= k < i ==> covers(b@, #[trigger] a@[k]),
        decreases elements@.len() - i,
    {
        if !b.less_equal(&elements[i]) {
            assert(!covers(b@, a@[i as int]));
            return false;
        }
        i = i + 1;
    }
    true
}

proof fn lemma_covered<T: Timestamp>(a: Seq<T>, b: Seq<T>, t: T)
    requires
        forall|i: int| 0 <= i < a.len() ==> covers(b, #[trigger] a[i]),
        covers(a, t),
    ensures
        covers(b, t),
{
    let i = choose|i: int| 0 <= i < a.len() && (#[trigger] a[i]).le(&t);
    assert(covers(b, a[i]));
    let j = choose|j: int| 0 <= j < b.len() && (#[trigger] b[j]).le(&a[i]);
    b[j].le_transitive(&a[i], &t);
    assert(b[j].le(&t));
}

/// Collects the operators and links of a dataflow for a tracker.
#[derive(Debug)]
pub struct SubgraphBuilder {
    operators: Vec<usize>,
    links: Vec<Link>,
    sources: Vec<usize>,
}

/// The operators and links of a dataflow.
pub struct SubgraphView {
    pub operators: Seq<usize>,
    pub links: Seq<Link>,
    /// The operators that may send at any time from the start.
    pub sources: Seq<usize>,
}

/// What is outstanding at the start: sources may send at any time.
pub open spec fn outset<T: Timestamp>(sources: Seq<usize>) -> Seq<Outstanding<T>> {
    sources.map_values(|i: usize| Outstanding { operator: i, queued: false, time: T::least() })
}

impl View for SubgraphBuilder {
    type V = SubgraphView;

    closed spec fn view(&self) -> SubgraphView {
        SubgraphView { operators: self.operators@, links: self.links@, sources: self.sources@ }
    }
}

impl SubgraphBuilder {
    /// A dataflow without operators.
    pub fn new() -> (b: Self)
        ensures
            b@.operators == Seq::<usize>::empty(),
            b@.links == Seq::<Link>::empty(),
            b@.sources == Seq::<usize>::empty(),
    {
        SubgraphBuilder { operators: Vec::new(), links: Vec::new(), sources: Vec::new() }
    }

    /// Adds an operator; an index that is there already is an error.
    pub fn add_operator(&mut self, index: usize, name: &str) -> (r: Result<()>)
        ensures
            final(self)@.links == old(self)@.links,
            final(self)@.sources == old(self)@.sources,
            r is Ok <==> !old(self)@.operators.contains(index),
            r is Ok ==> final(self)@.operators == old(self)@.operators.push(index),
            r matches Err(e) ==> final(self)@.operators == old(self)@.operators && (e matches
                Error::DuplicateOperator { index: i, name: n, existing: x } && i == index && n@
                == name@ && x@ == name@),
    {
        let mut i: usize = 0;
        while i < self.operators.len()
            invariant
                i <= self.operators@.len(),
                *self == *old(self),
                forall|k: int| 0 <= k < i ==> self.operators@[k] != index,
            decreases self.operators@.len() - i,
        {
            if self.operators[i] == index {
                assert(self.operators@.contains(index));
                return Err(
                    Error::DuplicateOperator {
                        index,
                        name: name.to_owned(),
                        existing: name.to_owned(),
                    },
                );
            }
            i = i + 1;
        }
        self.operators.push(index);
        Ok(())
    }

    /// Adds a link.
    pub fn add_edge(&mut self, from: usize, to: usize)
        ensures
            final(self)@ == (SubgraphView { links: old(self)@.links.push((from, to)), ..old(self)@ }),
    {
        self.links.push((from, to));
    }

    /// Notes that an operator may send at any time from the start.
    pub fn add_source(&mut self, index: usize)
        ensures
            final(self)@ == (SubgraphView {
                sources: old(self)@.sources.push(index),
                ..old(self)@
            }),
    {
        self.sources.push(index);
    }

    /// Takes over the operators and links of another dataflow, but none of its sources.
    pub fn absorb(&mut self, other: SubgraphBuilder)
        ensures
            final(self)@ == (SubgraphView {
                operators: old(self)@.operators + other@.operators,
                links: old(self)@.links + other@.links,
                sources: old(self)@.sources,
            }),
    {
        let SubgraphBuilder { mut operators, mut links, .. } = other;
        self.operators.append(&mut operators);
        self.links.append(&mut links);
    }

    /// A tracker of the dataflow at the start.
    pub fn build<T: Timestamp>(self) -> (t: ProgressTracker<T>)
        ensures
            t@.operators == self@.operators,
            t@.links == self@.links,
            t@.outstanding == outset::<T>(self@.sources),
            !t@.initialized,
            t@.peers_synced,
            !t@.peers_pending,
            t.wf(),
    {
        let mut frontiers: Vec<Antichain<T>> = Vec::new();
        let mut outstanding: Vec<Outstanding<T>> = Vec::new();
        let mut k: usize = 0;
        while k < self.sources.len()
            invariant
                k <= self.sources@.len(),
                outstanding@ == outset::<T>(self.sources@).take(k as int),
            decreases self.sources@.len() - k,
        {
            let operator: usize = self.sources[k];
            outstanding.push(Outstanding { operator, queued: false, time: T::minimum() });
            k = k + 1;
            assert(outstanding@ =~= outset::<T>(self.sources@).take(k as int));
        }
        assert(outstanding@ =~= outset::<T>(self.sources@));
        let mut i: usize = 0;
        while i < self.operators.len()
            invariant
                i <= self.operators@.len(),
                frontiers@.len() == i,
                forall|k: int|
                    0 <= k < i ==> is_frontier(
                        self.links@,
                        outstanding@,
                        self.operators@[k],
                        (#[trigger] frontiers@[k])@,
                    ),
            decreases self.operators@.len() - i,
        {
            frontiers.push(compute_frontier(&self.links, &outstanding, self.operators[i]));
            i = i + 1;
        }
        let t = ProgressTracker {
            operators: self.operators,
            links: self.links,
            outstanding,
            frontiers,
            initialized: false,
            peers_synced: true,
            peers_pending: false,
        };
        t
    }
}

/// What a tracker knows.
pub struct TrackerView<T> {
    pub operators: Seq<usize>,
    pub links: Seq<Link>,
    pub outstanding: Seq<Outstanding<T>>,
    /// Whether the tracker may be used.
    pub initialized: bool,
    /// Whether the other workers have been heard of.
    pub peers_synced: bool,
    /// Whether news of the other workers were not taken into account yet.
    pub peers_pending: bool,
}

impl<T: Timestamp> TrackerView<T> {
    /// The operators whose frontier changes when `after` is outstanding.
    pub open spec fn changed(self, after: Seq<Outstanding<T>>) -> Seq<usize> {
        self.operators.filter(
            |op: usize| frontier_changes(self.links, self.outstanding, after, op),
        )
    }
}

/// Keeps the frontier of each operator.
#[derive(Debug)]
pub struct ProgressTracker<T> {
    operators: Vec<usize>,
    links: Vec<Link>,
    outstanding: Vec<Outstanding<T>>,
    frontiers: Vec<Antichain<T>>,
    initialized: bool,
    peers_synced: bool,
    peers_pending: bool,
}

impl<T> View for ProgressTracker<T> {
    type V = TrackerView<T>;

    closed spec fn view(&self) -> TrackerView<T> {
        TrackerView {
            operators: self.operators@,
            links: self.links@,
            outstanding: self.outstanding@,
            initialized: self.initialized,
            peers_synced: self.peers_synced,
            peers_pending: self.peers_pending,
        }
    }
}

impl<T: Timestamp> ProgressTracker<T> {
    /// The kept frontiers are those of the outstanding times.
    pub closed spec fn wf(&self) -> bool {
        &&& self.frontiers@.len() == self.operators@.len()
        &&& forall|k: int|
            0 <= k < self.operators@.len() ==> is_frontier(
                self.links@,
                self.outstanding@,
                self.operators@[k],
                (#[trigger] self.frontiers@[k])@,
            )
    }

    /// Makes the tracker ready for use.
    pub fn initialize(&mut self)
        ensures
            final(self)@ == (TrackerView { initialized: true, ..old(self)@ }),
            old(self).wf() ==> final(self).wf(),
    {
        self.initialized = true;
    }

    /// Whether the tracker may be used.
    pub fn is_initialized(&self) -> (b: bool)
        ensures
            b == self@.initialized,
    {
        self.initialized
    }

    /// Notes how things stand with the other workers.
    pub fn set_peer_status(&mut self, synced: bool, pending: bool)
        ensures
            final(self)@ == (TrackerView {
                peers_synced: synced,
                peers_pending: pending,
                ..old(self)@
            }),
            old(self).wf() ==> final(self).wf(),
    {
        self.peers_synced = synced;
        self.peers_pending = pending;
    }

    /// Whether the other workers have been heard of.
    pub fn all_peers_synced(&self) -> (b: bool)
        ensures
            b == self@.peers_synced,
    {
        self.peers_synced
    }

    /// Whether news of the other workers were not taken into account yet.
    pub fn has_pending_peer_progress(&self) -> (b: bool)
        ensures
            b == self@.peers_pending,
    {
        self.peers_pending
    }

    /// Whether nothing is outstanding.
    pub fn is_completed(&self) -> (b: bool)
        ensures
            b == (self@.outstanding.len() == 0),
    {
        self.outstanding.len() == 0
    }

    /// The frontier at the input of an operator.
    pub fn operator_input_frontier_meet(&self, op: usize) -> (frontier: Antichain<T>)
        ensures
            is_frontier(self@.links, self@.outstanding, op, frontier@),
    {
        compute_frontier(&self.links, &self.outstanding, op)
    }

    /// Takes note of what is outstanding now. Returns the operators whose frontier has changed.
    pub fn propagate(&mut self, outstanding: Vec<Outstanding<T>>) -> (dirty: Vec<usize>)
        requires
            old(self).wf(),
        ensures
            final(self).wf(),
            final(self)@ == (TrackerView { outstanding: outstanding@, ..old(self)@ }),
            dirty@ == old(self)@.changed(outstanding@),
    {
        reveal(Seq::filter);
        let ghost pred = |op: usize|
            frontier_changes(self@.links, self@.outstanding, outstanding@, op);
        let mut dirty: Vec<usize> = Vec::new();
        let mut frontiers: Vec<Antichain<T>> = Vec::new();
        let mut i: usize = 0;
        while i < self.operators.len()
            invariant
                *self == *old(self),
                self.wf(),
                i <= self.operators@.len(),
                frontiers@.len() == i,
                forall|k: int|
                    0 <= k < i ==> is_frontier(
                        self.links@,
                        outstanding@,
                        self.operators@[k],
                        (#[trigger] frontiers@[k])@,
                    ),
                pred == (|op: usize|
                    frontier_changes(self@.links, self@.outstanding, outstanding@, op)),
                dirty@ == self.operators@.take(i as int).filter(pred),
            decreases self.operators@.len() - i,
        {
            let op: usize = self.operators[i];
            let frontier = compute_frontier(&self.links, &outstanding, op);
            let same = same_cover(&self.frontiers[i], &frontier);
            proof {
                reveal(Seq::filter);
                lemma_frontier_changes(
                    self.links@,
                    self.outstanding@,
                    outstanding@,
                    op,
                    self.frontiers@[i as int]@,
                    frontier@,
                );
            }
            if !same {
                dirty.push(op);
            }
            proof {
                let longer = self.operators@.take(i + 1);
                assert(longer.drop_last() =~= self.operators@.take(i as int));
                assert(longer.last() == op);
                assert(dirty@ =~= longer.filter(pred));
            }
            frontiers.push(frontier);
            i = i + 1;
        }
        assert(self.operators@.take(i as int) =~= self.operators@);
        self.outstanding = outstanding;
        self.frontiers = frontiers;
        dirty
    }
}

/// The times that may still arrive at the input of `op` are not the same any more.
pub open spec fn frontier_changes<T: Timestamp>(
    links: Seq<Link>,
    before: Seq<Outstanding<T>>,
    after: Seq<Outstanding<T>>,
    op: usize,
) -> bool {
    exists|t: T| #[trigger] expects(links, before, op, t) != expects(links, after, op, t)
}

proof fn lemma_frontier_changes<T: Timestamp>(
    links: Seq<Link>,
    before: Seq<Outstanding<T>>,
    after: Seq<Outstanding<T>>,
    op: usize,
    a: Seq<T>,
    b: Seq<T>,
)
    requires
        is_frontier(links, before, op, a),
        is_frontier(links, after, op, b),
    ensures
        frontier_changes(links, before, after, op) <==> !(forall|t: T|
            covers(a, t) <==> covers(b, t)),
{
    if frontier_changes(links, before, after, op) {
        let t = choose|t: T| #[trigger]
            expects(links, before, op, t) != expects(links, after, op, t);
        assert(covers(a, t) <==> expects(links, before, op, t));
        assert(covers(b, t) <==> expects(links, after, op, t));
    }
    if !(forall|t: T| covers(a, t) <==> covers(b, t)) {
        let t = choose|t: T| covers(a, t) != covers(b, t);
        assert(covers(a, t) <==> expects(links, before, op, t));
        assert(covers(b, t) <==> expects(links, after, op, t));
        assert(expects(links, before, op, t) != expects(links, after, op, t));
    }
}

/// A window on the frontier at a point of a dataflow.
pub struct ProbeHandle<T> {
    frontier: Shared<Option<Antichain<T>>>,
}

impl<T: Timestamp> ProbeHandle<T> {
    /// What all holders of the probe share: the frontier that it has seen, if any.
    pub closed spec fn seen(&self) -> Shared<Option<Antichain<T>>> {
        self.frontier
    }

    /// A probe that has seen no frontier yet.
    pub fn new() -> (p: Self)
        ensures
            p.seen().began(None),
    {
        ProbeHandle { frontier: Shared::new(None, Anything) }
    }

    /// One more holder of the same probe.
    pub fn share(&self) -> (p: Self)
        ensures
            p == *self,
    {
        ProbeHandle { frontier: self.frontier.share() }
    }

    /// Shows the frontier.
    pub fn update_frontier(&self, frontier: &Antichain<T>)
        ensures
            exists|before: Option<Antichain<T>>, after: Antichain<T>| #[trigger]
                self.seen().turned(before, Some(after)) && after@ == frontier@,
    {
        let shown = frontier.duplicate();
        let before = self.frontier.replace(Some(shown));
        assert(self.seen().turned(before, Some(shown)));
    }

    /// Whether times at or before `time` can no longer appear, as far as the probe has seen.
    pub fn done_with(&self, time: &T) -> (b: bool)
        ensures
            exists|seen: Option<Antichain<T>>| #[trigger]
                self.seen().turned(seen, seen) && b == (seen matches Some(f) && !covers(f@, *time)),
    {
        let (seen, loan) = self.frontier.lend(None);
        let b = passed(&seen, time);
        let _ = self.frontier.settle(loan, seen);
        assert(self.seen().turned(seen, seen));
        b
    }
}

/// Whether a frontier that was seen has passed `time`.
pub fn passed<T: Timestamp>(seen: &Option<Antichain<T>>, time: &T) -> (b: bool)
    ensures
        b == (seen matches Some(f) && !covers(f@, *time)),
{
    match seen {
        Some(f) => !f.less_equal(time),
        None => false,
    }
}

} // verus!
