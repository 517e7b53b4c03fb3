//! Frontiers: lower bounds on the times that may still appear, and the notifications that wait
//! for them.

use vstd::prelude::*;
use crate::order::{PartialOrder, Timestamp};

verus! {

/// Some element is at or before `t`.
pub open spec fn covers<T: PartialOrder>(elements: Seq<T>, t: T) -> bool {
    exists|i: int| 0 <= i < elements.len() && (#[trigger] elements[i]).le(&t)
}

/// No element is at or before another one.
pub open spec fn incomparable<T: PartialOrder>(elements: Seq<T>) -> bool {
    forall|i: int, j: int|
        #![trigger elements[i], elements[j]]
        0 <= i < elements.len() && 0 <= j < elements.len() && i != j ==> !elements[i].le(
            &elements[j],
        )
}

/// A set of mutually incomparable times.
#[derive(Debug)]
pub struct Antichain<T> {
    elements: Vec<T>,
}

impl<T> View for Antichain<T> {
    type V = Seq<T>;

    closed spec fn view(&self) -> Seq<T> {
        self.elements@
    }
}

impl<T: PartialOrder> Antichain<T> {
    /// The antichain without elements: nothing more can appear.
    pub fn new() -> (a: Self)
        ensures
            a@ == Seq::<T>::empty(),
            incomparable(a@),
    {
        Antichain { elements: Vec::new() }
    }

    /// The antichain of a single time.
    pub fn from_elem(t: T) -> (a: Self)
        ensures
            a@ == seq![t],
            incomparable(a@),
    {
        let mut elements: Vec<T> = Vec::new();
        elements.push(t);
        Antichain { elements }
    }

    /// The times of the antichain.
    pub fn elements(&self) -> (elements: &Vec<T>)
        ensures
            elements@ == self@,
    {
        &self.elements
    }

    /// Whether there are no elements.
    pub fn is_empty(&self) -> (b: bool)
        ensures
            b == (self@.len() == 0),
    {
        self.elements.len() == 0
    }

    /// Whether some element is at or before `t`, so that `t` may still appear.
    pub fn less_equal(&self, t: &T) -> (b: bool)
        ensures
            b == covers(self@, *t),
    {
        let mut i: usize = 0;
        while i < self.elements.len()
            invariant
                i <= self.elements@.len(),
                forall|k: int| 0 <= k < i ==> !(#[trigger] self.elements@[k]).le(t),
            decreases self.elements@.len() - i,
        {
            if self.elements[i].less_equal(t) {
                return true;
            }
            i = i + 1;
        }
        false
    }

    /// Adds a time unless an element is at or before it; elements at or after the new one leave.
    /// Returns whether the time was added.
    pub fn insert(&mut self, t: T) -> (added: bool)
        requires
            incomparable(old(self)@),
        ensures
            incomparable(final(self)@),
            added == !covers(old(self)@, t),
            !added ==> final(self)@ == old(self)@,
            added ==> final(self)@ == old(self)@.filter(|e: T| !t.le(&e)).push(t),
            forall|x: T| #[trigger]
                covers(final(self)@, x) <==> covers(old(self)@, x) || t.le(&x),
    {
        if self.less_equal(&t) {
            proof {
                assert forall|x: T| #[trigger]
                    covers(self@, x) <==> covers(self@, x) || t.le(&x) by {
                    if t.le(&x) {
                        let i = choose|i: int|
                            0 <= i < self@.len() && (#[trigger] self@[i]).le(&t);
                        self@[i].le_transitive(&t, &x);
                    }
                }
            }
            return false;
        }
        let ghost before = self.elements@;
        let ghost keep = |e: T| !t.le(&e);
        let mut old_elements: Vec<T> = Vec::new();
        core::mem::swap(&mut old_elements, &mut self.elements);
        let mut kept: Vec<T> = Vec::new();
        proof {
            reveal(Seq::filter);
            assert(before.take(0).filter(keep) =~= Seq::empty());
        }
        for e in it: old_elements
            invariant
                it.seq() == before,
                keep == (|e: T| !t.le(&e)),
                kept@ == before.take(it.index() as int).filter(keep),
        {
            proof {
                lemma_filter_next(before, it.index() as int, keep);
            }
            if !t.less_equal(&e) {
                kept.push(e);
            }
        }
        assert(before.take(before.len() as int) =~= before);
        kept.push(t);
        self.elements = kept;
        proof {
            let rest = before.filter(keep);
            lemma_filter_incomparable(before, keep);
            lemma_filter_members(before, keep);
            assert(!covers(before, t));
            assert forall|i: int, j: int|
                #![trigger self@[i], self@[j]]
                0 <= i < self@.len() && 0 <= j < self@.len() && i != j implies !self@[i].le(
                &self@[j],
            ) by {
                if i < rest.len() && j < rest.len() {
                    assert(!rest[i].le(&rest[j]));
                } else if i < rest.len() {
                    assert(before.contains(rest[i]));
                    let k = choose|k: int| 0 <= k < before.len() && before[k] == rest[i];
                    assert(!before[k].le(&t));
                } else {
                    assert(keep(rest[j]));
                }
            }
            assert forall|x: T| #[trigger]
                covers(self@, x) <==> covers(before, x) || t.le(&x) by {
                if covers(before, x) {
                    let k = choose|k: int| 0 <= k < before.len() && (#[trigger] before[k]).le(&x);
                    if keep(before[k]) {
                        assert(rest.contains(before[k]));
                        let m = choose|m: int| 0 <= m < rest.len() && rest[m] == before[k];
                        assert(self@[m].le(&x));
                    } else {
                        t.le_transitive(&before[k], &x);
                        assert(self@[rest.len() as int].le(&x));
                    }
                }
                if t.le(&x) {
                    assert(self@[rest.len() as int].le(&x));
                }
                if covers(self@, x) {
                    let m = choose|m: int| 0 <= m < self@.len() && (#[trigger] self@[m]).le(&x);
                    if m < rest.len() {
                        assert(before.contains(rest[m]));
                        let k = choose|k: int| 0 <= k < before.len() && before[k] == rest[m];
                        assert(before[k].le(&x));
                    }
                }
            }
        }
        true
    }
}

impl<T: Timestamp> Antichain<T> {
    /// The same antichain once more.
    pub fn duplicate(&self) -> (a: Self)
        ensures
            a@ == self@,
    {
        let mut elements: Vec<T> = Vec::new();
        let mut i: usize = 0;
        while i < self.elements.len()
            invariant
                i <= self.elements@.len(),
                elements@ == self.elements@.take(i as int),
            decreases self.elements@.len() - i,
        {
            let t = self.elements[i].duplicate();
            elements.push(t);
            assert(elements@ =~= self.elements@.take(i + 1));
            i = i + 1;
        }
        assert(self.elements@.take(i as int) =~= self.elements@);
        Antichain { elements }
    }
}

proof fn lemma_filter_next<A>(s: Seq<A>, i: int, keep: spec_fn(A) -> bool)
    requires
        0 <= i < s.len(),
    ensures
        s.take(i + 1).filter(keep) == if keep(s[i]) {
            s.take(i).filter(keep).push(s[i])
        } else {
            s.take(i).filter(keep)
        },
{
    reveal(Seq::filter);
    assert(s.take(i + 1).drop_last() =~= s.take(i));
    assert(s.take(i + 1).last() == s[i]);
}

proof fn lemma_filter_members<A>(s: Seq<A>, keep: spec_fn(A) -> bool)
    ensures
        forall|i: int|
            0 <= i < s.filter(keep).len() ==> keep(#[trigger] s.filter(keep)[i]) && s.contains(
                s.filter(keep)[i],
            ),
        forall|i: int|
            0 <= i < s.len() && keep(#[trigger] s[i]) ==> s.filter(keep).contains(s[i]),
    decreases s.len(),
{
    reveal(Seq::filter);
    if s.len() > 0 {
        let rest = s.drop_last();
        lemma_filter_members(rest, keep);
        let f = s.filter(keep);
        let g = rest.filter(keep);
        assert forall|i: int| 0 <= i < f.len() implies keep(#[trigger] f[i]) && s.contains(f[i]) by {
            if i < g.len() {
                assert(f[i] == g[i]);
                assert(rest.contains(g[i]));
                let k = choose|k: int| 0 <= k < rest.len() && rest[k] == g[i];
                assert(s[k] == g[i]);
            } else {
                assert(f[i] == s.last());
            }
        }
        assert forall|i: int| 0 <= i < s.len() && keep(#[trigger] s[i]) implies f.contains(s[i]) by {
            if i < rest.len() {
                assert(rest[i] == s[i]);
                assert(g.contains(rest[i]));
                let k = choose|k: int| 0 <= k < g.len() && g[k] == rest[i];
                assert(f[k] == s[i]);
            } else {
                assert(f[g.len() as int] == s[i]);
            }
        }
    }
}

proof fn lemma_filter_incomparable<T: PartialOrder>(s: Seq<T>, keep: spec_fn(T) -> bool)
    requires
        incomparable(s),
    ensures
        incomparable(s.filter(keep)),
    decreases s.len(),
{
    reveal(Seq::filter);
    if s.len() > 0 {
        let rest = s.drop_last();
        assert(incomparable(rest)) by {
            assert forall|i: int, j: int|
                #![trigger rest[i], rest[j]]
                0 <= i < rest.len() && 0 <= j < rest.len() && i != j implies !rest[i].le(
                &rest[j],
            ) by {
                assert(s[i] == rest[i] && s[j] == rest[j]);
            }
        }
        lemma_filter_incomparable(rest, keep);
        lemma_filter_members(rest, keep);
        let f = s.filter(keep);
        let g = rest.filter(keep);
        assert forall|i: int, j: int|
            #![trigger f[i], f[j]]
            0 <= i < f.len() && 0 <= j < f.len() && i != j implies !f[i].le(&f[j]) by {
            if i < g.len() && j < g.len() {
                assert(f[i] == g[i] && f[j] == g[j]);
            } else if i < g.len() {
                assert(f[i] == g[i]);
                let k = choose|k: int| 0 <= k < rest.len() && rest[k] == g[i];
                assert(s[k] == g[i]);
                assert(f[j] == s[s.len() - 1]);
            } else {
                assert(f[j] == g[j]);
                let k = choose|k: int| 0 <= k < rest.len() && rest[k] == g[j];
                assert(s[k] == g[j]);
                assert(f[i] == s[s.len() - 1]);
            }
        }
    }
}

/// An antichain is determined by the times at or after its elements.
pub proof fn same_cover_same_elements<T: PartialOrder>(a: Seq<T>, b: Seq<T>, t: T)
    requires
        incomparable(a),
        incomparable(b),
        forall|x: T| covers(a, x) <==> covers(b, x),
    ensures
        a.contains(t) <==> b.contains(t),
{
    if a.contains(t) {
        lemma_cover_contains(a, b, t);
    }
    if b.contains(t) {
        lemma_cover_contains(b, a, t);
    }
}

proof fn lemma_cover_contains<T: PartialOrder>(a: Seq<T>, b: Seq<T>, t: T)
    requires
        incomparable(a),
        forall|x: T| covers(a, x) <==> covers(b, x),
        a.contains(t),
    ensures
        b.contains(t),
{
    let i = choose|i: int| 0 <= i < a.len() && a[i] == t;
    t.le_reflexive();
    assert(a[i].le(&t));
    assert(covers(a, t));
    assert(covers(b, t));
    let j = choose|j: int| 0 <= j < b.len() && (#[trigger] b[j]).le(&t);
    b[j].le_reflexive();
    assert(covers(b, b[j]));
    assert(covers(a, b[j]));
    let k = choose|k: int| 0 <= k < a.len() && (#[trigger] a[k]).le(&b[j]);
    a[k].le_transitive(&b[j], &t);
    assert(a[k].le(&a[i]));
    assert(k == i);
    b[j].le_antisymmetric(&t);
}

/// Waits until the frontier has passed requested times.
#[derive(Debug)]
pub struct Notificator<T> {
    frontier: Antichain<T>,
    pending: Vec<T>,
}

/// What a notificator waits for.
pub struct NotificatorView<T> {
    /// The frontier.
    pub frontier: Seq<T>,
    /// The requested times that were not delivered yet, in the order of the requests.
    pub pending: Seq<T>,
}

impl<T> View for Notificator<T> {
    type V = NotificatorView<T>;

    closed spec fn view(&self) -> NotificatorView<T> {
        NotificatorView { frontier: self.frontier@, pending: self.pending@ }
    }
}

impl<T: PartialOrder> NotificatorView<T> {
    /// Some requested time has been passed by the frontier.
    pub open spec fn ready(self) -> bool {
        exists|i: int|
            0 <= i < self.pending.len() && !covers(self.frontier, #[trigger] self.pending[i])
    }

    /// The request at `i` is the next to deliver: the frontier has passed it, and no other
    /// requested time that the frontier has passed lies before it.
    pub open spec fn is_next(self, i: int) -> bool {
        &&& 0 <= i < self.pending.len()
        &&& !covers(self.frontier, self.pending[i])
        &&& forall|k: int|
            0 <= k < self.pending.len() && !covers(self.frontier, #[trigger] self.pending[k])
                && self.pending[k].le(&self.pending[i]) ==> self.pending[k] == self.pending[i]
    }
}

impl<T: Timestamp> Notificator<T> {
    /// A notificator without requests.
    pub fn new(frontier: Antichain<T>) -> (n: Self)
        ensures
            n@ == (NotificatorView { frontier: frontier@, pending: Seq::<T>::empty() }),
    {
        Notificator { frontier, pending: Vec::new() }
    }

    /// Requests a notification for `time`. A time that is requested already stays single.
    pub fn notify_at(&mut self, time: T)
        ensures
            final(self)@.frontier == old(self)@.frontier,
            final(self)@.pending == if old(self)@.pending.contains(time) {
                old(self)@.pending
            } else {
                old(self)@.pending.push(time)
            },
    {
        let mut i: usize = 0;
        while i < self.pending.len()
            invariant
                i <= self.pending@.len(),
                *self == *old(self),
                forall|k: int| 0 <= k < i ==> self.pending@[k] != time,
            decreases self.pending@.len() - i,
        {
            if self.pending[i].less_equal(&time) && time.less_equal(&self.pending[i]) {
                proof {
                    self.pending@[i as int].le_antisymmetric(&time);
                    assert(self.pending@.contains(time));
                }
                return;
            }
            proof {
                if self.pending@[i as int] == time {
                    time.le_reflexive();
                }
            }
            i = i + 1;
        }
        self.pending.push(time);
    }

    /// Moves the frontier.
    pub fn update_frontier(&mut self, frontier: &Antichain<T>)
        ensures
            final(self)@ == (NotificatorView { frontier: frontier@, ..old(self)@ }),
    {
        self.frontier = frontier.duplicate();
    }

    /// The requested times that were not delivered yet.
    pub fn pending(&self) -> (times: &Vec<T>)
        ensures
            times@ == self@.pending,
    {
        &self.pending
    }

    /// Whether a notification can be delivered.
    pub fn has_ready(&self) -> (b: bool)
        ensures
            b == self@.ready(),
    {
        let mut i: usize = 0;
        while i < self.pending.len()
            invariant
                i <= self.pending@.len(),
                forall|k: int| 0 <= k < i ==> covers(self.frontier@, #[trigger] self.pending@[k]),
            decreases self.pending@.len() - i,
        {
            if !self.frontier.less_equal(&self.pending[i]) {
                assert(!covers(self@.frontier, self@.pending[i as int]));
                return true;
            }
            i = i + 1;
        }
        false
    }

    /// Delivers a requested time that the frontier has passed, the earliest ones first, and forgets
    /// the request.
    pub fn next(&mut self) -> (time: Option<T>)
        ensures
            final(self)@.frontier == old(self)@.frontier,
            time is Some <==> old(self)@.ready(),
            time is None ==> final(self)@.pending == old(self)@.pending,
            time matches Some(t) ==> exists|i: int| #[trigger]
                old(self)@.is_next(i) && t == old(self)@.pending[i] && final(self)@.pending == old(
                    self,
                )@.pending.remove(i),
    {
        let mut best: Option<usize> = None;
        let mut i: usize = 0;
        while i < self.pending.len()
            invariant
                i <= self.pending@.len(),
                *self == *old(self),
                best is None ==> forall|k: int|
                    0 <= k < i ==> covers(self.frontier@, #[trigger] self.pending@[k]),
                best matches Some(b) ==> {
                    &&& b < i
                    &&& !covers(self.frontier@, self.pending@[b as int])
                    &&& forall|k: int|
                        0 <= k < i && !covers(self.frontier@, #[trigger] self.pending@[k])
                            && self.pending@[k].le(&self.pending@[b as int]) ==> self.pending@[k]
                            == self.pending@[b as int]
                },
            decreases self.pending@.len() - i,
        {
            if !self.frontier.less_equal(&self.pending[i]) {
                match best {
                    None => {
                        best = Some(i);
                    },
                    Some(b) => {
                        let ghost before = self.pending@[b as int];
                        let ghost now = self.pending@[i as int];
                        if self.pending[i].less_equal(&self.pending[b]) {
                            proof {
                                assert forall|k: int|
                                    0 <= k < i + 1 && !covers(
                                        self.frontier@,
                                        #[trigger] self.pending@[k],
                                    ) && self.pending@[k].le(&now) implies self.pending@[k]
                                    == now by {
                                    if k < i {
                                        self.pending@[k].le_transitive(&now, &before);
                                        assert(self.pending@[k] == before);
                                        self.pending@[k].le_antisymmetric(&now);
                                    }
                                }
                            }
                            best = Some(i);
                        }
                    },
                }
            }
            i = i + 1;
        }
        match best {
            Some(b) => {
                assert(old(self)@.is_next(b as int));
                assert(!covers(old(self)@.frontier, old(self)@.pending[b as int]));
                Some(self.pending.remove(b))
            },
            None => None,
        }
    }
}

/// The course of draining a notificator: each step takes the notification that is next.
pub open spec fn drains_by<T: Timestamp>(states: Seq<NotificatorView<T>>, times: Seq<T>) -> bool {
    &&& states.len() == times.len() + 1
    &&& forall|k: int| 0 <= k < times.len() ==> #[trigger] drain_step(states, times, k)
}

/// The step `k` takes the notification that is next.
pub open spec fn drain_step<T: Timestamp>(
    states: Seq<NotificatorView<T>>,
    times: Seq<T>,
    k: int,
) -> bool {
    exists|i: int| #[trigger]
        states[k].is_next(i) && times[k] == states[k].pending[i] && states[k + 1] == (
        NotificatorView { pending: states[k].pending.remove(i), ..states[k] })
}

/// A notificator was drained: notification after notification was taken, and none that can be
/// delivered is left.
pub open spec fn is_drained<T: Timestamp>(
    before: NotificatorView<T>,
    after: NotificatorView<T>,
    times: Seq<T>,
) -> bool {
    &&& !after.ready()
    &&& exists|states: Seq<NotificatorView<T>>| #[trigger]
        drains_by(states, times) && states[0] == before && states.last() == after
}

} // verus!
