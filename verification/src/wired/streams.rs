//! Logics for streams of results, for splitting streams, for crossing the border of a loop, and for
//! logic that is given as a closure over the handles.

use std::rc::Rc;
use vstd::prelude::*;
use crate::error::{Error, Result};
use crate::frontier::{Antichain, NotificatorView};
use crate::handles::{with_batch, InputHandle, InputView, NotifyContext, OutputHandle};
use crate::operators::branch::{failures, select, successes};
use crate::order::{PathSummary, Product, Timestamp};
use crate::role::Role;
use crate::wired::logic::BatchLogic;
use crate::wired::relay::RelayLogic;

verus! {

/// Turns successes into others and passes failures on.
pub struct MapOkLogic<F> {
    pub logic: F,
}

impl<T, V, V2, E, F: FnMut(&T, V) -> V2> BatchLogic<
    T,
    core::result::Result<V, E>,
    core::result::Result<V2, E>,
> for MapOkLogic<F> {
    open spec fn role(&self) -> Role {
        Role::MapOk
    }

    open spec fn ready(&self) -> bool {
        forall|t: &T, v: V| #[trigger] call_requires(self.logic, (t, v))
    }

    open spec fn applies(
        &self,
        after: &Self,
        time: T,
        data: Seq<core::result::Result<V, E>>,
        out: Seq<core::result::Result<V2, E>>,
    ) -> bool {
        &&& *after == *self
        &&& out.len() == data.len()
        &&& forall|i: int|
            0 <= i < data.len() ==> match (data[i], #[trigger] out[i]) {
                (Ok(v), Ok(w)) => call_ensures(self.logic, (&time, v), w),
                (Err(e), Err(f)) => e == f,
                _ => false,
            }
    }

    open spec fn sated(&self) -> bool {
        false
    }

    fn apply(&mut self, time: &T, data: Vec<core::result::Result<V, E>>) -> (out: Vec<
        core::result::Result<V2, E>,
    >) {
        let ghost given = data@;
        let mut out: Vec<core::result::Result<V2, E>> = Vec::new();
        for x in it: data
            invariant
                it.seq() == given,
                *self == *old(self),
                forall|t: &T, v: V| #[trigger] call_requires(old(self).logic, (t, v)),
                out@.len() == it.index(),
                forall|i: int|
                    0 <= i < it.index() ==> match (given[i], #[trigger] out@[i]) {
                        (Ok(v), Ok(w)) => call_ensures(self.logic, (time, v), w),
                        (Err(e), Err(f)) => e == f,
                        _ => false,
                    },
        {
            let made = match x {
                Ok(v) => Ok((self.logic)(time, v)),
                Err(e) => Err(e),
            };
            out.push(made);
        }
        out
    }

    fn is_sated(&self) -> (b: bool) {
        false
    }
}

/// Keeps the successes that satisfy a predicate, and all failures.
pub struct FilterOkLogic<F> {
    pub predicate: F,
}

/// Possible answers: those of the predicate to the successes, and yes to the failures.
pub open spec fn answers_ok<T, V, E, F: FnMut(&T, &V) -> bool>(
    predicate: F,
    time: T,
    data: Seq<core::result::Result<V, E>>,
    given: Seq<bool>,
) -> bool {
    &&& given.len() == data.len()
    &&& forall|i: int|
        0 <= i < data.len() ==> match data[i] {
            Ok(v) => call_ensures(predicate, (&time, &v), #[trigger] given[i]),
            Err(_) => given[i],
        }
}

proof fn lemma_select_step<D>(data: Seq<D>, flags: Seq<bool>, x: D, flag: bool)
    requires
        flags.len() == data.len(),
    ensures
        select(data.push(x), flags.push(flag), true) == if flag {
            select(data, flags, true).push(x)
        } else {
            select(data, flags, true)
        },
{
    assert(data.push(x).drop_last() =~= data);
    lemma_select_same(data, flags, flags.push(flag), true);
}

proof fn lemma_select_same<D>(data: Seq<D>, a: Seq<bool>, b: Seq<bool>, want: bool)
    requires
        data.len() <= a.len(),
        data.len() <= b.len(),
        forall|i: int| 0 <= i < data.len() ==> a[i] == b[i],
    ensures
        select(data, a, want) == select(data, b, want),
    decreases data.len(),
{
    if data.len() > 0 {
        lemma_select_same(data.drop_last(), a, b, want);
    }
}

impl<T, V, E, F: FnMut(&T, &V) -> bool> BatchLogic<
    T,
    core::result::Result<V, E>,
    core::result::Result<V, E>,
> for FilterOkLogic<F> {
    open spec fn role(&self) -> Role {
        Role::FilterOk
    }

    open spec fn ready(&self) -> bool {
        forall|t: &T, v: &V| #[trigger] call_requires(self.predicate, (t, v))
    }

    open spec fn applies(
        &self,
        after: &Self,
        time: T,
        data: Seq<core::result::Result<V, E>>,
        out: Seq<core::result::Result<V, E>>,
    ) -> bool {
        &&& *after == *self
        &&& exists|given: Seq<bool>| #[trigger]
            answers_ok(self.predicate, time, data, given) && out == select(data, given, true)
    }

    open spec fn sated(&self) -> bool {
        false
    }

    fn apply(&mut self, time: &T, data: Vec<core::result::Result<V, E>>) -> (out: Vec<
        core::result::Result<V, E>,
    >) {
        let ghost all = data@;
        let ghost mut flags = Seq::<bool>::empty();
        let mut out: Vec<core::result::Result<V, E>> = Vec::new();
        assert(all.take(0) =~= Seq::<core::result::Result<V, E>>::empty());
        for x in it: data
            invariant
                it.seq() == all,
                *self == *old(self),
                forall|t: &T, v: &V| #[trigger] call_requires(old(self).predicate, (t, v)),
                answers_ok(self.predicate, *time, all.take(it.index() as int), flags),
                out@ == select(all.take(it.index() as int), flags, true),
        {
            let keep = match &x {
                Ok(v) => (self.predicate)(time, v),
                Err(_) => true,
            };
            proof {
                let k = it.index() as int;
                let shorter = all.take(k);
                let longer = all.take(k + 1);
                assert(longer =~= shorter.push(x));
                lemma_select_step(shorter, flags, x, keep);
                let before = flags;
                flags = flags.push(keep);
                assert forall|i: int| 0 <= i < longer.len() implies match longer[i] {
                    Ok(v) => call_ensures(self.predicate, (time, &v), #[trigger] flags[i]),
                    Err(_) => flags[i],
                } by {
                    if i < k {
                        assert(flags[i] == before[i]);
                        assert(longer[i] == shorter[i]);
                    }
                }
            }
            if keep {
                out.push(x);
            }
        }
        assert(all.take(all.len() as int) =~= all);
        assert(answers_ok(self.predicate, *time, all, flags));
        out
    }

    fn is_sated(&self) -> (b: bool) {
        false
    }
}

/// Turns successes into results and passes failures on.
pub struct AndThenLogic<F> {
    pub logic: F,
}

impl<T, V, V2, E, F: FnMut(&T, V) -> core::result::Result<V2, E>> BatchLogic<
    T,
    core::result::Result<V, E>,
    core::result::Result<V2, E>,
> for AndThenLogic<F> {
    open spec fn role(&self) -> Role {
        Role::AndThen
    }

    open spec fn ready(&self) -> bool {
        forall|t: &T, v: V| #[trigger] call_requires(self.logic, (t, v))
    }

    open spec fn applies(
        &self,
        after: &Self,
        time: T,
        data: Seq<core::result::Result<V, E>>,
        out: Seq<core::result::Result<V2, E>>,
    ) -> bool {
        &&& *after == *self
        &&& out.len() == data.len()
        &&& forall|i: int|
            0 <= i < data.len() ==> match data[i] {
                Ok(v) => call_ensures(self.logic, (&time, v), #[trigger] out[i]),
                Err(e) => out[i] == Err::<V2, E>(e),
            }
    }

    open spec fn sated(&self) -> bool {
        false
    }

    fn apply(&mut self, time: &T, data: Vec<core::result::Result<V, E>>) -> (out: Vec<
        core::result::Result<V2, E>,
    >) {
        let ghost given = data@;
        let mut out: Vec<core::result::Result<V2, E>> = Vec::new();
        for x in it: data
            invariant
                it.seq() == given,
                *self == *old(self),
                forall|t: &T, v: V| #[trigger] call_requires(old(self).logic, (t, v)),
                out@.len() == it.index(),
                forall|i: int|
                    0 <= i < it.index() ==> match given[i] {
                        Ok(v) => call_ensures(self.logic, (time, v), #[trigger] out@[i]),
                        Err(e) => out@[i] == Err::<V2, E>(e),
                    },
        {
            let made = match x {
                Ok(v) => (self.logic)(time, v),
                Err(e) => Err(e),
            };
            out.push(made);
        }
        out
    }

    fn is_sated(&self) -> (b: bool) {
        false
    }
}

/// Lets the successes pass.
pub struct OkLogic;

impl<T, V, E> BatchLogic<T, core::result::Result<V, E>, V> for OkLogic {
    open spec fn role(&self) -> Role {
        Role::OkPart
    }

    open spec fn ready(&self) -> bool {
        true
    }

    open spec fn applies(
        &self,
        after: &Self,
        time: T,
        data: Seq<core::result::Result<V, E>>,
        out: Seq<V>,
    ) -> bool {
        out == successes(data)
    }

    open spec fn sated(&self) -> bool {
        false
    }

    fn apply(&mut self, time: &T, data: Vec<core::result::Result<V, E>>) -> (out: Vec<V>) {
        let ghost given = data@;
        let mut out: Vec<V> = Vec::new();
        assert(given.take(0) =~= Seq::<core::result::Result<V, E>>::empty());
        for x in it: data
            invariant
                it.seq() == given,
                out@ == successes(given.take(it.index() as int)),
        {
            proof {
                let longer = given.take(it.index() + 1);
                assert(longer.drop_last() =~= given.take(it.index() as int));
                assert(longer.last() == x);
            }
            match x {
                Ok(v) => {
                    out.push(v);
                },
                Err(_) => {},
            }
        }
        assert(given.take(given.len() as int) =~= given);
        out
    }

    fn is_sated(&self) -> (b: bool) {
        false
    }
}

/// Lets the failures pass.
pub struct ErrLogic;

impl<T, V, E> BatchLogic<T, core::result::Result<V, E>, E> for ErrLogic {
    open spec fn role(&self) -> Role {
        Role::ErrPart
    }

    open spec fn ready(&self) -> bool {
        true
    }

    open spec fn applies(
        &self,
        after: &Self,
        time: T,
        data: Seq<core::result::Result<V, E>>,
        out: Seq<E>,
    ) -> bool {
        out == failures(data)
    }

    open spec fn sated(&self) -> bool {
        false
    }

    fn apply(&mut self, time: &T, data: Vec<core::result::Result<V, E>>) -> (out: Vec<E>) {
        let ghost given = data@;
        let mut out: Vec<E> = Vec::new();
        assert(given.take(0) =~= Seq::<core::result::Result<V, E>>::empty());
        for x in it: data
            invariant
                it.seq() == given,
                out@ == failures(given.take(it.index() as int)),
        {
            proof {
                let longer = given.take(it.index() + 1);
                assert(longer.drop_last() =~= given.take(it.index() as int));
                assert(longer.last() == x);
            }
            match x {
                Ok(_) => {},
                Err(e) => {
                    out.push(e);
                },
            }
        }
        assert(given.take(given.len() as int) =~= given);
        out
    }

    fn is_sated(&self) -> (b: bool) {
        false
    }
}

/// Lets the records pass whose answer is `want`. The predicate is shared with the other half of the
/// split.
pub struct BranchLogic<F> {
    pub predicate: Rc<F>,
    pub want: bool,
}

/// Possible answers of a shared predicate to the records of a batch.
pub open spec fn answers_shared<T, D, F: Fn(&T, &D) -> bool>(
    predicate: F,
    time: T,
    data: Seq<D>,
    given: Seq<bool>,
) -> bool {
    &&& given.len() == data.len()
    &&& forall|i: int|
        0 <= i < data.len() ==> call_ensures(predicate, (&time, &data[i]), #[trigger] given[i])
}

impl<T, D, F: Fn(&T, &D) -> bool> BatchLogic<T, D, D> for BranchLogic<F> {
    open spec fn role(&self) -> Role {
        Role::Branch(self.want)
    }

    open spec fn ready(&self) -> bool {
        forall|t: &T, x: &D| #[trigger] call_requires(*self.predicate, (t, x))
    }

    open spec fn applies(&self, after: &Self, time: T, data: Seq<D>, out: Seq<D>) -> bool {
        &&& *after == *self
        &&& exists|given: Seq<bool>| #[trigger]
            answers_shared(*self.predicate, time, data, given) && out == select(
                data,
                given,
                self.want,
            )
    }

    open spec fn sated(&self) -> bool {
        false
    }

    fn apply(&mut self, time: &T, data: Vec<D>) -> (out: Vec<D>) {
        let ghost all = data@;
        let ghost mut flags = Seq::<bool>::empty();
        let mut out: Vec<D> = Vec::new();
        assert(all.take(0) =~= Seq::<D>::empty());
        for x in it: data
            invariant
                it.seq() == all,
                *self == *old(self),
                forall|t: &T, x: &D| #[trigger] call_requires(*old(self).predicate, (t, x)),
                answers_shared(*self.predicate, *time, all.take(it.index() as int), flags),
                out@ == select(all.take(it.index() as int), flags, self.want),
        {
            let predicate: &F = &*self.predicate;
            let answer = predicate(time, &x);
            proof {
                let k = it.index() as int;
                let shorter = all.take(k);
                let longer = all.take(k + 1);
                assert(longer =~= shorter.push(x));
                assert(longer.drop_last() =~= shorter);
                lemma_select_same(shorter, flags, flags.push(answer), self.want);
                let before = flags;
                flags = flags.push(answer);
                assert forall|i: int| 0 <= i < k + 1 implies call_ensures(
                    *self.predicate,
                    (time, &longer[i]),
                    #[trigger] flags[i],
                ) by {
                    if i < k {
                        assert(flags[i] == before[i]);
                        assert(longer[i] == shorter[i]);
                    }
                }
            }
            if answer == self.want {
                out.push(x);
            }
        }
        assert(all.take(all.len() as int) =~= all);
        assert(answers_shared(*self.predicate, *time, all, flags));
        out
    }

    fn is_sated(&self) -> (b: bool) {
        false
    }
}

/// Batches at other times; those without a time of their own are left out, and so are empty ones.
pub open spec fn retimed<T1, T2, D>(given: Seq<(T1, Seq<D>)>, times: Seq<Option<T2>>) -> Seq<
    (T2, Seq<D>),
>
    decreases given.len(),
{
    if given.len() == 0 {
        Seq::empty()
    } else {
        let before = retimed(given.drop_last(), times);
        match times[given.len() - 1] {
            Some(t) => with_batch(before, t, given.last().1),
            None => before,
        }
    }
}

/// Where times lead.
pub trait TimeChange<T1, T2> {
    /// What an operator with this change is there for.
    spec fn role(&self) -> Role;

    /// The time that `t` leads to, if there is one.
    spec fn leads(&self, t: T1) -> Option<T2>;

    /// The time that `t` leads to, if there is one.
    fn lead(&self, t: T1) -> (r: Option<T2>)
        ensures
            r == self.leads(t),
    ;
}

/// Into a loop: the first round of the time.
pub struct Entering;

impl<T: Timestamp, TInner: Timestamp> TimeChange<T, Product<T, TInner>> for Entering {
    open spec fn role(&self) -> Role {
        Role::Enter
    }

    open spec fn leads(&self, t: T) -> Option<Product<T, TInner>> {
        Some(Product { outer: t, inner: TInner::least() })
    }

    fn lead(&self, t: T) -> (r: Option<Product<T, TInner>>) {
        Some(Product { outer: t, inner: TInner::minimum() })
    }
}

/// Out of a loop: the time without the round.
pub struct Leaving;

impl<T: Timestamp, TInner: Timestamp> TimeChange<Product<T, TInner>, T> for Leaving {
    open spec fn role(&self) -> Role {
        Role::Leave
    }

    open spec fn leads(&self, t: Product<T, TInner>) -> Option<T> {
        Some(t.outer)
    }

    fn lead(&self, t: Product<T, TInner>) -> (r: Option<T>) {
        Some(t.outer)
    }
}

/// Back to the start of a loop: the round that the summary leads to.
pub struct Returning<S> {
    pub summary: S,
}

impl<T: Timestamp, TInner: Timestamp> TimeChange<
    Product<T, TInner>,
    Product<T, TInner>,
> for Returning<TInner::Summary> {
    open spec fn role(&self) -> Role {
        Role::Return
    }

    open spec fn leads(&self, t: Product<T, TInner>) -> Option<Product<T, TInner>> {
        match self.summary.result(&t.inner) {
            Some(inner) => Some(Product { outer: t.outer, inner }),
            None => None,
        }
    }

    fn lead(&self, t: Product<T, TInner>) -> (r: Option<Product<T, TInner>>) {
        match self.summary.results_in(&t.inner) {
            Some(inner) => Some(Product { outer: t.outer, inner }),
            None => None,
        }
    }
}

/// Passes batches on at other times.
pub struct RetimeLogic<C> {
    pub change: C,
}

/// The times that the batches lead to.
pub open spec fn leads_all<T1, T2, D, C: TimeChange<T1, T2>>(
    change: C,
    given: Seq<(T1, Seq<D>)>,
) -> Seq<Option<T2>> {
    given.map_values(|b: (T1, Seq<D>)| change.leads(b.0))
}

pub(crate) proof fn lemma_retimed_same<T1, T2, D>(
    given: Seq<(T1, Seq<D>)>,
    a: Seq<Option<T2>>,
    b: Seq<Option<T2>>,
)
    requires
        given.len() <= a.len(),
        given.len() <= b.len(),
        forall|i: int| 0 <= i < given.len() ==> a[i] == b[i],
    ensures
        retimed(given, a) == retimed(given, b),
    decreases given.len(),
{
    if given.len() > 0 {
        lemma_retimed_same(given.drop_last(), a, b);
    }
}

impl<T1, T2, D, C: TimeChange<T1, T2>> RelayLogic<T1, D, T2, D> for RetimeLogic<C> {
    open spec fn role(&self) -> Role {
        self.change.role()
    }

    open spec fn ready(&self) -> bool {
        true
    }

    open spec fn runs(
        &self,
        after: &Self,
        input: InputView<T1, D>,
        rest: InputView<T1, D>,
        out: Seq<(T2, Seq<D>)>,
        r: Result<()>,
    ) -> bool {
        &&& r == Ok::<(), Error>(())
        &&& *after == *self
        &&& rest == (InputView { pending: Seq::<(T1, Seq<D>)>::empty(), ..input })
        &&& out == retimed(input.pending, leads_all(self.change, input.pending))
    }

    open spec fn sated(&self) -> bool {
        false
    }

    open spec fn owing(&self) -> bool {
        false
    }

    fn run(&mut self, input: &mut InputHandle<T1, D>, output: &mut OutputHandle<T2, D>) -> (r:
        Result<()>) {
        let ghost given = input@.pending;
        let ghost times = leads_all::<T1, T2, D, C>(self.change, given);
        let ghost mut k: int = 0;
        let mut more = true;
        proof {
            assert(given.take(0) =~= Seq::<(T1, Seq<D>)>::empty());
            assert(given.skip(0) =~= given);
            assert(output@ =~= retimed(given.take(0), times));
        }
        while more
            invariant
                *self == *old(self),
                0 <= k <= given.len(),
                times == leads_all::<T1, T2, D, C>(self.change, given),
                input@.exhausted == old(input)@.exhausted,
                input@.pending == given.skip(k),
                output@ == retimed(given.take(k), times),
                !more ==> k == given.len(),
            decreases
                    given.len() - k,
                    (if more {
                        1int
                    } else {
                        0int
                    }),
        {
            match input.next() {
                Some((time, data)) => {
                    proof {
                        assert((time, data@) == given[k]);
                        let upto = given.take(k + 1);
                        assert(upto.drop_last() =~= given.take(k));
                        assert(upto.last() == given[k]);
                        assert(given.skip(k).drop_first() =~= given.skip(k + 1));
                        k = k + 1;
                    }
                    match self.change.lead(time) {
                        Some(t) => {
                            output.push_vec(t, data);
                        },
                        None => {},
                    }
                },
                None => {
                    more = false;
                },
            }
        }
        assert(given.take(k) =~= given);
        assert(input@.pending =~= Seq::<(T1, Seq<D>)>::empty());
        Ok(())
    }

    fn is_sated(&self) -> (b: bool) {
        false
    }

    fn is_owing(&self) -> (b: bool) {
        false
    }
}

/// Logic that is given as a closure over the handles. What the closure does with the handles is up
/// to it.
pub struct HandleLogic<L> {
    pub logic: L,
}

impl<
    T,
    D,
    D2,
    L: FnMut(&mut InputHandle<T, D>, &mut OutputHandle<T, D2>) -> Result<()>,
> RelayLogic<T, D, T, D2> for HandleLogic<L> {
    open spec fn role(&self) -> Role {
        Role::Unary
    }

    open spec fn ready(&self) -> bool {
        forall|i: &mut InputHandle<T, D>, o: &mut OutputHandle<T, D2>| #[trigger]
            call_requires(self.logic, (i, o))
    }

    open spec fn runs(
        &self,
        after: &Self,
        input: InputView<T, D>,
        rest: InputView<T, D>,
        out: Seq<(T, Seq<D2>)>,
        r: Result<()>,
    ) -> bool {
        *after == *self
    }

    open spec fn sated(&self) -> bool {
        false
    }

    open spec fn owing(&self) -> bool {
        false
    }

    fn run(&mut self, input: &mut InputHandle<T, D>, output: &mut OutputHandle<T, D2>) -> (r:
        Result<()>)
        ensures
            exists|i: &mut InputHandle<T, D>, o: &mut OutputHandle<T, D2>| #[trigger]
                call_ensures(old(self).logic, (i, o), r) && *i == *old(input) && *final(i)
                    == *final(input) && *o == *old(output) && *final(o) == *final(output),
    {
        (self.logic)(input, output)
    }

    fn is_sated(&self) -> (b: bool) {
        false
    }

    fn is_owing(&self) -> (b: bool) {
        false
    }
}

/// Logic that is given as a closure over the handles and the requested times. What the closure does
/// with them is up to it.
pub struct NotifyLogic<T, L> {
    pub context: NotifyContext<T>,
    pub logic: L,
}

impl<T: Timestamp, L> NotifyLogic<T, L> {
    /// The logic is without requests, at the start of time.
    pub open spec fn is_fresh(&self) -> bool {
        self.context@ == (NotificatorView {
            frontier: seq![T::least()],
            pending: Seq::<T>::empty(),
        })
    }

    /// A logic without requests, at the start of time.
    pub fn new(logic: L) -> (l: Self)
        ensures
            l.logic == logic,
            l.is_fresh(),
    {
        let l = NotifyLogic {
            context: NotifyContext::new(Antichain::from_elem(T::minimum())),
            logic,
        };
        assert(l.context@.frontier =~= seq![T::least()]);
        l
    }
}

impl<
    T: Timestamp,
    D,
    D2,
    L: FnMut(&mut InputHandle<T, D>, &mut OutputHandle<T, D2>, &mut NotifyContext<T>) -> Result<()>,
> RelayLogic<T, D, T, D2> for NotifyLogic<T, L> {
    open spec fn role(&self) -> Role {
        Role::Notified
    }

    open spec fn ready(&self) -> bool {
        forall|
            i: &mut InputHandle<T, D>,
            o: &mut OutputHandle<T, D2>,
            c: &mut NotifyContext<T>,
        | #[trigger]
            call_requires(self.logic, (i, o, c))
    }

    open spec fn runs(
        &self,
        after: &Self,
        input: InputView<T, D>,
        rest: InputView<T, D>,
        out: Seq<(T, Seq<D2>)>,
        r: Result<()>,
    ) -> bool {
        after.logic == self.logic
    }

    open spec fn sated(&self) -> bool {
        false
    }

    open spec fn owing(&self) -> bool {
        self.context@.pending.len() > 0
    }

    fn run(&mut self, input: &mut InputHandle<T, D>, output: &mut OutputHandle<T, D2>) -> (r:
        Result<()>)
        ensures
            exists|
                i: &mut InputHandle<T, D>,
                o: &mut OutputHandle<T, D2>,
                c: &mut NotifyContext<T>,
            | #[trigger]
                call_ensures(old(self).logic, (i, o, c), r) && *i == *old(input) && *final(i)
                    == *final(input) && *o == *old(output) && *final(o) == *final(output) && *c
                    == old(self).context && *final(c) == final(self).context,
    {
        (self.logic)(input, output, &mut self.context)
    }

    fn is_sated(&self) -> (b: bool) {
        false
    }

    fn is_owing(&self) -> (b: bool) {
        self.context.pending().len() > 0
    }
}

/// A batch that enters a loop and leaves it at once has the time that it came with.
pub proof fn leaving_undoes_entering<T: Timestamp, TInner: Timestamp>(t: T)
    ensures
        TimeChange::<T, Product<T, TInner>>::leads(&Entering, t) matches Some(inside)
            && TimeChange::<Product<T, TInner>, T>::leads(&Leaving, inside) == Some(t),
{
}

/// However often a batch goes round, it leaves the loop with the time that it came with.
pub proof fn rounds_keep_the_outer_time<T: Timestamp, TInner: Timestamp>(
    back: Returning<TInner::Summary>,
    t: Product<T, TInner>,
)
    ensures
        TimeChange::<Product<T, TInner>, Product<T, TInner>>::leads(&back, t) matches Some(next)
            ==> next.outer == t.outer && TimeChange::<Product<T, TInner>, T>::leads(&Leaving, next)
            == TimeChange::<Product<T, TInner>, T>::leads(&Leaving, t),
{
}

} // verus!
