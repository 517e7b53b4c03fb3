//! Leaving out records that were there already.

use vstd::prelude::*;
use vstd::std_specs::cmp::PartialEqSpec;
use crate::role::Ending;
use crate::wired::gathering::Finish;

verus! {

/// Some record equals `x`.
pub open spec fn has_equal<D: PartialEq>(data: Seq<D>, x: D) -> bool {
    exists|i: int| 0 <= i < data.len() && #[trigger] data[i].eq_spec(&x)
}

/// The records without those that equal an earlier one that is kept.
pub open spec fn distinct_of<D: PartialEq>(data: Seq<D>) -> Seq<D>
    decreases data.len(),
{
    if data.len() == 0 {
        Seq::empty()
    } else {
        let kept = distinct_of(data.drop_last());
        if has_equal(kept, data.last()) {
            kept
        } else {
            kept.push(data.last())
        }
    }
}

/// No two of the kept records are equal, where equality is symmetric.
pub proof fn distinct_has_no_repeats<D: PartialEq>(data: Seq<D>, i: int, j: int)
    requires
        0 <= i < j < distinct_of(data).len(),
    ensures
        !distinct_of(data)[i].eq_spec(&distinct_of(data)[j]),
    decreases data.len(),
{
    let kept = distinct_of(data.drop_last());
    if j < kept.len() {
        distinct_has_no_repeats(data.drop_last(), i, j);
    }
}

/// Every record equals a kept one, where records equal themselves.
pub proof fn distinct_keeps_every_kind<D: PartialEq>(data: Seq<D>, k: int)
    requires
        0 <= k < data.len(),
        forall|x: D| #[trigger] x.eq_spec(&x),
    ensures
        has_equal(distinct_of(data), data[k]),
    decreases data.len(),
{
    let rest = data.drop_last();
    let kept = distinct_of(rest);
    let all = distinct_of(data);
    if k < rest.len() {
        distinct_keeps_every_kind(rest, k);
        let i = choose|i: int| 0 <= i < kept.len() && #[trigger] kept[i].eq_spec(&data[k]);
        assert(all[i] == kept[i]);
    } else if !has_equal(kept, data.last()) {
        assert(all[kept.len() as int].eq_spec(&data[k]));
    }
}

/// Leaves out records that equal an earlier one.
pub struct DistinctFinish;

fn find_equal<D: PartialEq>(data: &Vec<D>, x: &D) -> (b: bool)
    ensures
        D::obeys_eq_spec() ==> b == has_equal(data@, *x),
{
    let mut i: usize = 0;
    while i < data.len()
        invariant
            i <= data@.len(),
            D::obeys_eq_spec() ==> forall|k: int|
                0 <= k < i ==> !#[trigger] data@[k].eq_spec(x),
        decreases data@.len() - i,
    {
        if data[i] == *x {
            return true;
        }
        i = i + 1;
    }
    false
}

impl<D: PartialEq> Finish<D, D> for DistinctFinish {
    open spec fn role(&self) -> Ending {
        Ending::Distinct
    }

    open spec fn ready(&self) -> bool {
        true
    }

    open spec fn finishes(&self, data: Seq<D>, out: Seq<D>) -> bool {
        D::obeys_eq_spec() ==> out == distinct_of(data)
    }

    fn finish(&mut self, data: Vec<D>) -> (out: Vec<D>) {
        let ghost given = data@;
        let mut out: Vec<D> = Vec::new();
        let ghost mut k: int = 0;
        assert(given.take(0) =~= Seq::<D>::empty());
        for x in it: data
            invariant
                it.seq() == given,
                k == it.index(),
                D::obeys_eq_spec() ==> out@ == distinct_of(given.take(k)),
        {
            let seen = find_equal(&out, &x);
            proof {
                let longer = given.take(k + 1);
                assert(longer.drop_last() =~= given.take(k));
                assert(longer.last() == x);
                k = k + 1;
            }
            if !seen {
                out.push(x);
            }
        }
        assert(given.take(k) =~= given);
        out
    }
}

} // verus!
