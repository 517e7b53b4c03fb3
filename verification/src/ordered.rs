//! Strictly increasing vectors of numbers, used as ordered sets.

use vstd::prelude::*;

verus! {

/// Every entry is smaller than the ones after it.
pub open spec fn strictly_increasing(s: Seq<usize>) -> bool {
    forall|i: int, j: int| 0 <= i < j < s.len() ==> s[i] < s[j]
}

/// The position of the first entry that is not below `x`.
pub fn lower_bound(v: &Vec<usize>, x: usize) -> (pos: usize)
    requires
        strictly_increasing(v@),
    ensures
        pos <= v@.len(),
        forall|i: int| 0 <= i < pos ==> v@[i] < x,
        forall|i: int| pos <= i < v@.len() ==> v@[i] >= x,
{
    let mut lo: usize = 0;
    let mut hi: usize = v.len();
    while lo < hi
        invariant
            strictly_increasing(v@),
            lo <= hi <= v@.len(),
            forall|i: int| 0 <= i < lo ==> v@[i] < x,
            forall|i: int| hi <= i < v@.len() ==> v@[i] >= x,
        decreases hi - lo,
    {
        let mid: usize = lo + (hi - lo) / 2;
        if v[mid] < x {
            lo = mid + 1;
        } else {
            hi = mid;
        }
    }
    lo
}

/// Where `x` stands in the ordered set, if it is there.
pub fn position(v: &Vec<usize>, x: usize) -> (pos: Option<usize>)
    requires
        strictly_increasing(v@),
    ensures
        pos matches Some(p) ==> p < v@.len() && v@[p as int] == x,
        pos is None ==> !v@.contains(x),
{
    let p: usize = lower_bound(v, x);
    if p < v.len() && v[p] == x {
        Some(p)
    } else {
        assert forall|i: int| 0 <= i < v@.len() implies v@[i] != x by {
            if p < v@.len() && i > p {
                assert(v@[p as int] < v@[i]);
            }
        }
        None
    }
}

/// Whether the ordered set holds `x`.
pub fn contains(v: &Vec<usize>, x: usize) -> (found: bool)
    requires
        strictly_increasing(v@),
    ensures
        found == v@.contains(x),
{
    match position(v, x) {
        Some(p) => {
            assert(v@[p as int] == x);
            true
        },
        None => false,
    }
}

/// Adds `x` to the ordered set; a number that is there already stays single.
pub fn insert(v: &mut Vec<usize>, x: usize)
    requires
        strictly_increasing(old(v)@),
    ensures
        strictly_increasing(final(v)@),
        forall|y: usize| #[trigger] final(v)@.contains(y) <==> old(v)@.contains(y) || y == x,
        final(v)@.len() == old(v)@.len() + (if old(v)@.contains(x) { 0int } else { 1 }),
{
    let p: usize = lower_bound(v, x);
    if p < v.len() && v[p] == x {
        assert(v@[p as int] == x);
        return;
    }
    let ghost before = v@;
    assert(!before.contains(x)) by {
        assert forall|i: int| 0 <= i < before.len() implies before[i] != x by {
            if p < before.len() && i > p {
                assert(before[p as int] < before[i]);
            }
        }
    }
    v.insert(p, x);
    assert(v@ =~= before.insert(p as int, x));
    assert forall|y: usize| #[trigger] v@.contains(y) <==> before.contains(y) || y == x by {
        if before.contains(y) {
            let i = choose|i: int| 0 <= i < before.len() && before[i] == y;
            if i < p {
                assert(v@[i] == y);
            } else {
                assert(v@[i + 1] == y);
            }
        }
        if y == x {
            assert(v@[p as int] == y);
        }
        if v@.contains(y) {
            let i = choose|i: int| 0 <= i < v@.len() && v@[i] == y;
            if i < p {
                assert(before[i] == y);
            } else if i > p {
                assert(before[i - 1] == y);
            }
        }
    }
}

/// An ordered set is determined by what it holds.
pub proof fn same_members_same_order(a: Seq<usize>, b: Seq<usize>)
    requires
        strictly_increasing(a),
        strictly_increasing(b),
        forall|x: usize| a.contains(x) <==> b.contains(x),
    ensures
        a == b,
    decreases a.len(),
{
    if a.len() == 0 {
        if b.len() > 0 {
            assert(b.contains(b[0]));
            assert(a.contains(b[0]));
        }
        assert(a =~= b);
    } else {
        assert(a.contains(a.last()));
        let i = choose|i: int| 0 <= i < b.len() && b[i] == a.last();
        assert(b.contains(b.last()));
        let j = choose|j: int| 0 <= j < a.len() && a[j] == b.last();
        assert(a.last() == b.last());
        let a1 = a.drop_last();
        let b1 = b.drop_last();
        assert forall|x: usize| a1.contains(x) <==> b1.contains(x) by {
            if a1.contains(x) {
                let k = choose|k: int| 0 <= k < a1.len() && a1[k] == x;
                assert(a[k] == x);
                assert(a.contains(x));
                let m = choose|m: int| 0 <= m < b.len() && b[m] == x;
                assert(a[k] < a.last());
                assert(b1[m] == x);
            }
            if b1.contains(x) {
                let k = choose|k: int| 0 <= k < b1.len() && b1[k] == x;
                assert(b[k] == x);
                assert(b.contains(x));
                let m = choose|m: int| 0 <= m < a.len() && a[m] == x;
                assert(b[k] < b.last());
                assert(a1[m] == x);
            }
        }
        same_members_same_order(a1, b1);
        assert(a =~= a1.push(a.last()));
        assert(b =~= b1.push(b.last()));
    }
}

} // verus!
