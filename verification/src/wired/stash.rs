//! Records that wait until their time is complete.

use vstd::prelude::*;
use crate::order::Timestamp;

verus! {

/// Lists by time, as a map.
pub open spec fn as_map<T, D>(entries: Seq<(T, Seq<D>)>) -> Map<T, Seq<D>>
    decreases entries.len(),
{
    if entries.len() == 0 {
        Map::empty()
    } else {
        as_map(entries.drop_last()).insert(entries.last().0, entries.last().1)
    }
}

/// No time occurs twice.
spec fn distinct_times<T, D>(entries: Seq<(T, Seq<D>)>) -> bool {
    forall|i: int, j: int|
        0 <= i < j < entries.len() ==> (#[trigger] entries[i]).0 != (#[trigger] entries[j]).0
}

proof fn lemma_as_map<T, D>(entries: Seq<(T, Seq<D>)>)
    requires
        distinct_times(entries),
    ensures
        forall|i: int|
            0 <= i < entries.len() ==> as_map(entries).dom().contains(#[trigger] entries[i].0)
                && as_map(entries)[entries[i].0] == entries[i].1,
        forall|t: T| #[trigger]
            as_map(entries).dom().contains(t) ==> exists|i: int|
                0 <= i < entries.len() && #[trigger] entries[i].0 == t,
    decreases entries.len(),
{
    if entries.len() > 0 {
        let rest = entries.drop_last();
        lemma_as_map(rest);
        assert forall|i: int| 0 <= i < entries.len() implies as_map(entries).dom().contains(
            #[trigger] entries[i].0,
        ) && as_map(entries)[entries[i].0] == entries[i].1 by {
            if i < rest.len() {
                assert(rest[i] == entries[i]);
                assert(entries[i].0 != entries[entries.len() - 1].0);
            }
        }
        assert forall|t: T| #[trigger] as_map(entries).dom().contains(t) implies exists|i: int|
            0 <= i < entries.len() && #[trigger] entries[i].0 == t by {
            if t == entries.last().0 {
                assert(entries[entries.len() - 1].0 == t);
            } else {
                assert(as_map(rest).dom().contains(t));
                let i = choose|i: int| 0 <= i < rest.len() && #[trigger] rest[i].0 == t;
                assert(entries[i].0 == t);
            }
        }
    }
}

/// Two lists with the same entries make the same map.
proof fn lemma_map_of<T, D>(entries: Seq<(T, Seq<D>)>, m: Map<T, Seq<D>>)
    requires
        distinct_times(entries),
        forall|i: int|
            0 <= i < entries.len() ==> m.dom().contains(#[trigger] entries[i].0)
                && m[entries[i].0] == entries[i].1,
        forall|t: T| #[trigger]
            m.dom().contains(t) ==> exists|i: int|
                0 <= i < entries.len() && #[trigger] entries[i].0 == t,
    ensures
        as_map(entries) == m,
{
    lemma_as_map(entries);
    assert forall|t: T| as_map(entries).dom().contains(t) <==> m.dom().contains(t) by {
        if as_map(entries).dom().contains(t) {
            let i = choose|i: int| 0 <= i < entries.len() && #[trigger] entries[i].0 == t;
            assert(m.dom().contains(entries[i].0));
        }
        if m.dom().contains(t) {
            let i = choose|i: int| 0 <= i < entries.len() && #[trigger] entries[i].0 == t;
            assert(as_map(entries).dom().contains(entries[i].0));
        }
    }
    assert forall|t: T| m.dom().contains(t) implies as_map(entries)[t] == m[t] by {
        let i = choose|i: int| 0 <= i < entries.len() && #[trigger] entries[i].0 == t;
        assert(as_map(entries)[entries[i].0] == entries[i].1);
    }
    assert(as_map(entries) =~= m);
}

/// Entries as sequences.
spec fn entry_seqs<T, D>(entries: Seq<(T, Vec<D>)>) -> Seq<(T, Seq<D>)> {
    entries.map_values(|e: (T, Vec<D>)| (e.0, e.1@))
}

/// Whether two times are the same.
pub fn same_time<T: Timestamp>(a: &T, b: &T) -> (same: bool)
    ensures
        same == (*a == *b),
{
    proof {
        if *a == *b {
            a.le_reflexive();
        } else if a.le(b) && b.le(a) {
            a.le_antisymmetric(b);
        }
    }
    a.less_equal(b) && b.less_equal(a)
}

/// What is held at `time`.
pub open spec fn held_at<T, D>(held: Map<T, Seq<D>>, time: T) -> Seq<D> {
    if held.dom().contains(time) {
        held[time]
    } else {
        Seq::empty()
    }
}

/// Records by time.
#[derive(Debug)]
pub struct Stash<T, D> {
    entries: Vec<(T, Vec<D>)>,
}

impl<T, D> View for Stash<T, D> {
    type V = Map<T, Seq<D>>;

    closed spec fn view(&self) -> Map<T, Seq<D>> {
        as_map(entry_seqs(self.entries@))
    }
}

impl<T: Timestamp, D> Stash<T, D> {
    /// The entries have different times.
    pub closed spec fn wf(&self) -> bool {
        distinct_times(entry_seqs(self.entries@))
    }

    /// No records.
    pub fn new() -> (s: Self)
        ensures
            s.wf(),
            s@ == Map::<T, Seq<D>>::empty(),
    {
        Stash { entries: Vec::new() }
    }

    fn find(&self, time: &T) -> (found: Option<usize>)
        requires
            self.wf(),
        ensures
            found matches Some(i) ==> i < self.entries@.len() && self.entries@[i as int].0 == *time,
            found is None ==> forall|k: int|
                0 <= k < self.entries@.len() ==> (#[trigger] self.entries@[k]).0 != *time,
    {
        let mut i: usize = 0;
        while i < self.entries.len()
            invariant
                i <= self.entries@.len(),
                forall|k: int| 0 <= k < i ==> (#[trigger] self.entries@[k]).0 != *time,
            decreases self.entries@.len() - i,
        {
            if same_time(&self.entries[i].0, time) {
                return Some(i);
            }
            i = i + 1;
        }
        None
    }

    /// Adds records at `time`, behind those that are there.
    pub fn add_records(&mut self, time: T, data: Vec<D>)
        requires
            old(self).wf(),
        ensures
            final(self).wf(),
            final(self)@ == old(self)@.insert(time, held_at(old(self)@, time) + data@),
    {
        let ghost before = entry_seqs(self.entries@);
        let ghost given = data@;
        let ghost target = self@.insert(time, held_at(self@, time) + given);
        proof {
            lemma_as_map(before);
        }
        match self.find(&time) {
            Some(i) => {
                let mut data = data;
                self.entries[i].1.append(&mut data);
                proof {
                    let after = entry_seqs(self.entries@);
                    assert(before[i as int].0 == time);
                    assert(after =~= before.update(i as int, (time, before[i as int].1 + given)));
                    assert forall|t: T| #[trigger] target.dom().contains(t) implies exists|k: int|
                        0 <= k < after.len() && #[trigger] after[k].0 == t by {
                        if t == time {
                            assert(after[i as int].0 == t);
                        } else {
                            let k = choose|k: int|
                                0 <= k < before.len() && #[trigger] before[k].0 == t;
                            assert(after[k].0 == t);
                        }
                    }
                    assert forall|k: int| 0 <= k < after.len() implies target.dom().contains(
                        #[trigger] after[k].0,
                    ) && target[after[k].0] == after[k].1 by {
                        assert(before[k].0 == after[k].0);
                        if k != i {
                            assert(before[k].0 != before[i as int].0);
                        }
                    }
                    lemma_map_of(after, target);
                }
            },
            None => {
                proof {
                    assert forall|k: int| 0 <= k < before.len() implies before[k].0 != time by {
                        assert(before[k].0 == self.entries@[k].0);
                    }
                    if self@.dom().contains(time) {
                        let k = choose|k: int|
                            0 <= k < before.len() && #[trigger] before[k].0 == time;
                    }
                }
                self.entries.push((time, data));
                proof {
                    let after = entry_seqs(self.entries@);
                    assert(after =~= before.push((time, given)));
                    assert(Seq::<D>::empty() + given =~= given);
                    assert(after.drop_last() =~= before);
                }
            },
        }
    }

    /// Takes the records at `time`, if there are any.
    pub fn take_records(&mut self, time: &T) -> (data: Option<Vec<D>>)
        requires
            old(self).wf(),
        ensures
            final(self).wf(),
            final(self)@ == old(self)@.remove(*time),
            data is Some <==> old(self)@.dom().contains(*time),
            data matches Some(d) ==> d@ == old(self)@[*time],
    {
        let ghost before = entry_seqs(self.entries@);
        proof {
            lemma_as_map(before);
        }
        match self.find(time) {
            Some(i) => {
                assert(before[i as int].0 == *time);
                let (_, data) = self.entries.remove(i);
                proof {
                    let after = entry_seqs(self.entries@);
                    assert(after =~= before.remove(i as int));
                    let target = old(self)@.remove(*time);
                    assert forall|k: int| 0 <= k < after.len() implies target.dom().contains(
                        #[trigger] after[k].0,
                    ) && target[after[k].0] == after[k].1 by {
                        let b = if k < i {
                            k
                        } else {
                            k + 1
                        };
                        assert(after[k] == before[b]);
                        if b < i {
                            assert(before[b].0 != before[i as int].0);
                        } else {
                            assert(before[i as int].0 != before[b].0);
                        }
                    }
                    assert forall|t: T| #[trigger] target.dom().contains(t) implies exists|k: int|
                        0 <= k < after.len() && #[trigger] after[k].0 == t by {
                        let b = choose|b: int| 0 <= b < before.len() && #[trigger] before[b].0 == t;
                        if b < i {
                            assert(after[b].0 == t);
                        } else {
                            assert(after[b - 1].0 == t);
                        }
                    }
                    assert forall|a: int, b: int| 0 <= a < b < after.len() implies (
                    #[trigger] after[a]).0 != (#[trigger] after[b]).0 by {
                        let x = if a < i {
                            a
                        } else {
                            a + 1
                        };
                        let y = if b < i {
                            b
                        } else {
                            b + 1
                        };
                        assert(before[x].0 != before[y].0);
                    }
                    lemma_map_of(after, target);
                }
                Some(data)
            },
            None => {
                proof {
                    if self@.dom().contains(*time) {
                        let k = choose|k: int|
                            0 <= k < before.len() && #[trigger] before[k].0 == *time;
                        assert(self.entries@[k].0 == *time);
                    }
                    assert(self@.remove(*time) =~= self@);
                }
                None
            },
        }
    }
}

} // verus!
