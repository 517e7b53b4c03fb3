//! A stream that is split in two.

use vstd::multiset::Multiset;
use vstd::prelude::*;
use crate::operators::branch::select;
use crate::order::Timestamp;
use crate::wired::composing::{clones_are_equal, lemma_equal_copies};
use crate::wired::outbox::copies;
use crate::wired::passage::{
    in_some_order, lemma_reads_its_strand, operators_pass_everything, turns, BatchRun,
};
use crate::wired::relay::{applies_all, applies_at, made_batches};
use crate::wired::streams::{answers_shared, BranchLogic};

verus! {

/// The records of a batch, each with its time.
pub open spec fn tally<T, D>(time: T, data: Seq<D>) -> Multiset<(T, D)>
    decreases data.len(),
{
    if data.len() == 0 {
        Multiset::empty()
    } else {
        tally(time, data.drop_last()).insert((time, data.last()))
    }
}

/// The records of batches, each with its time.
pub open spec fn records<T, D>(given: Seq<(T, Seq<D>)>) -> Multiset<(T, D)>
    decreases given.len(),
{
    if given.len() == 0 {
        Multiset::empty()
    } else {
        records(given.drop_last()).add(tally(given.last().0, given.last().1))
    }
}

/// The predicate has one answer for each time and record.
pub open spec fn answers_once<T, D, F: Fn(&T, &D) -> bool>(predicate: F) -> bool {
    forall|t: T, x: D|
        !(#[trigger] call_ensures(predicate, (&t, &x), true) && call_ensures(
            predicate,
            (&t, &x),
            false,
        ))
}

/// The predicate of one side of a split.
pub open spec fn rule_of<F>(side: BranchLogic<F>) -> F {
    *side.predicate
}

proof fn lemma_tally_push<T, D>(time: T, data: Seq<D>, x: D)
    ensures
        tally(time, data.push(x)) == tally(time, data).insert((time, x)),
{
    assert(data.push(x).drop_last() =~= data);
}

proof fn lemma_select_parts<T, D>(time: T, data: Seq<D>, flags: Seq<bool>)
    requires
        data.len() <= flags.len(),
    ensures
        tally(time, select(data, flags, true)).add(tally(time, select(data, flags, false)))
            == tally(time, data),
    decreases data.len(),
{
    if data.len() > 0 {
        let less = data.drop_last();
        lemma_select_parts(time, less, flags);
        lemma_tally_push(time, select(less, flags, true), data.last());
        lemma_tally_push(time, select(less, flags, false), data.last());
    }
    assert(tally(time, select(data, flags, true)).add(tally(time, select(data, flags, false)))
        =~= tally(time, data));
}

proof fn lemma_select_answers<T, D, F: Fn(&T, &D) -> bool>(
    predicate: F,
    time: T,
    data: Seq<D>,
    flags: Seq<bool>,
    want: bool,
    t: T,
    x: D,
)
    requires
        data.len() <= flags.len(),
        forall|i: int|
            0 <= i < data.len() ==> call_ensures(
                predicate,
                (&time, &data[i]),
                #[trigger] flags[i],
            ),
        tally(time, select(data, flags, want)).count((t, x)) > 0,
    ensures
        call_ensures(predicate, (&t, &x), want),
    decreases data.len(),
{
    if data.len() > 0 {
        let less = data.drop_last();
        let n = data.len() - 1;
        lemma_tally_push(time, select(less, flags, want), data.last());
        if tally(time, select(less, flags, want)).count((t, x)) > 0 {
            assert forall|i: int| 0 <= i < less.len() implies call_ensures(
                predicate,
                (&time, &less[i]),
                #[trigger] flags[i],
            ) by {
                assert(call_ensures(predicate, (&time, &data[i]), flags[i]));
            }
            lemma_select_answers(predicate, time, less, flags, want, t, x);
        } else {
            assert((t, x) == (time, data.last()));
            assert(call_ensures(predicate, (&time, &data[n]), flags[n]));
        }
    }
}

/// The batches that were made hold the records for which the predicate gives the answer `want`.
proof fn lemma_branch_made<T, D, F: Fn(&T, &D) -> bool>(
    logic: BranchLogic<F>,
    to: BranchLogic<F>,
    given: Seq<(T, Seq<D>)>,
    out: Seq<(T, Seq<D>)>,
) -> (p: (Seq<Seq<bool>>, Seq<Seq<D>>))
    requires
        turns(logic, to, given, out),
    ensures
        p.0.len() == given.len(),
        p.1.len() == given.len(),
        forall|i: int|
            0 <= i < given.len() ==> answers_shared(
                *logic.predicate,
                given[i].0,
                given[i].1,
                #[trigger] p.0[i],
            ) && p.1[i] == select(given[i].1, p.0[i], logic.want),
        out == made_batches(given, p.1),
{
    let (states, made) = choose|states: Seq<BranchLogic<F>>, made: Seq<Seq<D>>| #[trigger]
        applies_all(states, given, made) && states[0] == logic && states.last() == to && out
            == made_batches(given, made);
    let flags = Seq::new(
        given.len(),
        |i: int|
            choose|flags: Seq<bool>| #[trigger]
                answers_shared(*logic.predicate, given[i].0, given[i].1, flags) && made[i]
                    == select(given[i].1, flags, logic.want),
    );
    assert forall|i: int| 0 <= i < given.len() implies answers_shared(
        *logic.predicate,
        given[i].0,
        given[i].1,
        #[trigger] flags[i],
    ) && made[i] == select(given[i].1, flags[i], logic.want) by {
        lemma_branch_state(logic, states, given, made, i);
        assert(applies_at(states, given, made, i));
    }
    (flags, made)
}

proof fn lemma_branch_state<T, D, F: Fn(&T, &D) -> bool>(
    logic: BranchLogic<F>,
    states: Seq<BranchLogic<F>>,
    given: Seq<(T, Seq<D>)>,
    made: Seq<Seq<D>>,
    i: int,
)
    requires
        applies_all(states, given, made),
        states[0] == logic,
        0 <= i < states.len(),
    ensures
        states[i] == logic,
    decreases i,
{
    if i > 0 {
        lemma_branch_state(logic, states, given, made, i - 1);
        assert(applies_at(states, given, made, i - 1));
    }
}

proof fn lemma_records_made<T, D>(given: Seq<(T, Seq<D>)>, made: Seq<Seq<D>>)
    requires
        0 < given.len() <= made.len(),
    ensures
        records(made_batches(given, made)) == records(made_batches(given.drop_last(), made)).add(
            tally(given.last().0, made[given.len() - 1]),
        ),
{
    let before = made_batches(given.drop_last(), made);
    let data = made[given.len() - 1];
    if data.len() > 0 {
        assert(before.push((given.last().0, data)).drop_last() =~= before);
    }
    assert(records(made_batches(given, made)) =~= records(before).add(
        tally(given.last().0, data),
    ));
}

proof fn lemma_parts<T, D, F: Fn(&T, &D) -> bool>(
    predicate: F,
    given: Seq<(T, Seq<D>)>,
    yes: (Seq<Seq<bool>>, Seq<Seq<D>>),
    no: (Seq<Seq<bool>>, Seq<Seq<D>>),
    n: nat,
)
    requires
        answers_once::<T, D, F>(predicate),
        n <= given.len(),
        yes.0.len() == given.len() && yes.1.len() == given.len(),
        no.0.len() == given.len() && no.1.len() == given.len(),
        forall|i: int|
            0 <= i < given.len() ==> answers_shared(
                predicate,
                given[i].0,
                given[i].1,
                #[trigger] yes.0[i],
            ) && yes.1[i] == select(given[i].1, yes.0[i], true),
        forall|i: int|
            0 <= i < given.len() ==> answers_shared(
                predicate,
                given[i].0,
                given[i].1,
                #[trigger] no.0[i],
            ) && no.1[i] == select(given[i].1, no.0[i], false),
    ensures
        records(made_batches(given.take(n as int), yes.1)).add(
            records(made_batches(given.take(n as int), no.1)),
        ) == records(given.take(n as int)),
        forall|t: T, x: D|
            #![trigger call_ensures(predicate, (&t, &x), true)]
            #![trigger call_ensures(predicate, (&t, &x), false)]
            #![trigger records(made_batches(given.take(n as int), yes.1)).count((t, x))]
            #![trigger records(made_batches(given.take(n as int), no.1)).count((t, x))]
            (records(made_batches(given.take(n as int), yes.1)).count((t, x)) > 0 ==> call_ensures(
                predicate,
                (&t, &x),
                true,
            )) && (records(made_batches(given.take(n as int), no.1)).count((t, x)) > 0
                ==> call_ensures(predicate, (&t, &x), false)),
    decreases n,
{
    let part = given.take(n as int);
    if n > 0 {
        let less = given.take(n - 1);
        assert(part.drop_last() =~= less);
        lemma_parts(predicate, given, yes, no, (n - 1) as nat);
        let (time, data) = given[n - 1];
        let flags = yes.0[n - 1];
        assert(answers_shared(predicate, time, data, yes.0[n - 1]));
        assert(answers_shared(predicate, time, data, no.0[n - 1]));
        let other = no.0[n - 1];
        assert(flags =~= other) by {
            assert forall|i: int| 0 <= i < data.len() implies #[trigger] flags[i] == other[i] by {
                assert(call_ensures(predicate, (&time, &data[i]), flags[i]));
                assert(call_ensures(predicate, (&time, &data[i]), other[i]));
                assert(!(call_ensures(predicate, (&time, &data[i]), true) && call_ensures(
                    predicate,
                    (&time, &data[i]),
                    false,
                )));
            }
        }
        lemma_records_made(part, yes.1);
        lemma_records_made(part, no.1);
        lemma_select_parts(time, data, flags);
        assert forall|t: T, x: D|
            #![trigger call_ensures(predicate, (&t, &x), true)]
            #![trigger call_ensures(predicate, (&t, &x), false)]
            #![trigger records(made_batches(part, yes.1)).count((t, x))]
            #![trigger records(made_batches(part, no.1)).count((t, x))]
            (records(made_batches(part, yes.1)).count((t, x)) > 0 ==> call_ensures(
                predicate,
                (&t, &x),
                true,
            )) && (records(made_batches(part, no.1)).count((t, x)) > 0 ==> call_ensures(
                predicate,
                (&t, &x),
                false,
            )) by {
            if tally(time, select(data, flags, true)).count((t, x)) > 0 {
                lemma_select_answers(predicate, time, data, flags, true, t, x);
            }
            if tally(time, select(data, flags, false)).count((t, x)) > 0 {
                lemma_select_answers(predicate, time, data, flags, false, t, x);
            }
        }
    }
    assert(records(made_batches(part, yes.1)).add(records(made_batches(part, no.1))) =~= records(
        part,
    ));
}

/// Batches that are split by a predicate with one answer for each time and record: each record comes
/// out on exactly one side, under its time, on the one that the predicate says.
pub proof fn branches_part<T, D, F: Fn(&T, &D) -> bool>(
    sides: (BranchLogic<F>, BranchLogic<F>),
    ends: (BranchLogic<F>, BranchLogic<F>),
    given: Seq<(T, Seq<D>)>,
    yes: Seq<(T, Seq<D>)>,
    no: Seq<(T, Seq<D>)>,
)
    requires
        rule_of(sides.0) == rule_of(sides.1),
        answers_once::<T, D, F>(rule_of(sides.0)),
        sides.0.want && !sides.1.want,
        turns(sides.0, ends.0, given, yes),
        turns(sides.1, ends.1, given, no),
    ensures
        records(yes).add(records(no)) == records(given),
        forall|t: T, x: D| #[trigger]
            records(yes).count((t, x)) > 0 ==> call_ensures(
                rule_of(sides.0),
                (&t, &x),
                true,
            ),
        forall|t: T, x: D| #[trigger]
            records(no).count((t, x)) > 0 ==> call_ensures(rule_of(sides.0), (&t, &x), false),
{
    let a = lemma_branch_made(sides.0, ends.0, given, yes);
    let b = lemma_branch_made(sides.1, ends.1, given, no);
    assert(given.take(given.len() as int) =~= given);
    lemma_parts(rule_of(sides.0), given, a, b, given.len());
}

/// Two operators that split a stream by a predicate with one answer for each time and record, and that
/// are through, have sent each record of the stream on exactly one side, under its time, on the one
/// that the predicate says. Clones are equal.
pub proof fn branches_divide<T: Timestamp, D: Clone, F: Fn(&T, &D) -> bool>(
    yes: BatchRun<T, D, D, BranchLogic<F>>,
    no: BatchRun<T, D, D, BranchLogic<F>>,
)
    requires
        clones_are_equal::<D>(),
        yes.wf() && no.wf(),
        rule_of(yes.logics().0) == rule_of(no.logics().0),
        answers_once::<T, D, F>(rule_of(yes.logics().0)),
        yes.logics().0.want && !no.logics().0.want,
        yes.cores.last().state.done && no.cores.last().state.done,
        yes.cores[0].input.strand() == no.cores[0].input.strand(),
        in_some_order(yes.traces.last().0, no.traces.last().0),
    ensures
        ({
            let given = records(yes.traces.last().0.before()@.written());
            let a = records(yes.traces.last().1.after()@.written());
            let b = records(no.traces.last().1.after()@.written());
            let p = rule_of(yes.logics().0);
            &&& a.add(b) == given
            &&& forall|t: T, x: D| #[trigger]
                a.count((t, x)) > 0 ==> call_ensures(p, (&t, &x), true)
            &&& forall|t: T, x: D| #[trigger]
                b.count((t, x)) > 0 ==> call_ensures(p, (&t, &x), false)
        }),
{
    let given = yes.traces.last().0.before()@.written();
    let m = operators_pass_everything(yes);
    let n = operators_pass_everything(no);
    lemma_reads_its_strand(yes);
    lemma_reads_its_strand(no);
    assert(no.traces.last().0.before()@.written() == given);
    assert(given.take(m) =~= given);
    assert(given.take(n) =~= given);
    let a = yes.traces.last().1.after()@.written();
    let b = no.traces.last().1.after()@.written();
    let (read, out) = choose|read: Seq<(T, Seq<D>)>, out: Seq<(T, Seq<D>)>|
        copies(given, read) && #[trigger] turns(yes.logics().0, yes.logics().1, read, out)
            && #[trigger] copies(out, a);
    let (read2, out2) = choose|read: Seq<(T, Seq<D>)>, out: Seq<(T, Seq<D>)>|
        copies(given, read) && #[trigger] turns(no.logics().0, no.logics().1, read, out)
            && #[trigger] copies(out, b);
    lemma_equal_copies(given, read);
    lemma_equal_copies(given, read2);
    lemma_equal_copies(out, a);
    lemma_equal_copies(out2, b);
    branches_part(
        (yes.logics().0, no.logics().0),
        (yes.logics().1, no.logics().1),
        given,
        a,
        b,
    );
}

} // verus!
