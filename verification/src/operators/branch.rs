//! Operators that split one stream in two.

use vstd::prelude::*;
use crate::error::{Error, Result};
use crate::graph::{pipeline_edge, EdgeInfo, OperatorInfo};
use crate::handles::{batches, with_batch, InputHandle, InputView, OutputHandle};
use crate::order::Timestamp;
use crate::scope::{with_edge, with_operator, Scope, ScopeView};
use crate::stage::RegionId;
use crate::stream::{DataStream, Slot, StreamEdge, StreamView};
use crate::text::{decimal, joined, push_usize};

verus! {

/// The records whose answer is `want`, in order.
pub open spec fn select<D>(data: Seq<D>, answers: Seq<bool>, want: bool) -> Seq<D>
    decreases data.len(),
{
    if data.len() == 0 {
        Seq::empty()
    } else {
        let rest = select(data.drop_last(), answers, want);
        if answers[data.len() - 1] == want {
            rest.push(data.last())
        } else {
            rest
        }
    }
}

/// Batch after batch, the records whose answer is `want`, after what was buffered already.
pub open spec fn routed<T, D>(
    buffered: Seq<(T, Seq<D>)>,
    input: Seq<(T, Seq<D>)>,
    answers: Seq<Seq<bool>>,
    want: bool,
) -> Seq<(T, Seq<D>)>
    decreases input.len(),
{
    if input.len() == 0 {
        buffered
    } else {
        with_batch(
            routed(buffered, input.drop_last(), answers, want),
            input.last().0,
            select(input.last().1, answers[input.len() - 1], want),
        )
    }
}

/// `answers` are possible answers of the predicate to the records of a batch.
pub open spec fn answers_batch<D, P: FnMut(&D) -> bool>(
    predicate: P,
    data: Seq<D>,
    answers: Seq<bool>,
) -> bool {
    &&& answers.len() == data.len()
    &&& forall|i: int|
        0 <= i < data.len() ==> call_ensures(predicate, (&data[i],), #[trigger] answers[i])
}

/// The predicate can be asked about all records of the batches.
pub open spec fn asks_all<T, D, P: FnMut(&D) -> bool>(rule: P, input: Seq<(T, Seq<D>)>) -> bool {
    forall|i: int, j: int|
        0 <= i < input.len() && 0 <= j < input[i].1.len() ==> call_requires(
            rule,
            (&#[trigger] input[i].1[j],),
        )
}

/// The splitter can be applied to all records of the batches.
pub open spec fn splittable<T, D, O, E, F: FnMut(D) -> core::result::Result<O, E>>(
    rule: F,
    input: Seq<(T, Seq<D>)>,
) -> bool {
    forall|i: int, j: int|
        0 <= i < input.len() && 0 <= j < input[i].1.len() ==> call_requires(
            rule,
            (#[trigger] input[i].1[j],),
        )
}

/// `answers` are possible answers of the predicate to the records of all batches.
pub open spec fn answers_all<T, D, P: FnMut(&D) -> bool>(
    predicate: P,
    input: Seq<(T, Seq<D>)>,
    answers: Seq<Seq<bool>>,
) -> bool {
    &&& answers.len() == input.len()
    &&& forall|i: int|
        0 <= i < input.len() ==> answers_batch(predicate, input[i].1, #[trigger] answers[i])
}

/// What a branch operator holds.
pub struct BranchView<T, D> {
    pub input: InputView<T, D>,
    /// Batches that were routed to the first output.
    pub output_true: Seq<(T, Seq<D>)>,
    /// Batches that were routed to the second output.
    pub output_false: Seq<(T, Seq<D>)>,
}

/// Routes each record to one of two outputs, as a predicate says.
#[verifier::reject_recursive_types(D)]
pub struct BranchOperator<T, D, P> {
    name: String,
    index: usize,
    region_id: RegionId,
    input: InputHandle<T, D>,
    output_true: OutputHandle<T, D>,
    output_false: OutputHandle<T, D>,
    predicate: P,
}

impl<T, D, P> View for BranchOperator<T, D, P> {
    type V = BranchView<T, D>;

    closed spec fn view(&self) -> BranchView<T, D> {
        BranchView {
            input: self.input@,
            output_true: self.output_true@,
            output_false: self.output_false@,
        }
    }
}

impl<T, D, P> BranchOperator<T, D, P> {
    /// The name of the operator.
    pub closed spec fn label(&self) -> Seq<char> {
        self.name@
    }

    /// The index of the operator.
    pub closed spec fn place(&self) -> (usize, RegionId) {
        (self.index, self.region_id)
    }

    /// The predicate of the operator.
    pub closed spec fn rule(&self) -> P {
        self.predicate
    }

    /// An operator without batches.
    pub fn new(name: &str, index: usize, region_id: RegionId, predicate: P) -> (op: Self)
        ensures
            op.label() == name@,
            op.place() == (index, region_id),
            op.rule() == predicate,
            op@.input == (InputView { pending: Seq::<(T, Seq<D>)>::empty(), exhausted: false }),
            op@.output_true == Seq::<(T, Seq<D>)>::empty(),
            op@.output_false == Seq::<(T, Seq<D>)>::empty(),
    {
        BranchOperator {
            input: InputHandle::new(joined(name, ":input")),
            output_true: OutputHandle::new(joined(name, ":true")),
            output_false: OutputHandle::new(joined(name, ":false")),
            name: name.to_owned(),
            index,
            region_id,
            predicate,
        }
    }

    /// The name of the operator.
    pub fn name(&self) -> (name: &str)
        ensures
            name@ == self.label(),
    {
        self.name.as_str()
    }

    /// The index of the operator.
    pub fn index(&self) -> (index: usize)
        ensures
            index == self.place().0,
    {
        self.index
    }

    /// The region of the operator.
    pub fn region_id(&self) -> (region_id: RegionId)
        ensures
            region_id == self.place().1,
    {
        self.region_id
    }

    /// The input of the operator.
    pub fn input_mut(&mut self) -> (input: &mut InputHandle<T, D>)
        ensures
            input@ == old(self)@.input,
            final(self)@ == (BranchView { input: final(input)@, ..old(self)@ }),
            final(self).label() == old(self).label(),
            final(self).place() == old(self).place(),
            final(self).rule() == old(self).rule(),
    {
        &mut self.input
    }

    /// Hands out the batches of the first output.
    pub fn drain_output_true(&mut self) -> (out: Vec<(T, Vec<D>)>)
        ensures
            batches(out@) == old(self)@.output_true,
            final(self)@ == (BranchView { output_true: Seq::empty(), ..old(self)@ }),
            final(self).label() == old(self).label(),
            final(self).place() == old(self).place(),
            final(self).rule() == old(self).rule(),
    {
        self.output_true.drain()
    }

    /// Hands out the batches of the second output.
    pub fn drain_output_false(&mut self) -> (out: Vec<(T, Vec<D>)>)
        ensures
            batches(out@) == old(self)@.output_false,
            final(self)@ == (BranchView { output_false: Seq::empty(), ..old(self)@ }),
            final(self).label() == old(self).label(),
            final(self).place() == old(self).place(),
            final(self).rule() == old(self).rule(),
    {
        self.output_false.drain()
    }

    /// Whether all input was processed and no more will come.
    pub fn is_done(&self) -> (b: bool)
        ensures
            b == self@.input.done(),
    {
        self.input.is_done()
    }

    /// The operator with its name and place, for diagnostics.
    pub fn to_text(&self) -> (text: String)
        ensures
            text@ == "BranchOperator { name: \""@ + self.label() + "\", index: "@ + decimal(
                self.place().0 as nat,
            ) + ", region_id: "@ + decimal(self.place().1.0 as nat) + " }"@,
    {
        let mut text = "BranchOperator { name: \"".to_owned();
        text.append(self.name.as_str());
        text.append("\", index: ");
        push_usize(&mut text, self.index);
        text.append(", region_id: ");
        push_usize(&mut text, self.region_id.0);
        text.append(" }");
        text
    }
}

impl<T: Timestamp, D, P: FnMut(&D) -> bool> BranchOperator<T, D, P> {
    /// Routes all pending batches. Of each batch, the records that the predicate accepts go to the
    /// first output and the others to the second; an output that would get none of them gets no
    /// batch. Returns the number of batches.
    pub fn activate(&mut self) -> (r: Result<usize>)
        requires
            asks_all(old(self).rule(), old(self)@.input.pending),
        ensures
            r == Ok::<usize, Error>(old(self)@.input.pending.len() as usize),
            final(self).label() == old(self).label(),
            final(self).place() == old(self).place(),
            final(self).rule() == old(self).rule(),
            final(self)@.input == (InputView { pending: Seq::empty(), ..old(self)@.input }),
            exists|answers: Seq<Seq<bool>>| #[trigger]
                answers_all(old(self).rule(), old(self)@.input.pending, answers)
                    && final(self)@.output_true == routed(
                    old(self)@.output_true,
                    old(self)@.input.pending,
                    answers,
                    true,
                ) && final(self)@.output_false == routed(
                    old(self)@.output_false,
                    old(self)@.input.pending,
                    answers,
                    false,
                ),
    {
        let total: usize = self.input.pending_count();
        let mut done: usize = 0;
        let ghost pending = self@.input.pending;
        let ghost first = self@.output_true;
        let ghost second = self@.output_false;
        let ghost rule = self.rule();
        let ghost mut answers: Seq<Seq<bool>> = Seq::empty();
        assert(pending.take(0) =~= Seq::empty());
        assert(pending.skip(0) =~= pending);
        while done < total
            invariant
                total == pending.len(),
                done <= total,
                self.predicate == rule,
                asks_all(rule, pending),
                self.label() == old(self).label(),
                self.place() == old(self).place(),
                self@.input.exhausted == old(self)@.input.exhausted,
                self@.input.pending == pending.skip(done as int),
                answers_all(rule, pending.take(done as int), answers),
                self@.output_true == routed(first, pending.take(done as int), answers, true),
                self@.output_false == routed(second, pending.take(done as int), answers, false),
            decreases total - done,
        {
            match self.input.next() {
                Some((time, data)) => {
                    let ghost records = data@;
                    let mut yes = self.output_true.session(time.duplicate());
                    let mut no = self.output_false.session(time);
                    let ghost mut given: Seq<bool> = Seq::empty();
                    assert(records.take(0) =~= Seq::empty());
                    assert(records == pending[done as int].1);
                    for item in it: data
                        invariant
                            it.seq() == records,
                            self.predicate == rule,
                            self.label() == old(self).label(),
                            self.place() == old(self).place(),
                            self@.input.exhausted == old(self)@.input.exhausted,
                            self@.input.pending == pending.skip(done + 1),
                            self@.output_true == routed(
                                first,
                                pending.take(done as int),
                                answers,
                                true,
                            ),
                            self@.output_false == routed(
                                second,
                                pending.take(done as int),
                                answers,
                                false,
                            ),
                            forall|i: int|
                                0 <= i < records.len() ==> call_requires(
                                    rule,
                                    (&#[trigger] records[i],),
                                ),
                            yes.time == time,
                            no.time == time,
                            answers_batch(rule, records.take(it.index() as int), given),
                            yes.data@ == select(records.take(it.index() as int), given, true),
                            no.data@ == select(records.take(it.index() as int), given, false),
                    {
                        let ghost k = it.index() as int;
                        assert(item == records[k]);
                        let answer = (self.predicate)(&item);
                        proof {
                            let before = given;
                            given = given.push(answer);
                            assert(records.take(k + 1).drop_last() =~= records.take(k));
                            lemma_select_extends(records.take(k), before, answer, true);
                            lemma_select_extends(records.take(k), before, answer, false);
                            assert(answers_batch(rule, records.take(k + 1), given)) by {
                                assert forall|i: int| 0 <= i < k + 1 implies call_ensures(
                                    rule,
                                    (&records.take(k + 1)[i],),
                                    #[trigger] given[i],
                                ) by {
                                    if i < k {
                                        assert(given[i] == before[i]);
                                        assert(records.take(k + 1)[i] == records.take(k)[i]);
                                    }
                                }
                            }
                        }
                        if answer {
                            yes.give(item);
                        } else {
                            no.give(item);
                        }
                    }
                    assert(records.take(records.len() as int) =~= records);
                    yes.finish(&mut self.output_true);
                    no.finish(&mut self.output_false);
                    proof {
                        let before = answers;
                        let d = done as int;
                        answers = answers.push(given);
                        assert(pending.take(d + 1).drop_last() =~= pending.take(d));
                        assert(pending.take(d + 1).last() == pending[d]);
                        lemma_routed_extends(first, pending.take(d), before, given, true);
                        lemma_routed_extends(second, pending.take(d), before, given, false);
                        assert forall|i: int| 0 <= i < d + 1 implies answers_batch(
                            rule,
                            pending.take(d + 1)[i].1,
                            #[trigger] answers[i],
                        ) by {
                            if i < d {
                                assert(answers[i] == before[i]);
                                assert(pending.take(d + 1)[i] == pending.take(d)[i]);
                            }
                        }
                    }
                },
                None => {},
            }
            done = done + 1;
        }
        assert(pending.take(done as int) =~= pending);
        assert(self@.input.pending =~= Seq::empty());
        Ok(done)
    }
}

proof fn lemma_select_extends<D>(data: Seq<D>, answers: Seq<bool>, more: bool, want: bool)
    requires
        answers.len() >= data.len(),
    ensures
        select(data, answers.push(more), want) == select(data, answers, want),
    decreases data.len(),
{
    if data.len() > 0 {
        lemma_select_extends(data.drop_last(), answers, more, want);
    }
}

proof fn lemma_routed_extends<T, D>(
    buffered: Seq<(T, Seq<D>)>,
    input: Seq<(T, Seq<D>)>,
    answers: Seq<Seq<bool>>,
    more: Seq<bool>,
    want: bool,
)
    requires
        answers.len() >= input.len(),
    ensures
        routed(buffered, input, answers.push(more), want) == routed(buffered, input, answers, want),
    decreases input.len(),
{
    if input.len() > 0 {
        lemma_routed_extends(buffered, input.drop_last(), answers, more, want);
    }
}

/// Each record of a batch goes to exactly one of the two outputs.
pub proof fn branch_partitions<D>(data: Seq<D>, answers: Seq<bool>)
    requires
        answers.len() == data.len(),
    ensures
        select(data, answers, true).len() + select(data, answers, false).len() == data.len(),
        select(data, answers, true).to_multiset().add(select(data, answers, false).to_multiset())
            == data.to_multiset(),
    decreases data.len(),
{
    broadcast use vstd::seq_lib::group_to_multiset_ensures;

    if data.len() > 0 {
        let rest = data.drop_last();
        let fewer = answers.drop_last();
        branch_partitions(rest, fewer);
        assert(fewer.push(answers.last()) =~= answers);
        lemma_select_extends(rest, fewer, answers.last(), true);
        lemma_select_extends(rest, fewer, answers.last(), false);
        assert(rest.push(data.last()) =~= data);
        assert(select(data, answers, true).to_multiset().add(
            select(data, answers, false).to_multiset(),
        ) =~= data.to_multiset());
    } else {
        assert(select(data, answers, true).to_multiset().add(
            select(data, answers, false).to_multiset(),
        ) =~= data.to_multiset());
    }
}

/// The values of the successful results, in order.
pub open spec fn successes<O, E>(results: Seq<core::result::Result<O, E>>) -> Seq<O>
    decreases results.len(),
{
    if results.len() == 0 {
        Seq::empty()
    } else {
        let rest = successes(results.drop_last());
        match results.last() {
            Ok(v) => rest.push(v),
            Err(_) => rest,
        }
    }
}

/// The values of the failed results, in order.
pub open spec fn failures<O, E>(results: Seq<core::result::Result<O, E>>) -> Seq<E>
    decreases results.len(),
{
    if results.len() == 0 {
        Seq::empty()
    } else {
        let rest = failures(results.drop_last());
        match results.last() {
            Ok(_) => rest,
            Err(v) => rest.push(v),
        }
    }
}

/// Batch after batch, the successes, after what was buffered already.
pub open spec fn routed_successes<T, D, O, E>(
    buffered: Seq<(T, Seq<O>)>,
    input: Seq<(T, Seq<D>)>,
    results: Seq<Seq<core::result::Result<O, E>>>,
) -> Seq<(T, Seq<O>)>
    decreases input.len(),
{
    if input.len() == 0 {
        buffered
    } else {
        with_batch(
            routed_successes(buffered, input.drop_last(), results),
            input.last().0,
            successes(results[input.len() - 1]),
        )
    }
}

/// Batch after batch, the failures, after what was buffered already.
pub open spec fn routed_failures<T, D, O, E>(
    buffered: Seq<(T, Seq<E>)>,
    input: Seq<(T, Seq<D>)>,
    results: Seq<Seq<core::result::Result<O, E>>>,
) -> Seq<(T, Seq<E>)>
    decreases input.len(),
{
    if input.len() == 0 {
        buffered
    } else {
        with_batch(
            routed_failures(buffered, input.drop_last(), results),
            input.last().0,
            failures(results[input.len() - 1]),
        )
    }
}

/// `results` are possible results of the splitter on the records of a batch.
pub open spec fn splits_batch<D, O, E, F: FnMut(D) -> core::result::Result<O, E>>(
    splitter: F,
    data: Seq<D>,
    results: Seq<core::result::Result<O, E>>,
) -> bool {
    &&& results.len() == data.len()
    &&& forall|i: int|
        0 <= i < data.len() ==> call_ensures(splitter, (data[i],), #[trigger] results[i])
}

/// `results` are possible results of the splitter on the records of all batches.
pub open spec fn splits_all<T, D, O, E, F: FnMut(D) -> core::result::Result<O, E>>(
    splitter: F,
    input: Seq<(T, Seq<D>)>,
    results: Seq<Seq<core::result::Result<O, E>>>,
) -> bool {
    &&& results.len() == input.len()
    &&& forall|i: int|
        0 <= i < input.len() ==> splits_batch(splitter, input[i].1, #[trigger] results[i])
}

/// What a result-splitting operator holds.
pub struct OkErrView<T, D, O, E> {
    pub input: InputView<T, D>,
    /// Batches of successes.
    pub output_ok: Seq<(T, Seq<O>)>,
    /// Batches of failures.
    pub output_err: Seq<(T, Seq<E>)>,
}

/// Turns each record into a result and routes successes and failures to different outputs.
#[verifier::reject_recursive_types(D)]
#[verifier::reject_recursive_types(O)]
#[verifier::reject_recursive_types(E)]
pub struct OkErrOperator<T, D, O, E, F> {
    name: String,
    index: usize,
    region_id: RegionId,
    input: InputHandle<T, D>,
    output_ok: OutputHandle<T, O>,
    output_err: OutputHandle<T, E>,
    splitter: F,
}

impl<T, D, O, E, F> View for OkErrOperator<T, D, O, E, F> {
    type V = OkErrView<T, D, O, E>;

    closed spec fn view(&self) -> OkErrView<T, D, O, E> {
        OkErrView {
            input: self.input@,
            output_ok: self.output_ok@,
            output_err: self.output_err@,
        }
    }
}

impl<T, D, O, E, F> OkErrOperator<T, D, O, E, F> {
    /// The name of the operator.
    pub closed spec fn label(&self) -> Seq<char> {
        self.name@
    }

    /// The index and the region of the operator.
    pub closed spec fn place(&self) -> (usize, RegionId) {
        (self.index, self.region_id)
    }

    /// The splitter of the operator.
    pub closed spec fn rule(&self) -> F {
        self.splitter
    }

    /// An operator without batches.
    pub fn new(name: &str, index: usize, region_id: RegionId, splitter: F) -> (op: Self)
        ensures
            op.label() == name@,
            op.place() == (index, region_id),
            op.rule() == splitter,
            op@.input == (InputView { pending: Seq::<(T, Seq<D>)>::empty(), exhausted: false }),
            op@.output_ok == Seq::<(T, Seq<O>)>::empty(),
            op@.output_err == Seq::<(T, Seq<E>)>::empty(),
    {
        OkErrOperator {
            input: InputHandle::new(joined(name, ":input")),
            output_ok: OutputHandle::new(joined(name, ":ok")),
            output_err: OutputHandle::new(joined(name, ":err")),
            name: name.to_owned(),
            index,
            region_id,
            splitter,
        }
    }

    /// The name of the operator.
    pub fn name(&self) -> (name: &str)
        ensures
            name@ == self.label(),
    {
        self.name.as_str()
    }

    /// The index of the operator.
    pub fn index(&self) -> (index: usize)
        ensures
            index == self.place().0,
    {
        self.index
    }

    /// The region of the operator.
    pub fn region_id(&self) -> (region_id: RegionId)
        ensures
            region_id == self.place().1,
    {
        self.region_id
    }

    /// The input of the operator.
    pub fn input_mut(&mut self) -> (input: &mut InputHandle<T, D>)
        ensures
            input@ == old(self)@.input,
            final(self)@ == (OkErrView { input: final(input)@, ..old(self)@ }),
            final(self).label() == old(self).label(),
            final(self).place() == old(self).place(),
            final(self).rule() == old(self).rule(),
    {
        &mut self.input
    }

    /// Hands out the batches of successes.
    pub fn drain_output_ok(&mut self) -> (out: Vec<(T, Vec<O>)>)
        ensures
            batches(out@) == old(self)@.output_ok,
            final(self)@ == (OkErrView { output_ok: Seq::empty(), ..old(self)@ }),
            final(self).label() == old(self).label(),
            final(self).place() == old(self).place(),
            final(self).rule() == old(self).rule(),
    {
        self.output_ok.drain()
    }

    /// Hands out the batches of failures.
    pub fn drain_output_err(&mut self) -> (out: Vec<(T, Vec<E>)>)
        ensures
            batches(out@) == old(self)@.output_err,
            final(self)@ == (OkErrView { output_err: Seq::empty(), ..old(self)@ }),
            final(self).label() == old(self).label(),
            final(self).place() == old(self).place(),
            final(self).rule() == old(self).rule(),
    {
        self.output_err.drain()
    }

    /// Whether all input was processed and no more will come.
    pub fn is_done(&self) -> (b: bool)
        ensures
            b == self@.input.done(),
    {
        self.input.is_done()
    }

    /// The operator with its name and place, for diagnostics.
    pub fn to_text(&self) -> (text: String)
        ensures
            text@ == "OkErrOperator { name: \""@ + self.label() + "\", index: "@ + decimal(
                self.place().0 as nat,
            ) + ", region_id: "@ + decimal(self.place().1.0 as nat) + " }"@,
    {
        let mut text = "OkErrOperator { name: \"".to_owned();
        text.append(self.name.as_str());
        text.append("\", index: ");
        push_usize(&mut text, self.index);
        text.append(", region_id: ");
        push_usize(&mut text, self.region_id.0);
        text.append(" }");
        text
    }
}

impl<
    T: Timestamp,
    D,
    O,
    E,
    F: FnMut(D) -> core::result::Result<O, E>,
> OkErrOperator<T, D, O, E, F> {
    /// Splits all pending batches. Of each batch, the successes go to the first output and the
    /// failures to the second; an output that would get none of them gets no batch. Returns the
    /// number of batches.
    pub fn activate(&mut self) -> (r: Result<usize>)
        requires
            splittable(old(self).rule(), old(self)@.input.pending),
        ensures
            r == Ok::<usize, Error>(old(self)@.input.pending.len() as usize),
            final(self).label() == old(self).label(),
            final(self).place() == old(self).place(),
            final(self).rule() == old(self).rule(),
            final(self)@.input == (InputView { pending: Seq::empty(), ..old(self)@.input }),
            exists|results: Seq<Seq<core::result::Result<O, E>>>| #[trigger]
                splits_all(old(self).rule(), old(self)@.input.pending, results)
                    && final(self)@.output_ok == routed_successes(
                    old(self)@.output_ok,
                    old(self)@.input.pending,
                    results,
                ) && final(self)@.output_err == routed_failures(
                    old(self)@.output_err,
                    old(self)@.input.pending,
                    results,
                ),
    {
        let total: usize = self.input.pending_count();
        let mut done: usize = 0;
        let ghost pending = self@.input.pending;
        let ghost first = self@.output_ok;
        let ghost second = self@.output_err;
        let ghost rule = self.rule();
        let ghost mut results: Seq<Seq<core::result::Result<O, E>>> = Seq::empty();
        assert(pending.take(0) =~= Seq::empty());
        assert(pending.skip(0) =~= pending);
        while done < total
            invariant
                total == pending.len(),
                done <= total,
                self.splitter == rule,
                splittable(rule, pending),
                self.label() == old(self).label(),
                self.place() == old(self).place(),
                self@.input.exhausted == old(self)@.input.exhausted,
                self@.input.pending == pending.skip(done as int),
                splits_all(rule, pending.take(done as int), results),
                self@.output_ok == routed_successes(first, pending.take(done as int), results),
                self@.output_err == routed_failures(second, pending.take(done as int), results),
            decreases total - done,
        {
            match self.input.next() {
                Some((time, data)) => {
                    let ghost records = data@;
                    let mut good = self.output_ok.session(time.duplicate());
                    let mut bad = self.output_err.session(time);
                    let ghost mut given: Seq<core::result::Result<O, E>> = Seq::empty();
                    assert(records.take(0) =~= Seq::empty());
                    assert(records == pending[done as int].1);
                    for item in it: data
                        invariant
                            it.seq() == records,
                            self.splitter == rule,
                            self.label() == old(self).label(),
                            self.place() == old(self).place(),
                            self@.input.exhausted == old(self)@.input.exhausted,
                            self@.input.pending == pending.skip(done + 1),
                            self@.output_ok == routed_successes(
                                first,
                                pending.take(done as int),
                                results,
                            ),
                            self@.output_err == routed_failures(
                                second,
                                pending.take(done as int),
                                results,
                            ),
                            forall|i: int|
                                0 <= i < records.len() ==> call_requires(
                                    rule,
                                    (#[trigger] records[i],),
                                ),
                            good.time == time,
                            bad.time == time,
                            splits_batch(rule, records.take(it.index() as int), given),
                            good.data@ == successes(given),
                            bad.data@ == failures(given),
                    {
                        let ghost k = it.index() as int;
                        let ghost record = item;
                        assert(item == records[k]);
                        let result = (self.splitter)(item);
                        proof {
                            let before = given;
                            given = given.push(result);
                            assert(given.drop_last() =~= before);
                            assert(splits_batch(rule, records.take(k + 1), given)) by {
                                assert forall|i: int| 0 <= i < k + 1 implies call_ensures(
                                    rule,
                                    (records.take(k + 1)[i],),
                                    #[trigger] given[i],
                                ) by {
                                    if i < k {
                                        assert(given[i] == before[i]);
                                        assert(records.take(k + 1)[i] == records.take(k)[i]);
                                    } else {
                                        assert(records.take(k + 1)[i] == record);
                                    }
                                }
                            }
                        }
                        match result {
                            Ok(v) => {
                                good.give(v);
                            },
                            Err(v) => {
                                bad.give(v);
                            },
                        }
                    }
                    assert(records.take(records.len() as int) =~= records);
                    good.finish(&mut self.output_ok);
                    bad.finish(&mut self.output_err);
                    proof {
                        let before = results;
                        let d = done as int;
                        results = results.push(given);
                        assert(pending.take(d + 1).drop_last() =~= pending.take(d));
                        assert(pending.take(d + 1).last() == pending[d]);
                        lemma_results_extend(first, second, pending.take(d), before, given);
                        assert forall|i: int| 0 <= i < d + 1 implies splits_batch(
                            rule,
                            pending.take(d + 1)[i].1,
                            #[trigger] results[i],
                        ) by {
                            if i < d {
                                assert(results[i] == before[i]);
                                assert(pending.take(d + 1)[i] == pending.take(d)[i]);
                            }
                        }
                    }
                },
                None => {},
            }
            done = done + 1;
        }
        assert(pending.take(done as int) =~= pending);
        assert(self@.input.pending =~= Seq::empty());
        Ok(done)
    }
}

proof fn lemma_results_extend<T, D, O, E>(
    first: Seq<(T, Seq<O>)>,
    second: Seq<(T, Seq<E>)>,
    input: Seq<(T, Seq<D>)>,
    results: Seq<Seq<core::result::Result<O, E>>>,
    more: Seq<core::result::Result<O, E>>,
)
    requires
        results.len() >= input.len(),
    ensures
        routed_successes(first, input, results.push(more)) == routed_successes(
            first,
            input,
            results,
        ),
        routed_failures(second, input, results.push(more)) == routed_failures(
            second,
            input,
            results,
        ),
    decreases input.len(),
{
    if input.len() > 0 {
        lemma_results_extend(first, second, input.drop_last(), results, more);
    }
}

/// Each result is either among the successes or among the failures.
pub proof fn results_are_partitioned<O, E>(results: Seq<core::result::Result<O, E>>)
    ensures
        successes(results).len() + failures(results).len() == results.len(),
    decreases results.len(),
{
    if results.len() > 0 {
        results_are_partitioned(results.drop_last());
    }
}

/// What registering a splitting operator behind a stream does to a scope.
pub open spec fn is_split_off(
    before: ScopeView,
    after: ScopeView,
    name: Seq<char>,
    stream: StreamView,
) -> bool {
    exists|info: OperatorInfo|
        info.name@ == name && info.index == before.next_index && info.region_id == stream.stage_id
            && info.input_count == 1 && info.output_count == 2 && #[trigger] with_operator(
            before,
            info,
        ).next_index == after.next_index && after == with_edge(
            with_operator(before, info),
            pipeline_edge(
                stream.source,
                Slot { operator_index: info.index, slot_index: 0 },
                stream.stage_id,
                stream.stage_id,
            ),
        )
}

/// Registers a splitting operator behind a stream and returns its two outputs.
fn split_off<T, D, O, E>(
    stream: &DataStream<D>,
    scope: &mut Scope<T>,
    name: &str,
) -> (out: (DataStream<O>, DataStream<E>))
    requires
        old(scope)@.next_index < usize::MAX,
        old(scope)@.fresh_above(),
    ensures
        is_split_off(old(scope)@, final(scope)@, name@, stream@),
        out.0@ == (StreamView {
            scope_name: old(scope)@.name,
            source: Slot { operator_index: old(scope)@.next_index as usize, slot_index: 0 },
            stage_id: stream@.stage_id,
        }),
        out.1@ == (StreamView {
            scope_name: old(scope)@.name,
            source: Slot { operator_index: old(scope)@.next_index as usize, slot_index: 1 },
            stage_id: stream@.stage_id,
        }),
{
    let op_index: usize = scope.allocate_operator_index();
    let region_id = stream.region_id();
    let info = OperatorInfo::new(op_index, name, region_id, 1, 2);
    let ghost registered = info;
    let _ = scope.register_operator(info);
    scope.add_edge(
        EdgeInfo::new(stream.source(), Slot::new(op_index, 0), stream.region_id(), region_id),
    );
    assert(with_operator(old(scope)@, registered).next_index == scope@.next_index);
    (
        StreamEdge::new(scope.name(), Slot::new(op_index, 0), region_id),
        StreamEdge::new(scope.name(), Slot::new(op_index, 1), region_id),
    )
}

/// Splitting a stream by a predicate.
pub trait BranchExt<T, D>: Sized {
    /// What is known of the stream.
    spec fn stream(&self) -> StreamView;

    /// Registers a branch operator behind this stream. The first stream that is returned carries
    /// the records that the predicate accepts, the second one the others.
    fn branch<P: FnMut(&D) -> bool>(&self, scope: &mut Scope<T>, predicate: P) -> (out: (
        DataStream<D>,
        DataStream<D>,
    ))
        requires
            old(scope)@.next_index < usize::MAX,
            old(scope)@.fresh_above(),
        ensures
            is_split_off(old(scope)@, final(scope)@, "branch"@, self.stream()),
            out.0@ == (StreamView {
                scope_name: old(scope)@.name,
                source: Slot { operator_index: old(scope)@.next_index as usize, slot_index: 0 },
                stage_id: self.stream().stage_id,
            }),
            out.1@ == (StreamView {
                scope_name: old(scope)@.name,
                source: Slot { operator_index: old(scope)@.next_index as usize, slot_index: 1 },
                stage_id: self.stream().stage_id,
            }),
    ;
}

impl<T, D> BranchExt<T, D> for StreamEdge<D> {
    open spec fn stream(&self) -> StreamView {
        self@
    }

    fn branch<P: FnMut(&D) -> bool>(&self, scope: &mut Scope<T>, predicate: P) -> (out: (
        DataStream<D>,
        DataStream<D>,
    )) {
        split_off(self, scope, "branch")
    }
}

/// Splitting a stream by the results of a function.
pub trait OkErrExt<T, D>: Sized {
    /// What is known of the stream.
    spec fn stream(&self) -> StreamView;

    /// Registers a result-splitting operator behind this stream. The first stream that is returned
    /// carries the successes, the second one the failures.
    fn ok_err<O, E, F: FnMut(D) -> core::result::Result<O, E>>(
        &self,
        scope: &mut Scope<T>,
        splitter: F,
    ) -> (out: (DataStream<O>, DataStream<E>))
        requires
            old(scope)@.next_index < usize::MAX,
            old(scope)@.fresh_above(),
        ensures
            is_split_off(old(scope)@, final(scope)@, "ok_err"@, self.stream()),
            out.0@ == (StreamView {
                scope_name: old(scope)@.name,
                source: Slot { operator_index: old(scope)@.next_index as usize, slot_index: 0 },
                stage_id: self.stream().stage_id,
            }),
            out.1@ == (StreamView {
                scope_name: old(scope)@.name,
                source: Slot { operator_index: old(scope)@.next_index as usize, slot_index: 1 },
                stage_id: self.stream().stage_id,
            }),
    ;
}

impl<T, D> OkErrExt<T, D> for StreamEdge<D> {
    open spec fn stream(&self) -> StreamView {
        self@
    }

    fn ok_err<O, E, F: FnMut(D) -> core::result::Result<O, E>>(
        &self,
        scope: &mut Scope<T>,
        splitter: F,
    ) -> (out: (DataStream<O>, DataStream<E>)) {
        split_off(self, scope, "ok_err")
    }
}

} // verus!
