//! Where records go, and in what order complete times are told.

use vstd::prelude::*;
use crate::frontier::{covers, drain_step, drains_by, NotificatorView};
use crate::order::Timestamp;
use crate::partition::{
    goes_to, mixed, text_number, Destination, PartitionKey, PartitionStrategy, Route,
};

verus! {

/// A record that is distributed by its number goes to one of the workers, and which one depends on
/// nothing but the number and how many workers there are. There is no worker that gets none: the number
/// of a worker leads to it.
pub proof fn exchanges_use_all_workers<D>(
    s: PartitionStrategy<D>,
    record: D,
    turn: u64,
    peers: usize,
    to: Destination,
    w: usize,
)
    requires
        peers > 0,
        w < peers,
        s matches PartitionStrategy::Exchange { route, .. } && forall|h: u64| #[trigger]
            route.assigns(&record, h) ==> h as int % peers as int == w,
        goes_to(s, record, turn, peers, to),
    ensures
        to == Destination::Worker(w),
{
}

/// What is broadcast goes to all workers.
pub proof fn broadcasts_reach_everyone<D>(
    s: PartitionStrategy<D>,
    record: D,
    turn: u64,
    peers: usize,
    to: Destination,
)
    requires
        s is Broadcast || s is BroadcastLocal,
        goes_to(s, record, turn, peers, to),
    ensures
        to is All,
{
}

/// What is gathered meets at one worker, the first one.
pub proof fn gathered_records_meet<D>(
    s: PartitionStrategy<D>,
    a: D,
    b: D,
    turns: (u64, u64),
    peers: usize,
    to: (Destination, Destination),
)
    requires
        s is Gather,
        goes_to(s, a, turns.0, peers, to.0),
        goes_to(s, b, turns.1, peers, to.1),
    ensures
        to.0 == to.1,
        to.0 == Destination::Worker(0),
{
}

/// Records that are distributed in turn go to one worker after the other: those that come next to each
/// other go to neighbours, and after as many as there are workers it is the first one's turn again.
pub proof fn turns_go_round<D>(
    s: PartitionStrategy<D>,
    a: D,
    b: D,
    turn: u64,
    peers: usize,
    to: (Destination, Destination),
)
    requires
        s is Rebalance,
        peers > 0,
        turn < u64::MAX,
        goes_to(s, a, turn, peers, to.0),
        goes_to(s, b, (turn + 1) as u64, peers, to.1),
    ensures
        to.0 matches Destination::Worker(x) && x < peers && to.1 == Destination::Worker(
            if x + 1 < peers {
                (x + 1) as usize
            } else {
                0
            },
        ),
        turn == 0 ==> to.0 == Destination::Worker(0),
{
    let p = peers as int;
    let t = turn as int;
    assert((t + 1) % p == if t % p + 1 < p {
        t % p + 1
    } else {
        0
    }) by (nonlinear_arith)
        requires
            p > 0,
            t >= 0,
    ;
    assert(0 <= t % p < p) by (nonlinear_arith)
        requires
            p > 0,
    ;
    assert(0int % p == 0) by (nonlinear_arith)
        requires
            p > 0,
    ;
}

/// Different keys have different numbers.
pub proof fn numbers_tell_keys_apart(
    a: (u64, u64),
    b: (u32, u32),
    c: (i32, i32),
    d: (usize, usize),
    e: (u8, u8),
    f: (u16, u16),
)
    ensures
        a.0.number() == a.1.number() <==> a.0 == a.1,
        b.0.number() == b.1.number() <==> b.0 == b.1,
        c.0.number() == c.1.number() <==> c.0 == c.1,
        d.0.number() == d.1.number() <==> d.0 == d.1,
        e.0.number() == e.1.number() <==> e.0 == e.1,
        f.0.number() == f.1.number() <==> f.0 == f.1,
{
    let (x, y) = c;
    assert((x as u32) as u64 == (y as u32) as u64 <==> x == y) by (bit_vector);
}

/// Different keys have different numbers.
pub proof fn numbers_tell_more_keys_apart(
    a: (i8, i8),
    b: (i16, i16),
    c: (i64, i64),
    d: (bool, bool),
    x: char,
    y: char,
)
    ensures
        a.0.number() == a.1.number() <==> a.0 == a.1,
        b.0.number() == b.1.number() <==> b.0 == b.1,
        c.0.number() == c.1.number() <==> c.0 == c.1,
        d.0.number() == d.1.number() <==> d.0 == d.1,
        x.number() == y.number() <==> x == y,
{
    let (p, q) = a;
    assert((p as u8) as u64 == (q as u8) as u64 <==> p == q) by (bit_vector);
    let (r, s) = b;
    assert((r as u16) as u64 == (s as u16) as u64 <==> r == s) by (bit_vector);
    let (v, w) = c;
    assert((v as u64) as u64 == (w as u64) as u64 <==> v == w) by (bit_vector);
}

proof fn lemma_mixed_second(a: u64, x: u64, y: u64)
    ensures
        mixed(a, x) == mixed(a, y) <==> x == y,
{
    let m: int = 0x1_0000_0000_0000_0000;
    let p = a * 31 + x;
    let q = a * 31 + y;
    if p % m == q % m {
        vstd::arithmetic::div_mod::lemma_fundamental_div_mod(p, m);
        vstd::arithmetic::div_mod::lemma_fundamental_div_mod(q, m);
        assert(p - q == m * (p / m - q / m)) by (nonlinear_arith)
            requires
                p == m * (p / m) + p % m,
                q == m * (q / m) + q % m,
                p % m == q % m,
        ;
        assert(-m < p - q < m);
        let d = p / m - q / m;
        assert(d == 0) by (nonlinear_arith)
            requires
                -m < m * d < m,
                m > 0,
        ;
    }
    assert(0 <= p % m < m && 0 <= q % m < m);
}

/// The number of a text depends on its characters, and that of a pair on both parts: another last
/// character, or another second part, makes for another number.
pub proof fn numbers_tell_texts_and_pairs_apart<A: PartitionKey, B: PartitionKey>(
    text: Seq<char>,
    x: char,
    y: char,
    a: A,
    b: B,
    c: B,
)
    ensures
        text_number(text.push(x)) == text_number(text.push(y)) <==> x == y,
        (a, b).number() == (a, c).number() <==> b.number() == c.number(),
{
    assert(text.push(x).drop_last() =~= text);
    assert(text.push(y).drop_last() =~= text);
    lemma_mixed_second(text_number(text), x as u64, y as u64);
    lemma_mixed_second(a.number(), b.number(), c.number());
}

proof fn lemma_drained<T: Timestamp>(states: Seq<NotificatorView<T>>, times: Seq<T>, k: int, l: int)
    requires
        drains_by(states, times),
        0 <= k <= l <= times.len(),
    ensures
        states[l].frontier == states[k].frontier,
        forall|x: T| #[trigger] states[l].pending.contains(x) ==> states[k].pending.contains(x),
        states[l].pending.len() + (l - k) == states[k].pending.len(),
    decreases l - k,
{
    if k < l {
        lemma_drained(states, times, k, l - 1);
        assert(drain_step(states, times, l - 1));
        let a = states[l - 1];
        let i = choose|i: int| #[trigger]
            a.is_next(i) && times[l - 1] == a.pending[i] && states[l - 1 + 1] == (
            NotificatorView { pending: a.pending.remove(i), ..a });
        assert forall|x: T| #[trigger] states[l].pending.contains(
            x,
        ) implies states[k].pending.contains(x) by {
            let b = states[l].pending;
            let j = choose|j: int| 0 <= j < b.len() && b[j] == x;
            if j < i {
                assert(a.pending[j] == x);
            } else {
                assert(a.pending[j + 1] == x);
            }
            assert(a.pending.contains(x));
        }
    }
}

/// Complete times are told in order: none comes before one that is told earlier. Only times are told
/// that were asked for and that the frontier has passed.
pub proof fn complete_times_are_told_in_order<T: Timestamp>(
    states: Seq<NotificatorView<T>>,
    times: Seq<T>,
    k: int,
    l: int,
)
    requires
        drains_by(states, times),
        0 <= k < l < times.len(),
    ensures
        times[l].le(&times[k]) ==> times[l] == times[k],
        states[0].pending.contains(times[k]),
        forall|j: int|
            0 <= j < states[0].frontier.len() ==> !(#[trigger] states[0].frontier[j]).le(&times[k]),
{
    assert(drain_step(states, times, k));
    let a = states[k];
    let i = choose|i: int| #[trigger]
        a.is_next(i) && times[k] == a.pending[i] && states[k + 1] == (NotificatorView {
            pending: a.pending.remove(i),
            ..a
        });
    lemma_drained(states, times, 0, k);
    lemma_drained(states, times, k, l);
    assert(a.pending.contains(times[k]));
    assert(drain_step(states, times, l));
    let b = states[l];
    let m = choose|m: int| #[trigger]
        b.is_next(m) && times[l] == b.pending[m] && states[l + 1] == (NotificatorView {
            pending: b.pending.remove(m),
            ..b
        });
    assert(b.pending.contains(times[l]));
    let n = choose|n: int| 0 <= n < a.pending.len() && a.pending[n] == times[l];
    assert(!covers(a.frontier, a.pending[n]));
    assert forall|j: int| 0 <= j < states[0].frontier.len() implies !(
    #[trigger] states[0].frontier[j]).le(&times[k]) by {
        assert(!covers(a.frontier, a.pending[i]));
        assert(a.frontier[j] == states[0].frontier[j]);
    }
}

/// Something is ready to be told just if a time that was asked for is not at or after any time of the
/// frontier. Once nothing is ready, all that is still asked for can still come.
pub proof fn nothing_complete_is_kept_back<T: Timestamp>(v: NotificatorView<T>, i: int)
    requires
        0 <= i < v.pending.len(),
    ensures
        (forall|j: int| 0 <= j < v.frontier.len() ==> !(#[trigger] v.frontier[j]).le(&v.pending[i]))
            ==> v.ready(),
        !v.ready() ==> exists|j: int|
            0 <= j < v.frontier.len() && (#[trigger] v.frontier[j]).le(&v.pending[i]),
{
    if !covers(v.frontier, v.pending[i]) {
        assert(v.ready());
    }
}

} // verus!
