//! How records are distributed over the workers of a stage.

use core::marker::PhantomData;
use vstd::prelude::*;

verus! {

/// Keys by which records are distributed. Records with equal keys stay together.
pub trait PartitionKey: Sized {
    /// The number of the key.
    spec fn number(&self) -> u64;

    /// The number of the key.
    fn to_number(&self) -> (n: u64)
        ensures
            n == self.number(),
    ;
}

impl PartitionKey for u64 {
    open spec fn number(&self) -> u64 {
        *self
    }

    fn to_number(&self) -> (n: u64) {
        *self
    }
}

impl PartitionKey for u32 {
    open spec fn number(&self) -> u64 {
        *self as u64
    }

    fn to_number(&self) -> (n: u64) {
        *self as u64
    }
}

impl PartitionKey for i32 {
    open spec fn number(&self) -> u64 {
        (*self as u32) as u64
    }

    fn to_number(&self) -> (n: u64) {
        (*self as u32) as u64
    }
}

impl PartitionKey for usize {
    open spec fn number(&self) -> u64 {
        *self as u64
    }

    fn to_number(&self) -> (n: u64) {
        *self as u64
    }
}

impl PartitionKey for u8 {
    open spec fn number(&self) -> u64 {
        *self as u64
    }

    fn to_number(&self) -> (n: u64) {
        *self as u64
    }
}

impl PartitionKey for u16 {
    open spec fn number(&self) -> u64 {
        *self as u64
    }

    fn to_number(&self) -> (n: u64) {
        *self as u64
    }
}

impl PartitionKey for i8 {
    open spec fn number(&self) -> u64 {
        (*self as u8) as u64
    }

    fn to_number(&self) -> (n: u64) {
        (*self as u8) as u64
    }
}

impl PartitionKey for i16 {
    open spec fn number(&self) -> u64 {
        (*self as u16) as u64
    }

    fn to_number(&self) -> (n: u64) {
        (*self as u16) as u64
    }
}

impl PartitionKey for i64 {
    open spec fn number(&self) -> u64 {
        (*self as u64) as u64
    }

    fn to_number(&self) -> (n: u64) {
        (*self as u64) as u64
    }
}

impl PartitionKey for bool {
    open spec fn number(&self) -> u64 {
        if *self {
            1
        } else {
            0
        }
    }

    fn to_number(&self) -> (n: u64) {
        if *self {
            1
        } else {
            0
        }
    }
}

impl PartitionKey for char {
    open spec fn number(&self) -> u64 {
        *self as u64
    }

    fn to_number(&self) -> (n: u64) {
        *self as u64
    }
}

/// Two numbers made into one.
pub open spec fn mixed(a: u64, b: u64) -> u64 {
    ((a * 31 + b) % 0x1_0000_0000_0000_0000) as u64
}

/// Makes two numbers into one.
fn mix(a: u64, b: u64) -> (n: u64)
    ensures
        n == mixed(a, b),
{
    let sum: u128 = (a as u128) * 31 + (b as u128);
    (sum % 0x1_0000_0000_0000_0000) as u64
}

/// The number of a text: its characters, mixed one after the other.
pub open spec fn text_number(text: Seq<char>) -> u64
    decreases text.len(),
{
    if text.len() == 0 {
        0
    } else {
        mixed(text_number(text.drop_last()), text.last() as u64)
    }
}

impl PartitionKey for String {
    open spec fn number(&self) -> u64 {
        text_number(self@)
    }

    fn to_number(&self) -> (n: u64) {
        let text = self.as_str();
        let len: usize = text.unicode_len();
        let mut n: u64 = 0;
        let mut i: usize = 0;
        assert(text@.take(0) =~= Seq::<char>::empty());
        while i < len
            invariant
                i <= len,
                len == text@.len(),
                n == text_number(text@.take(i as int)),
            decreases len - i,
        {
            let c = text.get_char(i);
            n = mix(n, c as u64);
            i = i + 1;
            proof {
                assert(text@.take(i as int).drop_last() =~= text@.take(i - 1));
            }
        }
        assert(text@.take(i as int) =~= text@);
        n
    }
}

impl<A: PartitionKey, B: PartitionKey> PartitionKey for (A, B) {
    open spec fn number(&self) -> u64 {
        mixed(self.0.number(), self.1.number())
    }

    fn to_number(&self) -> (n: u64) {
        mix(self.0.to_number(), self.1.to_number())
    }
}

/// Assigns a number to each record; records with equal numbers go to the same worker.
pub trait Route<D> {
    /// `h` is a possible number of `record`.
    spec fn assigns(&self, record: &D, h: u64) -> bool;

    /// Every record can be given a number.
    spec fn total(&self) -> bool;

    /// The number of a record.
    fn number_of(&self, record: &D) -> (h: u64)
        requires
            self.total(),
        ensures
            self.assigns(record, h),
    ;
}

/// Routing by a function from records to numbers.
pub struct ByHash<F> {
    pub hash_fn: F,
}

impl<D, F: Fn(&D) -> u64> Route<D> for ByHash<F> {
    open spec fn assigns(&self, record: &D, h: u64) -> bool {
        call_ensures(self.hash_fn, (record,), h)
    }

    open spec fn total(&self) -> bool {
        forall|r: D| call_requires(self.hash_fn, (&r,))
    }

    fn number_of(&self, record: &D) -> (h: u64) {
        (self.hash_fn)(record)
    }
}

/// `h` is the number of a possible key of `record`.
pub open spec fn keyed<D, K: PartitionKey, F: Fn(&D) -> K>(key_fn: F, record: &D, h: u64) -> bool {
    exists|k: K| #[trigger] call_ensures(key_fn, (record,), k) && h == k.number()
}

/// Routing by a function from records to keys.
pub struct ByKey<K, F> {
    pub key_fn: F,
    pub key: PhantomData<K>,
}

impl<D, K: PartitionKey, F: Fn(&D) -> K> Route<D> for ByKey<K, F> {
    open spec fn assigns(&self, record: &D, h: u64) -> bool {
        keyed::<D, K, F>(self.key_fn, record, h)
    }

    open spec fn total(&self) -> bool {
        forall|r: D| call_requires(self.key_fn, (&r,))
    }

    fn number_of(&self, record: &D) -> (h: u64) {
        let key = (self.key_fn)(record);
        key.to_number()
    }
}

/// A way to distribute records.
#[verifier::reject_recursive_types(D)]
pub enum PartitionStrategy<D> {
    /// To the worker that the number of the record selects.
    Exchange { name: String, route: Box<dyn Route<D>> },
    /// To every worker of the cluster.
    Broadcast,
    /// To every worker of the node.
    BroadcastLocal,
    /// To the first worker.
    Gather,
    /// To the workers in turn.
    Rebalance,
}

/// Where a record goes.
#[derive(Clone, Copy, Debug, PartialEq, Eq, Structural)]
pub enum Destination {
    /// To one worker.
    Worker(usize),
    /// To all workers.
    All,
}

impl<D> PartitionStrategy<D> {
    /// Records are distributed by the numbers that `hash_fn` gives them.
    pub open spec fn routes_by_hash<F: Fn(&D) -> u64>(self, name: Seq<char>, hash_fn: F) -> bool {
        self matches PartitionStrategy::Exchange { name: n, route } && n@ == name && route.total()
            && forall|r: D, h: u64| #[trigger]
            route.assigns(&r, h) <==> call_ensures(hash_fn, (&r,), h)
    }

    /// Records are distributed by the keys that `key_fn` gives them.
    pub open spec fn routes_by_key<K: PartitionKey, F: Fn(&D) -> K>(
        self,
        name: Seq<char>,
        key_fn: F,
    ) -> bool {
        self matches PartitionStrategy::Exchange { name: n, route } && n@ == name && route.total()
            && forall|r: D, h: u64| #[trigger]
            route.assigns(&r, h) <==> keyed::<D, K, F>(key_fn, &r, h)
    }

    /// Distribution by the numbers that `hash_fn` gives to the records.
    pub fn exchange<F: Fn(&D) -> u64 + 'static>(name: &str, hash_fn: F) -> (s: Self)
        requires
            forall|r: D| call_requires(hash_fn, (&r,)),
        ensures
            s.routes_by_hash(name@, hash_fn),
    {
        let route = ByHash { hash_fn };
        PartitionStrategy::Exchange { name: name.to_owned(), route: Box::new(route) }
    }

    /// Distribution by the keys that `key_fn` gives to the records.
    pub fn exchange_by_key<K: PartitionKey + 'static, F: Fn(&D) -> K + 'static>(
        name: &str,
        key_fn: F,
    ) -> (s: Self)
        requires
            forall|r: D| call_requires(key_fn, (&r,)),
        ensures
            s.routes_by_key::<K, F>(name@, key_fn),
    {
        let route: ByKey<K, F> = ByKey { key_fn, key: PhantomData };
        PartitionStrategy::Exchange { name: name.to_owned(), route: Box::new(route) }
    }

    /// The kind of distribution.
    pub fn name(&self) -> (name: &str)
        ensures
            name@ == strategy_name(*self),
    {
        match self {
            PartitionStrategy::Exchange { .. } => "Exchange",
            PartitionStrategy::Broadcast => "Broadcast",
            PartitionStrategy::BroadcastLocal => "BroadcastLocal",
            PartitionStrategy::Gather => "Gather",
            PartitionStrategy::Rebalance => "Rebalance",
        }
    }

    /// Where the `turn`-th record goes, if there are `peers` workers.
    pub fn destination(&self, record: &D, turn: u64, peers: usize) -> (to: Destination)
        requires
            peers > 0,
            self matches PartitionStrategy::Exchange { route, .. } ==> route.total(),
        ensures
            goes_to(*self, *record, turn, peers, to),
            to matches Destination::Worker(w) ==> w < peers,
    {
        match self {
            PartitionStrategy::Exchange { route, .. } => {
                let h: u64 = route.number_of(record);
                assert(0 <= h as int % peers as int <= usize::MAX);
                Destination::Worker((h % (peers as u64)) as usize)
            },
            PartitionStrategy::Broadcast => Destination::All,
            PartitionStrategy::BroadcastLocal => Destination::All,
            PartitionStrategy::Gather => Destination::Worker(0),
            PartitionStrategy::Rebalance => Destination::Worker((turn % (peers as u64)) as usize),
        }
    }
}

/// The `turn`-th record goes to `to`, if there are `peers` workers.
pub open spec fn goes_to<D>(
    s: PartitionStrategy<D>,
    record: D,
    turn: u64,
    peers: usize,
    to: Destination,
) -> bool {
    match s {
        PartitionStrategy::Exchange { route, .. } => exists|h: u64| #[trigger]
            route.assigns(&record, h) && to == Destination::Worker(
                (h as int % peers as int) as usize,
            ),
        PartitionStrategy::Broadcast | PartitionStrategy::BroadcastLocal => to == Destination::All,
        PartitionStrategy::Gather => to == Destination::Worker(0),
        PartitionStrategy::Rebalance => to == Destination::Worker(
            (turn as int % peers as int) as usize,
        ),
    }
}

/// Records to which a route gives the same number go to the same worker, whenever they come.
pub proof fn equal_numbers_meet<D>(
    s: PartitionStrategy<D>,
    a: D,
    b: D,
    turns: (u64, u64),
    peers: usize,
    to: (Destination, Destination),
)
    requires
        s matches PartitionStrategy::Exchange { route, .. } && forall|g: u64, h: u64|
            route.assigns(&a, g) && route.assigns(&b, h) ==> g == h,
        goes_to(s, a, turns.0, peers, to.0),
        goes_to(s, b, turns.1, peers, to.1),
    ensures
        to.0 == to.1,
{
}

/// Records with equal keys go to the same worker, whenever they come.
pub proof fn equal_keys_meet<D, K: PartitionKey, F: Fn(&D) -> K>(
    s: PartitionStrategy<D>,
    key_fn: F,
    a: D,
    b: D,
    turns: (u64, u64),
    peers: usize,
    to: (Destination, Destination),
)
    requires
        s matches PartitionStrategy::Exchange { route, .. } && forall|r: D, h: u64| #[trigger]
            route.assigns(&r, h) <==> keyed::<D, K, F>(key_fn, &r, h),
        forall|x: K, y: K|
            call_ensures(key_fn, (&a,), x) && call_ensures(key_fn, (&b,), y) ==> x == y,
        goes_to(s, a, turns.0, peers, to.0),
        goes_to(s, b, turns.1, peers, to.1),
    ensures
        to.0 == to.1,
{
}

/// The name of a kind of distribution.
pub open spec fn strategy_name<D>(s: PartitionStrategy<D>) -> Seq<char> {
    match s {
        PartitionStrategy::Exchange { .. } => "Exchange"@,
        PartitionStrategy::Broadcast => "Broadcast"@,
        PartitionStrategy::BroadcastLocal => "BroadcastLocal"@,
        PartitionStrategy::Gather => "Gather"@,
        PartitionStrategy::Rebalance => "Rebalance"@,
    }
}

} // verus!
