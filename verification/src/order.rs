//! Logical time: partially ordered timestamps, the summaries that advance them, and their products.

use vstd::prelude::*;

verus! {

/// Values with a partial order.
pub trait PartialOrder: Sized {
    /// The order as a relation.
    spec fn le(&self, other: &Self) -> bool;

    /// Whether `self` comes no later than `other`.
    fn less_equal(&self, other: &Self) -> (b: bool)
        ensures
            b == self.le(other),
    ;

    /// Every value is below itself.
    proof fn le_reflexive(&self)
        ensures
            self.le(self),
    ;

    /// The order is transitive.
    proof fn le_transitive(&self, middle: &Self, other: &Self)
        requires
            self.le(middle),
            middle.le(other),
        ensures
            self.le(other),
    ;

    /// Two values that are below each other are the same.
    proof fn le_antisymmetric(&self, other: &Self)
        requires
            self.le(other),
            other.le(self),
        ensures
            *self == *other,
    ;
}

/// Points of logical time: partially ordered values with a least one, which can be duplicated.
pub trait Timestamp: PartialOrder {
    /// What describes an advance of this time.
    type Summary: PathSummary<Self>;

    /// The least timestamp.
    spec fn least() -> Self;

    /// The least timestamp.
    fn minimum() -> (t: Self)
        ensures
            t == Self::least(),
    ;

    /// The same timestamp once more.
    fn duplicate(&self) -> (t: Self)
        ensures
            t == *self,
    ;

    /// Nothing comes before the least timestamp.
    proof fn least_is_below(&self)
        ensures
            Self::least().le(self),
    ;

    /// The timestamp is earlier, in an order in which any two timestamps can be compared.
    spec fn earlier(&self, other: &Self) -> bool;

    /// Whether the timestamp is earlier, in an order in which any two timestamps can be compared.
    fn is_earlier(&self, other: &Self) -> (b: bool)
        ensures
            b == self.earlier(other),
    ;

    /// Of two timestamps in order, the second is not earlier.
    proof fn order_is_kept(&self, other: &Self)
        requires
            self.le(other),
        ensures
            !other.earlier(self),
    ;

    /// Of two different timestamps, exactly one is earlier.
    proof fn one_is_earlier(&self, other: &Self)
        ensures
            *self == *other <==> !self.earlier(other) && !other.earlier(self),
            !(self.earlier(other) && other.earlier(self)),
    ;
}

/// How a timestamp advances along a path.
pub trait PathSummary<T: PartialOrder>: Sized {
    /// The timestamp that results from `time`, if there is one.
    spec fn result(&self, time: &T) -> Option<T>;

    /// The summary that leaves timestamps as they are.
    spec fn identity() -> Self;

    /// The timestamp that results from `time`, if there is one.
    fn results_in(&self, time: &T) -> (r: Option<T>)
        ensures
            r == self.result(time),
    ;

    /// The summary that leaves timestamps as they are.
    fn unchanged() -> (s: Self)
        ensures
            s == Self::identity(),
    ;

    /// The same summary once more.
    fn duplicate(&self) -> (s: Self)
        ensures
            s == *self,
    ;

    /// A path never leads back in time.
    proof fn result_is_later(&self, time: &T)
        ensures
            self.result(time) matches Some(t) ==> time.le(&t),
    ;

    /// The identity changes nothing.
    proof fn identity_keeps(time: &T)
        ensures
            Self::identity().result(time) == Some(*time),
    ;
}

impl PartialOrder for u64 {
    open spec fn le(&self, other: &Self) -> bool {
        *self <= *other
    }

    fn less_equal(&self, other: &Self) -> (b: bool) {
        *self <= *other
    }

    proof fn le_reflexive(&self) {
    }

    proof fn le_transitive(&self, middle: &Self, other: &Self) {
    }

    proof fn le_antisymmetric(&self, other: &Self) {
    }
}

impl Timestamp for u64 {
    type Summary = u64;

    open spec fn least() -> Self {
        0
    }

    fn minimum() -> (t: Self) {
        0
    }

    fn duplicate(&self) -> (t: Self) {
        *self
    }

    proof fn least_is_below(&self) {
    }

    open spec fn earlier(&self, other: &Self) -> bool {
        *self < *other
    }

    fn is_earlier(&self, other: &Self) -> (b: bool) {
        *self < *other
    }

    proof fn order_is_kept(&self, other: &Self) {
    }

    proof fn one_is_earlier(&self, other: &Self) {
    }
}

impl PathSummary<u64> for u64 {
    open spec fn result(&self, time: &u64) -> Option<u64> {
        if *time + *self <= u64::MAX {
            Some((*time + *self) as u64)
        } else {
            None
        }
    }

    open spec fn identity() -> Self {
        0
    }

    fn results_in(&self, time: &u64) -> (r: Option<u64>) {
        time.checked_add(*self)
    }

    fn unchanged() -> (s: Self) {
        0
    }

    fn duplicate(&self) -> (s: Self) {
        *self
    }

    proof fn result_is_later(&self, time: &u64) {
    }

    proof fn identity_keeps(time: &u64) {
    }
}

impl PartialOrder for u32 {
    open spec fn le(&self, other: &Self) -> bool {
        *self <= *other
    }

    fn less_equal(&self, other: &Self) -> (b: bool) {
        *self <= *other
    }

    proof fn le_reflexive(&self) {
    }

    proof fn le_transitive(&self, middle: &Self, other: &Self) {
    }

    proof fn le_antisymmetric(&self, other: &Self) {
    }
}

impl Timestamp for u32 {
    type Summary = u32;

    open spec fn least() -> Self {
        0
    }

    fn minimum() -> (t: Self) {
        0
    }

    fn duplicate(&self) -> (t: Self) {
        *self
    }

    proof fn least_is_below(&self) {
    }

    open spec fn earlier(&self, other: &Self) -> bool {
        *self < *other
    }

    fn is_earlier(&self, other: &Self) -> (b: bool) {
        *self < *other
    }

    proof fn order_is_kept(&self, other: &Self) {
    }

    proof fn one_is_earlier(&self, other: &Self) {
    }
}

impl PathSummary<u32> for u32 {
    open spec fn result(&self, time: &u32) -> Option<u32> {
        if *time + *self <= u32::MAX {
            Some((*time + *self) as u32)
        } else {
            None
        }
    }

    open spec fn identity() -> Self {
        0
    }

    fn results_in(&self, time: &u32) -> (r: Option<u32>) {
        time.checked_add(*self)
    }

    fn unchanged() -> (s: Self) {
        0
    }

    fn duplicate(&self) -> (s: Self) {
        *self
    }

    proof fn result_is_later(&self, time: &u32) {
    }

    proof fn identity_keeps(time: &u32) {
    }
}

/// A time within a loop: the time outside the loop and the time inside it. One product comes
/// before another if it does so in both parts.
#[derive(Debug, PartialEq, Eq, Hash)]
pub struct Product<TOuter, TInner> {
    pub outer: TOuter,
    pub inner: TInner,
}

impl<TOuter, TInner> Product<TOuter, TInner> {
    /// The product of two times.
    pub fn new(outer: TOuter, inner: TInner) -> (p: Self)
        ensures
            p == (Product { outer, inner }),
    {
        Product { outer, inner }
    }
}

impl<TOuter: PartialOrder, TInner: PartialOrder> PartialOrder for Product<TOuter, TInner> {
    open spec fn le(&self, other: &Self) -> bool {
        self.outer.le(&other.outer) && self.inner.le(&other.inner)
    }

    fn less_equal(&self, other: &Self) -> (b: bool) {
        self.outer.less_equal(&other.outer) && self.inner.less_equal(&other.inner)
    }

    proof fn le_reflexive(&self) {
        self.outer.le_reflexive();
        self.inner.le_reflexive();
    }

    proof fn le_transitive(&self, middle: &Self, other: &Self) {
        self.outer.le_transitive(&middle.outer, &other.outer);
        self.inner.le_transitive(&middle.inner, &other.inner);
    }

    proof fn le_antisymmetric(&self, other: &Self) {
        self.outer.le_antisymmetric(&other.outer);
        self.inner.le_antisymmetric(&other.inner);
    }
}

impl<TOuter: Timestamp, TInner: Timestamp> Timestamp for Product<TOuter, TInner> {
    type Summary = Product<TOuter::Summary, TInner::Summary>;

    open spec fn least() -> Self {
        Product { outer: TOuter::least(), inner: TInner::least() }
    }

    fn minimum() -> (t: Self) {
        Product { outer: TOuter::minimum(), inner: TInner::minimum() }
    }

    fn duplicate(&self) -> (t: Self) {
        Product { outer: self.outer.duplicate(), inner: self.inner.duplicate() }
    }

    proof fn least_is_below(&self) {
        self.outer.least_is_below();
        self.inner.least_is_below();
    }

    /// The outer times decide, and where they are the same, the inner ones do.
    open spec fn earlier(&self, other: &Self) -> bool {
        self.outer.earlier(&other.outer) || (self.outer == other.outer && self.inner.earlier(
            &other.inner,
        ))
    }

    fn is_earlier(&self, other: &Self) -> (b: bool) {
        proof {
            self.outer.one_is_earlier(&other.outer);
        }
        if self.outer.is_earlier(&other.outer) {
            true
        } else if other.outer.is_earlier(&self.outer) {
            false
        } else {
            self.inner.is_earlier(&other.inner)
        }
    }

    proof fn order_is_kept(&self, other: &Self) {
        self.outer.order_is_kept(&other.outer);
        self.inner.order_is_kept(&other.inner);
    }

    proof fn one_is_earlier(&self, other: &Self) {
        self.outer.one_is_earlier(&other.outer);
        self.inner.one_is_earlier(&other.inner);
    }
}

impl<
    TOuter: PartialOrder,
    TInner: PartialOrder,
    SOuter: PathSummary<TOuter>,
    SInner: PathSummary<TInner>,
> PathSummary<Product<TOuter, TInner>> for Product<SOuter, SInner> {
    open spec fn result(&self, time: &Product<TOuter, TInner>) -> Option<Product<TOuter, TInner>> {
        match (self.outer.result(&time.outer), self.inner.result(&time.inner)) {
            (Some(outer), Some(inner)) => Some(Product { outer, inner }),
            _ => None,
        }
    }

    open spec fn identity() -> Self {
        Product { outer: SOuter::identity(), inner: SInner::identity() }
    }

    fn results_in(&self, time: &Product<TOuter, TInner>) -> (r: Option<Product<TOuter, TInner>>) {
        match self.outer.results_in(&time.outer) {
            Some(outer) => match self.inner.results_in(&time.inner) {
                Some(inner) => Some(Product { outer, inner }),
                None => None,
            },
            None => None,
        }
    }

    fn unchanged() -> (s: Self) {
        Product { outer: SOuter::unchanged(), inner: SInner::unchanged() }
    }

    fn duplicate(&self) -> (s: Self) {
        Product { outer: self.outer.duplicate(), inner: self.inner.duplicate() }
    }

    proof fn result_is_later(&self, time: &Product<TOuter, TInner>) {
        self.outer.result_is_later(&time.outer);
        self.inner.result_is_later(&time.inner);
    }

    proof fn identity_keeps(time: &Product<TOuter, TInner>) {
        SOuter::identity_keeps(&time.outer);
        SInner::identity_keeps(&time.inner);
    }
}

} // verus!
