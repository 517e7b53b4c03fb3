//! Values with several holders.

use std::rc::Rc;
use vstd::cell::invcell::InvCell;
use vstd::predicate::Predicate;
use vstd::prelude::*;

verus! {

/// Places no demand on a shared value.
pub struct Anything;

impl<V> Predicate<V> for Anything {
    open spec fn predicate(&self, v: V) -> bool {
        true
    }
}

/// A value that several holders read and write. Each holder may change it at any time, so all that
/// is known in advance of the value that a holder finds is that it keeps to the rule `P`.
pub struct Shared<V, P = Anything> {
    cell: Rc<InvCell<V, P>>,
}

/// Whether two handles share their cell.
///
/// Calls `Rc::ptr_eq`, which says whether both handles point to the same allocation. A cell has an
/// identity of its own, which is part of its value here; so cells are equal just if they are the
/// same one.
#[verifier::external_body]
fn is_same_cell<V, P>(a: &Rc<InvCell<V, P>>, b: &Rc<InvCell<V, P>>) -> (same: bool)
    ensures
        same == (*a == *b),
{
    Rc::ptr_eq(a, b)
}

impl<V, P: Predicate<V>> Shared<V, P> {
    /// The rule that the value keeps to.
    pub closed spec fn rule(&self) -> P {
        self.cell.predicate()
    }

    /// A shared value with one holder, which keeps to the given rule from now on.
    pub fn new(v: V, rule: P) -> (s: Self)
        requires
            rule.predicate(v),
        ensures
            s.rule() == rule,
            s.began(v),
    {
        let ghost value = v;
        let s = Shared { cell: Rc::new(InvCell::new(v, Ghost(rule))) };
        let ghost start = Beginning::<V, P> { cell: Ghost(s), value: Ghost(value) };
        assert(start.cell() == s && start.value() == value);
        s
    }

    /// One more holder of the same value.
    pub fn share(&self) -> (s: Self)
        ensures
            s == *self,
    {
        Shared { cell: self.cell.clone() }
    }

    /// Whether two holders share their value.
    pub fn is_same(&self, other: &Self) -> (same: bool)
        ensures
            same == (*self == *other),
    {
        is_same_cell(&self.cell, &other.cell)
    }

    /// Gives the value up. Says whether it has another holder, of which nothing is known in
    /// advance.
    pub fn is_held_elsewhere(self) -> (held: bool)
        ensures
            self.answered(held),
    {
        let ghost cell = self;
        let held = Rc::try_unwrap(self.cell).is_err();
        let ghost answer = Answer::<V, P> { cell: Ghost(cell), held: Ghost(held) };
        assert(answer.cell() == cell && answer.held() == held);
        held
    }

    /// Puts a value in place and returns the one that was there. Both keep to the rule.
    pub fn replace(&self, v: V) -> (old_value: V)
        requires
            self.rule().predicate(v),
        ensures
            self.rule().predicate(old_value),
            self.turned(old_value, v),
    {
        let ghost put = v;
        let found = self.cell.replace(v);
        let ghost receipt = Receipt {
            cell: Ghost(*self),
            before: Ghost(found),
            after: Ghost(put),
        };
        assert(receipt.cell() == *self && receipt.before() == found && receipt.after() == put);
        found
    }

    /// Puts a value in place, which keeps to the rule.
    pub fn set(&self, v: V)
        requires
            self.rule().predicate(v),
        ensures
            exists|before: V| #[trigger] self.turned(before, v),
    {
        let ghost put = v;
        let found = self.replace(v);
        assert(self.turned(found, put));
    }
}

/// A value that was lent to a holder, who has to give it back.
pub struct Loan<V, P> {
    cell: Ghost<Shared<V, P>>,
    before: Ghost<V>,
}

impl<V, P> Loan<V, P> {
    /// Whose value was lent.
    pub closed spec fn cell(&self) -> Shared<V, P> {
        self.cell@
    }

    /// The value that was lent.
    pub closed spec fn before(&self) -> V {
        self.before@
    }
}

/// Attests that a holder found one value and left another. There are no receipts but those that the
/// values are given back for.
pub struct Receipt<V, P> {
    cell: Ghost<Shared<V, P>>,
    before: Ghost<V>,
    after: Ghost<V>,
}

impl<V, P> Receipt<V, P> {
    /// Whose value changed.
    pub closed spec fn cell(&self) -> Shared<V, P> {
        self.cell@
    }

    /// The value that was found.
    pub closed spec fn before(&self) -> V {
        self.before@
    }

    /// The value that was left.
    pub closed spec fn after(&self) -> V {
        self.after@
    }
}

/// Attests to what was found when a value was given up. There are no answers but those that were
/// given then.
pub struct Answer<V, P> {
    cell: Ghost<Shared<V, P>>,
    held: Ghost<bool>,
}

impl<V, P> Answer<V, P> {
    /// Whose value was given up.
    pub closed spec fn cell(&self) -> Shared<V, P> {
        self.cell@
    }

    /// Whether the value had another holder.
    pub closed spec fn held(&self) -> bool {
        self.held@
    }
}

/// Attests to what a value was at first. There are no beginnings but those of values that were made.
pub struct Beginning<V, P> {
    cell: Ghost<Shared<V, P>>,
    value: Ghost<V>,
}

impl<V, P> Beginning<V, P> {
    /// Whose value began.
    pub closed spec fn cell(&self) -> Shared<V, P> {
        self.cell@
    }

    /// What the value was.
    pub closed spec fn value(&self) -> V {
        self.value@
    }
}

impl<V, P> Shared<V, P> {
    /// There is a beginning by which the value was `v` at first.
    pub open spec fn began(&self, v: V) -> bool {
        exists|start: Beginning<V, P>| #[trigger] start.cell() == *self && start.value() == v
    }

    /// There is an answer by which the value, when it was given up, had another holder or not.
    pub open spec fn answered(&self, held: bool) -> bool {
        exists|answer: Answer<V, P>| #[trigger] answer.cell() == *self && answer.held() == held
    }

    /// There is a receipt by which the value was once `before` and became `after`.
    pub open spec fn turned(&self, before: V, after: V) -> bool {
        exists|receipt: Receipt<V, P>| #[trigger]
            receipt.cell() == *self && receipt.before() == before && receipt.after() == after
    }
}

impl<V, P: Predicate<V>> Shared<V, P> {
    /// Lends the value, which keeps to the rule, and puts another in its place until it is given
    /// back.
    pub fn lend(&self, stand_in: V) -> (lent: (V, Loan<V, P>))
        requires
            self.rule().predicate(stand_in),
        ensures
            self.rule().predicate(lent.0),
            lent.1.cell() == *self,
            lent.1.before() == lent.0,
    {
        let v = self.cell.replace(stand_in);
        let ghost found = v;
        (v, Loan { cell: Ghost(*self), before: Ghost(found) })
    }

    /// Takes back what was lent, changed as it may be.
    pub fn settle(&self, loan: Loan<V, P>, v: V) -> (receipt: Receipt<V, P>)
        requires
            loan.cell() == *self,
            self.rule().predicate(v),
        ensures
            receipt.cell() == *self,
            receipt.before() == loan.before(),
            receipt.after() == v,
            self.turned(loan.before(), v),
    {
        let ghost left = v;
        let _ = self.cell.replace(v);
        let receipt: Receipt<V, P> = Receipt {
            cell: Ghost(*self),
            before: loan.before,
            after: Ghost(left),
        };
        assert(receipt.cell() == *self && receipt.before() == loan.before() && receipt.after()
            == left);
        receipt
    }
}

/// A number that a shared value has from the start, if it has one. Values with different numbers
/// are different ones. Places no demand on the value.
pub struct Tag {
    pub number: Ghost<Option<int>>,
}

impl<V> Predicate<V> for Tag {
    open spec fn predicate(&self, v: V) -> bool {
        true
    }
}

/// A mark by which something is known.
pub type Mark = Shared<u8, Tag>;

/// Shared values with different tags are different ones.
pub proof fn tags_tell_apart<V>(a: Shared<V, Tag>, b: Shared<V, Tag>)
    requires
        a.rule() != b.rule(),
    ensures
        a != b,
{
}

impl<V: Copy, P: Predicate<V>> Shared<V, P> {
    /// The value that is there now. It keeps to the rule.
    pub fn get(&self) -> (v: V)
        ensures
            self.rule().predicate(v),
            self.turned(v, v),
    {
        let v: V = self.cell.get();
        let ghost receipt = Receipt::<V, P> {
            cell: Ghost(*self),
            before: Ghost(v),
            after: Ghost(v),
        };
        assert(receipt.cell() == *self && receipt.before() == v && receipt.after() == v);
        v
    }
}

} // verus!
