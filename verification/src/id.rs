//! Identities of running dataflows.

use vstd::prelude::*;
use crate::text::{decimal, push_u64};

verus! {

/// A cluster-unique identity of a running dataflow: the upper sixteen bits name the node on which
/// it started, the lower forty-eight count the dataflows of that node.
#[derive(Clone, Copy, Debug, PartialEq, Eq, PartialOrd, Ord, Hash, Structural)]
pub struct DataflowId(u64);

/// How many sequence numbers a node has.
pub open spec fn sequence_range() -> int {
    0x1_0000_0000_0000
}

impl View for DataflowId {
    type V = int;

    /// The identity as a number.
    closed spec fn view(&self) -> int {
        self.0 as int
    }
}

impl DataflowId {
    /// The largest node index.
    pub const MAX_NODE_INDEX: u16 = 0xffff;

    /// The largest sequence number.
    pub const MAX_SEQUENCE: u64 = 0xffff_ffff_ffff;

    /// The identity of the dataflow `sequence` of the node `node_index`.
    pub fn new(node_index: u16, sequence: u64) -> (id: Self)
        requires
            sequence <= Self::MAX_SEQUENCE,
        ensures
            id@ == node_index * sequence_range() + sequence,
    {
        let high: u64 = node_index as u64;
        assert((high << 48) | sequence == high * 0x1_0000_0000_0000 + sequence) by (bit_vector)
            requires
                high <= 0xffff,
                sequence <= 0xffff_ffff_ffff,
        ;
        DataflowId((high << 48) | sequence)
    }

    /// The identity with the given number.
    pub fn from_raw(raw: u64) -> (id: Self)
        ensures
            id@ == raw,
    {
        DataflowId(raw)
    }

    /// The identity as a number.
    pub fn as_raw(self) -> (raw: u64)
        ensures
            raw == self@,
    {
        self.0
    }

    /// The node on which the dataflow started.
    pub fn node_index(self) -> (node_index: u16)
        ensures
            node_index == self@ / sequence_range(),
    {
        let raw: u64 = self.0;
        assert(raw >> 48 == raw / 0x1_0000_0000_0000 && raw >> 48 <= 0xffff) by (bit_vector);
        (raw >> 48) as u16
    }

    /// The number of the dataflow on its node.
    pub fn sequence(self) -> (sequence: u64)
        ensures
            sequence == self@ % sequence_range(),
    {
        let raw: u64 = self.0;
        assert(raw & 0xffff_ffff_ffff == raw % 0x1_0000_0000_0000) by (bit_vector);
        raw & Self::MAX_SEQUENCE
    }

    /// The identity in its short form, `df-7-123`.
    pub fn to_text(self) -> (text: String)
        ensures
            text@ == "df-"@ + decimal((self@ / sequence_range()) as nat) + "-"@ + decimal(
                (self@ % sequence_range()) as nat,
            ),
    {
        let mut text = "df-".to_owned();
        push_u64(&mut text, self.node_index() as u64);
        text.append("-");
        push_u64(&mut text, self.sequence());
        text
    }

    /// The identity with its parts named, `DataflowId(node=2, seq=50)`.
    pub fn to_debug_text(self) -> (text: String)
        ensures
            text@ == "DataflowId(node="@ + decimal((self@ / sequence_range()) as nat) + ", seq="@
                + decimal((self@ % sequence_range()) as nat) + ")"@,
    {
        let mut text = "DataflowId(node=".to_owned();
        push_u64(&mut text, self.node_index() as u64);
        text.append(", seq=");
        push_u64(&mut text, self.sequence());
        text.append(")");
        text
    }
}

/// A node and a sequence number determine the identity made of them, and can be read back from it.
pub proof fn identity_round_trip(id: int, node_index: int, sequence: int)
    requires
        0 <= sequence < sequence_range(),
        id == node_index * sequence_range() + sequence,
    ensures
        id / sequence_range() == node_index,
        id % sequence_range() == sequence,
{
}

/// Identities with different nodes or different sequence numbers are different.
pub proof fn identities_differ(a: int, b: int)
    ensures
        a == b <==> a / sequence_range() == b / sequence_range() && a % sequence_range() == b
            % sequence_range(),
{
}

/// Identities are ordered by node first and by sequence number second.
pub proof fn identities_are_ordered(a: int, b: int)
    ensures
        a < b <==> a / sequence_range() < b / sequence_range() || (a / sequence_range() == b
            / sequence_range() && a % sequence_range() < b % sequence_range()),
{
}

impl DataflowId {
    /// Identities with the same number are the same one.
    pub proof fn numbers_identify(a: DataflowId, b: DataflowId)
        requires
            a@ == b@,
        ensures
            a == b,
    {
    }
}

/// Hands out the identities of one node, one after the other.
#[derive(Debug)]
pub struct DataflowIdAllocator {
    node_index: u16,
    next_sequence: u64,
}

/// What an allocator will hand out.
pub struct AllocatorView {
    pub node_index: int,
    /// The sequence number of the next identity.
    pub next: int,
}

impl View for DataflowIdAllocator {
    type V = AllocatorView;

    closed spec fn view(&self) -> AllocatorView {
        AllocatorView { node_index: self.node_index as int, next: self.next_sequence as int }
    }
}

impl DataflowIdAllocator {
    /// The allocator of a node. The first sequence number is one; zero stands for no dataflow.
    pub fn new(node_index: u16) -> (allocator: Self)
        ensures
            allocator@ == (AllocatorView { node_index: node_index as int, next: 1 }),
    {
        DataflowIdAllocator { node_index, next_sequence: 1 }
    }

    /// The next identity of the node.
    pub fn allocate(&mut self) -> (id: DataflowId)
        requires
            old(self)@.next <= DataflowId::MAX_SEQUENCE,
        ensures
            id@ == old(self)@.node_index * sequence_range() + old(self)@.next,
            final(self)@ == (AllocatorView { next: old(self)@.next + 1, ..old(self)@ }),
    {
        let sequence: u64 = self.next_sequence;
        self.next_sequence = sequence + 1;
        DataflowId::new(self.node_index, sequence)
    }

    /// The node that the allocator serves.
    pub fn node_index(&self) -> (node_index: u16)
        ensures
            node_index == self@.node_index,
    {
        self.node_index
    }
}

/// A series of allocations: the states of an allocator before, between and after them, and the
/// identities that were handed out.
pub open spec fn is_series(states: Seq<AllocatorView>, ids: Seq<int>) -> bool {
    &&& states.len() == ids.len() + 1
    &&& forall|i: int|
        0 <= i < ids.len() ==> #[trigger] ids[i] == states[i].node_index * sequence_range()
            + states[i].next && states[i + 1] == (AllocatorView {
            next: states[i].next + 1,
            ..states[i]
        })
}

/// The sequence numbers of a series of allocations by a new allocator are 1, 2, 3 and so on, and the
/// identities all differ.
pub proof fn allocations_count_up(states: Seq<AllocatorView>, ids: Seq<int>, node_index: int, i: int)
    requires
        is_series(states, ids),
        states[0] == (AllocatorView { node_index, next: 1 }),
        0 <= i < ids.len(),
        ids.len() < sequence_range(),
    ensures
        ids[i] == node_index * sequence_range() + (i + 1),
        ids[i] % sequence_range() == i + 1,
        states[i + 1] == (AllocatorView { node_index, next: i + 2 }),
        forall|j: int| 0 <= j < i ==> #[trigger] ids[j] != ids[i],
    decreases i,
{
    if i > 0 {
        allocations_count_up(states, ids, node_index, i - 1);
    }
    assert(ids[i] == states[i].node_index * sequence_range() + states[i].next);
    identity_round_trip(ids[i], node_index, i + 1);
    assert forall|j: int| 0 <= j < i implies #[trigger] ids[j] != ids[i] by {
        allocations_count_up(states, ids, node_index, j);
    }
}

} // verus!
