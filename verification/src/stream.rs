//! Streams and the numbered ports that they leave from.

use core::marker::PhantomData;
use vstd::prelude::*;
use crate::stage::{RegionId, StageId};
use crate::text::{decimal, push_usize};

verus! {

/// A port of an operator: the operator's index and the number of the port.
#[derive(Clone, Copy, Debug, PartialEq, Eq, PartialOrd, Ord, Hash, Structural)]
pub struct Slot {
    pub operator_index: usize,
    pub slot_index: usize,
}

/// How a slot is written in messages.
pub open spec fn slot_text(slot: Slot) -> Seq<char> {
    "Op"@ + decimal(slot.operator_index as nat) + ":Slot"@ + decimal(slot.slot_index as nat)
}

impl Slot {
    /// The port `slot_index` of the operator `operator_index`.
    pub fn new(operator_index: usize, slot_index: usize) -> (slot: Self)
        ensures
            slot == (Slot { operator_index, slot_index }),
    {
        Slot { operator_index, slot_index }
    }

    /// The slot as it is written in messages, `Op2:Slot0`.
    pub fn to_text(&self) -> (text: String)
        ensures
            text@ == slot_text(*self),
    {
        let mut text = "Op".to_owned();
        push_usize(&mut text, self.operator_index);
        text.append(":Slot");
        push_usize(&mut text, self.slot_index);
        text
    }
}

/// A stream of records of type `D`: the port that it leaves from, the stage that it runs in, and
/// the name of the scope that it belongs to.
pub struct StreamEdge<D> {
    scope_name: String,
    source: Slot,
    stage_id: StageId,
    records: PhantomData<D>,
}

/// A stream seen as one within a region.
pub type DataStream<D> = StreamEdge<D>;

/// What is known of a stream.
pub struct StreamView {
    pub scope_name: Seq<char>,
    pub source: Slot,
    pub stage_id: StageId,
}

impl<D> View for StreamEdge<D> {
    type V = StreamView;

    closed spec fn view(&self) -> StreamView {
        StreamView {
            scope_name: self.scope_name@,
            source: self.source,
            stage_id: self.stage_id,
        }
    }
}

impl<D> StreamEdge<D> {
    /// The stream that leaves from `source` in the given stage of the named scope.
    pub fn new(scope_name: &str, source: Slot, stage_id: StageId) -> (stream: Self)
        ensures
            stream@ == (StreamView { scope_name: scope_name@, source, stage_id }),
    {
        StreamEdge { scope_name: scope_name.to_owned(), source, stage_id, records: PhantomData }
    }

    /// The name of the scope that the stream belongs to.
    pub fn scope_name(&self) -> (name: &str)
        ensures
            name@ == self@.scope_name,
    {
        self.scope_name.as_str()
    }

    /// The port that the stream leaves from.
    pub fn source(&self) -> (source: Slot)
        ensures
            source == self@.source,
    {
        self.source
    }

    /// The stage that the stream runs in.
    pub fn stage_id(&self) -> (stage_id: StageId)
        ensures
            stage_id == self@.stage_id,
    {
        self.stage_id
    }

    /// The region that the stream runs in.
    pub fn region_id(&self) -> (region_id: RegionId)
        ensures
            region_id == self@.stage_id,
    {
        self.stage_id
    }
}

} // verus!
