//! Bounds-checked identifiers: each one fits in its bit field of the header.
use crate::errors::ProtocolError;
use vstd::prelude::*;

verus! {

/// Largest bus participant id (four bits).
pub const MAX_CAN_ID: usize = 15;

/// Largest message id (three bits).
pub const MAX_MES_ID: usize = 7;

/// Largest sequence number (four bits). Sequence number 0 marks the last
/// fragment of a message.
pub const MAX_SEQ_ID: usize = 15;

/// Identifies a participant on the bus.
#[derive(Clone, Copy, Debug, PartialEq, Eq, Structural, PartialOrd, Ord)]
pub struct CanId {
    v: usize,
}

impl View for CanId {
    type V = nat;

    closed spec fn view(&self) -> nat {
        self.v as nat
    }
}

impl CanId {
    /// The id whose value is `v` (meaningful for `v <= MAX_CAN_ID`).
    pub closed spec fn spec_new(v: nat) -> CanId {
        CanId { v: v as usize }
    }

    pub open spec fn wf(&self) -> bool {
        self@ <= MAX_CAN_ID
    }

    /// Fails with `InvalidId` when `v` does not fit in the field.
    pub fn new(v: usize) -> (r: Result<CanId, ProtocolError>)
        ensures
            v <= MAX_CAN_ID ==> r is Ok && r->Ok_0 == CanId::spec_new(v as nat),
            v > MAX_CAN_ID ==> r is Err && r->Err_0 == ProtocolError::InvalidId(v),
    {
        if v > MAX_CAN_ID {
            Err(ProtocolError::InvalidId(v))
        } else {
            Ok(CanId { v })
        }
    }

    /// The value of the id.
    pub fn value(&self) -> (r: usize)
        ensures
            r == self@,
    {
        self.v
    }
}

/// The id built from a value in range has that value.
pub broadcast proof fn lemma_can_id_view(v: nat)
    requires
        v <= MAX_CAN_ID,
    ensures
        (#[trigger] CanId::spec_new(v))@ == v,
{
}

/// Every id is the one built from its own value.
pub broadcast proof fn lemma_can_id_from_view(id: CanId)
    ensures
        #[trigger] CanId::spec_new(id@) == id,
{
}

/// Identifies one logical message stream of a source.
#[derive(Clone, Copy, Debug, PartialEq, Eq, Structural, PartialOrd, Ord)]
pub struct MessageId {
    v: usize,
}

impl View for MessageId {
    type V = nat;

    closed spec fn view(&self) -> nat {
        self.v as nat
    }
}

impl MessageId {
    /// The id whose value is `v` (meaningful for `v <= MAX_MES_ID`).
    pub closed spec fn spec_new(v: nat) -> MessageId {
        MessageId { v: v as usize }
    }

    pub open spec fn wf(&self) -> bool {
        self@ <= MAX_MES_ID
    }

    /// Fails with `InvalidId` when `v` does not fit in the field.
    pub fn new(v: usize) -> (r: Result<MessageId, ProtocolError>)
        ensures
            v <= MAX_MES_ID ==> r is Ok && r->Ok_0 == MessageId::spec_new(v as nat),
            v > MAX_MES_ID ==> r is Err && r->Err_0 == ProtocolError::InvalidId(v),
    {
        if v > MAX_MES_ID {
            Err(ProtocolError::InvalidId(v))
        } else {
            Ok(MessageId { v })
        }
    }

    /// The value of the id.
    pub fn value(&self) -> (r: usize)
        ensures
            r == self@,
    {
        self.v
    }
}

/// The id built from a value in range has that value.
pub broadcast proof fn lemma_message_id_view(v: nat)
    requires
        v <= MAX_MES_ID,
    ensures
        (#[trigger] MessageId::spec_new(v))@ == v,
{
}

/// Every id is the one built from its own value.
pub broadcast proof fn lemma_message_id_from_view(id: MessageId)
    ensures
        #[trigger] MessageId::spec_new(id@) == id,
{
}

/// Position of a fragment, counted down to 0 for the last one.
#[derive(Clone, Copy, Debug, PartialEq, Eq, Structural, PartialOrd, Ord)]
pub struct SeqId {
    v: usize,
}

impl View for SeqId {
    type V = nat;

    closed spec fn view(&self) -> nat {
        self.v as nat
    }
}

impl SeqId {
    /// The id whose value is `v` (meaningful for `v <= MAX_SEQ_ID`).
    pub closed spec fn spec_new(v: nat) -> SeqId {
        SeqId { v: v as usize }
    }

    pub open spec fn wf(&self) -> bool {
        self@ <= MAX_SEQ_ID
    }

    /// Fails with `InvalidId` when `v` does not fit in the field.
    pub fn new(v: usize) -> (r: Result<SeqId, ProtocolError>)
        ensures
            v <= MAX_SEQ_ID ==> r is Ok && r->Ok_0 == SeqId::spec_new(v as nat),
            v > MAX_SEQ_ID ==> r is Err && r->Err_0 == ProtocolError::InvalidId(v),
    {
        if v > MAX_SEQ_ID {
            Err(ProtocolError::InvalidId(v))
        } else {
            Ok(SeqId { v })
        }
    }

    /// The value of the id.
    pub fn value(&self) -> (r: usize)
        ensures
            r == self@,
    {
        self.v
    }
}

/// The id built from a value in range has that value.
pub broadcast proof fn lemma_seq_id_view(v: nat)
    requires
        v <= MAX_SEQ_ID,
    ensures
        (#[trigger] SeqId::spec_new(v))@ == v,
{
}

/// Every id is the one built from its own value.
pub broadcast proof fn lemma_seq_id_from_view(id: SeqId)
    ensures
        #[trigger] SeqId::spec_new(id@) == id,
{
}

pub broadcast group group_id_lemmas {
    lemma_can_id_view,
    lemma_can_id_from_view,
    lemma_message_id_view,
    lemma_message_id_from_view,
    lemma_seq_id_view,
    lemma_seq_id_from_view,
}

} // verus!
