//! The fixed-capacity vectors of `heapless` that hold the protocol's state.
use crate::message::Message;
use crate::packet::Packet;
use crate::reassembly::MessageInProgress;
use vstd::prelude::*;

verus! {

#[verifier::external_type_specification]
#[verifier::external_body]
#[verifier::reject_recursive_types(T)]
pub struct ExHeaplessVec<T, const N: usize>(heapless::Vec<T, N>);

/// The bytes of an outbound message.
pub uninterp spec fn message_bytes(v: heapless::Vec<u8, 90>) -> Seq<u8>;

/// Relies on heapless::Vec::as_slice: the slice holds the vector's elements, at
/// most its capacity of them.
#[verifier::external_body]
pub(crate) fn message_bytes_slice(v: &heapless::Vec<u8, 90>) -> (r: &[u8])
    ensures
        r@ == message_bytes(*v),
        r@.len() <= 90,
{
    v.as_slice()
}

/// The acknowledgement flags of an outbound message, one per fragment.
pub uninterp spec fn ack_flags(v: heapless::Vec<bool, 15>) -> Seq<bool>;

/// Relies on heapless::Vec::new: a new vector is empty.
#[verifier::external_body]
pub(crate) fn new_ack_flags() -> (r: heapless::Vec<bool, 15>)
    ensures
        ack_flags(r) == Seq::<bool>::empty(),
{
    heapless::Vec::new()
}

/// Relies on heapless::Vec::push: below capacity the item is appended, at
/// capacity it is handed back and the vector is left as it was.
#[verifier::external_body]
pub(crate) fn push_ack_flag(v: &mut heapless::Vec<bool, 15>, b: bool) -> (r: Result<(), bool>)
    ensures
        ack_flags(*old(v)).len() < 15 ==> {
            &&& r is Ok
            &&& ack_flags(*final(v)) == ack_flags(*old(v)).push(b)
        },
        ack_flags(*old(v)).len() >= 15 ==> {
            &&& r is Err
            &&& r->Err_0 == b
            &&& ack_flags(*final(v)) == ack_flags(*old(v))
        },
{
    v.push(b)
}

/// Relies on heapless::Vec::as_slice: the slice holds the vector's elements, at
/// most its capacity of them.
#[verifier::external_body]
pub(crate) fn ack_flags_slice(v: &heapless::Vec<bool, 15>) -> (r: &[bool])
    ensures
        r@ == ack_flags(*v),
        r@.len() <= 15,
{
    v.as_slice()
}

/// Relies on indexing through heapless::Vec's DerefMut (as_mut_slice): the
/// element at `i` is replaced.
#[verifier::external_body]
pub(crate) fn set_ack_flag(v: &mut heapless::Vec<bool, 15>, i: usize, b: bool)
    requires
        i < ack_flags(*old(v)).len(),
    ensures
        ack_flags(*final(v)) == ack_flags(*old(v)).update(i as int, b),
{
    v[i] = b;
}

/// The packets gathered for one inbound message, in order of arrival.
pub uninterp spec fn held_packets(v: heapless::Vec<Packet, 16>) -> Seq<Packet>;

/// Relies on heapless::Vec::new: a new vector is empty.
#[verifier::external_body]
pub(crate) fn new_packet_buffer() -> (r: heapless::Vec<Packet, 16>)
    ensures
        held_packets(r) == Seq::<Packet>::empty(),
{
    heapless::Vec::new()
}

/// Relies on heapless::Vec::push: below capacity the item is appended, at
/// capacity it is handed back and the vector is left as it was.
#[verifier::external_body]
pub(crate) fn push_packet(v: &mut heapless::Vec<Packet, 16>, p: Packet) -> (r: Result<(), Packet>)
    ensures
        held_packets(*old(v)).len() < 16 ==> {
            &&& r is Ok
            &&& held_packets(*final(v)) == held_packets(*old(v)).push(p)
        },
        held_packets(*old(v)).len() >= 16 ==> {
            &&& r is Err
            &&& held_packets(*final(v)) == held_packets(*old(v))
        },
{
    v.push(p)
}

/// Relies on heapless::Vec::as_slice: the slice holds the vector's elements, at
/// most its capacity of them.
#[verifier::external_body]
pub(crate) fn packets_slice(v: &heapless::Vec<Packet, 16>) -> (r: &[Packet])
    ensures
        r@ == held_packets(*v),
        r@.len() <= 16,
{
    v.as_slice()
}

/// The bytes of a reassembled inbound message.
pub uninterp spec fn assembled_bytes(v: heapless::Vec<u8, 96>) -> Seq<u8>;

/// Relies on heapless::Vec::new: a new vector is empty.
#[verifier::external_body]
pub(crate) fn new_assembly_buffer() -> (r: heapless::Vec<u8, 96>)
    ensures
        assembled_bytes(r) == Seq::<u8>::empty(),
{
    heapless::Vec::new()
}

/// Relies on heapless::Vec::push: below capacity the item is appended, at
/// capacity it is handed back and the vector is left as it was.
#[verifier::external_body]
pub(crate) fn push_assembled_byte(v: &mut heapless::Vec<u8, 96>, b: u8) -> (r: Result<(), u8>)
    ensures
        assembled_bytes(*old(v)).len() < 96 ==> {
            &&& r is Ok
            &&& assembled_bytes(*final(v)) == assembled_bytes(*old(v)).push(b)
        },
        assembled_bytes(*old(v)).len() >= 96 ==> {
            &&& r is Err
            &&& assembled_bytes(*final(v)) == assembled_bytes(*old(v))
        },
{
    v.push(b)
}

/// The messages waiting to be sent, oldest first.
pub uninterp spec fn queued_messages(v: heapless::Vec<Message, 8>) -> Seq<Message>;

/// Relies on heapless::Vec::new: a new vector is empty.
#[verifier::external_body]
pub(crate) fn new_message_queue() -> (r: heapless::Vec<Message, 8>)
    ensures
        queued_messages(r) == Seq::<Message>::empty(),
{
    heapless::Vec::new()
}

/// Relies on heapless::Vec::push: below capacity the item is appended, at
/// capacity it is handed back and the vector is left as it was.
#[verifier::external_body]
pub(crate) fn push_message(
    v: &mut heapless::Vec<Message, 8>,
    m: Message,
) -> (r: Result<(), Message>)
    ensures
        queued_messages(*old(v)).len() < 8 ==> {
            &&& r is Ok
            &&& queued_messages(*final(v)) == queued_messages(*old(v)).push(m)
        },
        queued_messages(*old(v)).len() >= 8 ==> {
            &&& r is Err
            &&& queued_messages(*final(v)) == queued_messages(*old(v))
        },
{
    v.push(m)
}

/// Relies on heapless::Vec::as_slice: the slice holds the vector's elements, at
/// most its capacity of them.
#[verifier::external_body]
pub(crate) fn messages_slice(v: &heapless::Vec<Message, 8>) -> (r: &[Message])
    ensures
        r@ == queued_messages(*v),
        r@.len() <= 8,
{
    v.as_slice()
}

/// Relies on indexing through heapless::Vec's DerefMut (as_mut_slice): a
/// mutable borrow of the element at `i`.
#[verifier::external_body]
pub(crate) fn message_at_mut(v: &mut heapless::Vec<Message, 8>, i: usize) -> (r: &mut Message)
    requires
        i < queued_messages(*old(v)).len(),
    ensures
        *r == queued_messages(*old(v))[i as int],
        queued_messages(*final(v)) == queued_messages(*old(v)).update(i as int, *final(r)),
{
    &mut v[i]
}

/// Relies on heapless::Vec::swap_remove: the element at `i` is returned and
/// the last element takes its place.
#[verifier::external_body]
pub(crate) fn swap_remove_message(v: &mut heapless::Vec<Message, 8>, i: usize) -> (r: Message)
    requires
        i < queued_messages(*old(v)).len(),
    ensures
        r == queued_messages(*old(v))[i as int],
        queued_messages(*final(v)) == swap_removed(queued_messages(*old(v)), i as int),
{
    v.swap_remove(i)
}

/// `s` without its element at `i`, whose place the last element takes.
pub open spec fn swap_removed<A>(s: Seq<A>, i: int) -> Seq<A> {
    s.update(i, s.last()).drop_last()
}

/// The inbound messages being reassembled.
pub uninterp spec fn gathering(v: heapless::Vec<MessageInProgress, 8>) -> Seq<MessageInProgress>;

/// Relies on heapless::Vec::new: a new vector is empty.
#[verifier::external_body]
pub(crate) fn new_gathering() -> (r: heapless::Vec<MessageInProgress, 8>)
    ensures
        gathering(r) == Seq::<MessageInProgress>::empty(),
{
    heapless::Vec::new()
}

/// Relies on heapless::Vec::push: below capacity the item is appended, at
/// capacity it is handed back and the vector is left as it was.
#[verifier::external_body]
pub(crate) fn push_gathering(
    v: &mut heapless::Vec<MessageInProgress, 8>,
    m: MessageInProgress,
) -> (r: Result<(), MessageInProgress>)
    ensures
        gathering(*old(v)).len() < 8 ==> {
            &&& r is Ok
            &&& gathering(*final(v)) == gathering(*old(v)).push(m)
        },
        gathering(*old(v)).len() >= 8 ==> r is Err && gathering(*final(v)) == gathering(*old(v)),
{
    v.push(m)
}

/// Relies on heapless::Vec::as_slice: the slice holds the vector's elements, at
/// most its capacity of them.
#[verifier::external_body]
pub(crate) fn gathering_slice(v: &heapless::Vec<MessageInProgress, 8>) -> (r: &[MessageInProgress])
    ensures
        r@ == gathering(*v),
        r@.len() <= 8,
{
    v.as_slice()
}

/// Relies on indexing through heapless::Vec's DerefMut (as_mut_slice): a
/// mutable borrow of the element at `i`.
#[verifier::external_body]
pub(crate) fn gathering_at_mut(
    v: &mut heapless::Vec<MessageInProgress, 8>,
    i: usize,
) -> (r: &mut MessageInProgress)
    requires
        i < gathering(*old(v)).len(),
    ensures
        *r == gathering(*old(v))[i as int],
        gathering(*final(v)) == gathering(*old(v)).update(i as int, *final(r)),
{
    &mut v[i]
}

/// Relies on heapless::Vec::remove: the element at `i` is returned and the
/// elements after it move down by one.
#[verifier::external_body]
pub(crate) fn remove_gathering(
    v: &mut heapless::Vec<MessageInProgress, 8>,
    i: usize,
) -> (r: MessageInProgress)
    requires
        i < gathering(*old(v)).len(),
    ensures
        r == gathering(*old(v))[i as int],
        gathering(*final(v)) == gathering(*old(v)).remove(i as int),
{
    v.remove(i)
}

/// The acknowledgement frames waiting to be sent; the last one leaves first.
pub uninterp spec fn ack_frames(v: heapless::Vec<[u8; 8], 8>) -> Seq<[u8; 8]>;

/// Relies on heapless::Vec::new: a new vector is empty.
#[verifier::external_body]
pub(crate) fn new_ack_frames() -> (r: heapless::Vec<[u8; 8], 8>)
    ensures
        ack_frames(r) == Seq::<[u8; 8]>::empty(),
{
    heapless::Vec::new()
}

/// Relies on heapless::Vec::push: below capacity the item is appended, at
/// capacity it is handed back and the vector is left as it was.
#[verifier::external_body]
pub(crate) fn push_ack_frame(
    v: &mut heapless::Vec<[u8; 8], 8>,
    f: [u8; 8],
) -> (r: Result<(), [u8; 8]>)
    ensures
        ack_frames(*old(v)).len() < 8 ==> {
            &&& r is Ok
            &&& ack_frames(*final(v)) == ack_frames(*old(v)).push(f)
        },
        ack_frames(*old(v)).len() >= 8 ==> r is Err && ack_frames(*final(v)) == ack_frames(*old(v)),
{
    v.push(f)
}

/// Relies on heapless::Vec::pop: the last element is removed and returned;
/// an empty vector gives nothing.
#[verifier::external_body]
pub(crate) fn pop_ack_frame(v: &mut heapless::Vec<[u8; 8], 8>) -> (r: Option<[u8; 8]>)
    ensures
        ack_frames(*old(v)).len() > 0 ==> {
            &&& r == Some(ack_frames(*old(v)).last())
            &&& ack_frames(*final(v)) == ack_frames(*old(v)).drop_last()
        },
        ack_frames(*old(v)).len() == 0 ==> {
            &&& r is None
            &&& ack_frames(*final(v)) == ack_frames(*old(v))
        },
{
    v.pop()
}

/// Relies on heapless::Vec::is_full: the length equals the capacity.
#[verifier::external_body]
pub(crate) fn ack_frames_full(v: &heapless::Vec<[u8; 8], 8>) -> (r: bool)
    ensures
        r == (ack_frames(*v).len() >= 8),
{
    v.is_full()
}

/// The reassembled inbound messages, oldest first.
pub uninterp spec fn received_messages(v: heapless::Vec<heapless::Vec<u8, 96>, 8>) -> Seq<Seq<u8>>;

/// Relies on heapless::Vec::new: a new vector is empty.
#[verifier::external_body]
pub(crate) fn new_received() -> (r: heapless::Vec<heapless::Vec<u8, 96>, 8>)
    ensures
        received_messages(r) == Seq::<Seq<u8>>::empty(),
{
    heapless::Vec::new()
}

/// Relies on heapless::Vec::push: below capacity the item is appended, at
/// capacity it is handed back and the vector is left as it was.
#[verifier::external_body]
pub(crate) fn push_received(
    v: &mut heapless::Vec<heapless::Vec<u8, 96>, 8>,
    m: heapless::Vec<u8, 96>,
) -> (r: Result<(), heapless::Vec<u8, 96>>)
    ensures
        received_messages(*old(v)).len() < 8 ==> {
            &&& r is Ok
            &&& received_messages(*final(v)) == received_messages(*old(v)).push(assembled_bytes(m))
        },
        received_messages(*old(v)).len() >= 8 ==> {
            &&& r is Err
            &&& received_messages(*final(v)) == received_messages(*old(v))
        },
{
    v.push(m)
}

/// Relies on the length of the slice that heapless::Vec derefs to (as_slice):
/// the number of elements.
#[verifier::external_body]
pub(crate) fn received_count(v: &heapless::Vec<heapless::Vec<u8, 96>, 8>) -> (r: usize)
    ensures
        r == received_messages(*v).len(),
{
    v.len()
}

} // verus!
