//! A packet: a header and six bytes of payload, exactly one eight-byte CAN frame.
use crate::errors::{ProtocolError, SendError};
use crate::header::{header_bytes, header_from_bytes, lemma_header_bytes_of_decoded, lemma_header_round_trip, Header};
use vstd::prelude::*;

verus! {

/// Payload bytes carried by one packet.
pub const PACKET_DATA_SIZE: usize = 6;

/// Bytes of one transport frame.
pub const CAN_PACKET_SIZE: usize = 8;

/// A transport that receives data one word at a time.
pub trait Read {
    type Error;

    fn read(&mut self) -> Result<u8, Self::Error>;
}

/// A transport that sends data one word at a time.
pub trait Write {
    type Error;

    /// The words the transport has accepted so far. A transport that the
    /// verifier checks defines it; the default exists so that transports
    /// outside the verifier need not name it. The `ensures` of `write`, and
    /// what `Packet::send` and `Message::send` state of `sent`, hold only for
    /// transports that define `sent`: for one that keeps the default they say
    /// nothing.
    closed spec fn sent(&self) -> Seq<u8> {
        Seq::empty()
    }

    /// Sends one word; an accepted word is appended to `sent`, a refused one
    /// leaves it as it was.
    fn write(&mut self, word: u8) -> (r: Result<(), Self::Error>)
        ensures
            r is Ok ==> final(self).sent() == old(self).sent().push(word),
            r is Err ==> final(self).sent() == old(self).sent();

    fn flush(&mut self) -> Result<(), Self::Error>;
}

#[derive(Clone, Copy, Debug)]
pub struct Packet {
    pub header: Header,
    pub payload: [u8; 6],
}

impl Packet {
    pub open spec fn wf(&self) -> bool {
        self.header.wf()
    }

    pub fn new(header: Header, data: [u8; 6]) -> (r: Packet)
        ensures
            r == (Packet { header, payload: data }),
    {
        Packet { header, payload: data }
    }

    /// Reads a packet from a frame. Every frame is some packet.
    pub fn new_from_binary_array(data: &[u8; 8]) -> (r: Result<Packet, ProtocolError>)
        ensures
            r is Ok,
            r->Ok_0.wf(),
            is_packet_of(data@, r->Ok_0),
    {
        let header = Header::new_from_binary_array(&[data[0], data[1]]).unwrap();
        let mut payload = [0u8; 6];
        let mut i: usize = 0;
        while i < 6
            invariant
                0 <= i <= 6,
                forall|k: int| 0 <= k < i ==> payload[k] == data[k + 2],
            decreases 6 - i,
        {
            payload[i] = data[i + 2];
            i = i + 1;
        }
        assert(payload@ =~= data@.subrange(2, 8));
        Ok(Packet { header, payload })
    }

    /// The frame that carries this packet.
    pub fn get_packet_as_binary_array(&self) -> (r: [u8; 8])
        requires
            self.wf(),
        ensures
            r@ == packet_bytes(*self),
    {
        let h = self.header.get_header_as_binary_array();
        let mut packet = [0u8; 8];
        packet[0] = h[0];
        packet[1] = h[1];
        let mut i: usize = 0;
        while i < 6
            invariant
                0 <= i <= 6,
                packet[0] == h[0],
                packet[1] == h[1],
                forall|k: int| 0 <= k < i ==> packet[k + 2] == self.payload[k],
            decreases 6 - i,
        {
            packet[i + 2] = self.payload[i];
            i = i + 1;
        }
        assert(packet@ =~= packet_bytes(*self));
        packet
    }

    /// Writes the frame of this packet to `tx`, byte after byte, and stops at
    /// the first byte that the transport refuses.
    pub fn send<Tx: Write>(&mut self, tx: &mut Tx) -> (r: Result<(), SendError>)
        requires
            old(self).wf(),
        ensures
            *final(self) == *old(self),
            r matches Ok(()) || r == Err::<(), SendError>(SendError::SendFailed),
            r is Ok ==> final(tx).sent() == old(tx).sent() + packet_bytes(*old(self)),
            r is Err ==> exists|k: int|
                0 <= k < 8 && final(tx).sent() == old(tx).sent() + packet_bytes(*old(self)).take(k),
    {
        let frame = self.get_packet_as_binary_array();
        let ghost start = tx.sent();
        let mut i: usize = 0;
        while i < 8
            invariant
                0 <= i <= 8,
                frame@ == packet_bytes(*self),
                tx.sent() == start + frame@.take(i as int),
                start == old(tx).sent(),
                *self == *old(self),
            decreases 8 - i,
        {
            match tx.write(frame[i]) {
                Ok(_) => {},
                Err(_) => {
                    assert(tx.sent() == old(tx).sent() + packet_bytes(*old(self)).take(i as int));
                    return Err(SendError::SendFailed);
                },
            }
            assert(frame@.take(i + 1) =~= frame@.take(i as int).push(frame[i as int]));
            i = i + 1;
        }
        assert(frame@.take(8) =~= frame@);
        Ok(())
    }
}

/// The frame of a packet: its header bytes, then its payload.
pub open spec fn packet_bytes(p: Packet) -> Seq<u8> {
    header_bytes(p.header) + p.payload@
}

/// `p` is the packet that the frame `b` carries.
pub open spec fn is_packet_of(b: Seq<u8>, p: Packet) -> bool {
    &&& b.len() == 8
    &&& p.header == header_from_bytes(b[0], b[1])
    &&& p.payload@ == b.subrange(2, 8)
}

/// The packet that the frame `b` carries.
pub open spec fn decoded(b: Seq<u8>) -> Packet {
    choose|p: Packet| is_packet_of(b, p)
}

/// A frame carries one packet only, and `decoded` names it.
pub proof fn lemma_decoded(b: Seq<u8>, p: Packet)
    requires
        is_packet_of(b, p),
    ensures
        decoded(b) == p,
{
    let q = decoded(b);
    assert(is_packet_of(b, q));
    assert(q.payload@ =~= p.payload@);
    vstd::array::axiom_array_ext_equal(q.payload, p.payload);
}

/// Decoding the frame of a valid packet gives that packet back.
pub proof fn lemma_packet_round_trip(p: Packet, q: Packet)
    requires
        p.wf(),
        is_packet_of(packet_bytes(p), q),
    ensures
        q == p,
{
    lemma_header_round_trip(p.header);
    let b = packet_bytes(p);
    assert(b[0] == header_bytes(p.header)[0]);
    assert(b[1] == header_bytes(p.header)[1]);
    assert(q.payload@ =~= p.payload@);
    vstd::array::axiom_array_ext_equal(q.payload, p.payload);
}

/// The frame of the packet that a frame carries is that frame.
pub proof fn lemma_packet_bytes_of_decoded(b: Seq<u8>, p: Packet)
    requires
        is_packet_of(b, p),
    ensures
        p.wf(),
        packet_bytes(p) == b,
{
    lemma_header_bytes_of_decoded(b[0], b[1]);
    assert(packet_bytes(p) =~= b);
}

} // verus!
