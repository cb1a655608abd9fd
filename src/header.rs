//! The two-byte header of a packet and its bit-exact wire form.
//!
//! byte 0: destination id in bits 7-4, source id in bits 3-0;
//! byte 1: message id in bits 7-5, sequence number in bits 4-1, ack flag in bit 0.
use crate::errors::ProtocolError;
use crate::ids::{group_id_lemmas, CanId, MessageId, SeqId};
use vstd::prelude::*;

verus! {

#[derive(Clone, Copy, Debug, PartialEq, Eq, Structural)]
pub struct Header {
    pub id_dest: CanId,
    pub id_src: CanId,
    pub is_ack: bool,
    pub id_message: MessageId,
    pub seq_number: SeqId,
}

impl Header {
    /// Every field fits in its bit field.
    pub open spec fn wf(&self) -> bool {
        &&& self.id_dest.wf()
        &&& self.id_src.wf()
        &&& self.id_message.wf()
        &&& self.seq_number.wf()
    }

    /// Builds a header; a node never addresses itself.
    pub fn new(
        id_dest: CanId,
        id_src: CanId,
        is_ack: bool,
        id_message: MessageId,
        seq_number: SeqId,
    ) -> (r: Result<Header, ProtocolError>)
        ensures
            id_dest == id_src ==> r is Err && r->Err_0 == ProtocolError::SrcAndDestCanNotBeEqual,
            id_dest != id_src ==> r is Ok && r->Ok_0 == (Header {
                id_dest,
                id_src,
                is_ack,
                id_message,
                seq_number,
            }),
    {
        if id_dest == id_src {
            return Err(ProtocolError::SrcAndDestCanNotBeEqual);
        }
        Ok(Header { id_dest, id_src, is_ack, id_message, seq_number })
    }

    /// Reads a header from its two bytes. Every pair of bytes is some header.
    pub fn new_from_binary_array(array: &[u8; 2]) -> (r: Result<Header, ProtocolError>)
        ensures
            r is Ok && r->Ok_0 == header_from_bytes(array[0], array[1]),
            r->Ok_0.wf(),
    {
        broadcast use group_id_lemmas;

        let b0 = array[0];
        let b1 = array[1];
        let id_dest_raw: u8 = (b0 & 0b1111_0000) >> 4;
        let id_src_raw: u8 = b0 & 0b0000_1111;
        let id_message_raw: u8 = (b1 & 0b1110_0000) >> 5;
        let seq_number_raw: u8 = (b1 & 0b0001_1110) >> 1;
        let is_ack_raw: u8 = b1 & 0b0000_0001;
        proof {
            assert(id_dest_raw == b0 / 16) by (bit_vector)
                requires
                    id_dest_raw == (b0 & 0b1111_0000) >> 4,
            ;
            assert(id_src_raw == b0 % 16) by (bit_vector)
                requires
                    id_src_raw == b0 & 0b0000_1111,
            ;
            assert(id_message_raw == b1 / 32) by (bit_vector)
                requires
                    id_message_raw == (b1 & 0b1110_0000) >> 5,
            ;
            assert(seq_number_raw == (b1 / 2) % 16) by (bit_vector)
                requires
                    seq_number_raw == (b1 & 0b0001_1110) >> 1,
            ;
            assert(is_ack_raw == b1 % 2) by (bit_vector)
                requires
                    is_ack_raw == b1 & 0b0000_0001,
            ;
        }
        let id_dest = CanId::new(id_dest_raw as usize).unwrap();
        let id_src = CanId::new(id_src_raw as usize).unwrap();
        let id_message = MessageId::new(id_message_raw as usize).unwrap();
        let seq_number = SeqId::new(seq_number_raw as usize).unwrap();
        Ok(Header { id_dest, id_src, is_ack: is_ack_raw == 1, id_message, seq_number })
    }

    /// The two bytes of the header on the wire.
    pub fn get_header_as_binary_array(&self) -> (r: [u8; 2])
        requires
            self.wf(),
        ensures
            r@ == header_bytes(*self),
    {
        let dest = self.id_dest.value() as u8;
        let src = self.id_src.value() as u8;
        let mes = self.id_message.value() as u8;
        let seq = self.seq_number.value() as u8;
        let ack: u8 = if self.is_ack {
            1
        } else {
            0
        };
        let b0: u8 = (dest << 4) | src;
        let b1: u8 = (mes << 5) | (seq << 1) | ack;
        proof {
            assert(b0 == dest * 16 + src) by (bit_vector)
                requires
                    dest < 16,
                    src < 16,
                    b0 == (dest << 4) | src,
            ;
            assert(b1 == mes * 32 + seq * 2 + ack) by (bit_vector)
                requires
                    mes < 8,
                    seq < 16,
                    ack < 2,
                    b1 == (mes << 5) | (seq << 1) | ack,
            ;
        }
        let r = [b0, b1];
        assert(r@ =~= header_bytes(*self));
        r
    }

    pub fn get_id_dest(&self) -> (r: CanId)
        ensures
            r == self.id_dest,
    {
        self.id_dest
    }

    pub fn get_id_src(&self) -> (r: CanId)
        ensures
            r == self.id_src,
    {
        self.id_src
    }

    pub fn get_is_ack(&self) -> (r: bool)
        ensures
            r == self.is_ack,
    {
        self.is_ack
    }

    pub fn get_id_message(&self) -> (r: MessageId)
        ensures
            r == self.id_message,
    {
        self.id_message
    }

    pub fn get_seq_number(&self) -> (r: SeqId)
        ensures
            r == self.seq_number,
    {
        self.seq_number
    }
}

/// The wire form of a header whose fields are in range.
pub open spec fn header_bytes(h: Header) -> Seq<u8> {
    seq![
        (h.id_dest@ * 16 + h.id_src@) as u8,
        (h.id_message@ * 32 + h.seq_number@ * 2 + if h.is_ack { 1int } else { 0int }) as u8,
    ]
}

/// The header that two bytes stand for.
pub open spec fn header_from_bytes(b0: u8, b1: u8) -> Header {
    Header {
        id_dest: CanId::spec_new((b0 / 16) as nat),
        id_src: CanId::spec_new((b0 % 16) as nat),
        is_ack: b1 % 2 == 1,
        id_message: MessageId::spec_new((b1 / 32) as nat),
        seq_number: SeqId::spec_new(((b1 / 2) % 16) as nat),
    }
}

/// Decoding the wire form of a header gives the header back.
pub proof fn lemma_header_round_trip(h: Header)
    requires
        h.wf(),
    ensures
        header_from_bytes(header_bytes(h)[0], header_bytes(h)[1]) == h,
{
    broadcast use group_id_lemmas;

    let b = header_bytes(h);
    let ack: int = if h.is_ack {
        1
    } else {
        0
    };
    assert(b[0] == h.id_dest@ * 16 + h.id_src@);
    assert(b[1] == h.id_message@ * 32 + h.seq_number@ * 2 + ack);
}

/// Encoding the header that two bytes stand for gives the bytes back: the
/// wire form uses every bit.
pub proof fn lemma_header_bytes_of_decoded(b0: u8, b1: u8)
    ensures
        header_from_bytes(b0, b1).wf(),
        header_bytes(header_from_bytes(b0, b1)) == seq![b0, b1],
{
    broadcast use group_id_lemmas;

    assert(header_bytes(header_from_bytes(b0, b1)) =~= seq![b0, b1]);
}

} // verus!
