use can_protocol::{CanId, Header, MessageId, ProtocolError, SeqId};

fn header(dest: usize, src: usize, ack: bool, mes: usize, seq: usize) -> Header {
    Header::new(
        CanId::new(dest).unwrap(),
        CanId::new(src).unwrap(),
        ack,
        MessageId::new(mes).unwrap(),
        SeqId::new(seq).unwrap(),
    )
    .unwrap()
}

#[test]
fn new_from_binary_array_test() {
    #[allow(clippy::all)]
    let sample_data = [0xFD, 0b001_0010_1];
    let header = Header::new_from_binary_array(&sample_data).unwrap();
    assert_eq!(header.get_id_dest().value(), 0x0F);
    assert_eq!(header.get_id_src().value(), 0x0D);
    assert_eq!(header.get_id_message().value(), 0b001);
    assert_eq!(header.get_seq_number().value(), 0b0010);
    assert!(header.get_is_ack());
}

#[test]
fn id_bounds() {
    assert_eq!(CanId::new(16), Err(ProtocolError::InvalidId(16)));
    assert_eq!(MessageId::new(8), Err(ProtocolError::InvalidId(8)));
    assert_eq!(SeqId::new(16), Err(ProtocolError::InvalidId(16)));
    assert_eq!(CanId::new(15).unwrap().value(), 15);
    assert_eq!(MessageId::new(7).unwrap().value(), 7);
    assert_eq!(SeqId::new(0).unwrap().value(), 0);
}

#[test]
fn header_rejects_self_addressing() {
    for id in 0..16 {
        let r = Header::new(
            CanId::new(id).unwrap(),
            CanId::new(id).unwrap(),
            false,
            MessageId::new(1).unwrap(),
            SeqId::new(0).unwrap(),
        );
        assert_eq!(r, Err(ProtocolError::SrcAndDestCanNotBeEqual));
    }
}

#[test]
fn header_encodes_bit_fields() {
    let h = header(1, 2, false, 4, 8);
    assert_eq!(h.get_header_as_binary_array(), [0x12, 0x90]);
    let h = header(15, 13, true, 1, 2);
    assert_eq!(h.get_header_as_binary_array(), [0xFD, 0b0010_0101]);
}

#[test]
fn header_round_trip() {
    for dest in 0..16 {
        for mes in 0..8 {
            for seq in 0..16 {
                let src = (dest + 1) % 16;
                let ack = (dest + mes + seq) % 2 == 0;
                let h = header(dest, src, ack, mes, seq);
                let back = Header::new_from_binary_array(&h.get_header_as_binary_array()).unwrap();
                assert_eq!(back, h);
            }
        }
    }
}

#[test]
fn every_byte_pair_decodes_and_encodes_back() {
    for b0 in [0u8, 0x12, 0x7F, 0xA5, 0xFF] {
        for b1 in [0u8, 0x01, 0x90, 0xE3, 0xFF] {
            let h = Header::new_from_binary_array(&[b0, b1]).unwrap();
            assert_eq!(h.get_header_as_binary_array(), [b0, b1]);
        }
    }
}
