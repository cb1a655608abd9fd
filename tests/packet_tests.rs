use can_protocol::{CanId, Header, MessageId, Packet, SendError, SeqId, Write};

fn header(dest: usize, src: usize, ack: bool, mes: usize, seq: usize) -> Header {
    Header::new(
        CanId::new(dest).unwrap(),
        CanId::new(src).unwrap(),
        ack,
        MessageId::new(mes).unwrap(),
        SeqId::new(seq).unwrap(),
    )
    .unwrap()
}

struct Tx {
    buff: Vec<u8>,
    fail_at: usize,
}

impl Write for Tx {
    type Error = SendError;

    fn write(&mut self, word: u8) -> Result<(), Self::Error> {
        if self.buff.len() == self.fail_at {
            return Err(SendError::SendFailed);
        }
        self.buff.push(word);
        Ok(())
    }

    fn flush(&mut self) -> Result<(), Self::Error> {
        Ok(())
    }
}

#[test]
fn test_packet_new() {
    let header = header(1, 2, false, 4, 8);
    let packet = Packet::new(header, [3; 6]);
    let mess: [u8; 8] = [0b0001_0010, 0b1001_0000, 3, 3, 3, 3, 3, 3];
    println!("Packet : {:?}", packet.get_packet_as_binary_array());
    for (p, m) in packet.get_packet_as_binary_array().iter().zip(mess.iter()) {
        assert_eq!(p, m);
    }
}

#[test]
fn packet_round_trip() {
    let p = Packet::new(header(3, 4, true, 2, 11), [9, 8, 7, 6, 5, 4]);
    let frame = p.get_packet_as_binary_array();
    let q = Packet::new_from_binary_array(&frame).unwrap();
    assert_eq!(q.header, p.header);
    assert_eq!(q.payload, p.payload);
    assert_eq!(q.get_packet_as_binary_array(), frame);
}

#[test]
fn packet_send_writes_the_frame() {
    let mut p = Packet::new(header(1, 2, false, 4, 8), [3; 6]);
    let mut tx = Tx { buff: Vec::new(), fail_at: usize::MAX };
    assert_eq!(p.send(&mut tx), Ok(()));
    assert_eq!(tx.buff, vec![0x12, 0x90, 3, 3, 3, 3, 3, 3]);
}

#[test]
fn packet_send_reports_a_refused_byte() {
    let mut p = Packet::new(header(1, 2, false, 4, 8), [3; 6]);
    let mut tx = Tx { buff: Vec::new(), fail_at: 3 };
    assert_eq!(p.send(&mut tx), Err(SendError::SendFailed));
    assert_eq!(tx.buff, vec![0x12, 0x90, 3]);
}
