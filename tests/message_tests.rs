use can_protocol::{CanId, Header, Message, MessageId, Packet, ProtocolError, SendError, SeqId, Write};

fn header(dest: usize, src: usize, ack: bool, mes: usize, seq: usize) -> Header {
    Header::new(
        CanId::new(dest).unwrap(),
        CanId::new(src).unwrap(),
        ack,
        MessageId::new(mes).unwrap(),
        SeqId::new(seq).unwrap(),
    )
    .unwrap()
}

fn message(id: usize, dest: usize, src: usize, data: &[u8]) -> Message {
    Message::new(
        MessageId::new(id).unwrap(),
        CanId::new(dest).unwrap(),
        CanId::new(src).unwrap(),
        heapless::Vec::from_slice(data).unwrap(),
    )
    .unwrap()
}

fn frame(p: &Packet) -> Vec<u8> {
    p.get_packet_as_binary_array().to_vec()
}

struct Tx {
    buff: Vec<u8>,
}

impl Write for Tx {
    type Error = SendError;

    fn write(&mut self, word: u8) -> Result<(), Self::Error> {
        self.buff.push(word);
        Ok(())
    }

    fn flush(&mut self) -> Result<(), Self::Error> {
        Ok(())
    }
}

/// Refuses every byte after the tenth.
struct Refusing {
    buff: Vec<u8>,
}

impl Write for Refusing {
    type Error = ();

    fn write(&mut self, word: u8) -> Result<(), ()> {
        if self.buff.len() == 10 {
            return Err(());
        }
        self.buff.push(word);
        Ok(())
    }

    fn flush(&mut self) -> Result<(), ()> {
        Ok(())
    }
}

#[test]
fn single_packet_message_creation() {
    let mut tx = Tx { buff: Vec::new() };
    let mut sender = message(2, 3, 4, &[1, 2, 3, 4, 5, 6]);
    sender.send(&mut tx).unwrap();

    assert_eq!(tx.buff, frame(&Packet::new(header(3, 4, false, 2, 0), [1, 2, 3, 4, 5, 6])));
    sender.send(&mut tx).unwrap();
}

/// check if the message is correctly cut in packets
#[test]
fn multiple_packet_message_creation() {
    let mut tx = Tx { buff: Vec::new() };
    let mut sender = message(2, 3, 4, &[1, 2, 3, 4, 5, 6, 7, 8, 9, 10, 11, 12]);
    sender.send(&mut tx).unwrap();

    println!("ldkasvjblda");
    let mut expected = frame(&Packet::new(header(3, 4, false, 2, 1), [1, 2, 3, 4, 5, 6]));
    expected.extend(frame(&Packet::new(header(3, 4, false, 2, 0), [7, 8, 9, 10, 11, 12])));
    assert_eq!(tx.buff, expected);
}

/// Check if the packets from which we havent received the ACKs are resend.
#[test]
fn send_multiple_times_before_ack() {
    let mut tx = Tx { buff: Vec::new() };
    let mut sender = message(2, 3, 4, &[1, 2, 3, 4, 5, 6, 7, 8, 9, 10, 11, 12]);
    sender.send(&mut tx).unwrap();
    sender.send(&mut tx).unwrap();
    let packet1 = Packet::new(header(3, 4, false, 2, 1), [1, 2, 3, 4, 5, 6]);
    let packet2 = Packet::new(header(3, 4, false, 2, 0), [7, 8, 9, 10, 11, 12]);

    let mut expected = frame(&packet1);
    expected.extend(frame(&packet2));
    expected.extend(frame(&packet1));
    expected.extend(frame(&packet2));
    assert_eq!(tx.buff, expected);
}

#[test]
fn receive_all_acks() {
    let mut tx = Tx { buff: Vec::new() };
    let mut sender = message(2, 3, 4, &[6, 5, 4, 3, 2, 1, 1, 2, 3, 4, 5, 6]);
    sender.send(&mut tx).unwrap();

    sender.process_msg(Packet::new(header(3, 4, true, 2, 1), [0; 6]));
    sender.process_msg(Packet::new(header(3, 4, true, 2, 0), [0; 6]));
    assert!(sender.all_ack_received());
}

/// The acknowledgement of sequence number 1 confirms the first fragment: only
/// the last one (sequence number 0) is sent again.
#[test]
fn receive_only_one_ack() {
    let mut tx = Tx { buff: Vec::new() };
    let mut sender = message(2, 3, 4, &[6, 5, 4, 3, 2, 1, 1, 2, 3, 4, 5, 6]);
    sender.process_msg(Packet::new(header(3, 4, true, 2, 1), [0; 6]));
    sender.send(&mut tx).unwrap();

    assert_eq!(tx.buff, frame(&Packet::new(header(3, 4, false, 2, 0), [1, 2, 3, 4, 5, 6])));
}

#[test]
fn message_rejects_self_addressing() {
    let r = Message::new(
        MessageId::new(1).unwrap(),
        CanId::new(5).unwrap(),
        CanId::new(5).unwrap(),
        heapless::Vec::from_slice(&[1, 2, 3]).unwrap(),
    );
    assert!(matches!(r, Err(ProtocolError::SrcAndDestCanNotBeEqual)));
}

#[test]
fn empty_message_has_no_fragment() {
    let mut m = Message::new(
        MessageId::new(1).unwrap(),
        CanId::new(5).unwrap(),
        CanId::new(6).unwrap(),
        heapless::Vec::new(),
    )
    .unwrap();
    assert_eq!(m.ack_received.len(), 0);
    assert!(m.all_ack_received());
    assert!(m.get_next_packet_to_send().unwrap().is_none());
    let mut tx = Tx { buff: Vec::new() };
    assert_eq!(m.send(&mut tx), Ok(()));
    assert!(tx.buff.is_empty());
}

#[test]
fn send_stops_at_a_refused_byte() {
    let mut tx = Refusing { buff: Vec::new() };
    let mut sender = message(2, 3, 4, &[1, 2, 3, 4, 5, 6, 7, 8, 9, 10, 11, 12]);
    assert_eq!(sender.send(&mut tx), Err(SendError::SendFailed));
    let mut expected = frame(&Packet::new(header(3, 4, false, 2, 1), [1, 2, 3, 4, 5, 6]));
    expected.extend(&frame(&Packet::new(header(3, 4, false, 2, 0), [7, 8, 9, 10, 11, 12]))[..2]);
    assert_eq!(tx.buff, expected);
}

#[test]
fn fully_acknowledged_message_sends_nothing() {
    let mut tx = Tx { buff: Vec::new() };
    let mut sender = message(2, 3, 4, &[1, 2, 3, 4, 5, 6, 7]);
    sender.mark_ack_as_received(SeqId::new(0).unwrap());
    sender.mark_ack_as_received(SeqId::new(1).unwrap());
    assert_eq!(sender.send(&mut tx), Ok(()));
    assert!(tx.buff.is_empty());
}

#[test]
fn fragment_count_rounds_up() {
    assert_eq!(message(1, 2, 3, &[1]).ack_received.len(), 1);
    assert_eq!(message(1, 2, 3, &[0; 6]).ack_received.len(), 1);
    assert_eq!(message(1, 2, 3, &[0; 7]).ack_received.len(), 2);
    assert_eq!(message(1, 2, 3, &[0; 90]).ack_received.len(), 15);
    assert!(message(1, 2, 3, &[0; 90]).ack_received.iter().all(|a| !*a));
}

#[test]
fn round_robin_two_fragments() {
    let mut m = message(2, 3, 4, &[1, 2, 3, 4, 5, 6, 7, 8, 9, 10, 11, 12]);
    let first = Packet::new(header(3, 4, false, 2, 1), [1, 2, 3, 4, 5, 6]);
    let second = Packet::new(header(3, 4, false, 2, 0), [7, 8, 9, 10, 11, 12]);
    for _ in 0..2 {
        let p = m.get_next_packet_to_send().unwrap().unwrap();
        assert_eq!(frame(&p), frame(&first));
        let p = m.get_next_packet_to_send().unwrap().unwrap();
        assert_eq!(frame(&p), frame(&second));
    }
}

#[test]
fn acknowledged_fragment_is_skipped() {
    let mut m = message(2, 3, 4, &[1, 2, 3, 4, 5, 6, 7, 8, 9, 10, 11, 12, 13]);
    m.mark_ack_as_received(SeqId::new(1).unwrap());
    let p = m.get_next_packet_to_send().unwrap().unwrap();
    assert_eq!(frame(&p), frame(&Packet::new(header(3, 4, false, 2, 2), [1, 2, 3, 4, 5, 6])));
    assert!(m.get_next_packet_to_send().unwrap().is_none());
    let p = m.get_next_packet_to_send().unwrap().unwrap();
    assert_eq!(frame(&p), frame(&Packet::new(header(3, 4, false, 2, 0), [13, 0, 0, 0, 0, 0])));
    m.mark_ack_as_received(SeqId::new(2).unwrap());
    m.mark_ack_as_received(SeqId::new(0).unwrap());
    assert!(m.all_ack_received());
    for _ in 0..4 {
        assert!(m.get_next_packet_to_send().unwrap().is_none());
    }
}

#[test]
fn out_of_range_ack_changes_nothing() {
    let mut m = message(2, 3, 4, &[1, 2, 3]);
    m.mark_ack_as_received(SeqId::new(5).unwrap());
    assert!(!m.all_ack_received());
    m.mark_ack_as_received(SeqId::new(0).unwrap());
    assert!(m.all_ack_received());
}
