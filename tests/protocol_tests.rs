use can_protocol::{CanId, Header, Message, MessageId, Messages, Packet, Protocol, SeqId};

fn header(dest: usize, src: usize, ack: bool, mes: usize, seq: usize) -> Header {
    Header::new(
        CanId::new(dest).unwrap(),
        CanId::new(src).unwrap(),
        ack,
        MessageId::new(mes).unwrap(),
        SeqId::new(seq).unwrap(),
    )
    .unwrap()
}

fn frame(h: Header, payload: [u8; 6]) -> [u8; 8] {
    Packet::new(h, payload).get_packet_as_binary_array()
}

fn endpoint(host: usize) -> Protocol {
    Protocol::new(CanId::new(host).unwrap()).unwrap()
}

fn message(id: usize, dest: usize, src: usize, data: &[u8]) -> Message {
    Message::new(
        MessageId::new(id).unwrap(),
        CanId::new(dest).unwrap(),
        CanId::new(src).unwrap(),
        heapless::Vec::from_slice(data).unwrap(),
    )
    .unwrap()
}

fn twelve() -> Vec<u8> {
    (1..=12).collect()
}

#[test]
fn two_fragment_message_frames_in_descending_order() {
    let mut a = endpoint(4);
    a.add_message_to_send_buff(message(2, 3, 4, &twelve()));
    let first = frame(header(3, 4, false, 2, 1), [1, 2, 3, 4, 5, 6]);
    let second = frame(header(3, 4, false, 2, 0), [7, 8, 9, 10, 11, 12]);
    assert_eq!(a.get_next_packet_to_send(), Ok(Some(first)));
    assert_eq!(a.get_next_packet_to_send(), Ok(Some(second)));
    assert_eq!(a.get_next_packet_to_send(), Ok(Some(first)));
    assert_eq!(a.get_next_packet_to_send(), Ok(Some(second)));
}

#[test]
fn empty_endpoint_sends_nothing() {
    let mut a = endpoint(1);
    assert_eq!(a.get_next_packet_to_send(), Ok(None));
    assert!(a.received.is_empty());
}

#[test]
fn fragments_in_any_order_reassemble_once() {
    let data: Vec<u8> = (1..=20).collect();
    let mut a = endpoint(4);
    a.add_message_to_send_buff(message(5, 3, 4, &data));
    let mut frames = Vec::new();
    for _ in 0..4 {
        frames.push(a.get_next_packet_to_send().unwrap().unwrap());
    }
    // seq 3, 2, 1, 0; deliver as 2, 3, 1, 0
    let order = [1usize, 0, 2, 3];
    let mut b = endpoint(3);
    for (n, &i) in order.iter().enumerate() {
        assert_eq!(b.process_raw_packet(frames[i]), Ok(()));
        if n + 1 < order.len() {
            assert!(b.received.is_empty());
        }
    }
    assert_eq!(b.received.len(), 1);
    let mut want = data.clone();
    want.resize(24, 0);
    assert_eq!(&b.received[0][..], &want[..]);
    assert!(b.messages_in_progress.is_empty());
}

#[test]
fn largest_message_reassembles() {
    let data: Vec<u8> = (0..90).map(|i| i as u8).collect();
    let mut a = endpoint(4);
    a.add_message_to_send_buff(message(1, 3, 4, &data));
    let mut b = endpoint(3);
    for _ in 0..15 {
        let f = a.get_next_packet_to_send().unwrap().unwrap();
        b.process_raw_packet(f).unwrap();
        // hand every acknowledgement back at once
        let ack = b.get_next_packet_to_send().unwrap().unwrap();
        a.process_raw_packet(ack).unwrap();
    }
    assert_eq!(b.received.len(), 1);
    assert_eq!(&b.received[0][..], &data[..]);
    assert!(a.send_buff.is_empty());
}

#[test]
fn retransmitted_fragment_is_gathered_once() {
    let mut b = endpoint(3);
    let f1 = frame(header(3, 4, false, 2, 1), [1, 2, 3, 4, 5, 6]);
    let f0 = frame(header(3, 4, false, 2, 0), [7, 8, 9, 10, 11, 12]);
    b.process_raw_packet(f1).unwrap();
    b.process_raw_packet(f1).unwrap();
    assert!(b.received.is_empty());
    b.process_raw_packet(f0).unwrap();
    assert_eq!(b.received.len(), 1);
    assert_eq!(&b.received[0][..], &twelve()[..]);
}

#[test]
fn data_packet_is_acknowledged_first() {
    let mut b = endpoint(3);
    b.add_message_to_send_buff(message(1, 4, 3, &[9, 9, 9]));
    b.process_raw_packet(frame(header(3, 4, false, 2, 1), [1, 2, 3, 4, 5, 6])).unwrap();
    let ack = b.get_next_packet_to_send().unwrap().unwrap();
    assert_eq!(ack, frame(header(4, 3, true, 2, 1), [0; 6]));
    assert_eq!(ack[1] & 1, 1);
    assert_eq!(b.acks_to_send.len(), 0);
    let data = b.get_next_packet_to_send().unwrap().unwrap();
    assert_eq!(data, frame(header(4, 3, false, 1, 0), [9, 9, 9, 0, 0, 0]));
}

#[test]
fn acks_leave_last_in_first_out() {
    let mut b = endpoint(3);
    b.process_raw_packet(frame(header(3, 4, false, 2, 2), [0; 6])).unwrap();
    b.process_raw_packet(frame(header(3, 5, false, 6, 9), [0; 6])).unwrap();
    assert_eq!(b.get_next_packet_to_send(), Ok(Some(frame(header(5, 3, true, 6, 9), [0; 6]))));
    assert_eq!(b.get_next_packet_to_send(), Ok(Some(frame(header(4, 3, true, 2, 2), [0; 6]))));
    assert_eq!(b.get_next_packet_to_send(), Ok(None));
}

#[test]
fn acked_message_leaves_the_queue() {
    let mut a = endpoint(4);
    a.add_message_to_send_buff(message(2, 3, 4, &twelve()));
    a.process_raw_packet(frame(header(4, 3, true, 2, 0), [0; 6])).unwrap();
    assert_eq!(a.send_buff.len(), 1);
    let first = frame(header(3, 4, false, 2, 1), [1, 2, 3, 4, 5, 6]);
    assert_eq!(a.get_next_packet_to_send(), Ok(Some(first)));
    assert_eq!(a.get_next_packet_to_send(), Ok(None));
    assert_eq!(a.get_next_packet_to_send(), Ok(Some(first)));
    a.process_raw_packet(frame(header(4, 3, true, 2, 1), [0; 6])).unwrap();
    assert!(a.send_buff.is_empty());
    assert_eq!(a.get_next_packet_to_send(), Ok(None));
}

#[test]
fn frames_for_other_nodes_are_ignored() {
    let mut b = endpoint(3);
    b.process_raw_packet(frame(header(7, 4, false, 2, 0), [1, 2, 3, 4, 5, 6])).unwrap();
    assert!(b.received.is_empty());
    assert!(b.acks_to_send.is_empty());
    assert!(b.messages_in_progress.is_empty());
}

#[test]
fn ack_leaves_reassemblies_alone() {
    let mut b = endpoint(3);
    b.add_message_to_send_buff(message(1, 4, 3, &[5]));
    b.process_raw_packet(frame(header(3, 4, false, 2, 1), [1; 6])).unwrap();
    b.get_next_packet_to_send().unwrap();
    b.process_raw_packet(frame(header(3, 4, true, 1, 0), [0; 6])).unwrap();
    assert!(b.send_buff.is_empty());
    assert_eq!(b.messages_in_progress.len(), 1);
    assert!(b.received.is_empty());
}

#[test]
fn ack_for_unknown_message_changes_nothing() {
    let mut a = endpoint(4);
    a.add_message_to_send_buff(message(2, 3, 4, &[1]));
    a.process_raw_packet(frame(header(4, 3, true, 6, 0), [0; 6])).unwrap();
    assert_eq!(a.send_buff.len(), 1);
    assert!(a.acks_to_send.is_empty());
}

#[test]
fn removal_is_swap_based() {
    let mut a: Messages = endpoint(4);
    a.add_message_to_send_buff(message(1, 3, 4, &[1]));
    a.add_message_to_send_buff(message(2, 3, 4, &[2]));
    a.add_message_to_send_buff(message(3, 3, 4, &[3]));
    a.process_raw_packet(frame(header(4, 3, true, 1, 0), [0; 6])).unwrap();
    assert_eq!(a.send_buff.len(), 2);
    assert_eq!(a.send_buff[0].id.value(), 3);
    assert_eq!(a.send_buff[1].id.value(), 2);
    assert_eq!(a.get_next_packet_to_send(), Ok(Some(frame(header(3, 4, false, 3, 0), [3, 0, 0, 0, 0, 0]))));
}

#[test]
fn send_ack_swaps_addresses() {
    let mut b = endpoint(3);
    let p = Packet::new(header(3, 9, false, 5, 4), [1, 2, 3, 4, 5, 6]);
    assert_eq!(b.send_ack(&p), Ok(()));
    assert_eq!(b.acks_to_send[0], frame(header(9, 3, true, 5, 4), [0; 6]));
}

#[test]
fn separate_sources_are_gathered_apart() {
    let mut b = endpoint(3);
    b.process_data_packet(Packet::new(header(3, 4, false, 2, 1), [1; 6]));
    b.process_data_packet(Packet::new(header(3, 5, false, 2, 1), [2; 6]));
    assert_eq!(b.messages_in_progress.len(), 2);
    b.process_data_packet(Packet::new(header(3, 5, false, 2, 0), [3; 6]));
    assert_eq!(b.messages_in_progress.len(), 2);
    assert_eq!(b.messages_in_progress[1].buff.len(), 2);
    assert_eq!(b.messages_in_progress[0].buff.len(), 1);
    assert!(b.received.is_empty());
    assert_eq!(b.acks_to_send.len(), 3);
}

#[test]
fn completion_waits_for_the_sweep() {
    let mut b = endpoint(3);
    b.process_data_packet(Packet::new(header(3, 4, false, 2, 1), [1, 2, 3, 4, 5, 6]));
    b.process_data_packet(Packet::new(header(3, 4, false, 2, 0), [7, 8, 9, 10, 11, 12]));
    assert_eq!(b.messages_in_progress.len(), 1);
    assert!(b.received.is_empty());
    // any later frame for this node sweeps the finished message out
    b.process_raw_packet(frame(header(3, 6, true, 1, 0), [0; 6])).unwrap();
    assert!(b.messages_in_progress.is_empty());
    assert_eq!(b.received.len(), 1);
    assert_eq!(&b.received[0][..], &twelve()[..]);
}

#[test]
fn full_send_queue_is_reported() {
    let mut a = endpoint(4);
    for k in 0..8 {
        assert!(!a.send_buff_is_full());
        a.add_message_to_send_buff(message(k % 8, 3, 4, &[k as u8]));
    }
    assert!(a.send_buff_is_full());
}

#[test]
fn room_for_frames_is_reported() {
    let mut b = endpoint(3);
    for m in 0..8 {
        let f = frame(header(3, 4, false, m, 1), [0; 6]);
        assert!(b.has_room_for(&f));
        b.process_raw_packet(f).unwrap();
        b.get_next_packet_to_send().unwrap();
    }
    // eight open reassemblies: a new message has no room, a known one has
    assert!(!b.has_room_for(&frame(header(3, 5, false, 0, 1), [0; 6])));
    assert!(b.has_room_for(&frame(header(3, 4, false, 0, 0), [0; 6])));
    assert!(b.has_room_for(&frame(header(2, 5, false, 0, 1), [0; 6])));
}
