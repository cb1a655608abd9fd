//! The endpoint of one node: it multiplexes outbound messages, acknowledgements
//! to send and inbound reassemblies over the frames of the bus.
use crate::buffers::{
    ack_frames, ack_frames_full, gathering, gathering_at_mut, gathering_slice, message_at_mut,
    messages_slice, new_ack_frames, new_gathering, new_message_queue, new_received, pop_ack_frame,
    push_ack_frame, push_gathering, push_message, push_received, queued_messages, received_count,
    received_messages, remove_gathering, swap_remove_message, swap_removed,
};
use crate::errors::ProtocolError;
use crate::header::{header_bytes, header_from_bytes, Header};
use crate::ids::{CanId, MessageId};
use crate::message::{all_set, Message};
use crate::packet::{decoded, lemma_decoded, Packet};
use crate::reassembly::{
    all_fragments_present, fragments_in_order, has_seq, lemma_fragments_reassemble, padded,
    reassembled, same_message, seq_numbers, MessageInProgress,
};
use vstd::prelude::*;

verus! {

/// Capacity of each queue of the endpoint.
pub const QUEUE_CAPACITY: usize = 8;

/// The header that acknowledges a data packet with header `h`: the addresses
/// swapped and the ack flag set.
pub open spec fn ack_header(h: Header) -> Header {
    Header {
        id_dest: h.id_src,
        id_src: h.id_dest,
        is_ack: true,
        id_message: h.id_message,
        seq_number: h.seq_number,
    }
}

/// The frame that acknowledges a data packet with header `h`; its payload is empty.
pub open spec fn ack_frame(h: Header) -> Seq<u8> {
    header_bytes(ack_header(h)) + Seq::new(6, |i: int| 0u8)
}

/// The frame carries an acknowledgement.
pub open spec fn is_ack_frame(f: Seq<u8>) -> bool {
    f.len() == 8 && header_from_bytes(f[0], f[1]).is_ack
}

/// The position of the first message of `ms` from `i` on with id `id`, or -1.
pub open spec fn first_message_from(ms: Seq<Message>, id: MessageId, i: int) -> int
    decreases ms.len() - i,
{
    if i < 0 || i >= ms.len() {
        -1
    } else if ms[i].id == id {
        i
    } else {
        first_message_from(ms, id, i + 1)
    }
}

/// The position of the first message of `ms` with id `id`, or -1.
pub open spec fn message_for(ms: Seq<Message>, id: MessageId) -> int {
    first_message_from(ms, id, 0)
}

/// The position of the first reassembly of `gs` from `k` on that gathers the
/// message of `p`, or -1.
pub open spec fn first_entry_from(gs: Seq<Seq<Packet>>, p: Packet, k: int) -> int
    decreases gs.len() - k,
{
    if k < 0 || k >= gs.len() {
        -1
    } else if gs[k].len() > 0 && same_message(gs[k][0], p) {
        k
    } else {
        first_entry_from(gs, p, k + 1)
    }
}

/// A position that `first_entry_from` gives gathers the message of `p`.
proof fn lemma_first_entry_matches(gs: Seq<Seq<Packet>>, p: Packet, k: int)
    ensures
        first_entry_from(gs, p, k) >= 0 ==> {
            let e = first_entry_from(gs, p, k);
            &&& 0 <= e < gs.len()
            &&& gs[e].len() > 0
            &&& same_message(gs[e][0], p)
        },
    decreases gs.len() - k,
{
    if 0 <= k < gs.len() && !(gs[k].len() > 0 && same_message(gs[k][0], p)) {
        lemma_first_entry_matches(gs, p, k + 1);
    }
}

/// The position of the first reassembly of `gs` that gathers the message of
/// `p`, or -1.
pub open spec fn entry_for(gs: Seq<Seq<Packet>>, p: Packet) -> int {
    first_entry_from(gs, p, 0)
}

/// `ps` with `p` added, unless a packet with its sequence number is there.
pub open spec fn with_packet(ps: Seq<Packet>, p: Packet) -> Seq<Packet> {
    if has_seq(ps, p.header.seq_number@ as int) {
        ps
    } else {
        ps.push(p)
    }
}

/// The reassemblies once the data packet `p` is gathered: added to the first
/// one of its message, or to a new one at the end.
pub open spec fn gathered_with(gs: Seq<Seq<Packet>>, p: Packet) -> Seq<Seq<Packet>> {
    let k = entry_for(gs, p);
    if k >= 0 {
        gs.update(k, with_packet(gs[k], p))
    } else {
        gs.push(seq![p])
    }
}

/// The reassemblies of `gs` that still miss fragments, in order.
pub open spec fn open_entries(gs: Seq<Seq<Packet>>) -> Seq<Seq<Packet>>
    decreases gs.len(),
{
    if gs.len() == 0 {
        gs
    } else if all_fragments_present(gs.last()) {
        open_entries(gs.drop_last())
    } else {
        open_entries(gs.drop_last()).push(gs.last())
    }
}

/// The messages of the complete reassemblies of `gs`, in order.
pub open spec fn finished(gs: Seq<Seq<Packet>>) -> Seq<Seq<u8>>
    decreases gs.len(),
{
    if gs.len() == 0 {
        Seq::empty()
    } else if all_fragments_present(gs.last()) {
        finished(gs.drop_last()).push(reassembled(gs.last()))
    } else {
        finished(gs.drop_last())
    }
}

/// No reassembly that the sweep keeps is complete.
proof fn lemma_open_entries_open(gs: Seq<Seq<Packet>>)
    ensures
        forall|k: int|
            0 <= k < open_entries(gs).len() ==> !all_fragments_present(#[trigger] open_entries(gs)[k]),
    decreases gs.len(),
{
    if gs.len() > 0 {
        lemma_open_entries_open(gs.drop_last());
        let rest = open_entries(gs.drop_last());
        if !all_fragments_present(gs.last()) {
            assert forall|k: int| 0 <= k < rest.push(gs.last()).len() implies !all_fragments_present(
                #[trigger] rest.push(gs.last())[k],
            ) by {
                if k < rest.len() {
                    assert(rest.push(gs.last())[k] == rest[k]);
                }
            }
        }
    }
}

/// A prefix has no more complete reassemblies than the whole.
proof fn lemma_finished_prefix(gs: Seq<Seq<Packet>>, t: int)
    requires
        0 <= t <= gs.len(),
    ensures
        finished(gs.take(t)).len() <= finished(gs).len(),
    decreases gs.len(),
{
    if t < gs.len() {
        assert(gs.drop_last().take(t) =~= gs.take(t));
        lemma_finished_prefix(gs.drop_last(), t);
    } else {
        assert(gs.take(t) =~= gs);
    }
}

pub struct Protocol {
    pub host_id: CanId,
    /// Reassembled messages, ready for the application.
    pub received: heapless::Vec<heapless::Vec<u8, 96>, 8>,
    /// Acknowledgement frames waiting to be sent, the last one first.
    pub acks_to_send: heapless::Vec<[u8; 8], 8>,
    /// Outbound messages; only the first one is being sent.
    pub send_buff: heapless::Vec<Message, 8>,
    /// Inbound messages of which some fragments have arrived.
    pub messages_in_progress: heapless::Vec<MessageInProgress, 8>,
}

impl Protocol {
    pub open spec fn inbox(&self) -> Seq<Seq<u8>> {
        received_messages(self.received)
    }

    pub open spec fn pending_acks(&self) -> Seq<[u8; 8]> {
        ack_frames(self.acks_to_send)
    }

    pub open spec fn outbox(&self) -> Seq<Message> {
        queued_messages(self.send_buff)
    }

    pub open spec fn partial(&self) -> Seq<MessageInProgress> {
        gathering(self.messages_in_progress)
    }

    /// The packets of each open reassembly.
    pub open spec fn gathered(&self) -> Seq<Seq<Packet>> {
        self.partial().map_values(|e: MessageInProgress| e.packets())
    }

    pub open spec fn wf(&self) -> bool {
        &&& self.host_id.wf()
        &&& forall|i: int| 0 <= i < self.outbox().len() ==> (#[trigger] self.outbox()[i]).wf()
        &&& forall|i: int|
            0 <= i < self.partial().len() ==> {
                &&& (#[trigger] self.partial()[i]).wf()
                &&& self.partial()[i].packets().len() > 0
            }
        &&& forall|i: int|
            0 <= i < self.pending_acks().len() ==> is_ack_frame((#[trigger] self.pending_acks()[i])@)
    }

    /// Every reassembly still misses a fragment: `process_raw_packet` leaves
    /// the endpoint so. (`process_data_packet` alone may leave a complete one
    /// behind until the next sweep, which is why `wf` does not ask for it.)
    pub open spec fn is_settled(&self) -> bool {
        all_open(self.gathered())
    }

    /// Moving the complete reassemblies of `gs` to `received` overfills nothing.
    pub open spec fn has_room_to_finish(&self, gs: Seq<Seq<Packet>>) -> bool {
        self.inbox().len() + finished(gs).len() <= QUEUE_CAPACITY
    }

    /// The queues can take what a data packet `p` brings: its acknowledgement
    /// and, if it starts a message, a new reassembly.
    pub open spec fn has_room_for_data(&self, p: Packet) -> bool {
        &&& self.pending_acks().len() < QUEUE_CAPACITY
        &&& entry_for(self.gathered(), p) < 0 ==> self.partial().len() < QUEUE_CAPACITY
    }

    /// Processing the frame `raw` fills no queue beyond its capacity.
    pub open spec fn has_room_for_frame(&self, raw: Seq<u8>) -> bool {
        let p = decoded(raw);
        p.header.id_dest == self.host_id ==> if p.header.is_ack {
            self.has_room_to_finish(self.gathered())
        } else {
            &&& self.has_room_for_data(p)
            &&& self.has_room_to_finish(gathered_with(self.gathered(), p))
        }
    }

    /// An endpoint with every queue empty.
    pub fn new(host_id: CanId) -> (r: Result<Protocol, ProtocolError>)
        requires
            host_id.wf(),
        ensures
            r is Ok,
            r->Ok_0.wf(),
            r->Ok_0.host_id == host_id,
            r->Ok_0.inbox() == Seq::<Seq<u8>>::empty(),
            r->Ok_0.pending_acks() == Seq::<[u8; 8]>::empty(),
            r->Ok_0.outbox() == Seq::<Message>::empty(),
            r->Ok_0.partial() == Seq::<MessageInProgress>::empty(),
            r->Ok_0.is_settled(),
    {
        Ok(Protocol {
            host_id,
            acks_to_send: new_ack_frames(),
            received: new_received(),
            send_buff: new_message_queue(),
            messages_in_progress: new_gathering(),
        })
    }

    /// Queues a message behind those already waiting.
    pub fn add_message_to_send_buff(&mut self, mes: Message)
        requires
            old(self).wf(),
            mes.wf(),
            old(self).outbox().len() < QUEUE_CAPACITY,
        ensures
            final(self).wf(),
            final(self).outbox() == old(self).outbox().push(mes),
            final(self).host_id == old(self).host_id,
            final(self).inbox() == old(self).inbox(),
            final(self).pending_acks() == old(self).pending_acks(),
            final(self).partial() == old(self).partial(),
    {
        let _ = push_message(&mut self.send_buff, mes);
        assert(self.partial() == old(self).partial());
        assert(self.pending_acks() == old(self).pending_acks());
    }

    /// Queues the acknowledgement of a data packet.
    pub fn send_ack(&mut self, packet_to_respond: &Packet) -> (r: Result<(), ProtocolError>)
        requires
            old(self).wf(),
            packet_to_respond.wf(),
            old(self).pending_acks().len() < QUEUE_CAPACITY,
        ensures
            r is Ok,
            final(self).wf(),
            final(self).pending_acks().len() == old(self).pending_acks().len() + 1,
            final(self).pending_acks().drop_last() == old(self).pending_acks(),
            final(self).pending_acks().last()@ == ack_frame(packet_to_respond.header),
            final(self).host_id == old(self).host_id,
            final(self).inbox() == old(self).inbox(),
            final(self).outbox() == old(self).outbox(),
            final(self).partial() == old(self).partial(),
    {
        let h = packet_to_respond.header;
        let ack = Header {
            id_dest: h.id_src,
            id_src: h.id_dest,
            is_ack: true,
            id_message: h.id_message,
            seq_number: h.seq_number,
        };
        let frame = Packet::new(ack, [0u8; 6]).get_packet_as_binary_array();
        proof {
            assert(frame@ =~= ack_frame(h));
            crate::header::lemma_header_round_trip(ack);
        }
        let _ = push_ack_frame(&mut self.acks_to_send, frame);
        proof {
            assert(self.pending_acks().drop_last() =~= old(self).pending_acks());
            assert(self.partial() == old(self).partial());
            assert(self.outbox() == old(self).outbox());
        }
        Ok(())
    }

    /// The next frame to put on the bus: a pending acknowledgement first, else
    /// what the first queued message has to (re)send, if anything.
    pub fn get_next_packet_to_send(&mut self) -> (r: Result<Option<[u8; 8]>, ProtocolError>)
        requires
            old(self).wf(),
        ensures
            r is Ok,
            final(self).wf(),
            final(self).host_id == old(self).host_id,
            final(self).inbox() == old(self).inbox(),
            final(self).partial() == old(self).partial(),
            old(self).pending_acks().len() > 0 ==> {
                &&& r->Ok_0 == Some(old(self).pending_acks().last())
                &&& is_ack_frame(r->Ok_0->Some_0@)
                &&& final(self).pending_acks() == old(self).pending_acks().drop_last()
                &&& final(self).outbox() == old(self).outbox()
            },
            old(self).pending_acks().len() == 0 ==> final(self).pending_acks() == old(
                self,
            ).pending_acks(),
            old(self).pending_acks().len() == 0 && old(self).outbox().len() == 0 ==> {
                &&& r->Ok_0 is None
                &&& final(self).outbox() == old(self).outbox()
            },
            old(self).pending_acks().len() == 0 && old(self).outbox().len() > 0 ==> {
                let head = old(self).outbox()[0];
                &&& final(self).outbox() == old(self).outbox().update(0, final(self).outbox()[0])
                &&& head.advanced(final(self).outbox()[0])
                &&& r->Ok_0 is Some <==> head.sends_fragment()
                &&& r->Ok_0 is Some ==> r->Ok_0->Some_0@ == head.fragment_frame(head.cursor())
            },
    {
        match pop_ack_frame(&mut self.acks_to_send) {
            Some(frame) => {
                assert(self.partial() == old(self).partial());
                assert(self.outbox() == old(self).outbox());
                return Ok(Some(frame));
            },
            None => {},
        }
        if messages_slice(&self.send_buff).len() == 0 {
            assert(self.partial() == old(self).partial());
            return Ok(None);
        }
        let head = message_at_mut(&mut self.send_buff, 0);
        let next = head.get_next_packet_to_send();
        assert(self.partial() == old(self).partial());
        assert(self.pending_acks() == old(self).pending_acks());
        match next {
            Ok(Some(packet)) => Ok(Some(packet.get_packet_as_binary_array())),
            _ => Ok(None),
        }
    }
}

/// The reassemblies and received messages after `process_raw_packet` takes
/// the data packet `p` for this node: `p` is gathered, then every complete
/// reassembly moves to the received messages.
pub open spec fn after_data(gs: Seq<Seq<Packet>>, inbox: Seq<Seq<u8>>, p: Packet) -> (
    Seq<Seq<Packet>>,
    Seq<Seq<u8>>,
) {
    let g = gathered_with(gs, p);
    (open_entries(g), inbox + finished(g))
}

/// The reassemblies and received messages after the data packets `ps` are
/// taken one after the other.
pub open spec fn gather_all(gs: Seq<Seq<Packet>>, inbox: Seq<Seq<u8>>, ps: Seq<Packet>) -> (
    Seq<Seq<Packet>>,
    Seq<Seq<u8>>,
)
    decreases ps.len(),
{
    if ps.len() == 0 {
        (gs, inbox)
    } else {
        let (g, i) = gather_all(gs, inbox, ps.drop_last());
        after_data(g, i, ps.last())
    }
}

/// No reassembly of `gs` gathers the message of `p`.
pub open spec fn no_entry_for(gs: Seq<Seq<Packet>>, p: Packet) -> bool {
    forall|k: int| 0 <= k < gs.len() && gs[k].len() > 0 ==> !same_message(#[trigger] gs[k][0], p)
}

/// Every reassembly of `gs` has some fragments and misses some.
pub open spec fn all_open(gs: Seq<Seq<Packet>>) -> bool {
    forall|k: int| 0 <= k < gs.len() ==> (#[trigger] gs[k]).len() > 0 && !all_fragments_present(gs[k])
}

proof fn lemma_all_open(gs: Seq<Seq<Packet>>)
    requires
        all_open(gs),
    ensures
        open_entries(gs) == gs,
        finished(gs) == Seq::<Seq<u8>>::empty(),
    decreases gs.len(),
{
    if gs.len() > 0 {
        assert(all_open(gs.drop_last()));
        lemma_all_open(gs.drop_last());
        assert(gs.drop_last().push(gs.last()) =~= gs);
    }
}

/// The sweep after adding one reassembly `x` behind open ones.
proof fn lemma_sweep_push(gs: Seq<Seq<Packet>>, x: Seq<Packet>)
    requires
        all_open(gs),
    ensures
        all_fragments_present(x) ==> open_entries(gs.push(x)) == gs && finished(gs.push(x)) == seq![
            reassembled(x),
        ],
        !all_fragments_present(x) ==> open_entries(gs.push(x)) == gs.push(x) && finished(gs.push(x))
            == Seq::<Seq<u8>>::empty(),
{
    lemma_all_open(gs);
    assert(gs.push(x).drop_last() =~= gs);
    assert(gs.push(x).last() == x);
    assert(Seq::<Seq<u8>>::empty().push(reassembled(x)) =~= seq![reassembled(x)]);
}

proof fn lemma_entry_after_push(gs: Seq<Seq<Packet>>, e: Seq<Packet>, p: Packet, k: int)
    requires
        0 <= k <= gs.len(),
        no_entry_for(gs, p),
        e.len() > 0,
        same_message(e[0], p),
    ensures
        first_entry_from(gs, p, k) == -1,
        first_entry_from(gs.push(e), p, k) == gs.len(),
    decreases gs.len() - k,
{
    if k < gs.len() {
        lemma_entry_after_push(gs, e, p, k + 1);
    }
}

/// Every fragment of a message from one source, arrived in an order in which
/// no earlier run of packets already looks complete, taken by an endpoint
/// whose reassemblies are all open and hold none of that message, hands
/// exactly one message to the received queue: the bytes of the message padded
/// with zeros to whole packets; the reassemblies are left as they were.
pub proof fn lemma_message_delivered_once(
    gs: Seq<Seq<Packet>>,
    inbox: Seq<Seq<u8>>,
    m: Message,
    ps: Seq<Packet>,
    idx: Seq<nat>,
)
    requires
        m.wf(),
        m.bytes().len() >= 1,
        fragments_in_order(m, ps, idx),
        forall|k: int| 0 < k < ps.len() ==> !all_fragments_present(#[trigger] ps.take(k)),
        all_open(gs),
        no_entry_for(gs, ps[0]),
    ensures
        gather_all(gs, inbox, ps) == (gs, inbox.push(padded(m.bytes()))),
{
    lemma_fragments_reassemble(m, ps, idx);
    let n = ps.len() as int;
    lemma_gather_prefix(gs, inbox, m, ps, idx, n);
}

/// After the first `k` packets, the reassembly of the message holds them,
/// behind the others; once the last one arrives, the message is received.
proof fn lemma_gather_prefix(
    gs: Seq<Seq<Packet>>,
    inbox: Seq<Seq<u8>>,
    m: Message,
    ps: Seq<Packet>,
    idx: Seq<nat>,
    k: int,
)
    requires
        m.wf(),
        m.bytes().len() >= 1,
        fragments_in_order(m, ps, idx),
        forall|j: int| 0 < j < ps.len() ==> !all_fragments_present(#[trigger] ps.take(j)),
        all_open(gs),
        no_entry_for(gs, ps[0]),
        0 < k <= ps.len(),
    ensures
        k < ps.len() ==> gather_all(gs, inbox, ps.take(k)) == (gs.push(ps.take(k)), inbox),
        k == ps.len() ==> gather_all(gs, inbox, ps) == (gs, inbox.push(padded(m.bytes()))),
    decreases k,
{
    lemma_fragments_reassemble(m, ps, idx);
    let n = ps.len() as int;
    let t = ps.take(k);
    let j = k - 1;
    assert(t.drop_last() =~= ps.take(j));
    assert(t.last() == ps[j]);
    assert(no_entry_for(gs, ps[j]));
    let g;
    if k == 1 {
        assert(ps.take(0) =~= Seq::<Packet>::empty());
        g = gs;
        assert(gather_all(gs, inbox, ps.take(0)) == (gs, inbox));
        lemma_entry_after_push(gs, seq![ps[0]], ps[0], 0);
        assert(seq![ps[0]] =~= t);
        assert(gathered_with(gs, ps[0]) == gs.push(t));
    } else {
        lemma_gather_prefix(gs, inbox, m, ps, idx, j);
        g = gs.push(ps.take(j));
        lemma_entry_after_push(gs, ps.take(j), ps[j], 0);
        assert(!has_seq(ps.take(j), ps[j].header.seq_number@ as int)) by {
            if has_seq(ps.take(j), ps[j].header.seq_number@ as int) {
                let i = choose|i: int|
                    0 <= i < j && ps.take(j)[i].header.seq_number@ == ps[j].header.seq_number@;
                assert(seq_numbers(ps)[i] == seq_numbers(ps)[j]);
            }
        }
        assert(ps.take(j).push(ps[j]) =~= t);
        assert(entry_for(g, ps[j]) == gs.len());
        assert(g[gs.len() as int] == ps.take(j));
        assert(g.update(gs.len() as int, t) =~= gs.push(t));
        assert(gathered_with(g, ps[j]) == gs.push(t));
    }
    assert(gather_all(gs, inbox, t.drop_last()) == (g, inbox));
    assert(gather_all(gs, inbox, t) == after_data(g, inbox, ps[j]));
    lemma_sweep_push(gs, t);
    if k < n {
        assert(inbox + Seq::<Seq<u8>>::empty() =~= inbox);
    } else {
        assert(t =~= ps);
        assert(inbox + seq![reassembled(ps)] =~= inbox.push(padded(m.bytes())));
    }
}

impl Protocol {
    /// The position of the first queued message with id `id`.
    fn find_message(&self, id: MessageId) -> (r: Option<usize>)
        ensures
            r is None ==> message_for(self.outbox(), id) == -1,
            r is Some ==> message_for(self.outbox(), id) == r->Some_0 && r->Some_0 < self.outbox().len(),
    {
        let ms = messages_slice(&self.send_buff);
        let mut i: usize = 0;
        while i < ms.len()
            invariant
                ms@ == self.outbox(),
                i <= ms@.len(),
                message_for(self.outbox(), id) == first_message_from(self.outbox(), id, i as int),
            decreases ms@.len() - i,
        {
            if ms[i].id == id {
                return Some(i);
            }
            i = i + 1;
        }
        None
    }

    /// Takes an acknowledgement for this node into account: the first queued
    /// message with its id records it, and leaves the queue once every
    /// fragment is acknowledged (the last message takes its place).
    fn process_ack_packet(&mut self, packet: Packet)
        requires
            old(self).wf(),
            packet.wf(),
        ensures
            final(self).wf(),
            final(self).host_id == old(self).host_id,
            final(self).inbox() == old(self).inbox(),
            final(self).pending_acks() == old(self).pending_acks(),
            final(self).partial() == old(self).partial(),
            old(self).outbox_after_ack(final(self).outbox(), packet.header),
    {
        match self.find_message(packet.header.id_message) {
            None => {},
            Some(i) => {
                let ghost before = self.outbox();
                let m = message_at_mut(&mut self.send_buff, i);
                m.mark_ack_as_received(packet.header.seq_number);
                let done = m.all_ack_received();
                let ghost updated = self.outbox();
                assert(updated == before.update(i as int, updated[i as int]));
                if done {
                    let _ = swap_remove_message(&mut self.send_buff, i);
                    assert(swap_removed(updated, i as int) =~= swap_removed(before, i as int));
                }
            },
        }
        assert(self.partial() == old(self).partial());
        assert(self.pending_acks() == old(self).pending_acks());
    }

    /// `next` is the queue of outbound messages after the acknowledgement with
    /// header `h`.
    pub open spec fn outbox_after_ack(&self, next: Seq<Message>, h: Header) -> bool {
        let ms = self.outbox();
        let i = message_for(ms, h.id_message);
        if i < 0 {
            next == ms
        } else if all_set(ms[i].acks_after_ack(h.seq_number@)) {
            next == swap_removed(ms, i)
        } else {
            &&& next.len() == ms.len()
            &&& forall|j: int| 0 <= j < ms.len() && j != i ==> next[j] == ms[j]
            &&& ms[i].ack_applied(next[i], h.seq_number@)
        }
    }
}

impl Protocol {
    /// The position of the first open reassembly that gathers the message of `p`.
    fn find_entry(&self, p: &Packet) -> (r: Option<usize>)
        ensures
            r is None ==> entry_for(self.gathered(), *p) == -1,
            r is Some ==> entry_for(self.gathered(), *p) == r->Some_0 && r->Some_0 < self.partial().len(),
    {
        let es = gathering_slice(&self.messages_in_progress);
        let mut k: usize = 0;
        while k < es.len()
            invariant
                es@ == self.partial(),
                k <= es@.len(),
                entry_for(self.gathered(), *p) == first_entry_from(self.gathered(), *p, k as int),
            decreases es@.len() - k,
        {
            if es[k].belongs(p) {
                return Some(k);
            }
            k = k + 1;
        }
        None
    }

    /// Takes a data packet into account: queues its acknowledgement and
    /// gathers it with the other fragments of its message (a new reassembly
    /// at the end when none holds that message yet).
    pub fn process_data_packet(&mut self, packet: Packet)
        requires
            old(self).wf(),
            packet.wf(),
            !packet.header.is_ack,
            old(self).has_room_for_data(packet),
        ensures
            final(self).wf(),
            final(self).host_id == old(self).host_id,
            final(self).outbox() == old(self).outbox(),
            final(self).inbox() == old(self).inbox(),
            final(self).pending_acks().len() == old(self).pending_acks().len() + 1,
            final(self).pending_acks().drop_last() == old(self).pending_acks(),
            final(self).pending_acks().last()@ == ack_frame(packet.header),
            final(self).gathered() == gathered_with(old(self).gathered(), packet),
    {
        let _ = self.send_ack(&packet);
        let ghost gs = self.gathered();
        let ghost parts = self.partial();
        match self.find_entry(&packet) {
            Some(k) => {
                proof {
                    lemma_first_entry_matches(gs, packet, 0);
                }
                let e = gathering_at_mut(&mut self.messages_in_progress, k);
                e.add_packet(packet);
                let ghost e_after = *e;
                assert(self.partial() =~= parts.update(k as int, e_after));
                assert(self.gathered() =~= gs.update(k as int, with_packet(gs[k as int], packet)));
            },
            None => {
                let mut e = MessageInProgress::new();
                e.add_packet(packet);
                assert(e.packets() =~= seq![packet]);
                let _ = push_gathering(&mut self.messages_in_progress, e);
                assert(self.gathered() =~= gs.push(seq![packet]));
            },
        }
        assert(self.outbox() == old(self).outbox());
        assert(self.inbox() == old(self).inbox());
    }

    /// Moves every complete reassembly, in order, to `received`; the open
    /// ones stay, in order.
    fn get_finished_messages(&mut self)
        requires
            old(self).wf(),
            old(self).has_room_to_finish(old(self).gathered()),
        ensures
            final(self).wf(),
            final(self).host_id == old(self).host_id,
            final(self).outbox() == old(self).outbox(),
            final(self).pending_acks() == old(self).pending_acks(),
            final(self).gathered() == open_entries(old(self).gathered()),
            final(self).inbox() == old(self).inbox() + finished(old(self).gathered()),
            final(self).is_settled(),
    {
        let ghost gs = self.gathered();
        let ghost inbox = self.inbox();
        let ghost mut t: int = 0;
        let mut i: usize = 0;
        while i < gathering_slice(&self.messages_in_progress).len()
            invariant
                self.wf(),
                self.host_id == old(self).host_id,
                self.outbox() == old(self).outbox(),
                self.pending_acks() == old(self).pending_acks(),
                gs == old(self).gathered(),
                inbox == old(self).inbox(),
                inbox.len() + finished(gs).len() <= QUEUE_CAPACITY,
                0 <= t <= gs.len(),
                i == open_entries(gs.take(t)).len(),
                self.gathered() == open_entries(gs.take(t)) + gs.skip(t),
                self.inbox() == inbox + finished(gs.take(t)),
            decreases gs.len() - t,
        {
            let ghost before = self.gathered();
            let ghost parts = self.partial();
            assert(gs.take(t + 1).drop_last() =~= gs.take(t));
            assert(before[i as int] == gs[t]);
            let done = gathering_slice(&self.messages_in_progress)[i].is_complete();
            if done {
                assert(gs.take(t + 1).last() == gs[t]);
                assert(open_entries(gs.take(t + 1)) == open_entries(gs.take(t)));
                let fin = remove_gathering(&mut self.messages_in_progress, i);
                let bytes = fin.to_bytes();
                proof {
                    lemma_finished_prefix(gs, t + 1);
                }
                let _ = push_received(&mut self.received, bytes);
                assert(self.partial() == parts.remove(i as int));
                assert(self.gathered() =~= before.remove(i as int));
                assert(self.gathered() =~= open_entries(gs.take(t + 1)) + gs.skip(t + 1));
                assert(self.inbox() =~= inbox + finished(gs.take(t + 1)));
                assert forall|j: int| 0 <= j < self.partial().len() implies {
                    &&& (#[trigger] self.partial()[j]).wf()
                    &&& self.partial()[j].packets().len() > 0
                } by {
                    if j < i {
                        assert(self.partial()[j] == parts[j]);
                    } else {
                        assert(self.partial()[j] == parts[j + 1]);
                    }
                }
            } else {
                i = i + 1;
                assert(gs.take(t + 1).last() == gs[t]);
                assert(open_entries(gs.take(t + 1)) == open_entries(gs.take(t)).push(gs[t]));
                assert(finished(gs.take(t + 1)) == finished(gs.take(t)));
                assert(self.gathered() =~= open_entries(gs.take(t + 1)) + gs.skip(t + 1));
            }
            proof {
                t = t + 1;
            }
        }
        assert(gs.take(t) =~= gs);
        assert(self.gathered() =~= open_entries(gs));
        proof {
            lemma_open_entries_open(gs);
            assert forall|k: int| 0 <= k < self.gathered().len() implies (
            #[trigger] self.gathered()[k]).len() > 0 && !all_fragments_present(self.gathered()[k]) by {
                assert(self.gathered()[k] == self.partial()[k].packets());
            }
        }
    }

    /// The number of complete reassemblies once the data packet `p` is
    /// gathered (`gather`), or as they are.
    fn count_finished(&self, p: &Packet, gather: bool) -> (r: usize)
        requires
            self.wf(),
        ensures
            r == finished(if gather { gathered_with(self.gathered(), *p) } else { self.gathered() }).len(),
            r <= QUEUE_CAPACITY + 1,
    {
        let ghost gs = self.gathered();
        let ghost g = if gather { gathered_with(gs, *p) } else { gs };
        let target = if gather {
            self.find_entry(p)
        } else {
            None
        };
        let es = gathering_slice(&self.messages_in_progress);
        assert(gs.len() == es@.len());
        let mut count: usize = 0;
        let mut t: usize = 0;
        while t < es.len()
            invariant
                es@ == self.partial(),
                gs == self.gathered(),
                gs.len() == es@.len(),
                g.len() >= gs.len(),
                es@.len() <= QUEUE_CAPACITY,
                g == (if gather { gathered_with(gs, *p) } else { gs }),
                gather ==> (target is None <==> entry_for(gs, *p) < 0),
                gather && target is Some ==> target->Some_0 == entry_for(gs, *p),
                gather && target is Some ==> target->Some_0 < gs.len(),
                gather && target is Some ==> g == gs.update(
                    target->Some_0 as int,
                    with_packet(gs[target->Some_0 as int], *p),
                ),
                gather && target is None ==> g == gs.push(seq![*p]),
                !gather ==> target is None,
                t <= es@.len(),
                count <= t,
                count == finished(g.take(t as int)).len(),
            decreases es@.len() - t,
        {
            let is_target = match target {
                Some(k) => k == t,
                None => false,
            };
            let c = if is_target {
                es[t].completes_with(p)
            } else {
                es[t].is_complete()
            };
            assert(g.take(t + 1).drop_last() =~= g.take(t as int));
            proof {
                if gather {
                    if target is Some {
                        let k = target->Some_0 as int;
                        assert(is_target == (k == t));
                        assert(g == gs.update(k, with_packet(gs[k], *p)));
                        if k == t {
                            assert(g[t as int] == with_packet(gs[t as int], *p));
                        } else {
                            assert(g[t as int] == gs[t as int]);
                        }
                    } else {
                        assert(!is_target);
                        assert(t < gs.len());
                        assert(g == gs.push(seq![*p]));
                        assert(gs.push(seq![*p])[t as int] == gs[t as int]);
                    }
                } else {
                    assert(!is_target);
                    assert(g == gs);
                }
            }
            assert(g[t as int] == if is_target {
                with_packet(gs[t as int], *p)
            } else {
                gs[t as int]
            });
            if c {
                count = count + 1;
            }
            t = t + 1;
        }
        if gather && target.is_none() {
            let single = MessageInProgress::new();
            let c = single.completes_with(p);
            proof {
                assert(single.packets().push(*p) =~= seq![*p]);
                assert(g.drop_last() =~= g.take(t as int));
            }
            if c {
                count = count + 1;
            }
        } else {
            assert(g.take(t as int) =~= g);
        }
        count
    }

    /// Whether the queue of outbound messages is full.
    pub fn send_buff_is_full(&self) -> (r: bool)
        ensures
            r == (self.outbox().len() >= QUEUE_CAPACITY),
    {
        messages_slice(&self.send_buff).len() >= QUEUE_CAPACITY
    }

    /// Whether processing the frame `mess` fills no queue beyond its capacity;
    /// callers test it before `process_raw_packet`.
    pub fn has_room_for(&self, mess: &[u8; 8]) -> (r: bool)
        requires
            self.wf(),
        ensures
            r == self.has_room_for_frame(mess@),
    {
        let packet = Packet::new_from_binary_array(mess).unwrap();
        proof {
            lemma_decoded(mess@, packet);
        }
        if packet.header.id_dest != self.host_id {
            return true;
        }
        let inbox_len = received_count(&self.received);
        let gather = !packet.header.is_ack;
        let count = self.count_finished(&packet, gather);
        let finish_room = count <= QUEUE_CAPACITY && inbox_len <= QUEUE_CAPACITY - count;
        if !gather {
            return finish_room;
        }
        let ack_room = !ack_frames_full(&self.acks_to_send);
        let entry_room = self.find_entry(&packet).is_some() || gathering_slice(
            &self.messages_in_progress,
        ).len() < QUEUE_CAPACITY;
        ack_room && entry_room && finish_room
    }

    /// Handles one frame from the bus. A frame for another node is ignored.
    /// Otherwise an acknowledgement goes to the queued messages, a data packet
    /// to reassembly; then every complete reassembly moves to `received`.
    pub fn process_raw_packet(&mut self, mess: [u8; 8]) -> (r: Result<(), ProtocolError>)
        requires
            old(self).wf(),
            old(self).has_room_for_frame(mess@),
        ensures
            r is Ok,
            final(self).wf(),
            final(self).host_id == old(self).host_id,
            old(self).is_settled() ==> final(self).is_settled(),
            decoded(mess@).header.id_dest == old(self).host_id ==> final(self).is_settled(),
            decoded(mess@).header.id_dest == old(self).host_id && decoded(mess@).header.is_ack
                && old(self).is_settled() ==> final(self).gathered() == old(self).gathered()
                && final(self).inbox() == old(self).inbox(),
            ({
                let p = decoded(mess@);
                if p.header.id_dest != old(self).host_id {
                    *final(self) == *old(self)
                } else if p.header.is_ack {
                    &&& old(self).outbox_after_ack(final(self).outbox(), p.header)
                    &&& final(self).pending_acks() == old(self).pending_acks()
                    &&& final(self).gathered() == open_entries(old(self).gathered())
                    &&& final(self).inbox() == old(self).inbox() + finished(old(self).gathered())
                } else {
                    &&& final(self).outbox() == old(self).outbox()
                    &&& final(self).pending_acks().len() == old(self).pending_acks().len() + 1
                    &&& final(self).pending_acks().drop_last() == old(self).pending_acks()
                    &&& final(self).pending_acks().last()@ == ack_frame(p.header)
                    &&& (final(self).gathered(), final(self).inbox()) == after_data(
                        old(self).gathered(),
                        old(self).inbox(),
                        p,
                    )
                }
            }),
    {
        let packet = Packet::new_from_binary_array(&mess).unwrap();
        proof {
            lemma_decoded(mess@, packet);
        }
        if packet.header.id_dest != self.host_id {
            return Ok(());
        }
        if packet.header.is_ack {
            self.process_ack_packet(packet);
        } else {
            self.process_data_packet(packet);
        }
        let ghost mid = self.gathered();
        self.get_finished_messages();
        proof {
            if packet.header.is_ack && old(self).is_settled() {
                lemma_all_open(mid);
                assert(old(self).inbox() + Seq::<Seq<u8>>::empty() =~= old(self).inbox());
            }
        }
        Ok(())
    }
}

} // verus!
