//! An outbound message: its fragmentation into packets, the round-robin choice
//! of the next fragment to (re)send, and the bookkeeping of acknowledgements.
use crate::buffers::{
    ack_flags, ack_flags_slice, message_bytes, message_bytes_slice, new_ack_flags,
    push_ack_flag, set_ack_flag,
};
use crate::errors::{ProtocolError, SendError};
use crate::header::{header_bytes, Header};
use crate::ids::{group_id_lemmas, CanId, MessageId, SeqId};
use crate::packet::{packet_bytes, Packet, Write};
use vstd::prelude::*;

verus! {

/// Most packets in one message: one per sequence number 14 down to 0.
pub const MAX_SEQ_NUMBER: usize = 15;

/// Most bytes in one outbound message.
pub const MAX_MESSAGE_LEN: usize = MAX_SEQ_NUMBER * 6;

/// Number of packets that carry `len` bytes, six to a packet.
pub open spec fn fragment_count(len: nat) -> nat {
    (len + 5) / 6
}

/// The payload of fragment `i`: bytes `6 * i` to `6 * i + 5`, zero past the end.
pub open spec fn fragment_payload(data: Seq<u8>, i: nat) -> Seq<u8> {
    Seq::new(6, |k: int| if 6 * i + k < data.len() { data[6 * i + k] } else { 0u8 })
}

/// Every flag is set.
pub open spec fn all_set(flags: Seq<bool>) -> bool {
    forall|i: int| 0 <= i < flags.len() ==> flags[i]
}

#[derive(Debug)]
pub struct Message {
    pub id: MessageId,
    pub id_dest: CanId,
    pub id_src: CanId,
    pub data: heapless::Vec<u8, 90>,
    /// The fragment that the next call of `get_next_packet_to_send` looks at.
    pub actual_sec_num: u8,
    /// Slot `i` is set once fragment `i` (sequence number `n - 1 - i`) is acknowledged.
    pub ack_received: heapless::Vec<bool, 15>,
}

impl Message {
    /// The bytes of the message.
    pub open spec fn bytes(&self) -> Seq<u8> {
        message_bytes(self.data)
    }

    /// One flag per fragment.
    pub open spec fn acks(&self) -> Seq<bool> {
        ack_flags(self.ack_received)
    }

    /// The fragment under the cursor.
    pub open spec fn cursor(&self) -> nat {
        self.actual_sec_num as nat
    }

    pub open spec fn wf(&self) -> bool {
        &&& self.id.wf()
        &&& self.id_dest.wf()
        &&& self.id_src.wf()
        &&& self.id_dest != self.id_src
        &&& self.bytes().len() <= MAX_MESSAGE_LEN
        &&& self.acks().len() == fragment_count(self.bytes().len())
        &&& if self.acks().len() == 0 {
            self.cursor() == 0
        } else {
            self.cursor() < self.acks().len()
        }
    }

    /// Every fragment has been acknowledged.
    pub open spec fn all_acked(&self) -> bool {
        all_set(self.acks())
    }

    /// The header of fragment `i`: sequence numbers count down to 0.
    pub open spec fn fragment_header(&self, i: nat) -> Header {
        Header {
            id_dest: self.id_dest,
            id_src: self.id_src,
            is_ack: false,
            id_message: self.id,
            seq_number: SeqId::spec_new((self.acks().len() - 1 - i) as nat),
        }
    }

    /// `p` is fragment `i` of this message.
    pub open spec fn is_fragment(&self, i: nat, p: Packet) -> bool {
        &&& p.header == self.fragment_header(i)
        &&& p.payload@ == fragment_payload(self.bytes(), i)
    }

    /// The ack slot of the fragment with sequence number `seq`.
    pub open spec fn ack_slot(&self, seq: nat) -> int {
        self.acks().len() - 1 - seq
    }

    /// The flags after the acknowledgement of sequence number `seq`; one out
    /// of range changes nothing.
    pub open spec fn acks_after_ack(&self, seq: nat) -> Seq<bool> {
        if seq < self.acks().len() {
            self.acks().update(self.ack_slot(seq), true)
        } else {
            self.acks()
        }
    }

    /// Whether the next call of `get_next_packet_to_send` returns a packet:
    /// some fragment is unacknowledged, and the one under the cursor is.
    pub open spec fn sends_fragment(&self) -> bool {
        !self.all_acked() && !self.acks()[self.cursor() as int]
    }

    /// Where the cursor stands after the next call of `get_next_packet_to_send`.
    pub open spec fn next_cursor(&self) -> nat {
        if self.all_acked() {
            self.cursor()
        } else {
            (self.cursor() + 1) % self.acks().len()
        }
    }

    /// `next` holds what this message holds, acknowledgements included.
    pub open spec fn same_content(&self, next: Message) -> bool {
        &&& next.id == self.id
        &&& next.id_dest == self.id_dest
        &&& next.id_src == self.id_src
        &&& next.data == self.data
        &&& next.acks() == self.acks()
    }

    /// `next` is this message after one call of `get_next_packet_to_send`.
    pub open spec fn advanced(&self, next: Message) -> bool {
        &&& next.wf()
        &&& self.same_content(next)
        &&& next.cursor() == self.next_cursor()
    }

    /// `next` is this message after the acknowledgement of sequence number `seq`.
    pub open spec fn ack_applied(&self, next: Message, seq: nat) -> bool {
        &&& next.wf()
        &&& next.id == self.id
        &&& next.id_dest == self.id_dest
        &&& next.id_src == self.id_src
        &&& next.data == self.data
        &&& next.cursor() == self.cursor()
        &&& next.acks() == self.acks_after_ack(seq)
    }

    /// The frame of fragment `i`.
    pub open spec fn fragment_frame(&self, i: nat) -> Seq<u8> {
        header_bytes(self.fragment_header(i)) + fragment_payload(self.bytes(), i)
    }

    /// The frames of the fragments from `0` up to `i` (excluded) that are not
    /// acknowledged, in order.
    pub open spec fn unacked_frames(&self, i: nat) -> Seq<u8>
        decreases i,
    {
        if i == 0 {
            Seq::empty()
        } else {
            let before = self.unacked_frames((i - 1) as nat);
            if i - 1 < self.acks().len() && !self.acks()[i - 1] {
                before + self.fragment_frame((i - 1) as nat)
            } else {
                before
            }
        }
    }

    /// Creates a message of `ceil(len / 6)` fragments, none acknowledged yet.
    /// An empty message has no fragment: it counts as fully acknowledged, and
    /// `get_next_packet_to_send` returns nothing for it.
    pub fn new(id: MessageId, id_dest: CanId, id_src: CanId, data: heapless::Vec<u8, 90>) -> (r:
        Result<Message, ProtocolError>)
        requires
            id.wf(),
            id_dest.wf(),
            id_src.wf(),
        ensures
            id_dest == id_src ==> r is Err && r->Err_0 == ProtocolError::SrcAndDestCanNotBeEqual,
            id_dest != id_src && message_bytes(data).len() > MAX_MESSAGE_LEN ==> r is Err
                && r->Err_0 == ProtocolError::MessageTooLong,
            id_dest != id_src && message_bytes(data).len() <= MAX_MESSAGE_LEN ==> r is Ok,
            r is Ok ==> {
                let m = r->Ok_0;
                &&& m.wf()
                &&& m.id == id
                &&& m.id_dest == id_dest
                &&& m.id_src == id_src
                &&& m.data == data
                &&& m.cursor() == 0
                &&& m.acks() == Seq::new(fragment_count(message_bytes(data).len()), |i: int| false)
            },
    {
        if id_dest == id_src {
            return Err(ProtocolError::SrcAndDestCanNotBeEqual);
        }
        let len = message_bytes_slice(&data).len();
        if len > MAX_MESSAGE_LEN {
            return Err(ProtocolError::MessageTooLong);
        }
        let count: usize = (len + 5) / 6;
        let mut flags = new_ack_flags();
        let mut i: usize = 0;
        while i < count
            invariant
                count == fragment_count(message_bytes(data).len()),
                count <= MAX_SEQ_NUMBER,
                i <= count,
                ack_flags(flags) == Seq::new(i as nat, |k: int| false),
            decreases count - i,
        {
            let pushed = push_ack_flag(&mut flags, false);
            i = i + 1;
            assert(ack_flags(flags) =~= Seq::new(i as nat, |k: int| false));
        }
        Ok(Message { id, id_dest, id_src, data, actual_sec_num: 0, ack_received: flags })
    }

    /// Sets the flag of the fragment with sequence number `seq_num`.
    pub fn mark_ack_as_received(&mut self, seq_num: SeqId)
        requires
            old(self).wf(),
            seq_num.wf(),
        ensures
            old(self).ack_applied(*final(self), seq_num@),
    {
        let n = ack_flags_slice(&self.ack_received).len();
        let s = seq_num.value();
        if s < n {
            set_ack_flag(&mut self.ack_received, n - 1 - s, true);
        }
    }

    /// The packet that carries fragment `i`.
    fn fragment_packet(&self, i: usize) -> (p: Packet)
        requires
            self.wf(),
            i < self.acks().len(),
        ensures
            self.is_fragment(i as nat, p),
            p.wf(),
            packet_bytes(p) == self.fragment_frame(i as nat),
    {
        broadcast use group_id_lemmas;

        let n = ack_flags_slice(&self.ack_received).len();
        let seq = SeqId::new(n - 1 - i).unwrap();
        let header = Header::new(self.id_dest, self.id_src, false, self.id, seq).unwrap();
        let bytes = message_bytes_slice(&self.data);
        let mut payload = [0u8; 6];
        let mut k: usize = 0;
        while k < 6
            invariant
                k <= 6,
                i < MAX_SEQ_NUMBER,
                bytes@ == self.bytes(),
                forall|j: int| 0 <= j < k ==> payload[j] == fragment_payload(self.bytes(), i as nat)[j],
            decreases 6 - k,
        {
            let at = 6 * i + k;
            if at < bytes.len() {
                payload[k] = bytes[at];
            } else {
                payload[k] = 0;
            }
            k = k + 1;
        }
        assert(payload@ =~= fragment_payload(self.bytes(), i as nat));
        let p = Packet::new(header, payload);
        assert(packet_bytes(p) == self.fragment_frame(i as nat));
        p
    }

    /// Looks at the fragment under the cursor: returns its packet unless it was
    /// acknowledged, and moves the cursor on to the next fragment, round robin.
    /// Once every fragment is acknowledged, returns nothing and changes nothing.
    pub fn get_next_packet_to_send(&mut self) -> (r: Result<Option<Packet>, ProtocolError>)
        requires
            old(self).wf(),
        ensures
            r is Ok,
            old(self).advanced(*final(self)),
            r->Ok_0 is Some <==> old(self).sends_fragment(),
            r->Ok_0 is Some ==> old(self).is_fragment(old(self).cursor(), r->Ok_0->Some_0),
            r->Ok_0 is Some ==> r->Ok_0->Some_0.wf(),
            r->Ok_0 is Some ==> packet_bytes(r->Ok_0->Some_0) == old(self).fragment_frame(
                old(self).cursor(),
            ),
    {
        if self.all_ack_received() {
            return Ok(None);
        }
        let n = ack_flags_slice(&self.ack_received).len();
        let i = self.actual_sec_num as usize;
        let acked = ack_flags_slice(&self.ack_received)[i];
        let next = ((i + 1) % n) as u8;
        if !acked {
            let packet = self.fragment_packet(i);
            self.actual_sec_num = next;
            return Ok(Some(packet));
        }
        self.actual_sec_num = next;
        Ok(None)
    }

    /// Writes every fragment not yet acknowledged to `tx`, first fragment
    /// first, and stops at the first byte that the transport refuses.
    pub fn send<Tx: Write>(&mut self, tx: &mut Tx) -> (r: Result<(), SendError>)
        requires
            old(self).wf(),
        ensures
            *final(self) == *old(self),
            r matches Ok(()) || r == Err::<(), SendError>(SendError::SendFailed),
            all_set(old(self).acks()) ==> r is Ok,
            r is Ok ==> final(tx).sent() == old(tx).sent() + old(self).unacked_frames(
                old(self).acks().len(),
            ),
            r is Err ==> exists|k: int|
                0 <= k < old(self).unacked_frames(old(self).acks().len()).len() && final(tx).sent()
                    == old(tx).sent() + old(self).unacked_frames(old(self).acks().len()).take(k),
    {
        let n = ack_flags_slice(&self.ack_received).len();
        let ghost start = tx.sent();
        let ghost all = self.unacked_frames(n as nat);
        let mut i: usize = 0;
        while i < n
            invariant
                self.wf(),
                *self == *old(self),
                n == self.acks().len(),
                i <= n,
                start == old(tx).sent(),
                all == self.unacked_frames(n as nat),
                tx.sent() == start + self.unacked_frames(i as nat),
                all_set(self.acks()) ==> self.unacked_frames(i as nat) == Seq::<u8>::empty(),
            decreases n - i,
        {
            proof {
                lemma_unacked_frames_prefix(*self, (i + 1) as nat, n as nat);
            }
            let acked = ack_flags_slice(&self.ack_received)[i];
            if !acked {
                let mut packet = self.fragment_packet(i);
                let ghost before = tx.sent();
                if packet.send(tx).is_err() {
                    proof {
                        let k = choose|k: int|
                            0 <= k < 8 && tx.sent() == before + packet_bytes(packet).take(k);
                        let done = self.unacked_frames(i as nat);
                        assert(self.unacked_frames((i + 1) as nat) == done + packet_bytes(packet));
                        assert(all.take(done.len() + k) =~= done + packet_bytes(packet).take(k));
                        assert(tx.sent() =~= start + all.take(done.len() + k));
                    }
                    return Err(SendError::SendFailed);
                }
                assert(tx.sent() =~= start + self.unacked_frames((i + 1) as nat));
            }
            i = i + 1;
        }
        Ok(())
    }

    /// Takes an acknowledgement packet into account.
    pub fn process_msg(&mut self, msg: Packet)
        requires
            old(self).wf(),
            msg.wf(),
        ensures
            old(self).ack_applied(*final(self), msg.header.seq_number@),
    {
        self.mark_ack_as_received(msg.header.seq_number);
    }

    /// Whether every fragment has been acknowledged.
    pub fn all_ack_received(&self) -> (r: bool)
        requires
            self.wf(),
        ensures
            r == self.all_acked(),
    {
        let flags = ack_flags_slice(&self.ack_received);
        let mut i: usize = 0;
        while i < flags.len()
            invariant
                i <= flags@.len(),
                flags@ == self.acks(),
                forall|k: int| 0 <= k < i ==> flags@[k],
            decreases flags@.len() - i,
        {
            if !flags[i] {
                return false;
            }
            i = i + 1;
        }
        true
    }
}

/// The frames up to fragment `i` begin the frames up to fragment `n`.
proof fn lemma_unacked_frames_prefix(m: Message, i: nat, n: nat)
    requires
        i <= n,
    ensures
        m.unacked_frames(n).len() >= m.unacked_frames(i).len(),
        m.unacked_frames(n).take(m.unacked_frames(i).len() as int) == m.unacked_frames(i),
    decreases n - i,
{
    if i < n {
        lemma_unacked_frames_prefix(m, i, (n - 1) as nat);
        let a = m.unacked_frames(i);
        let b = m.unacked_frames((n - 1) as nat);
        assert(m.unacked_frames(n).take(b.len() as int) =~= b);
        assert(m.unacked_frames(n).take(a.len() as int) =~= b.take(a.len() as int));
    } else {
        assert(m.unacked_frames(n).take(m.unacked_frames(i).len() as int) =~= m.unacked_frames(i));
    }
}

/// Round robin: along calls of `get_next_packet_to_send` (each state
/// `advanced` from the one before) on a message not yet fully acknowledged,
/// the `t`-th call looks at fragment `(c + t) % n`; so within `n` calls it
/// looks at every fragment once, and returns the packet of each one that is
/// not acknowledged.
pub proof fn lemma_round_robin(ms: Seq<Message>, i: nat)
    requires
        ms.len() > 0,
        ms[0].wf(),
        !ms[0].all_acked(),
        forall|t: int| 0 <= t < ms.len() - 1 ==> (#[trigger] ms[t]).advanced(ms[t + 1]),
        i < ms[0].acks().len(),
        ms.len() >= ms[0].acks().len(),
    ensures
        forall|t: int|
            0 <= t < ms.len() ==> {
                &&& (#[trigger] ms[t]).acks() == ms[0].acks()
                &&& ms[t].cursor() == (ms[0].cursor() + t) % (ms[0].acks().len() as int)
            },
        ({
            let n = ms[0].acks().len() as int;
            let t = (i + n - ms[0].cursor()) % n;
            &&& 0 <= t < n
            &&& ms[t].cursor() == i
            &&& !ms[0].acks()[i as int] ==> ms[t].sends_fragment()
        }),
{
    let n = ms[0].acks().len() as int;
    let c = ms[0].cursor() as int;
    assert forall|t: int| 0 <= t < ms.len() implies {
        &&& (#[trigger] ms[t]).acks() == ms[0].acks()
        &&& ms[t].cursor() == (c + t) % n
        &&& ms[t].wf()
        &&& !ms[t].all_acked()
    } by {
        lemma_round_robin_step(ms, t);
    }
    let t = (i + n - c) % n;
    assert(ms[t].cursor() == (c + t) % n);
    assert((c + (i + n - c) % n) % n == i) by (nonlinear_arith)
        requires
            0 <= c < n,
            0 <= i < n,
    ;
}

proof fn lemma_round_robin_step(ms: Seq<Message>, t: int)
    requires
        ms.len() > 0,
        ms[0].wf(),
        !ms[0].all_acked(),
        forall|u: int| 0 <= u < ms.len() - 1 ==> (#[trigger] ms[u]).advanced(ms[u + 1]),
        0 <= t < ms.len(),
    ensures
        ms[t].acks() == ms[0].acks(),
        ms[t].cursor() == (ms[0].cursor() + t) % (ms[0].acks().len() as int),
        ms[t].wf(),
        !ms[t].all_acked(),
    decreases t,
{
    let n = ms[0].acks().len() as int;
    let c = ms[0].cursor() as int;
    if t == 0 {
        assert(c % n == c) by (nonlinear_arith)
            requires
                0 <= c < n,
        ;
    } else {
        lemma_round_robin_step(ms, t - 1);
        assert(ms[t - 1].advanced(ms[t]));
        assert(((c + (t - 1)) % n + 1) % n == (c + t) % n) by (nonlinear_arith)
            requires
                n > 0,
                c >= 0,
                t >= 1,
        ;
    }
}

/// Acknowledgements fed back for every sequence number of a message, in any
/// order (each state `ack_applied` from the one before), leave every fragment
/// acknowledged; `get_next_packet_to_send` then returns nothing.
pub proof fn lemma_all_acks_received(ms: Seq<Message>, seqs: Seq<nat>)
    requires
        ms.len() == seqs.len() + 1,
        ms[0].wf(),
        forall|t: int| 0 <= t < seqs.len() ==> (#[trigger] ms[t]).ack_applied(ms[t + 1], seqs[t]),
        forall|s: nat| s < ms[0].acks().len() ==> seqs.contains(s),
    ensures
        ms.last().all_acked(),
        !ms.last().sends_fragment(),
{
    let n = ms[0].acks().len();
    assert forall|t: int| 0 <= t < ms.len() implies {
        &&& (#[trigger] ms[t]).acks().len() == n
        &&& ms[t].wf()
        &&& forall|u: int, k: int|
            0 <= u < t && 0 <= k < n && k == n - 1 - seqs[u] ==> ms[t].acks()[k]
    } by {
        lemma_acks_accumulate(ms, seqs, t);
    }
    let last = ms.len() - 1;
    assert forall|k: int| 0 <= k < n implies ms[last].acks()[k] by {
        let s = (n - 1 - k) as nat;
        assert(seqs.contains(s));
        let u = choose|u: int| 0 <= u < seqs.len() && seqs[u] == s;
        assert(k == n - 1 - seqs[u]);
    }
}

proof fn lemma_acks_accumulate(ms: Seq<Message>, seqs: Seq<nat>, t: int)
    requires
        ms.len() == seqs.len() + 1,
        ms[0].wf(),
        forall|u: int| 0 <= u < seqs.len() ==> (#[trigger] ms[u]).ack_applied(ms[u + 1], seqs[u]),
        0 <= t < ms.len(),
    ensures
        ms[t].acks().len() == ms[0].acks().len(),
        ms[t].wf(),
        forall|u: int, k: int|
            0 <= u < t && 0 <= k < ms[0].acks().len() && k == ms[0].acks().len() - 1 - seqs[u]
                ==> ms[t].acks()[k],
    decreases t,
{
    if t > 0 {
        lemma_acks_accumulate(ms, seqs, t - 1);
        assert(ms[t - 1].ack_applied(ms[t], seqs[t - 1]));
    }
}

} // verus!
