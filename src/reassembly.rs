//! Reassembly of one inbound message from its fragments.
use crate::buffers::{
    assembled_bytes, held_packets, new_assembly_buffer, new_packet_buffer, packets_slice,
    push_assembled_byte, push_packet,
};
use crate::ids::group_id_lemmas;
use crate::message::{fragment_count, fragment_payload, Message};
use crate::packet::Packet;
use vstd::prelude::*;
use vstd::set_lib::{lemma_int_range, lemma_len_subset, lemma_subset_equality, set_int_range};

verus! {

/// The sequence numbers of `ps`, in order.
pub open spec fn seq_numbers(ps: Seq<Packet>) -> Seq<int> {
    ps.map_values(|p: Packet| p.header.seq_number@ as int)
}

/// Some packet of `ps` has sequence number `s`.
pub open spec fn has_seq(ps: Seq<Packet>, s: int) -> bool {
    exists|i: int| 0 <= i < ps.len() && ps[i].header.seq_number@ == s
}

/// The position in `ps` of a packet with sequence number `s`.
pub open spec fn index_with_seq(ps: Seq<Packet>, s: int) -> int {
    choose|i: int| 0 <= i < ps.len() && ps[i].header.seq_number@ == s
}

/// The payload of the packet of `ps` with sequence number `s`.
pub open spec fn payload_with_seq(ps: Seq<Packet>, s: int) -> Seq<u8> {
    ps[index_with_seq(ps, s)].payload@
}

/// Every fragment has arrived: the sequence numbers below the count of
/// packets are all there (with distinct numbers, the highest is then the count
/// less one, and it arrived last at number 0).
pub open spec fn all_fragments_present(ps: Seq<Packet>) -> bool {
    &&& ps.len() > 0
    &&& forall|s: int| 0 <= s < ps.len() ==> has_seq(ps, s)
}

/// The payloads of `ps` laid end to end from the highest sequence number down to 0.
pub open spec fn reassembled(ps: Seq<Packet>) -> Seq<u8> {
    Seq::new(6 * ps.len(), |j: int| payload_with_seq(ps, ps.len() - 1 - j / 6)[j % 6])
}

/// `p` and `q` are fragments of the same message of the same source.
pub open spec fn same_message(p: Packet, q: Packet) -> bool {
    &&& p.header.id_src == q.header.id_src
    &&& p.header.id_message == q.header.id_message
}

/// Distinct sequence numbers below `bound` are at most `bound` many.
proof fn lemma_seq_count_bound(ps: Seq<Packet>, bound: int)
    requires
        bound >= 0,
        seq_numbers(ps).no_duplicates(),
        forall|i: int| 0 <= i < ps.len() ==> ps[i].header.seq_number@ < bound,
    ensures
        ps.len() <= bound,
{
    let nums = seq_numbers(ps);
    nums.unique_seq_to_set();
    lemma_int_range(0, bound);
    assert(nums.to_set().subset_of(set_int_range(0, bound)));
    lemma_len_subset(nums.to_set(), set_int_range(0, bound));
}

/// With distinct sequence numbers, every fragment has arrived exactly when the
/// highest sequence number is the count of packets less one.
pub proof fn lemma_complete_iff_highest_is_count(ps: Seq<Packet>)
    requires
        seq_numbers(ps).no_duplicates(),
        ps.len() > 0,
    ensures
        all_fragments_present(ps) <==> {
            &&& forall|i: int| 0 <= i < ps.len() ==> (#[trigger] ps[i]).header.seq_number@ <= ps.len() - 1
            &&& has_seq(ps, ps.len() - 1)
        },
{
    let nums = seq_numbers(ps);
    let n = ps.len() as int;
    let range = set_int_range(0, n);
    nums.unique_seq_to_set();
    lemma_int_range(0, n);
    if all_fragments_present(ps) {
        assert(range.subset_of(nums.to_set())) by {
            assert forall|s: int| range.contains(s) implies nums.to_set().contains(s) by {
                assert(has_seq(ps, s));
                let i = choose|i: int| 0 <= i < ps.len() && ps[i].header.seq_number@ == s;
                assert(nums[i] == s);
            }
        }
        lemma_len_subset(range, nums.to_set());
        lemma_subset_equality(range, nums.to_set());
        assert forall|i: int| 0 <= i < ps.len() implies (#[trigger] ps[i]).header.seq_number@ <= n - 1 by {
            assert(nums.to_set().contains(nums[i]));
        }
    } else {
        if forall|i: int| 0 <= i < ps.len() ==> (#[trigger] ps[i]).header.seq_number@ <= ps.len() - 1 {
            assert(nums.to_set().subset_of(range));
            lemma_subset_equality(nums.to_set(), range);
            assert forall|s: int| 0 <= s < n implies has_seq(ps, s) by {
                assert(nums.to_set().contains(s));
                let i = choose|i: int| 0 <= i < nums.len() && nums[i] == s;
                assert(ps[i].header.seq_number@ == s);
            }
        }
    }
}

#[derive(Debug)]
pub struct MessageInProgress {
    pub buff: heapless::Vec<Packet, 16>,
}

impl MessageInProgress {
    pub open spec fn packets(&self) -> Seq<Packet> {
        held_packets(self.buff)
    }

    /// Valid data packets of one message, no sequence number twice.
    pub open spec fn wf(&self) -> bool {
        &&& forall|i: int| 0 <= i < self.packets().len() ==> (#[trigger] self.packets()[i]).wf()
        &&& forall|i: int| 0 <= i < self.packets().len() ==> !(#[trigger] self.packets()[i]).header.is_ack
        &&& forall|i: int|
            0 <= i < self.packets().len() ==> same_message(#[trigger] self.packets()[i], self.packets()[0])
        &&& seq_numbers(self.packets()).no_duplicates()
    }

    pub fn new() -> (r: MessageInProgress)
        ensures
            r.packets() == Seq::<Packet>::empty(),
            r.wf(),
    {
        MessageInProgress { buff: new_packet_buffer() }
    }

    /// Whether `p` is a fragment of the message gathered here.
    pub fn belongs(&self, p: &Packet) -> (r: bool)
        ensures
            r == (self.packets().len() > 0 && same_message(self.packets()[0], *p)),
    {
        let ps = packets_slice(&self.buff);
        if ps.len() == 0 {
            return false;
        }
        let first = &ps[0];
        first.header.id_src == p.header.id_src && first.header.id_message == p.header.id_message
    }

    /// The index of the packet with sequence number `s`, if any.
    fn find_seq(&self, s: usize) -> (r: Option<usize>)
        ensures
            r is Some <==> has_seq(self.packets(), s as int),
            r is Some ==> r->Some_0 < self.packets().len() && self.packets()[r->Some_0 as int].header.seq_number@ == s,
    {
        let ps = packets_slice(&self.buff);
        let mut i: usize = 0;
        while i < ps.len()
            invariant
                ps@ == self.packets(),
                i <= ps@.len(),
                forall|k: int| 0 <= k < i ==> ps@[k].header.seq_number@ != s,
            decreases ps@.len() - i,
        {
            if ps[i].header.seq_number.value() == s {
                return Some(i);
            }
            i = i + 1;
        }
        None
    }

    /// Adds a fragment; one whose sequence number is already here is a
    /// retransmission and changes nothing.
    pub fn add_packet(&mut self, p: Packet)
        requires
            old(self).wf(),
            p.wf(),
            !p.header.is_ack,
            old(self).packets().len() > 0 ==> same_message(p, old(self).packets()[0]),
        ensures
            final(self).wf(),
            has_seq(old(self).packets(), p.header.seq_number@ as int) ==> final(self).packets()
                == old(self).packets(),
            !has_seq(old(self).packets(), p.header.seq_number@ as int) ==> final(self).packets()
                == old(self).packets().push(p),
    {
        if self.find_seq(p.header.seq_number.value()).is_some() {
            return;
        }
        proof {
            let ps = self.packets();
            lemma_seq_count_bound(ps, 16);
            if ps.len() == 16 {
                assert(seq_numbers(ps.push(p)) =~= seq_numbers(ps).push(p.header.seq_number@ as int));
                lemma_seq_count_bound(ps.push(p), 16);
            }
        }
        let ghost before = self.packets();
        let _ = push_packet(&mut self.buff, p);
        proof {
            let after = self.packets();
            assert(seq_numbers(after) =~= seq_numbers(before).push(p.header.seq_number@ as int));
            assert forall|i: int| 0 <= i < after.len() implies same_message(
                #[trigger] after[i],
                after[0],
            ) by {
                if before.len() > 0 {
                    assert(same_message(before[i], before[0]) || i == before.len());
                }
            }
        }
    }

    /// Whether every fragment has arrived.
    pub fn is_complete(&self) -> (r: bool)
        ensures
            r == all_fragments_present(self.packets()),
    {
        let n = packets_slice(&self.buff).len();
        if n == 0 {
            return false;
        }
        let mut s: usize = 0;
        while s < n
            invariant
                n == self.packets().len(),
                s <= n,
                forall|k: int| 0 <= k < s ==> has_seq(self.packets(), k),
            decreases n - s,
        {
            if self.find_seq(s).is_none() {
                return false;
            }
            s = s + 1;
        }
        true
    }

    /// Whether adding `p` would leave every fragment here (packets holding
    /// the sequence number of `p` count as one).
    pub fn completes_with(&self, p: &Packet) -> (r: bool)
        ensures
            r == all_fragments_present(
                if has_seq(self.packets(), p.header.seq_number@ as int) {
                    self.packets()
                } else {
                    self.packets().push(*p)
                },
            ),
    {
        let seq = p.header.seq_number.value();
        if self.find_seq(seq).is_some() {
            return self.is_complete();
        }
        let ghost after = self.packets().push(*p);
        let n = packets_slice(&self.buff).len() + 1;
        let mut s: usize = 0;
        while s < n
            invariant
                n == after.len(),
                after == self.packets().push(*p),
                seq == p.header.seq_number@,
                !has_seq(self.packets(), seq as int),
                s <= n,
                forall|k: int| 0 <= k < s ==> has_seq(after, k),
            decreases n - s,
        {
            if s != seq && self.find_seq(s).is_none() {
                assert forall|i: int| 0 <= i < after.len() implies after[i].header.seq_number@ != s by {
                    if i < after.len() - 1 {
                        assert(after[i] == self.packets()[i]);
                    } else {
                        assert(after[i] == *p);
                    }
                }
                assert(!has_seq(after, s as int));
                assert(!all_fragments_present(after));
                assert(!has_seq(self.packets(), p.header.seq_number@ as int));
                return false;
            }
            proof {
                if s == seq {
                    assert(after[after.len() - 1] == *p);
                } else {
                    let i = choose|i: int| 0 <= i < self.packets().len() && self.packets()[i].header.seq_number@ == s;
                    assert(after[i] == self.packets()[i]);
                }
            }
            s = s + 1;
        }
        true
    }

    /// The message: the payloads from the highest sequence number down to 0.
    pub fn to_bytes(&self) -> (r: heapless::Vec<u8, 96>)
        requires
            self.wf(),
            all_fragments_present(self.packets()),
        ensures
            assembled_bytes(r) == reassembled(self.packets()),
    {
        let ps = packets_slice(&self.buff);
        let n = ps.len();
        let mut out = new_assembly_buffer();
        let mut f: usize = 0;
        while f < n
            invariant
                ps@ == self.packets(),
                n == ps@.len(),
                n <= 16,
                f <= n,
                self.wf(),
                all_fragments_present(self.packets()),
                assembled_bytes(out) =~= reassembled(self.packets()).take(6 * f as int),
            decreases n - f,
        {
            let s = n - 1 - f;
            let idx = self.find_seq(s).unwrap();
            let payload = ps[idx].payload;
            proof {
                let all = self.packets();
                assert(has_seq(all, s as int));
                let si = s as int;
                let c = index_with_seq(all, si);
                assert(seq_numbers(all)[c] == all[c].header.seq_number@);
                assert(seq_numbers(all)[idx as int] == all[idx as int].header.seq_number@);
                assert(c == idx);
                assert(payload@ == all[idx as int].payload@);
            }
            let mut k: usize = 0;
            while k < 6
                invariant
                    ps@ == self.packets(),
                    n == ps@.len(),
                    n <= 16,
                    f < n,
                    k <= 6,
                    s == n - 1 - f,
                    payload@ == payload_with_seq(self.packets(), s as int),
                    assembled_bytes(out) =~= reassembled(self.packets()).take(6 * f + k),
                decreases 6 - k,
            {
                let _ = push_assembled_byte(&mut out, payload[k]);
                k = k + 1;
            }
            f = f + 1;
        }
        out
    }
}

/// `data` padded with zeros to a whole number of packets.
pub open spec fn padded(data: Seq<u8>) -> Seq<u8> {
    Seq::new(6 * fragment_count(data.len()), |j: int| if j < data.len() { data[j] } else { 0u8 })
}

/// `idx` lists each of `0 .. n` once, in some order.
pub open spec fn is_arrangement(idx: Seq<nat>, n: nat) -> bool {
    &&& idx.len() == n
    &&& idx.no_duplicates()
    &&& forall|i: int| 0 <= i < idx.len() ==> #[trigger] idx[i] < n
    &&& forall|j: nat| j < n ==> idx.contains(j)
}

/// `ps` holds every fragment of `m` once: fragment `idx[i]` at position `i`.
pub open spec fn fragments_in_order(m: Message, ps: Seq<Packet>, idx: Seq<nat>) -> bool {
    &&& is_arrangement(idx, m.acks().len())
    &&& ps.len() == idx.len()
    &&& forall|i: int| 0 <= i < ps.len() ==> m.is_fragment(#[trigger] idx[i], ps[i])
}

/// Every fragment of a message, arrived in any order, makes a complete set of
/// distinct sequence numbers of one message, and laid end to end from the
/// highest sequence number down they give the message back, padded with zeros
/// to whole packets.
pub proof fn lemma_fragments_reassemble(m: Message, ps: Seq<Packet>, idx: Seq<nat>)
    requires
        m.wf(),
        m.bytes().len() >= 1,
        fragments_in_order(m, ps, idx),
    ensures
        all_fragments_present(ps),
        seq_numbers(ps).no_duplicates(),
        forall|i: int| 0 <= i < ps.len() ==> (#[trigger] ps[i]).wf() && !ps[i].header.is_ack,
        forall|i: int| 0 <= i < ps.len() ==> same_message(#[trigger] ps[i], ps[0]),
        reassembled(ps) == padded(m.bytes()),
{
    broadcast use group_id_lemmas;

    let n = m.acks().len() as int;
    let len = m.bytes().len() as int;
    assert((len + 5) / 6 <= 15) by (nonlinear_arith)
        requires
            0 <= len <= 90,
    ;
    assert forall|i: int| 0 <= i < ps.len() implies (#[trigger] ps[i]).header.seq_number@ == n - 1
        - idx[i] by {
        assert(m.is_fragment(idx[i], ps[i]));
    }
    assert forall|i: int| 0 <= i < ps.len() implies (#[trigger] ps[i]).wf() && !ps[i].header.is_ack
        && same_message(ps[i], ps[0]) by {
        assert(m.is_fragment(idx[i], ps[i]));
        assert(m.is_fragment(idx[0], ps[0]));
    }
    assert forall|s: int| 0 <= s < n implies has_seq(ps, s) by {
        let j = (n - 1 - s) as nat;
        assert(idx.contains(j));
        let i = choose|i: int| 0 <= i < idx.len() && idx[i] == j;
        assert(ps[i].header.seq_number@ == s);
    }
    let nums = seq_numbers(ps);
    assert forall|a: int, b: int| 0 <= a < nums.len() && 0 <= b < nums.len() && a != b implies nums[a]
        != nums[b] by {
        assert(idx[a] != idx[b]);
    }
    let r = reassembled(ps);
    let want = padded(m.bytes());
    assert forall|j: int| 0 <= j < r.len() implies r[j] == want[j] by {
        let f = j / 6;
        let s = n - 1 - f;
        assert(has_seq(ps, s));
        let c = index_with_seq(ps, s);
        assert(idx[c] == f);
        assert(m.is_fragment(idx[c], ps[c]));
        assert(ps[c].payload@ == fragment_payload(m.bytes(), f as nat));
        assert(6 * f + j % 6 == j);
    }
    assert(r =~= want);
}

} // verus!
