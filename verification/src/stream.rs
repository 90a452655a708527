//! The per-connection protocol engine: handshake, interlocked send/receive
//! queues, cumulative-plus-selective acknowledgement, retransmission under an
//! adaptive timeout, and the periodic tick.
//!
//! The engine owns no socket and no clock.  Inbound datagrams arrive through
//! `process_packet`, the driver's tick through `update`; both take the
//! current time in milliseconds since the stream's epoch.  Every outbound
//! datagram is appended, packed, to `outbox`, in emission order; the driver
//! drains it with `take_outgoing` and puts the bytes on the wire.

use vstd::prelude::*;
use crate::packet::{packed_form, be_at, header_of, wire_legal, lemma_packed_subrange, HeaderView,
    UcpPacket, PACKET_META_SIZE, MAX_PAYLOAD, CMD_SYN, CMD_SYN_ACK, CMD_ACK, CMD_DATA,
    CMD_HEARTBEAT, CMD_HEARTBEAT_ACK};
use crate::seqnum::{seq_below, seq_next, seq_diff, wrap_diff, wrap_add, is_seq_below, next_in_space,
    wrapped_sub, lemma_seq_below_next, lemma_wrap_add_zero, lemma_wrap_add_step};

verus! {

pub const DEFAULT_WINDOW: u32 = 512;

pub const DEFAULT_RTO: u32 = 100;

pub const HEARTBEAT_INTERVAL_MILLIS: u64 = 2500;

pub const STREAM_BROKEN_MILLIS: u64 = 20000;

pub const SKIP_RESEND_TIMES: u32 = 2;

/// Connection phase of a stream.
#[derive(Clone, Copy, PartialEq, Eq, Structural)]
pub enum UcpState {
    Idle,
    Accepting,
    Connecting,
    Established,
}

/// Every packet of the sequence wf and with an unread cursor.
pub open spec fn queue_wf(q: Seq<UcpPacket>) -> bool {
    forall|i: int| 0 <= i < q.len() ==> (#[trigger] q[i]).wf()
}

/// Every packet created locally and never read from: the cursor sits at 0,
/// so the packet may be packed.
pub open spec fn queue_unread(q: Seq<UcpPacket>) -> bool {
    forall|i: int| 0 <= i < q.len() ==> (#[trigger] q[i]).read_pos == 0
}

/// Neighbouring sequence numbers strictly ascend, wrap-safely.
pub open spec fn adjacent_ascending(q: Seq<UcpPacket>) -> bool {
    forall|i: int| 0 <= i < q.len() - 1 ==> seq_below((#[trigger] q[i]).seq, q[i + 1].seq)
}

/// Every pair of sequence numbers strictly ascends, wrap-safely.  This holds
/// while the span of in-flight sequence numbers stays below 2^31, which the
/// flow-control window keeps far smaller.
pub open spec fn pairwise_ascending(q: Seq<UcpPacket>) -> bool {
    forall|i: int, j: int| 0 <= i < j < q.len() ==> seq_below((#[trigger] q[i]).seq, (#[trigger] q[j]).seq)
}

/// The sequence numbers of a queue, in order.
pub open spec fn seqs_of(q: Seq<UcpPacket>) -> Seq<u32> {
    q.map(|i: int, p: UcpPacket| p.seq)
}

/// The concatenation of the staged payloads of a queue, in order: the byte
/// stream the queue carries.
pub open spec fn staged_bytes(q: Seq<UcpPacket>) -> Seq<u8>
    decreases q.len(),
{
    if q.len() == 0 {
        Seq::empty()
    } else {
        q[0].payload_bytes() + staged_bytes(q.drop_first())
    }
}

/// The bytes a receive queue can hand to the application: the unread bytes
/// of the prefix of packets whose sequence precedes `una`.
pub open spec fn deliverable_bytes(q: Seq<UcpPacket>, una: u32) -> Seq<u8>
    decreases q.len(),
{
    if q.len() == 0 || !seq_below(q[0].seq, una) {
        Seq::empty()
    } else {
        q[0].unread_bytes() + deliverable_bytes(q.drop_first(), una)
    }
}

/// How many receive-queue packets a drain of `space` bytes consumes whole:
/// front packets whose sequence precedes the boundary and whose unread
/// payload fits in the space that remains.
pub open spec fn drain_count(q: Seq<UcpPacket>, una: u32, space: int) -> int
    decreases q.len(),
{
    if space <= 0 || q.len() == 0 || !seq_below(q[0].seq, una) || q[0].unread_bytes().len()
        > space {
        0
    } else {
        1 + drain_count(q.drop_first(), una, space - q[0].unread_bytes().len())
    }
}

/// The byte sequences of the queued wire datagrams, in emission order.
pub open spec fn outbox_views(ob: Seq<Vec<u8>>) -> Seq<Seq<u8>> {
    ob.map(|i: int, d: Vec<u8>| d@)
}

/// One reliable, ordered stream over unreliable datagrams.
pub struct UcpStream {
    pub state: UcpState,
    pub session_id: u32,
    pub alive_time: u64,
    pub heartbeat: u64,
    pub rto: u32,
    pub seq: u32,
    pub una: u32,
    pub local_window: u32,
    pub remote_window: u32,
    pub send_queue: Vec<UcpPacket>,
    pub recv_queue: Vec<UcpPacket>,
    pub send_buffer: Vec<UcpPacket>,
    pub ack_list: Vec<(u32, u32)>,
    pub outbox: Vec<Vec<u8>>,
}

impl UcpStream {
    /// Structural soundness of the whole engine: queues of well-formed
    /// packets, locally created packets still unread, receive queue sorted,
    /// and the staging queue tied to the sequence counter.
    pub open spec fn wf_queues(self) -> bool {
        &&& queue_wf(self.send_queue@)
        &&& queue_wf(self.recv_queue@)
        &&& queue_wf(self.send_buffer@)
        &&& queue_unread(self.send_queue@)
        &&& queue_unread(self.send_buffer@)
        &&& adjacent_ascending(self.recv_queue@)
        &&& adjacent_ascending(self.send_buffer@)
    }

    pub open spec fn wf(self) -> bool {
        &&& self.wf_queues()
        &&& self.send_buffer@.len() > 0 ==> self.send_buffer@.last().seq == self.seq
    }

    /// Stream identity and timers are unchanged.
    pub open spec fn same_core(a: UcpStream, b: UcpStream) -> bool {
        &&& a.state == b.state
        &&& a.session_id == b.session_id
        &&& a.alive_time == b.alive_time
        &&& a.heartbeat == b.heartbeat
        &&& a.rto == b.rto
        &&& a.seq == b.seq
        &&& a.una == b.una
        &&& a.local_window == b.local_window
        &&& a.remote_window == b.remote_window
    }

    /// Queues and the pending acknowledgement list are unchanged.
    pub open spec fn same_queues(a: UcpStream, b: UcpStream) -> bool {
        &&& a.send_queue@ == b.send_queue@
        &&& a.recv_queue@ == b.recv_queue@
        &&& a.send_buffer@ == b.send_buffer@
        &&& a.ack_list@ == b.ack_list@
    }

    /// A fresh stream at its epoch: idle, default windows and timeout,
    /// counters at zero, all queues empty.
    pub fn new() -> (r: UcpStream)
        ensures
            r.wf(),
            r.state == UcpState::Idle,
            r.session_id == 0,
            r.alive_time == 0,
            r.heartbeat == 0,
            r.rto == DEFAULT_RTO,
            r.seq == 0,
            r.una == 0,
            r.local_window == DEFAULT_WINDOW,
            r.remote_window == DEFAULT_WINDOW,
            r.send_queue@.len() == 0,
            r.recv_queue@.len() == 0,
            r.send_buffer@.len() == 0,
            r.ack_list@.len() == 0,
            r.outbox@.len() == 0,
    {
        UcpStream {
            state: UcpState::Idle,
            session_id: 0,
            alive_time: 0,
            heartbeat: 0,
            rto: DEFAULT_RTO,
            seq: 0,
            una: 0,
            local_window: DEFAULT_WINDOW,
            remote_window: DEFAULT_WINDOW,
            send_queue: Vec::new(),
            recv_queue: Vec::new(),
            send_buffer: Vec::new(),
            ack_list: Vec::new(),
            outbox: Vec::new(),
        }
    }

    /// The sender's 32-bit millisecond timestamp for time `now`.
    pub fn timestamp(&self, now: u64) -> (r: u32)
        ensures
            r == ts32(now),
    {
        (now % 0x1_0000_0000u64) as u32
    }

    /// Assigns the next sequence number by pre-incrementing the counter; the
    /// first assigned number is 1, and 0 is reserved for sequence-less
    /// control packets.
    pub fn next_seq(&mut self) -> (r: u32)
        ensures
            r == seq_next(old(self).seq),
            final(self).seq == r,
            final(self).state == old(self).state,
            final(self).session_id == old(self).session_id,
            final(self).alive_time == old(self).alive_time,
            final(self).heartbeat == old(self).heartbeat,
            final(self).rto == old(self).rto,
            final(self).una == old(self).una,
            final(self).local_window == old(self).local_window,
            final(self).remote_window == old(self).remote_window,
            UcpStream::same_queues(*final(self), *old(self)),
            final(self).outbox@ == old(self).outbox@,
    {
        self.seq = next_in_space(self.seq);
        self.seq
    }

    /// A packet carrying a fresh sequence number and the stream's current
    /// identity, boundary and window.
    pub fn new_packet(&mut self, cmd: u8, now: u64) -> (r: UcpPacket)
        ensures
            r.wf(),
            r.read_pos == 0,
            r.payload == 0,
            r.skip_times == 0,
            r.xmit == 0,
            r.session_id == old(self).session_id,
            r.timestamp == ts32(now),
            r.window == old(self).local_window,
            r.una == old(self).una,
            r.seq == seq_next(old(self).seq),
            r.cmd == cmd,
            final(self).seq == seq_next(old(self).seq),
            final(self).state == old(self).state,
            final(self).session_id == old(self).session_id,
            final(self).alive_time == old(self).alive_time,
            final(self).heartbeat == old(self).heartbeat,
            final(self).rto == old(self).rto,
            final(self).una == old(self).una,
            final(self).local_window == old(self).local_window,
            final(self).remote_window == old(self).remote_window,
            UcpStream::same_queues(*final(self), *old(self)),
            final(self).outbox@ == old(self).outbox@,
    {
        let mut packet = UcpPacket::new();
        packet.session_id = self.session_id;
        packet.timestamp = self.timestamp(now);
        packet.window = self.local_window;
        packet.seq = self.next_seq();
        packet.una = self.una;
        packet.cmd = cmd;
        packet
    }

    /// A sequence-less control packet (acknowledgement or heartbeat): its
    /// sequence field stays 0.
    pub fn new_noseq_packet(&self, cmd: u8, now: u64) -> (r: UcpPacket)
        ensures
            r.wf(),
            r.read_pos == 0,
            r.payload == 0,
            r.skip_times == 0,
            r.xmit == 0,
            r.session_id == self.session_id,
            r.timestamp == ts32(now),
            r.window == self.local_window,
            r.una == self.una,
            r.seq == 0,
            r.cmd == cmd,
    {
        let mut packet = UcpPacket::new();
        packet.session_id = self.session_id;
        packet.timestamp = self.timestamp(now);
        packet.window = self.local_window;
        packet.una = self.una;
        packet.cmd = cmd;
        packet
    }

    /// Stages a freshly created packet for later emission.
    fn send_packet(&mut self, packet: UcpPacket)
        requires
            old(self).wf_queues(),
            packet.wf(),
            packet.read_pos == 0,
            packet.seq == old(self).seq,
            old(self).send_buffer@.len() > 0 ==> seq_below(
                old(self).send_buffer@.last().seq,
                packet.seq,
            ),
        ensures
            final(self).wf(),
            final(self).send_buffer@ == old(self).send_buffer@.push(packet),
            final(self).send_queue@ == old(self).send_queue@,
            final(self).recv_queue@ == old(self).recv_queue@,
            final(self).ack_list@ == old(self).ack_list@,
            final(self).outbox@ == old(self).outbox@,
            UcpStream::same_core(*final(self), *old(self)),
    {
        self.send_buffer.push(packet);
    }

    /// Packs a packet and appends its wire bytes to the outbox: the single
    /// seam through which every datagram leaves the engine.
    fn send_packet_directly(&mut self, packet: &mut UcpPacket)
        requires
            old(packet).wf(),
            old(packet).read_pos <= PACKET_META_SIZE + old(packet).payload as int,
        ensures
            final(packet).wf(),
            final(packet).size == PACKET_META_SIZE + old(packet).payload as int,
            final(packet).payload == old(packet).payload,
            final(packet).read_pos == old(packet).read_pos,
            final(packet).skip_times == old(packet).skip_times,
            UcpPacket::same_meta(*final(packet), *old(packet)),
            packed_form(
                final(packet).buf@,
                final(packet).size as int,
                old(packet).header(),
                old(packet).payload_bytes(),
            ),
            outbox_views(final(self).outbox@) == outbox_views(old(self).outbox@).push(
                final(packet).buf@.subrange(0, final(packet).size as int),
            ),
            UcpStream::same_core(*final(self), *old(self)),
            UcpStream::same_queues(*final(self), *old(self)),
    {
        packet.pack();
        let n = packet.size;
        let mut wire: Vec<u8> = Vec::new();
        let mut i: usize = 0;
        while i < n
            invariant
                i <= n,
                n == packet.size,
                packet.wf(),
                wire@.len() == i,
                forall|j: int| 0 <= j < i ==> wire@[j] == packet.buf@[j],
            decreases n - i,
        {
            let b = packet.buf[i];
            wire.push(b);
            i = i + 1;
        }
        proof {
            assert(wire@ =~= packet.buf@.subrange(0, packet.size as int));
        }
        self.outbox.push(wire);
    }

    /// The advisory backpressure predicate: the staging queue has reached
    /// the peer's advertised window.
    pub fn is_send_buffer_overflow(&self) -> (r: bool)
        ensures
            r == (self.send_buffer@.len() >= self.remote_window as int),
    {
        self.send_buffer.len() >= self.remote_window as usize
    }

    /// Whether the stream is still alive at `now`: the liveness window is
    /// 20 s from the last inbound packet.  At exactly `alive_time + 20000`
    /// the stream counts as broken.
    pub fn check_if_alive(&self, now: u64) -> (r: bool)
        ensures
            r == !(now >= self.alive_time && now - self.alive_time
                >= STREAM_BROKEN_MILLIS as u64),
    {
        !(now >= self.alive_time && now - self.alive_time >= STREAM_BROKEN_MILLIS)
    }

    /// Hands the accumulated wire datagrams, in emission order, to the
    /// driver and empties the outbox.
    pub fn take_outgoing(&mut self) -> (r: Vec<Vec<u8>>)
        ensures
            r@ == old(self).outbox@,
            final(self).outbox@.len() == 0,
            UcpStream::same_core(*final(self), *old(self)),
            UcpStream::same_queues(*final(self), *old(self)),
            old(self).wf() ==> final(self).wf(),
    {
        let mut out: Vec<Vec<u8>> = Vec::new();
        std::mem::swap(&mut out, &mut self.outbox);
        out
    }
}

/// The low 32 bits of a millisecond clock: the wire timestamp.
pub open spec fn ts32(now: u64) -> u32 {
    (now % 0x1_0000_0000) as u32
}

/// What cumulative acknowledgement does to the in-flight queue: packets
/// whose sequence precedes the peer's `una` leave from the front.
pub open spec fn drop_acked(q: Seq<UcpPacket>, una: u32) -> Seq<UcpPacket>
    decreases q.len(),
{
    if q.len() > 0 && seq_below(q[0].seq, una) {
        drop_acked(q.drop_first(), una)
    } else {
        q
    }
}

/// A counter one step short of saturating.
pub open spec fn sat_inc(x: u32) -> u32 {
    if x == u32::MAX {
        x
    } else {
        (x + 1) as u32
    }
}

/// The fast-retransmit observation: a packet sent no later than the
/// acknowledged one has its skip counter raised.
pub open spec fn bump_skip(p: UcpPacket, ts: u32) -> UcpPacket {
    if p.timestamp <= ts {
        UcpPacket { skip_times: sat_inc(p.skip_times), ..p }
    } else {
        p
    }
}

/// What one selective acknowledgement does to the in-flight queue: the first
/// packet with the acknowledged sequence leaves; every packet scanned before
/// it that was sent no later than the acknowledged timestamp has its skip
/// counter raised; packets past the match are untouched.
pub open spec fn ack_scan(q: Seq<UcpPacket>, s: u32, ts: u32) -> Seq<UcpPacket>
    decreases q.len(),
{
    if q.len() == 0 {
        q
    } else if q[0].seq == s {
        q.drop_first()
    } else {
        seq![bump_skip(q[0], ts)] + ack_scan(q.drop_first(), s, ts)
    }
}

/// Whether the in-flight queue holds the acknowledged sequence.
pub open spec fn ack_found(q: Seq<UcpPacket>, s: u32) -> bool
    decreases q.len(),
{
    if q.len() == 0 {
        false
    } else if q[0].seq == s {
        true
    } else {
        ack_found(q.drop_first(), s)
    }
}

/// Where an arriving sequence lands in the sorted receive queue: the first
/// position whose sequence does not precede it.
pub open spec fn scan_pos(q: Seq<UcpPacket>, s: u32) -> int
    decreases q.len(),
{
    if q.len() == 0 {
        0
    } else if seq_diff(s, q[0].seq) > 0 {
        1 + scan_pos(q.drop_first(), s)
    } else {
        0
    }
}

/// Whether the scan meets the exact sequence already queued.
pub open spec fn scan_dup(q: Seq<UcpPacket>, s: u32) -> bool
    decreases q.len(),
{
    if q.len() == 0 {
        false
    } else if seq_diff(s, q[0].seq) == 0 {
        true
    } else if seq_diff(s, q[0].seq) > 0 {
        scan_dup(q.drop_first(), s)
    } else {
        false
    }
}

/// How far the delivery boundary advances: one step per queued packet, from
/// `pos` on, whose sequences continue the contiguous run `una, una+1, ...`.
pub open spec fn advance_count(q: Seq<UcpPacket>, pos: int, una: u32) -> int
    decreases q.len() - pos
        when pos <= q.len()
{
    if pos < 0 || pos >= q.len() {
        0
    } else if q[pos].seq == una {
        1 + advance_count(q, pos + 1, seq_next(una))
    } else {
        0
    }
}

/// The delivery boundary after absorbing the contiguous run at `pos`.
pub open spec fn advance_una(q: Seq<UcpPacket>, pos: int, una: u32) -> u32
    decreases q.len() - pos
        when pos <= q.len()
{
    if pos < 0 || pos >= q.len() {
        una
    } else if q[pos].seq == una {
        advance_una(q, pos + 1, seq_next(una))
    } else {
        una
    }
}

/// The advanced boundary is the old one moved by the advance count.
pub proof fn lemma_advance_una_is_wrap_add(q: Seq<UcpPacket>, pos: int, una: u32)
    requires
        pos <= q.len(),
    ensures
        0 <= advance_count(q, pos, una),
        pos >= 0 ==> advance_count(q, pos, una) <= q.len() - pos,
        advance_una(q, pos, una) == wrap_add(una, advance_count(q, pos, una)),
    decreases q.len() - pos,
{
    if pos < 0 || pos >= q.len() || q[pos].seq != una {
        crate::seqnum::lemma_wrap_add_zero(una);
    } else {
        lemma_advance_una_is_wrap_add(q, pos + 1, seq_next(una));
        let k = advance_count(q, pos + 1, seq_next(una));
        assert(advance_una(q, pos, una) == wrap_add(seq_next(una), k));
        crate::seqnum::lemma_wrap_add_chain(una, k);
    }
}

/// The landing position characterised: everything before it precedes the
/// arriving sequence, and it stops at the first element that does not.
pub proof fn lemma_scan_pos_char(q: Seq<UcpPacket>, s: u32)
    ensures
        0 <= scan_pos(q, s) <= q.len(),
        forall|j: int| 0 <= j < scan_pos(q, s) ==> seq_diff(s, (#[trigger] q[j]).seq) > 0,
        scan_pos(q, s) < q.len() ==> seq_diff(s, q[scan_pos(q, s)].seq) <= 0,
        scan_dup(q, s) == (scan_pos(q, s) < q.len() && seq_diff(s, q[scan_pos(q, s)].seq) == 0),
    decreases q.len(),
{
    if q.len() > 0 && seq_diff(s, q[0].seq) > 0 {
        let qd = q.drop_first();
        lemma_scan_pos_char(qd, s);
        assert forall|j: int| 0 <= j < scan_pos(q, s) implies seq_diff(
            s,
            (#[trigger] q[j]).seq,
        ) > 0 by {
            if j > 0 {
                assert(q[j] == qd[j - 1]);
            }
        }
        if scan_pos(q, s) < q.len() {
            assert(q[scan_pos(q, s)] == qd[scan_pos(qd, s)]);
        }
    }
}

/// The landing position is the only index with its characterisation.
pub proof fn lemma_scan_pos_unique(q: Seq<UcpPacket>, s: u32, p: int)
    requires
        0 <= p <= q.len(),
        forall|j: int| 0 <= j < p ==> seq_diff(s, (#[trigger] q[j]).seq) > 0,
        p < q.len() ==> seq_diff(s, q[p].seq) <= 0,
    ensures
        scan_pos(q, s) == p,
    decreases q.len(),
{
    if q.len() == 0 {
    } else if p == 0 {
    } else {
        let qd = q.drop_first();
        assert(seq_diff(s, q[0].seq) > 0);
        assert forall|j: int| 0 <= j < p - 1 implies seq_diff(s, (#[trigger] qd[j]).seq) > 0 by {
            assert(qd[j] == q[j + 1]);
        }
        if p - 1 < qd.len() {
            assert(qd[p - 1] == q[p]);
        }
        lemma_scan_pos_unique(qd, s, p - 1);
    }
}

/// A selective acknowledgement that matches at index `i` removes exactly
/// that packet and bumps the scanned prefix.
proof fn lemma_ack_scan_match(q: Seq<UcpPacket>, s: u32, ts: u32, i: int)
    requires
        0 <= i < q.len(),
        q[i].seq == s,
        forall|j: int| 0 <= j < i ==> (#[trigger] q[j]).seq != s,
    ensures
        ack_found(q, s),
        ack_scan(q, s, ts) == Seq::new(i as nat, |j: int| bump_skip(q[j], ts)) + q.subrange(
            i + 1,
            q.len() as int,
        ),
    decreases i,
{
    if i == 0 {
        assert(ack_scan(q, s, ts) =~= Seq::new(0, |j: int| bump_skip(q[j], ts)) + q.subrange(
            1,
            q.len() as int,
        ));
    } else {
        let qd = q.drop_first();
        assert(qd[i - 1] == q[i]);
        assert forall|j: int| 0 <= j < i - 1 implies (#[trigger] qd[j]).seq != s by {
            assert(qd[j] == q[j + 1]);
        }
        lemma_ack_scan_match(qd, s, ts, i - 1);
        assert(ack_scan(q, s, ts) =~= Seq::new(i as nat, |j: int| bump_skip(q[j], ts))
            + q.subrange(i + 1, q.len() as int));
    }
}

/// A selective acknowledgement that matches nothing removes nothing: it only
/// bumps skip counters.
pub proof fn lemma_ack_scan_nomatch(q: Seq<UcpPacket>, s: u32, ts: u32)
    requires
        forall|j: int| 0 <= j < q.len() ==> (#[trigger] q[j]).seq != s,
    ensures
        !ack_found(q, s),
        ack_scan(q, s, ts) == Seq::new(q.len(), |j: int| bump_skip(q[j], ts)),
    decreases q.len(),
{
    if q.len() > 0 {
        let qd = q.drop_first();
        assert forall|j: int| 0 <= j < qd.len() implies (#[trigger] qd[j]).seq != s by {
            assert(qd[j] == q[j + 1]);
        }
        lemma_ack_scan_nomatch(qd, s, ts);
        assert(ack_scan(q, s, ts) =~= Seq::new(q.len(), |j: int| bump_skip(q[j], ts)));
    }
}

/// Relies on `rand::random`: nothing is assumed of the drawn value.
pub assume_specification<T>[ rand::random::<T> ]() -> (r: T)
    where
        rand::distributions::Standard: rand::distributions::Distribution<T>,
;

/// The `(seq, timestamp)` pairs an acknowledgement payload carries between
/// offsets `lo` and `hi`.
pub open spec fn ack_pairs(b: Seq<u8>, lo: int, hi: int) -> Seq<(u32, u32)>
    decreases hi - lo,
{
    if lo + 8 <= hi {
        seq![(be_at(b, lo) as u32, be_at(b, lo + 4) as u32)] + ack_pairs(b, lo + 8, hi)
    } else {
        Seq::empty()
    }
}

/// What a run of selective acknowledgements leaves of the in-flight queue
/// and the adaptive timeout: each pair removes its match and averages the
/// measured round trip into the timeout.
pub open spec fn acks_fold(q: Seq<UcpPacket>, rto: int, pairs: Seq<(u32, u32)>, tsnow: u32) -> (
    Seq<UcpPacket>,
    int,
)
    decreases pairs.len(),
{
    if pairs.len() == 0 {
        (q, rto)
    } else {
        acks_fold(
            ack_scan(q, pairs[0].0, pairs[0].1),
            (rto + wrap_diff(tsnow, pairs[0].1)) / 2,
            pairs.drop_first(),
            tsnow,
        )
    }
}

/// Nothing of the stream changed.
pub open spec fn same_stream(pre: UcpStream, post: UcpStream) -> bool {
    &&& UcpStream::same_core(post, pre)
    &&& UcpStream::same_queues(post, pre)
    &&& post.outbox@ == pre.outbox@
}

/// The stream after refreshing the liveness clock and the peer's advertised
/// window from an inbound packet.
pub open spec fn contacted(pre: UcpStream, now: u64, window: u32) -> UcpStream {
    UcpStream { alive_time: now, remote_window: window, ..pre }
}

/// The header of a sequence-less control packet the stream emits.
pub open spec fn ctrl_header(s: UcpStream, cmd: u8, now: u64) -> HeaderView {
    HeaderView {
        session_id: s.session_id as int,
        timestamp: ts32(now) as int,
        window: s.local_window as int,
        xmit: 0,
        una: s.una as int,
        seq: 0,
        cmd: cmd as int,
    }
}

/// Exactly one control datagram with the given header and payload length
/// was appended to the outbox.
pub open spec fn pushed_ctrl(ob0: Seq<Seq<u8>>, obf: Seq<Seq<u8>>, h: HeaderView, payload_len: int) -> bool {
    &&& obf.len() == ob0.len() + 1
    &&& obf.take(ob0.len() as int) == ob0
    &&& obf.last().len() == PACKET_META_SIZE + payload_len
    &&& header_of(obf.last()) == h
    &&& wire_legal(obf.last())
}

/// What one data packet does to the receive side: its sequence and
/// timestamp join the pending acknowledgement list unconditionally; an
/// already-delivered or duplicate segment changes nothing else; a new
/// segment is inserted in order and the delivery boundary absorbs the
/// contiguous run at the insertion point.
pub open spec fn data_shift(pre: UcpStream, post: UcpStream, p: UcpPacket) -> bool {
    &&& post.ack_list@ == pre.ack_list@.push((p.seq, p.timestamp))
    &&& seq_below(p.seq, pre.una) ==> post.recv_queue@ == pre.recv_queue@ && post.una == pre.una
    &&& !seq_below(p.seq, pre.una) && scan_dup(pre.recv_queue@, p.seq) ==> post.recv_queue@
        == pre.recv_queue@ && post.una == pre.una
    &&& !seq_below(p.seq, pre.una) && !scan_dup(pre.recv_queue@, p.seq) ==> post.recv_queue@
        == pre.recv_queue@.insert(scan_pos(pre.recv_queue@, p.seq), p) && post.una
        == advance_una(post.recv_queue@, scan_pos(pre.recv_queue@, p.seq), pre.una)
}

/// The effect of adopting an inbound handshake: the stream takes the
/// opener's session, sets its delivery boundary one past the opener's
/// sequence, adopts the advertised window, and stages a handshake reply
/// that echoes the opener's sequence and timestamp.
pub open spec fn accepted_post(pre: UcpStream, post: UcpStream, syn: UcpPacket, now: u64) -> bool {
    &&& post.state == UcpState::Accepting
    &&& post.session_id == syn.session_id
    &&& post.una == seq_next(syn.seq)
    &&& post.remote_window == syn.window
    &&& post.seq == seq_next(pre.seq)
    &&& post.send_buffer@.len() == pre.send_buffer@.len() + 1
    &&& post.send_buffer@.take(pre.send_buffer@.len() as int) == pre.send_buffer@
    &&& ({
        let sa = post.send_buffer@.last();
        &&& sa.cmd == CMD_SYN_ACK
        &&& sa.seq == seq_next(pre.seq)
        &&& sa.session_id == syn.session_id
        &&& sa.una == seq_next(syn.seq)
        &&& sa.window == pre.local_window
        &&& sa.timestamp == ts32(now)
        &&& sa.payload == 8
        &&& be_at(sa.buf@, PACKET_META_SIZE as int) == syn.seq as int
        &&& be_at(sa.buf@, PACKET_META_SIZE + 4) == syn.timestamp as int
        &&& sa.xmit == 0
        &&& sa.skip_times == 0
    })
    &&& post.send_queue@ == pre.send_queue@
    &&& post.recv_queue@ == pre.recv_queue@
    &&& post.ack_list@ == pre.ack_list@
    &&& post.outbox@ == pre.outbox@
    &&& post.alive_time == pre.alive_time
    &&& post.heartbeat == pre.heartbeat
    &&& post.rto == pre.rto
    &&& post.local_window == pre.local_window
}

/// The effect of the final handshake acknowledgement on an accepting
/// stream: an exact eight-byte acknowledgement is consumed, and matching
/// the staged handshake reply establishes the stream.
pub open spec fn accepting_ack_post(pre: UcpStream, post: UcpStream, p: UcpPacket, now: u64) -> bool {
    if !(p.cmd == CMD_ACK && p.payload == 8) {
        same_stream(pre, post)
    } else {
        let s0 = be_at(p.buf@, PACKET_META_SIZE as int) as u32;
        let t0 = be_at(p.buf@, PACKET_META_SIZE + 4) as u32;
        &&& post.send_queue@ == ack_scan(pre.send_queue@, s0, t0)
        &&& post.rto as int == (pre.rto + wrap_diff(ts32(now), t0)) / 2
        &&& post.state == if ack_found(pre.send_queue@, s0) {
            UcpState::Established
        } else {
            pre.state
        }
        &&& post.recv_queue@ == pre.recv_queue@
        &&& post.send_buffer@ == pre.send_buffer@
        &&& post.ack_list@ == pre.ack_list@
        &&& post.outbox@ == pre.outbox@
        &&& post.session_id == pre.session_id
        &&& post.alive_time == pre.alive_time
        &&& post.heartbeat == pre.heartbeat
        &&& post.seq == pre.seq
        &&& post.una == pre.una
        &&& post.local_window == pre.local_window
        &&& post.remote_window == pre.remote_window
    }
}

/// The effect of a handshake reply: an exact eight-byte reply is answered
/// at once with a sequence-less acknowledgement echoing its sequence and
/// timestamp; a connecting stream that finds its own handshake acknowledged
/// becomes established and sets its delivery boundary one past the reply's
/// sequence.
pub open spec fn syn_ack_post(pre: UcpStream, post: UcpStream, p: UcpPacket, now: u64) -> bool {
    if !(p.cmd == CMD_SYN_ACK && p.payload == 8) {
        same_stream(pre, post)
    } else {
        let s0 = be_at(p.buf@, PACKET_META_SIZE as int) as u32;
        let t0 = be_at(p.buf@, PACKET_META_SIZE + 4) as u32;
        let ob0 = outbox_views(pre.outbox@);
        let obf = outbox_views(post.outbox@);
        &&& pushed_ctrl(ob0, obf, ctrl_header(pre, CMD_ACK, now), 8)
        &&& be_at(obf.last(), PACKET_META_SIZE as int) == p.seq as int
        &&& be_at(obf.last(), PACKET_META_SIZE + 4) == p.timestamp as int
        &&& if pre.state == UcpState::Connecting {
            &&& post.send_queue@ == ack_scan(pre.send_queue@, s0, t0)
            &&& post.rto as int == (pre.rto + wrap_diff(ts32(now), t0)) / 2
            &&& if ack_found(pre.send_queue@, s0) {
                post.state == UcpState::Established && post.una == seq_next(p.seq)
            } else {
                post.state == pre.state && post.una == pre.una
            }
        } else {
            &&& post.send_queue@ == pre.send_queue@
            &&& post.rto == pre.rto
            &&& post.state == pre.state
            &&& post.una == pre.una
        }
        &&& post.recv_queue@ == pre.recv_queue@
        &&& post.send_buffer@ == pre.send_buffer@
        &&& post.ack_list@ == pre.ack_list@
        &&& post.session_id == pre.session_id
        &&& post.alive_time == pre.alive_time
        &&& post.heartbeat == pre.heartbeat
        &&& post.seq == pre.seq
        &&& post.local_window == pre.local_window
        &&& post.remote_window == pre.remote_window
    }
}

/// The effect of one inbound packet on an established stream: cumulative
/// acknowledgement first, then the command-specific action.
pub open spec fn established_post(pre: UcpStream, post: UcpStream, p: UcpPacket, now: u64) -> bool {
    let q1 = drop_acked(pre.send_queue@, p.una);
    let ob0 = outbox_views(pre.outbox@);
    let obf = outbox_views(post.outbox@);
    &&& post.state == pre.state
    &&& post.session_id == pre.session_id
    &&& post.heartbeat == pre.heartbeat
    &&& post.alive_time == (if p.cmd == CMD_HEARTBEAT_ACK {
        now
    } else {
        pre.alive_time
    })
    &&& post.seq == pre.seq
    &&& post.local_window == pre.local_window
    &&& post.remote_window == pre.remote_window
    &&& post.send_buffer@ == pre.send_buffer@
    &&& if p.cmd == CMD_ACK {
        &&& post.recv_queue@ == pre.recv_queue@
        &&& post.una == pre.una
        &&& post.ack_list@ == pre.ack_list@
        &&& obf == ob0
        &&& if p.payload as int % 8 == 0 {
            ({
                let folded = acks_fold(
                    q1,
                    pre.rto as int,
                    ack_pairs(p.buf@, PACKET_META_SIZE as int, p.size as int),
                    ts32(now),
                );
                post.send_queue@ == folded.0 && post.rto as int == folded.1
            })
        } else {
            post.send_queue@ == q1 && post.rto == pre.rto
        }
    } else if p.cmd == CMD_DATA {
        &&& post.send_queue@ == q1
        &&& post.rto == pre.rto
        &&& obf == ob0
        &&& data_shift(pre, post, p)
    } else if p.cmd == CMD_SYN_ACK {
        &&& post.send_queue@ == q1
        &&& post.rto == pre.rto
        &&& post.recv_queue@ == pre.recv_queue@
        &&& post.una == pre.una
        &&& post.ack_list@ == pre.ack_list@
        &&& if p.payload == 8 {
            &&& pushed_ctrl(ob0, obf, ctrl_header(pre, CMD_ACK, now), 8)
            &&& be_at(obf.last(), PACKET_META_SIZE as int) == p.seq as int
            &&& be_at(obf.last(), PACKET_META_SIZE + 4) == p.timestamp as int
        } else {
            obf == ob0
        }
    } else if p.cmd == CMD_HEARTBEAT {
        &&& post.send_queue@ == q1
        &&& post.rto == pre.rto
        &&& post.recv_queue@ == pre.recv_queue@
        &&& post.una == pre.una
        &&& post.ack_list@ == pre.ack_list@
        &&& pushed_ctrl(ob0, obf, ctrl_header(pre, CMD_HEARTBEAT_ACK, now), 0)
    } else {
        &&& post.send_queue@ == q1
        &&& post.rto == pre.rto
        &&& post.recv_queue@ == pre.recv_queue@
        &&& post.una == pre.una
        &&& post.ack_list@ == pre.ack_list@
        &&& obf == ob0
    }
}

/// The effect of routing one inbound packet on a stream past the idle
/// phase: a session mismatch drops it; otherwise the liveness clock and the
/// advertised window refresh, and the packet is handled by the phase the
/// stream is in.
pub open spec fn processing_post(pre: UcpStream, post: UcpStream, p: UcpPacket, now: u64) -> bool {
    if p.session_id != pre.session_id {
        same_stream(pre, post)
    } else {
        let mid = contacted(pre, now, p.window);
        &&& pre.state == UcpState::Accepting ==> accepting_ack_post(mid, post, p, now)
        &&& pre.state == UcpState::Connecting ==> syn_ack_post(mid, post, p, now)
        &&& pre.state == UcpState::Established ==> established_post(mid, post, p, now)
        &&& pre.state == UcpState::Idle ==> same_stream(mid, post)
    }
}

/// One wire datagram carrying exactly this header and payload.
pub open spec fn dgram_matches(d: Seq<u8>, h: HeaderView, pl: Seq<u8>) -> bool {
    &&& d.len() == PACKET_META_SIZE + pl.len()
    &&& header_of(d) == h
    &&& d.subrange(PACKET_META_SIZE as int, d.len() as int) == pl
    &&& wire_legal(d)
}

/// A run of wire datagrams carrying exactly these headers and payloads, in
/// order.
pub open spec fn dgrams_match(ds: Seq<Seq<u8>>, ems: Seq<(HeaderView, Seq<u8>)>) -> bool {
    &&& ds.len() == ems.len()
    &&& forall|k: int|
        0 <= k < ds.len() ==> dgram_matches(#[trigger] ds[k], ems[k].0, ems[k].1)
}

/// Whether an in-flight packet is retransmitted at this tick: its timeout
/// elapsed, or two out-of-order acknowledgements marked it lost.
pub open spec fn resend_due(p: UcpPacket, tsnow: u32, rto: u32) -> bool {
    wrap_diff(tsnow, p.timestamp) >= rto || p.skip_times >= SKIP_RESEND_TIMES
}

/// The header a retransmitted packet goes out with: refreshed window,
/// boundary and timestamp, and one more transmission counted.
pub open spec fn resend_header(p: UcpPacket, una: u32, lw: u32, tsnow: u32) -> HeaderView {
    HeaderView {
        session_id: p.session_id as int,
        timestamp: tsnow as int,
        window: lw as int,
        xmit: seq_next(p.xmit) as int,
        una: una as int,
        seq: p.seq as int,
        cmd: p.cmd as int,
    }
}

/// An in-flight packet after retransmission: refreshed header fields, a
/// cleared skip counter, the same payload, and a freshly packed buffer.
pub open spec fn resent_packet(p2: UcpPacket, p: UcpPacket, una: u32, lw: u32, tsnow: u32) -> bool {
    &&& p2.seq == p.seq
    &&& p2.cmd == p.cmd
    &&& p2.session_id == p.session_id
    &&& p2.skip_times == 0
    &&& p2.window == lw
    &&& p2.una == una
    &&& p2.timestamp == tsnow
    &&& p2.xmit == seq_next(p.xmit)
    &&& p2.payload == p.payload
    &&& p2.read_pos == p.read_pos
    &&& p2.size == PACKET_META_SIZE + p.payload as int
    &&& p2.payload_bytes() == p.payload_bytes()
    &&& p2.wf()
}

/// The datagrams the retransmit scan sends: one per due packet, in queue
/// order.
pub open spec fn resend_ems(q: Seq<UcpPacket>, una: u32, lw: u32, tsnow: u32, rto: u32) -> Seq<
    (HeaderView, Seq<u8>),
>
    decreases q.len(),
{
    if q.len() == 0 {
        Seq::empty()
    } else {
        let rest = resend_ems(q.drop_first(), una, lw, tsnow, rto);
        if resend_due(q[0], tsnow, rto) {
            seq![(resend_header(q[0], una, lw, tsnow), q[0].payload_bytes())] + rest
        } else {
            rest
        }
    }
}

/// The header a staged packet goes out with on its first emission.
pub open spec fn staged_out_header(p: UcpPacket, una: u32, lw: u32, tsnow: u32) -> HeaderView {
    HeaderView {
        session_id: p.session_id as int,
        timestamp: tsnow as int,
        window: lw as int,
        xmit: p.xmit as int,
        una: una as int,
        seq: p.seq as int,
        cmd: p.cmd as int,
    }
}

/// A staged packet after its move to the in-flight queue: stamped window,
/// boundary and timestamp, the same payload, and a freshly packed buffer.
pub open spec fn staged_out_packet(p2: UcpPacket, p: UcpPacket, una: u32, lw: u32, tsnow: u32) -> bool {
    &&& p2.seq == p.seq
    &&& p2.cmd == p.cmd
    &&& p2.session_id == p.session_id
    &&& p2.skip_times == p.skip_times
    &&& p2.window == lw
    &&& p2.una == una
    &&& p2.timestamp == tsnow
    &&& p2.xmit == p.xmit
    &&& p2.payload == p.payload
    &&& p2.read_pos == p.read_pos
    &&& p2.size == PACKET_META_SIZE + p.payload as int
    &&& p2.payload_bytes() == p.payload_bytes()
    &&& p2.wf()
}

/// How many staged packets the window admits onto the wire this tick: moves
/// stop at the window's packet budget, or when the distance from the oldest
/// unacknowledged sequence to the candidate reaches the window.
pub open spec fn pending_count(front: Option<u32>, sq_len: int, sb: Seq<UcpPacket>, window: int) -> int
    decreases sb.len(),
{
    if sq_len >= window || sb.len() == 0 {
        0
    } else if front is Some && wrap_diff(sb[0].seq, front->0) >= window {
        0
    } else {
        1 + pending_count(
            if front is Some {
                front
            } else {
                Some(sb[0].seq)
            },
            sq_len + 1,
            sb.drop_first(),
            window,
        )
    }
}

/// The moves never pass the window budget, nor the staging queue's length.
pub proof fn lemma_pending_count_bound(front: Option<u32>, sq_len: int, sb: Seq<UcpPacket>, window: int)
    ensures
        0 <= pending_count(front, sq_len, sb, window) <= sb.len(),
        sq_len + pending_count(front, sq_len, sb, window) <= (if sq_len < window {
            window
        } else {
            sq_len
        }),
    decreases sb.len(),
{
    if !(sq_len >= window || sb.len() == 0) {
        if !(front is Some && wrap_diff(sb[0].seq, front->0) >= window) {
            lemma_pending_count_bound(
                if front is Some {
                    front
                } else {
                    Some(sb[0].seq)
                },
                sq_len + 1,
                sb.drop_first(),
                window,
            );
        }
    }
}

/// The sequence numbers the window gate reads from a queue's front.
pub open spec fn front_seq(q: Seq<UcpPacket>) -> Option<u32> {
    if q.len() == 0 {
        Option::None
    } else {
        Option::Some(q[0].seq)
    }
}

/// How many acknowledgement datagrams a pending list needs: 171 pairs fit
/// in one payload.
pub open spec fn ack_chunk_count(n: int) -> int {
    (n + 170) / 171
}

/// How many pairs the `c`-th acknowledgement datagram carries.
pub open spec fn ack_chunk_len(n: int, c: int) -> int {
    if 171 * (c + 1) <= n {
        171
    } else {
        n - 171 * c
    }
}

/// A run of acknowledgement datagrams carrying a whole pending list, in
/// chunks of up to 171 pairs.
pub open spec fn ack_dgrams_ok(ds: Seq<Seq<u8>>, h: HeaderView, pairs: Seq<(u32, u32)>) -> bool {
    &&& ds.len() == ack_chunk_count(pairs.len() as int)
    &&& forall|c: int| 0 <= c < ds.len() ==> ack_dgram_ok(#[trigger] ds[c], h, pairs, c)
}

/// The datagrams the window-gated emission sends: the first `m` staged
/// packets, each under a freshly stamped header.
pub open spec fn staged_ems(sb: Seq<UcpPacket>, m: int, una: u32, lw: u32, tsnow: u32) -> Seq<
    (HeaderView, Seq<u8>),
> {
    Seq::new(m as nat, |k: int| (staged_out_header(sb[k], una, lw, tsnow), sb[k].payload_bytes()))
}

/// The `c`-th acknowledgement datagram: a control header and the `c`-th
/// run of up to 171 `(seq, timestamp)` pairs, big-endian.
pub open spec fn ack_dgram_ok(d: Seq<u8>, h: HeaderView, pairs: Seq<(u32, u32)>, c: int) -> bool {
    let len = ack_chunk_len(pairs.len() as int, c);
    &&& d.len() == PACKET_META_SIZE + 8 * len
    &&& header_of(d) == h
    &&& wire_legal(d)
    &&& forall|k: int|
        0 <= k < len ==> be_at(d, PACKET_META_SIZE + 8 * k) == (#[trigger] pairs[171 * c + k]).0
            as int && be_at(d, PACKET_META_SIZE + 8 * k + 4) == pairs[171 * c + k].1 as int
}

/// How many data packets a byte run needs: each carries up to 1371 bytes.
pub open spec fn data_chunk_count(n: int) -> int {
    (n + MAX_PAYLOAD - 1) / (MAX_PAYLOAD as int)
}

/// A freshly minted data packet on the staging queue: the stream's session,
/// a fresh sequence `k` steps past the old counter, never transmitted, and
/// the given payload length.
pub open spec fn staged_data_packet(
    p: UcpPacket,
    s: UcpStream,
    now: u64,
    k: int,
    payload_len: int,
) -> bool {
    &&& p.cmd == CMD_DATA
    &&& p.session_id == s.session_id
    &&& p.seq == wrap_add(s.seq, k)
    &&& p.una == s.una
    &&& p.window == s.local_window
    &&& p.timestamp == ts32(now)
    &&& p.xmit == 0
    &&& p.skip_times == 0
    &&& p.read_pos == 0
    &&& p.payload == payload_len
    &&& p.wf()
}

/// Appending a packet appends its staged payload.
proof fn lemma_staged_bytes_push(q: Seq<UcpPacket>, p: UcpPacket)
    ensures
        staged_bytes(q.push(p)) == staged_bytes(q) + p.payload_bytes(),
    decreases q.len(),
{
    if q.len() == 0 {
        assert(q.push(p).drop_first() =~= q);
        assert(staged_bytes(q.push(p)) =~= staged_bytes(q) + p.payload_bytes());
    } else {
        assert(q.push(p).drop_first() =~= q.drop_first().push(p));
        lemma_staged_bytes_push(q.drop_first(), p);
        assert(staged_bytes(q.push(p)) =~= staged_bytes(q) + p.payload_bytes());
    }
}

/// Growing the last packet's payload appends to the staged byte stream.
proof fn lemma_staged_bytes_grow_last(q: Seq<UcpPacket>, p: UcpPacket, delta: Seq<u8>)
    requires
        q.len() > 0,
        p.payload_bytes() == q.last().payload_bytes() + delta,
    ensures
        staged_bytes(q.update(q.len() - 1, p)) == staged_bytes(q) + delta,
    decreases q.len(),
{
    if q.len() == 1 {
        let q2 = q.update(0, p);
        assert(q2[0] == p);
        assert(q2.drop_first() =~= q.drop_first());
        assert(staged_bytes(q2) == p.payload_bytes() + staged_bytes(q2.drop_first()));
        assert(staged_bytes(q) == q[0].payload_bytes() + staged_bytes(q.drop_first()));
        assert(q.last() == q[0]);
        assert(staged_bytes(q2) =~= staged_bytes(q) + delta);
    } else {
        let qd = q.drop_first();
        assert(q.update(q.len() - 1, p).drop_first() =~= qd.update(qd.len() - 1, p));
        assert(qd.last() == q.last());
        lemma_staged_bytes_grow_last(qd, p, delta);
        assert(staged_bytes(q.update(q.len() - 1, p)) =~= staged_bytes(q) + delta);
    }
}

impl UcpStream {
    /// Cumulative acknowledgement: pops from the front of the in-flight
    /// queue every packet whose sequence precedes the peer's `una`.
    pub fn process_una(&mut self, una: u32)
        requires
            old(self).wf(),
        ensures
            final(self).wf(),
            final(self).send_queue@ == drop_acked(old(self).send_queue@, una),
            final(self).recv_queue@ == old(self).recv_queue@,
            final(self).send_buffer@ == old(self).send_buffer@,
            final(self).ack_list@ == old(self).ack_list@,
            final(self).outbox@ == old(self).outbox@,
            UcpStream::same_core(*final(self), *old(self)),
    {
        while self.send_queue.len() > 0 && is_seq_below(self.send_queue[0].seq, una)
            invariant
                self.wf(),
                drop_acked(self.send_queue@, una) == drop_acked(old(self).send_queue@, una),
                self.recv_queue@ == old(self).recv_queue@,
                self.send_buffer@ == old(self).send_buffer@,
                self.ack_list@ == old(self).ack_list@,
                self.outbox@ == old(self).outbox@,
                UcpStream::same_core(*self, *old(self)),
            decreases self.send_queue@.len(),
        {
            let ghost q = self.send_queue@;
            let _ = self.send_queue.remove(0);
            proof {
                assert(self.send_queue@ =~= q.drop_first());
            }
        }
    }

    /// One selective acknowledgement: refreshes the adaptive timeout from
    /// the measured round trip, removes the first in-flight packet with the
    /// acknowledged sequence, and raises the skip counter of every packet
    /// scanned before it that was sent no later than the acknowledged
    /// timestamp.  Returns whether a packet was removed.
    pub fn process_an_ack(&mut self, seq: u32, timestamp: u32, now: u64) -> (r: bool)
        requires
            old(self).wf(),
        ensures
            final(self).wf(),
            r == ack_found(old(self).send_queue@, seq),
            final(self).send_queue@ == ack_scan(old(self).send_queue@, seq, timestamp),
            final(self).rto as int == (old(self).rto + wrap_diff(ts32(now), timestamp)) / 2,
            final(self).recv_queue@ == old(self).recv_queue@,
            final(self).send_buffer@ == old(self).send_buffer@,
            final(self).ack_list@ == old(self).ack_list@,
            final(self).outbox@ == old(self).outbox@,
            final(self).state == old(self).state,
            final(self).session_id == old(self).session_id,
            final(self).alive_time == old(self).alive_time,
            final(self).heartbeat == old(self).heartbeat,
            final(self).seq == old(self).seq,
            final(self).una == old(self).una,
            final(self).local_window == old(self).local_window,
            final(self).remote_window == old(self).remote_window,
    {
        let rtt = wrapped_sub(self.timestamp(now), timestamp);
        self.rto = ((self.rto as u64 + rtt as u64) / 2) as u32;

        let n = self.send_queue.len();
        let mut i: usize = 0;
        while i < n
            invariant
                old(self).wf(),
                n == self.send_queue@.len(),
                n == old(self).send_queue@.len(),
                i <= n,
                forall|j: int|
                    0 <= j < i ==> #[trigger] self.send_queue@[j] == bump_skip(
                        old(self).send_queue@[j],
                        timestamp,
                    ) && old(self).send_queue@[j].seq != seq,
                forall|j: int|
                    i <= j < n ==> #[trigger] self.send_queue@[j] == old(self).send_queue@[j],
                self.recv_queue@ == old(self).recv_queue@,
                self.send_buffer@ == old(self).send_buffer@,
                self.ack_list@ == old(self).ack_list@,
                self.outbox@ == old(self).outbox@,
                self.state == old(self).state,
                self.session_id == old(self).session_id,
                self.alive_time == old(self).alive_time,
                self.heartbeat == old(self).heartbeat,
                self.seq == old(self).seq,
                self.una == old(self).una,
                self.local_window == old(self).local_window,
                self.remote_window == old(self).remote_window,
                self.rto as int == (old(self).rto + wrap_diff(ts32(now), timestamp)) / 2,
            decreases n - i,
        {
            if self.send_queue[i].seq == seq {
                let ghost q_now = self.send_queue@;
                let _ = self.send_queue.remove(i);
                proof {
                    assert forall|j: int|
                        0 <= j < i implies (#[trigger] old(self).send_queue@[j]).seq != seq by {
                        assert(q_now[j] == bump_skip(old(self).send_queue@[j], timestamp));
                    }
                    lemma_ack_scan_match(old(self).send_queue@, seq, timestamp, i as int);
                    assert(self.send_queue@ =~= ack_scan(old(self).send_queue@, seq, timestamp));
                    assert forall|k: int|
                        0 <= k < self.send_queue@.len() implies (#[trigger] self.send_queue@[k]).wf()
                        && self.send_queue@[k].read_pos == 0 by {
                        assert(self.send_queue@[k] == q_now.remove(i as int)[k]);
                    }
                }
                return true;
            }
            if self.send_queue[i].timestamp <= timestamp {
                let st = self.send_queue[i].skip_times;
                if st < u32::MAX {
                    self.send_queue[i].skip_times = st + 1;
                }
            }
            proof {
                assert(self.send_queue@[i as int] == bump_skip(
                    old(self).send_queue@[i as int],
                    timestamp,
                ));
            }
            i = i + 1;
        }
        proof {
            assert forall|j: int|
                0 <= j < n implies (#[trigger] old(self).send_queue@[j]).seq != seq by {
                assert(self.send_queue@[j] == bump_skip(old(self).send_queue@[j], timestamp));
            }
            lemma_ack_scan_nomatch(old(self).send_queue@, seq, timestamp);
            assert(self.send_queue@ =~= ack_scan(old(self).send_queue@, seq, timestamp));
            assert forall|k: int|
                0 <= k < self.send_queue@.len() implies (#[trigger] self.send_queue@[k]).wf()
                && self.send_queue@[k].read_pos == 0 by {
                assert(old(self).send_queue@[k].wf());
            }
        }
        false
    }

    /// One arriving data packet: its sequence and timestamp join the pending
    /// acknowledgement list unconditionally; an already-delivered or
    /// duplicate segment is otherwise dropped; a new segment is inserted in
    /// sequence order, and the delivery boundary absorbs the contiguous run
    /// that starts at the insertion point.
    pub fn process_data(&mut self, packet: UcpPacket)
        requires
            old(self).wf(),
            packet.wf(),
        ensures
            final(self).wf(),
            final(self).ack_list@ == old(self).ack_list@.push((packet.seq, packet.timestamp)),
            final(self).send_queue@ == old(self).send_queue@,
            final(self).send_buffer@ == old(self).send_buffer@,
            final(self).outbox@ == old(self).outbox@,
            final(self).state == old(self).state,
            final(self).session_id == old(self).session_id,
            final(self).alive_time == old(self).alive_time,
            final(self).heartbeat == old(self).heartbeat,
            final(self).rto == old(self).rto,
            final(self).seq == old(self).seq,
            final(self).local_window == old(self).local_window,
            final(self).remote_window == old(self).remote_window,
            data_shift(*old(self), *final(self), packet),
    {
        self.ack_list.push((packet.seq, packet.timestamp));

        if is_seq_below(packet.seq, self.una) {
            return ;
        }
        let n = self.recv_queue.len();
        let mut pos: usize = 0;
        let mut done: bool = false;
        let mut dup: bool = false;
        while pos < n && !done
            invariant
                n == self.recv_queue@.len(),
                pos <= n,
                forall|j: int|
                    0 <= j < pos ==> seq_diff(packet.seq, (#[trigger] self.recv_queue@[j]).seq)
                        > 0,
                done ==> pos < n && seq_diff(packet.seq, self.recv_queue@[pos as int].seq) <= 0
                    && dup == (seq_diff(packet.seq, self.recv_queue@[pos as int].seq) == 0),
                !done ==> !dup,
            decreases n - pos + (if done {
                0int
            } else {
                1int
            }),
        {
            let qs = self.recv_queue[pos].seq;
            if packet.seq == qs {
                proof {
                    crate::seqnum::lemma_seq_diff_zero(packet.seq, qs);
                }
                dup = true;
                done = true;
            } else if is_seq_below(packet.seq, qs) {
                proof {
                    crate::seqnum::lemma_seq_diff_zero(packet.seq, qs);
                }
                done = true;
            } else {
                proof {
                    crate::seqnum::lemma_seq_diff_zero(packet.seq, qs);
                }
                pos = pos + 1;
            }
        }
        proof {
            lemma_scan_pos_unique(self.recv_queue@, packet.seq, pos as int);
            lemma_scan_pos_char(self.recv_queue@, packet.seq);
        }
        if dup {
            return ;
        }

        let ghost q0 = self.recv_queue@;
        self.recv_queue.insert(pos, packet);
        let ghost q1 = self.recv_queue@;

        proof {
            assert forall|k: int| 0 <= k < q1.len() - 1 implies seq_below(
                (#[trigger] q1[k]).seq,
                q1[k + 1].seq,
            ) by {
                if k < pos - 1 {
                    assert(q1[k] == q0[k] && q1[k + 1] == q0[k + 1]);
                } else if k == pos - 1 {
                    assert(q1[k] == q0[k] && q1[k + 1] == packet);
                    crate::seqnum::lemma_seq_below_flip(packet.seq, q0[k].seq);
                } else if k == pos {
                    assert(q1[k] == packet && q1[k + 1] == q0[k]);
                    crate::seqnum::lemma_seq_diff_zero(packet.seq, q0[k].seq);
                } else {
                    assert(q1[k] == q0[k - 1] && q1[k + 1] == q0[k]);
                }
            }
            assert forall|k: int| 0 <= k < q1.len() implies (#[trigger] q1[k]).wf() by {
                if k < pos {
                    assert(q1[k] == q0[k]);
                } else if k > pos {
                    assert(q1[k] == q0[k - 1]);
                }
            }
        }

        let len2 = self.recv_queue.len();
        let mut i: usize = pos;
        while i < len2 && self.recv_queue[i].seq == self.una
            invariant
                len2 == self.recv_queue@.len(),
                pos <= i <= len2,
                self.recv_queue@ == q1,
                self.wf(),
                advance_una(q1, pos as int, old(self).una) == advance_una(
                    q1,
                    i as int,
                    self.una,
                ),
                self.ack_list@ == old(self).ack_list@.push((packet.seq, packet.timestamp)),
                self.send_queue@ == old(self).send_queue@,
                self.send_buffer@ == old(self).send_buffer@,
                self.outbox@ == old(self).outbox@,
                self.state == old(self).state,
                self.session_id == old(self).session_id,
                self.alive_time == old(self).alive_time,
                self.heartbeat == old(self).heartbeat,
                self.rto == old(self).rto,
                self.seq == old(self).seq,
                self.local_window == old(self).local_window,
                self.remote_window == old(self).remote_window,
            decreases len2 - i,
        {
            self.una = next_in_space(self.una);
            i = i + 1;
        }
    }

    /// Cuts application bytes into data packets: fills the remaining
    /// capacity of the staging queue's tail packet first, then mints new
    /// data packets, each with a freshly assigned sequence, for the rest.
    /// The staged byte stream grows by exactly the given bytes.
    pub fn send(&mut self, data: &[u8], now: u64)
        requires
            old(self).wf(),
        ensures
            final(self).wf(),
            staged_bytes(final(self).send_buffer@) == staged_bytes(old(self).send_buffer@)
                + data@,
            ({
                let len0 = old(self).send_buffer@.len() as int;
                let fill = if len0 > 0 {
                    if MAX_PAYLOAD - old(self).send_buffer@.last().payload as int
                        <= data@.len() {
                        MAX_PAYLOAD - old(self).send_buffer@.last().payload as int
                    } else {
                        data@.len() as int
                    }
                } else {
                    0
                };
                let k = data_chunk_count(data@.len() - fill);
                let fresh = final(self).send_buffer@.skip(len0);
                &&& final(self).send_buffer@.len() == len0 + k
                &&& final(self).seq == wrap_add(old(self).seq, k)
                &&& (forall|i: int|
                    0 <= i < len0 - 1 ==> #[trigger] final(self).send_buffer@[i] == old(
                        self,
                    ).send_buffer@[i])
                &&& (len0 > 0 ==> ({
                    let f = final(self).send_buffer@[len0 - 1];
                    let o = old(self).send_buffer@.last();
                    &&& UcpPacket::same_meta(f, o)
                    &&& f.payload == o.payload + fill
                    &&& f.read_pos == o.read_pos
                    &&& f.size == o.size
                    &&& f.skip_times == o.skip_times
                }))
                &&& (forall|i: int|
                    0 <= i < k ==> staged_data_packet(
                        #[trigger] fresh[i],
                        *old(self),
                        now,
                        i + 1,
                        if i < k - 1 {
                            MAX_PAYLOAD as int
                        } else {
                            data@.len() - fill - MAX_PAYLOAD * (k - 1)
                        },
                    ))
            }),
            final(self).send_queue@ == old(self).send_queue@,
            final(self).recv_queue@ == old(self).recv_queue@,
            final(self).ack_list@ == old(self).ack_list@,
            final(self).outbox@ == old(self).outbox@,
            final(self).state == old(self).state,
            final(self).session_id == old(self).session_id,
            final(self).alive_time == old(self).alive_time,
            final(self).heartbeat == old(self).heartbeat,
            final(self).rto == old(self).rto,
            final(self).una == old(self).una,
            final(self).local_window == old(self).local_window,
            final(self).remote_window == old(self).remote_window,
    {
        let mut pos: usize = 0;
        if self.send_buffer.len() > 0 {
            let ghost q0 = self.send_buffer@;
            let last_i = self.send_buffer.len() - 1;
            let rl = self.send_buffer[last_i].remaining_load();
            let remain = if rl < data.len() {
                rl
            } else {
                data.len()
            };
            if remain > 0 {
                let chunk = vstd::slice::slice_subrange(data, 0, remain);
                let mut p = self.send_buffer.pop().unwrap();
                let ghost p0 = p;
                let ok = p.payload_write_slice(chunk);
                self.send_buffer.push(p);
                proof {
                    assert(p.payload_bytes() =~= p0.payload_bytes() + chunk@);
                    assert(self.send_buffer@ =~= q0.update(q0.len() - 1, p));
                    lemma_staged_bytes_grow_last(q0, p, chunk@);
                    assert forall|k: int|
                        0 <= k < self.send_buffer@.len() implies (#[trigger] self.send_buffer@[
                        k]).wf() && self.send_buffer@[k].read_pos == 0 by {
                        if k < q0.len() - 1 {
                            assert(self.send_buffer@[k] == q0[k]);
                        }
                    }
                    assert forall|k: int| 0 <= k < self.send_buffer@.len() - 1 implies seq_below(
                        (#[trigger] self.send_buffer@[k]).seq,
                        self.send_buffer@[k + 1].seq,
                    ) by {
                        assert(q0[k].seq == self.send_buffer@[k].seq);
                        assert(q0[k + 1].seq == self.send_buffer@[k + 1].seq);
                    }
                }
            }
            pos = remain;
        }
        let ghost s_mid = *self;
        if pos < data.len() {
            let rest = vstd::slice::slice_subrange(data, pos, data.len());
            self.make_packet_send(rest, now);
            proof {
                assert(staged_bytes(old(self).send_buffer@) + data@.subrange(0, pos as int)
                    + rest@ =~= staged_bytes(old(self).send_buffer@) + data@);
                let len0 = old(self).send_buffer@.len() as int;
                let k = data_chunk_count(rest@.len() as int);
                assert forall|i: int|
                    0 <= i < k implies staged_data_packet(
                    #[trigger] self.send_buffer@.skip(len0)[i],
                    *old(self),
                    now,
                    i + 1,
                    if i < k - 1 {
                        MAX_PAYLOAD as int
                    } else {
                        rest@.len() - MAX_PAYLOAD * (k - 1)
                    },
                ) by {
                    assert(staged_data_packet(
                        self.send_buffer@.skip(len0)[i],
                        s_mid,
                        now,
                        i + 1,
                        if i < k - 1 {
                            MAX_PAYLOAD as int
                        } else {
                            rest@.len() - MAX_PAYLOAD * (k - 1)
                        },
                    ));
                }
                assert forall|i: int|
                    0 <= i < len0 - 1 implies #[trigger] self.send_buffer@[i] == old(
                    self,
                ).send_buffer@[i] by {
                    assert(self.send_buffer@.take(len0)[i] == self.send_buffer@[i]);
                }
                if len0 > 0 {
                    assert(self.send_buffer@.take(len0)[len0 - 1] == self.send_buffer@[len0
                        - 1]);
                }
            }
        } else {
            proof {
                assert(data@.subrange(0, pos as int) =~= data@);
                assert(data@.len() - pos == 0);
                vstd::arithmetic::div_mod::lemma_fundamental_div_mod_converse_div(
                    MAX_PAYLOAD as int - 1,
                    MAX_PAYLOAD as int,
                    0,
                    MAX_PAYLOAD as int - 1,
                );
                lemma_wrap_add_zero(self.seq);
                assert(self.send_buffer@.skip(old(self).send_buffer@.len() as int)
                    =~= Seq::<UcpPacket>::empty());
            }
        }
    }

    /// Mints as many data packets as the bytes need — one per 1371 bytes,
    /// each filled to capacity but the last — and stages them in order,
    /// each under a fresh consecutive sequence.
    #[verifier::rlimit(100)]
    #[verifier::spinoff_prover]
    pub fn make_packet_send(&mut self, data: &[u8], now: u64)
        requires
            old(self).wf(),
        ensures
            final(self).wf(),
            staged_bytes(final(self).send_buffer@) == staged_bytes(old(self).send_buffer@)
                + data@,
            ({
                let n = data@.len() as int;
                let k = data_chunk_count(n);
                let len0 = old(self).send_buffer@.len() as int;
                let fresh = final(self).send_buffer@.skip(len0);
                &&& final(self).send_buffer@.len() == len0 + k
                &&& final(self).send_buffer@.take(len0) == old(self).send_buffer@
                &&& final(self).seq == wrap_add(old(self).seq, k)
                &&& forall|i: int|
                    0 <= i < k ==> staged_data_packet(
                        #[trigger] fresh[i],
                        *old(self),
                        now,
                        i + 1,
                        if i < k - 1 {
                            MAX_PAYLOAD as int
                        } else {
                            n - MAX_PAYLOAD * (k - 1)
                        },
                    )
            }),
            final(self).send_queue@ == old(self).send_queue@,
            final(self).recv_queue@ == old(self).recv_queue@,
            final(self).ack_list@ == old(self).ack_list@,
            final(self).outbox@ == old(self).outbox@,
            final(self).state == old(self).state,
            final(self).session_id == old(self).session_id,
            final(self).alive_time == old(self).alive_time,
            final(self).heartbeat == old(self).heartbeat,
            final(self).rto == old(self).rto,
            final(self).una == old(self).una,
            final(self).local_window == old(self).local_window,
            final(self).remote_window == old(self).remote_window,
    {
        let n = data.len();
        let ghost len0 = old(self).send_buffer@.len() as int;
        let ghost mut c: int = 0;
        let ghost mut created = Seq::<UcpPacket>::empty();
        proof {
            lemma_wrap_add_zero(self.seq);
            assert(self.send_buffer@ =~= old(self).send_buffer@ + created);
        }
        let mut pos: usize = 0;
        while pos < n
            invariant
                n == data@.len(),
                pos <= n,
                self.wf(),
                staged_bytes(self.send_buffer@) == staged_bytes(old(self).send_buffer@)
                    + data@.subrange(0, pos as int),
                len0 == old(self).send_buffer@.len() as int,
                0 <= c,
                c == 0 ==> pos == 0,
                c > 0 ==> MAX_PAYLOAD * (c - 1) < pos <= MAX_PAYLOAD * c,
                pos == MAX_PAYLOAD * c || pos == n,
                created.len() == c,
                self.send_buffer@ == old(self).send_buffer@ + created,
                self.seq == wrap_add(old(self).seq, c),
                forall|i: int|
                    0 <= i < c ==> staged_data_packet(
                        #[trigger] created[i],
                        *old(self),
                        now,
                        i + 1,
                        if i < c - 1 {
                            MAX_PAYLOAD as int
                        } else {
                            pos - MAX_PAYLOAD * (c - 1)
                        },
                    ),
                self.send_queue@ == old(self).send_queue@,
                self.recv_queue@ == old(self).recv_queue@,
                self.ack_list@ == old(self).ack_list@,
                self.outbox@ == old(self).outbox@,
                self.state == old(self).state,
                self.session_id == old(self).session_id,
                self.alive_time == old(self).alive_time,
                self.heartbeat == old(self).heartbeat,
                self.rto == old(self).rto,
                self.una == old(self).una,
                self.local_window == old(self).local_window,
                self.remote_window == old(self).remote_window,
            decreases n - pos,
        {
            let ghost q_pre = self.send_buffer@;
            let ghost pre_seq = self.seq;
            let mut packet = self.new_packet(CMD_DATA, now);
            let rl = packet.remaining_load();
            let size = if rl < n - pos {
                rl
            } else {
                n - pos
            };
            let end_pos = pos + size;
            let chunk = vstd::slice::slice_subrange(data, pos, end_pos);
            let ok = packet.payload_write_slice(chunk);
            proof {
                assert(packet.payload_bytes() =~= chunk@);
                if q_pre.len() > 0 {
                    lemma_seq_below_next(pre_seq);
                }
            }
            self.send_packet(packet);
            proof {
                lemma_staged_bytes_push(q_pre, packet);
                assert(staged_bytes(old(self).send_buffer@) + data@.subrange(0, pos as int)
                    + chunk@ =~= staged_bytes(old(self).send_buffer@) + data@.subrange(
                    0,
                    end_pos as int,
                ));
                lemma_wrap_add_step(old(self).seq, c);
                assert(staged_data_packet(
                    packet,
                    *old(self),
                    now,
                    c + 1,
                    end_pos - MAX_PAYLOAD * c,
                ));
                created = created.push(packet);
                c = c + 1;
                assert(self.send_buffer@ =~= old(self).send_buffer@ + created);
            }
            pos = end_pos;
        }
        proof {
            assert(data@.subrange(0, n as int) =~= data@);
            vstd::arithmetic::div_mod::lemma_fundamental_div_mod_converse_div(
                n + MAX_PAYLOAD - 1,
                MAX_PAYLOAD as int,
                c,
                n + MAX_PAYLOAD - 1 - MAX_PAYLOAD * c,
            );
            assert(self.send_buffer@.take(len0) =~= old(self).send_buffer@);
            assert(self.send_buffer@.skip(len0) =~= created);
        }
    }

    /// Drains deliverable bytes: unread payload of the receive queue's
    /// contiguous front packets whose sequence precedes the delivery
    /// boundary, up to `want` bytes, discarding each packet once its payload
    /// is exhausted.  Undelivered packets stay in the queue untouched: the
    /// drain consumes exactly the counted prefix and at most advances the
    /// new front packet's cursor.
    pub fn recv(&mut self, want: usize) -> (r: Vec<u8>)
        requires
            old(self).wf(),
        ensures
            final(self).wf(),
            r@.len() == if want as int <= deliverable_bytes(
                old(self).recv_queue@,
                old(self).una,
            ).len() {
                want as int
            } else {
                deliverable_bytes(old(self).recv_queue@, old(self).una).len() as int
            },
            r@ == deliverable_bytes(old(self).recv_queue@, old(self).una).take(r@.len() as int),
            deliverable_bytes(final(self).recv_queue@, final(self).una) == deliverable_bytes(
                old(self).recv_queue@,
                old(self).una,
            ).skip(r@.len() as int),
            ({
                let q0 = old(self).recv_queue@;
                let d = drain_count(q0, old(self).una, want as int);
                let qf = final(self).recv_queue@;
                &&& 0 <= d <= q0.len()
                &&& qf.len() == q0.len() - d
                &&& (forall|j: int| 1 <= j < qf.len() ==> #[trigger] qf[j] == q0[j + d])
                &&& (qf.len() > 0 ==> ({
                    let f = qf[0];
                    let o = q0[d];
                    &&& UcpPacket::same_meta(f, o)
                    &&& f.buf@ == o.buf@
                    &&& f.size == o.size
                    &&& f.payload == o.payload
                    &&& f.skip_times == o.skip_times
                    &&& o.read_pos <= f.read_pos <= o.size
                    &&& (!seq_below(o.seq, old(self).una) ==> f.read_pos == o.read_pos)
                }))
            }),
            final(self).send_queue@ == old(self).send_queue@,
            final(self).send_buffer@ == old(self).send_buffer@,
            final(self).ack_list@ == old(self).ack_list@,
            final(self).outbox@ == old(self).outbox@,
            UcpStream::same_core(*final(self), *old(self)),
    {
        let ghost dlv0 = deliverable_bytes(old(self).recv_queue@, old(self).una);
        let ghost q0 = old(self).recv_queue@;
        let ghost una0 = old(self).una;
        let ghost dtot = drain_count(q0, una0, want as int);
        let ghost mut d: int = 0;
        let mut out: Vec<u8> = Vec::new();
        while out.len() < want && self.recv_queue.len() > 0 && is_seq_below(
            self.recv_queue[0].seq,
            self.una,
        )
            invariant
                self.wf(),
                out@.len() <= want,
                out@.len() <= dlv0.len(),
                out@ == dlv0.take(out@.len() as int),
                deliverable_bytes(self.recv_queue@, self.una) == dlv0.skip(out@.len() as int),
                q0 == old(self).recv_queue@,
                una0 == old(self).una,
                dtot == drain_count(q0, una0, want as int),
                0 <= d <= q0.len(),
                self.recv_queue@.len() == q0.len() - d,
                dtot == d + drain_count(self.recv_queue@, una0, want - out@.len()),
                forall|j: int| 1 <= j < self.recv_queue@.len() ==> #[trigger] self.recv_queue@[j]
                    == q0[j + d],
                out@.len() < want && self.recv_queue@.len() > 0 ==> self.recv_queue@[0] == q0[
                    d],
                self.recv_queue@.len() > 0 ==> ({
                    let f = self.recv_queue@[0];
                    let o = q0[d];
                    &&& UcpPacket::same_meta(f, o)
                    &&& f.buf@ == o.buf@
                    &&& f.size == o.size
                    &&& f.payload == o.payload
                    &&& f.skip_times == o.skip_times
                    &&& o.read_pos <= f.read_pos <= o.size
                    &&& (!seq_below(o.seq, una0) ==> f.read_pos == o.read_pos)
                }),
                self.send_queue@ == old(self).send_queue@,
                self.send_buffer@ == old(self).send_buffer@,
                self.ack_list@ == old(self).ack_list@,
                self.outbox@ == old(self).outbox@,
                UcpStream::same_core(*self, *old(self)),
            decreases self.recv_queue@.len(), want - out@.len(),
        {
            let ghost q = self.recv_queue@;
            let ghost pre = out@.len() as int;
            let ghost dlv_cur = deliverable_bytes(q, self.una);
            let mut p = self.recv_queue.remove(0);
            let ghost p0 = p;
            proof {
                assert(self.recv_queue@ =~= q.drop_first());
                assert(dlv_cur == p0.unread_bytes() + deliverable_bytes(
                    q.drop_first(),
                    self.una,
                ));
            }
            let space = want - out.len();
            let mut chunk = p.payload_read_slice(space);
            let ghost chunk0 = chunk@;
            let ghost k = chunk0.len() as int;
            proof {
                assert(chunk0 =~= p0.unread_bytes().take(k));
                assert(p.unread_bytes() =~= p0.unread_bytes().skip(k));
            }
            out.append(&mut chunk);
            let exhausted = p.payload_remaining() == 0;
            if !exhausted {
                self.recv_queue.insert(0, p);
                proof {
                    assert forall|j: int|
                        0 <= j < self.recv_queue@.len() implies (#[trigger] self.recv_queue@[
                        j]).wf() by {
                        if j > 0 {
                            assert(self.recv_queue@[j] == q[j]);
                        }
                    }
                    assert forall|j: int|
                        0 <= j < self.recv_queue@.len() - 1 implies seq_below(
                        (#[trigger] self.recv_queue@[j]).seq,
                        self.recv_queue@[j + 1].seq,
                    ) by {
                        assert(self.recv_queue@[j].seq == q[j].seq);
                        assert(self.recv_queue@[j + 1].seq == q[j + 1].seq);
                    }
                    assert(self.recv_queue@[0] == p);
                    assert(self.recv_queue@.drop_first() =~= q.drop_first());
                    assert(deliverable_bytes(self.recv_queue@, self.una) == p.unread_bytes()
                        + deliverable_bytes(self.recv_queue@.drop_first(), self.una));
                }
            } else {
                proof {
                    assert(p.unread_bytes() =~= Seq::<u8>::empty());
                    assert(deliverable_bytes(self.recv_queue@, self.una) =~= p.unread_bytes()
                        + deliverable_bytes(q.drop_first(), self.una));
                }
            }
            proof {
                assert(k <= p0.unread_bytes().len());
                assert(deliverable_bytes(self.recv_queue@, self.una) =~= dlv_cur.skip(k));
                assert(dlv_cur.skip(k) =~= dlv0.skip(pre + k));
                assert forall|j: int| 0 <= j < k implies chunk0[j] == dlv_cur[j] by {
                    assert(chunk0[j] == p0.unread_bytes()[j]);
                    assert(dlv_cur[j] == p0.unread_bytes()[j]);
                }
                assert(chunk0 =~= dlv_cur.take(k));
                assert(out@ =~= dlv0.take(pre + k));

                assert(p0 == q0[d as int]);
                if exhausted {
                    assert(k == p0.unread_bytes().len());
                    assert(drain_count(q, una0, want - pre) == 1 + drain_count(
                        q.drop_first(),
                        una0,
                        want - pre - k,
                    ));
                    assert forall|j: int|
                        1 <= j < self.recv_queue@.len() implies #[trigger] self.recv_queue@[j]
                        == q0[j + d + 1] by {
                        assert(self.recv_queue@[j] == q[j + 1]);
                    }
                    if self.recv_queue@.len() > 0 {
                        assert(self.recv_queue@[0] == q[1]);
                        assert(q[1] == q0[d + 1]);
                    }
                    d = d + 1;
                } else {
                    assert(k < p0.unread_bytes().len());
                    assert(drain_count(q, una0, want - pre) == 0);
                    assert(out@.len() == want);
                    assert(drain_count(self.recv_queue@, una0, 0) == 0);
                }
            }
        }
        proof {
            if out@.len() < want {
                assert(deliverable_bytes(self.recv_queue@, self.una) =~= Seq::<u8>::empty());
            }
            if out@.len() >= want {
                assert(drain_count(self.recv_queue@, una0, want - out@.len()) == 0);
            } else if self.recv_queue@.len() > 0 {
                assert(!seq_below(self.recv_queue@[0].seq, una0));
                assert(drain_count(self.recv_queue@, una0, want - out@.len()) == 0);
            }
            assert(d == dtot);
        }
        out
    }

    /// Opens a connection: draws a random session identifier, enters the
    /// connecting phase, and stages a handshake packet with a fresh
    /// sequence.
    pub fn connecting(&mut self, now: u64)
        requires
            old(self).wf(),
        ensures
            final(self).wf(),
            final(self).state == UcpState::Connecting,
            final(self).seq == seq_next(old(self).seq),
            final(self).send_buffer@.len() == old(self).send_buffer@.len() + 1,
            final(self).send_buffer@.take(old(self).send_buffer@.len() as int) == old(
                self,
            ).send_buffer@,
            ({
                let syn = final(self).send_buffer@.last();
                &&& syn.cmd == CMD_SYN
                &&& syn.seq == seq_next(old(self).seq)
                &&& syn.session_id == final(self).session_id
                &&& syn.una == old(self).una
                &&& syn.window == old(self).local_window
                &&& syn.timestamp == ts32(now)
                &&& syn.payload == 0
                &&& syn.xmit == 0
            }),
            final(self).send_queue@ == old(self).send_queue@,
            final(self).recv_queue@ == old(self).recv_queue@,
            final(self).ack_list@ == old(self).ack_list@,
            final(self).outbox@ == old(self).outbox@,
            final(self).alive_time == old(self).alive_time,
            final(self).heartbeat == old(self).heartbeat,
            final(self).rto == old(self).rto,
            final(self).una == old(self).una,
            final(self).local_window == old(self).local_window,
            final(self).remote_window == old(self).remote_window,
    {
        self.state = UcpState::Connecting;
        let sid: u32 = rand::random();
        self.session_id = sid;

        let ghost pre_seq = self.seq;
        let syn = self.new_packet(CMD_SYN, now);
        proof {
            if old(self).send_buffer@.len() > 0 {
                lemma_seq_below_next(pre_seq);
            }
        }
        self.send_packet(syn);
        proof {
            assert(self.send_buffer@.take(old(self).send_buffer@.len() as int) =~= old(
                self,
            ).send_buffer@);
        }
    }

    /// Adopts an inbound handshake: takes the opener's session, window and
    /// sequence, and stages a handshake reply echoing the opener's sequence
    /// and timestamp so the peer can finish and sample its round trip.
    pub fn accepting(&mut self, packet: &UcpPacket, now: u64)
        requires
            old(self).wf(),
            packet.wf(),
        ensures
            final(self).wf(),
            accepted_post(*old(self), *final(self), *packet, now),
    {
        self.state = UcpState::Accepting;
        self.session_id = packet.session_id;
        self.una = next_in_space(packet.seq);
        self.remote_window = packet.window;

        let ghost pre_seq = self.seq;
        let mut syn_ack = self.new_packet(CMD_SYN_ACK, now);
        let _ = syn_ack.payload_write_u32(packet.seq);
        let _ = syn_ack.payload_write_u32(packet.timestamp);
        proof {
            if old(self).send_buffer@.len() > 0 {
                lemma_seq_below_next(pre_seq);
            }
        }
        self.send_packet(syn_ack);
        proof {
            assert(self.send_buffer@.take(old(self).send_buffer@.len() as int) =~= old(
                self,
            ).send_buffer@);
        }
    }

    /// Handles a handshake reply: answers it with a sequence-less echo
    /// acknowledgement, and, while connecting, matches it against the
    /// staged handshake to establish the stream.
    pub fn process_syn_ack(&mut self, packet: UcpPacket, now: u64) -> (r: bool)
        requires
            old(self).wf(),
            packet.inbound(),
        ensures
            final(self).wf(),
            syn_ack_post(*old(self), *final(self), packet, now),
            r == (packet.cmd == CMD_SYN_ACK && packet.payload == 8 && old(self).state
                == UcpState::Connecting && ack_found(
                old(self).send_queue@,
                be_at(packet.buf@, PACKET_META_SIZE as int) as u32,
            )),
    {
        let mut pkt = packet;
        if pkt.cmd == CMD_SYN_ACK && pkt.payload == 8 {
            let s0 = pkt.payload_read_u32();
            let t0 = pkt.payload_read_u32();

            let mut ack = self.new_noseq_packet(CMD_ACK, now);
            let _ = ack.payload_write_u32(pkt.seq);
            let ghost b_mid = ack.buf@;
            let _ = ack.payload_write_u32(pkt.timestamp);
            let ghost b0 = ack.buf@;
            let ghost h0 = ack.header();
            let ghost pl0 = ack.payload_bytes();
            self.send_packet_directly(&mut ack);
            proof {
                lemma_packed_subrange(ack.buf@, ack.size as int, h0, pl0);
                crate::packet::lemma_be_at_preserved(
                    b_mid,
                    b0,
                    PACKET_META_SIZE as int,
                    PACKET_META_SIZE + 4,
                    PACKET_META_SIZE + 8,
                );
                assert(be_at(b0, PACKET_META_SIZE as int) == pkt.seq as int);
                assert(be_at(b0, PACKET_META_SIZE + 4) == pkt.timestamp as int);
                assert(pl0 =~= b0.subrange(PACKET_META_SIZE as int, PACKET_META_SIZE + 8));
                crate::packet::lemma_be_at_of_subrange(
                    b0,
                    PACKET_META_SIZE as int,
                    PACKET_META_SIZE + 8,
                    0,
                );
                crate::packet::lemma_be_at_of_subrange(
                    b0,
                    PACKET_META_SIZE as int,
                    PACKET_META_SIZE + 8,
                    4,
                );
                assert(ack.size == 37);
                assert(ack.buf@.subrange(PACKET_META_SIZE as int, 37) == pl0);
                crate::packet::lemma_be_at_of_subrange(ack.buf@, PACKET_META_SIZE as int, 37, 0);
                crate::packet::lemma_be_at_of_subrange(ack.buf@, PACKET_META_SIZE as int, 37, 4);
                crate::packet::lemma_be_at_of_subrange(
                    ack.buf@,
                    0,
                    ack.size as int,
                    PACKET_META_SIZE as int,
                );
                crate::packet::lemma_be_at_of_subrange(
                    ack.buf@,
                    0,
                    ack.size as int,
                    PACKET_META_SIZE + 4,
                );
                assert(outbox_views(self.outbox@).last() == ack.buf@.subrange(
                    0,
                    ack.size as int,
                ));
                assert(outbox_views(self.outbox@).take(outbox_views(old(self).outbox@).len() as int)
                    =~= outbox_views(old(self).outbox@));
                assert(be_at(outbox_views(self.outbox@).last(), PACKET_META_SIZE as int)
                    == packet.seq as int);
                assert(be_at(outbox_views(self.outbox@).last(), PACKET_META_SIZE + 4)
                    == packet.timestamp as int);
            }

            let established;
            if self.state == UcpState::Connecting {
                if self.process_an_ack(s0, t0, now) {
                    self.state = UcpState::Established;
                    self.una = next_in_space(pkt.seq);
                    established = true;
                } else {
                    established = false;
                }
            } else {
                established = false;
            }
            established
        } else {
            false
        }
    }

    /// While accepting, only an exact eight-byte acknowledgement matters:
    /// it acknowledges the staged handshake reply, and a match establishes
    /// the stream.
    pub fn process_state_accepting(&mut self, packet: UcpPacket, now: u64)
        requires
            old(self).wf(),
            packet.inbound(),
        ensures
            final(self).wf(),
            accepting_ack_post(*old(self), *final(self), packet, now),
    {
        let mut pkt = packet;
        if pkt.cmd == CMD_ACK && pkt.payload == 8 {
            let s0 = pkt.payload_read_u32();
            let t0 = pkt.payload_read_u32();
            if self.process_an_ack(s0, t0, now) {
                self.state = UcpState::Established;
            }
        }
    }

    /// While connecting, every inbound packet is read as a possible
    /// handshake reply.
    pub fn process_state_connecting(&mut self, packet: UcpPacket, now: u64)
        requires
            old(self).wf(),
            packet.inbound(),
        ensures
            final(self).wf(),
            syn_ack_post(*old(self), *final(self), packet, now),
    {
        let _ = self.process_syn_ack(packet, now);
    }

    /// A selective acknowledgement packet: its payload, a run of eight-byte
    /// `(seq, timestamp)` pairs, is folded over the in-flight queue.  A
    /// payload that is not a multiple of eight bytes is ignored whole.
    pub fn process_ack(&mut self, packet: UcpPacket, now: u64)
        requires
            old(self).wf(),
            packet.inbound(),
        ensures
            final(self).wf(),
            !(packet.cmd == CMD_ACK && packet.payload as int % 8 == 0) ==> same_stream(
                *old(self),
                *final(self),
            ),
            (packet.cmd == CMD_ACK && packet.payload as int % 8 == 0) ==> ({
                let folded = acks_fold(
                    old(self).send_queue@,
                    old(self).rto as int,
                    ack_pairs(packet.buf@, PACKET_META_SIZE as int, packet.size as int),
                    ts32(now),
                );
                &&& final(self).send_queue@ == folded.0
                &&& final(self).rto as int == folded.1
            }),
            final(self).recv_queue@ == old(self).recv_queue@,
            final(self).send_buffer@ == old(self).send_buffer@,
            final(self).ack_list@ == old(self).ack_list@,
            final(self).outbox@ == old(self).outbox@,
            final(self).state == old(self).state,
            final(self).session_id == old(self).session_id,
            final(self).alive_time == old(self).alive_time,
            final(self).heartbeat == old(self).heartbeat,
            final(self).seq == old(self).seq,
            final(self).una == old(self).una,
            final(self).local_window == old(self).local_window,
            final(self).remote_window == old(self).remote_window,
    {
        let mut pkt = packet;
        if pkt.cmd == CMD_ACK && pkt.payload % 8 == 0 {
            let ghost all_pairs = ack_pairs(
                packet.buf@,
                PACKET_META_SIZE as int,
                packet.size as int,
            );
            let ghost tsnow = ts32(now);
            while pkt.payload_remaining() > 0
                invariant
                    tsnow == ts32(now),
                    pkt.wf(),
                    pkt.buf@ == packet.buf@,
                    pkt.size == packet.size,
                    PACKET_META_SIZE <= pkt.read_pos <= pkt.size,
                    (pkt.size - pkt.read_pos) % 8 == 0,
                    self.wf(),
                    acks_fold(
                        self.send_queue@,
                        self.rto as int,
                        ack_pairs(pkt.buf@, pkt.read_pos as int, pkt.size as int),
                        tsnow,
                    ) == acks_fold(
                        old(self).send_queue@,
                        old(self).rto as int,
                        all_pairs,
                        tsnow,
                    ),
                    self.recv_queue@ == old(self).recv_queue@,
                    self.send_buffer@ == old(self).send_buffer@,
                    self.ack_list@ == old(self).ack_list@,
                    self.outbox@ == old(self).outbox@,
                    self.state == old(self).state,
                    self.session_id == old(self).session_id,
                    self.alive_time == old(self).alive_time,
                    self.heartbeat == old(self).heartbeat,
                    self.seq == old(self).seq,
                    self.una == old(self).una,
                    self.local_window == old(self).local_window,
                    self.remote_window == old(self).remote_window,
                decreases pkt.size - pkt.read_pos,
            {
                proof {
                    if pkt.size - pkt.read_pos < 8 {
                        vstd::arithmetic::div_mod::lemma_small_mod(
                            (pkt.size - pkt.read_pos) as nat,
                            8nat,
                        );
                    }
                }
                let ghost rp0 = pkt.read_pos as int;
                let ghost q_prev = self.send_queue@;
                let ghost rto_prev = self.rto as int;
                let s = pkt.payload_read_u32();
                let t = pkt.payload_read_u32();
                proof {
                    vstd::arithmetic::div_mod::lemma_mod_sub_multiples_vanish(
                        pkt.size - rp0,
                        8,
                    );
                }
                let _ = self.process_an_ack(s, t, now);
                proof {
                    let prs = ack_pairs(pkt.buf@, rp0, pkt.size as int);
                    assert(prs == seq![
                        (be_at(pkt.buf@, rp0) as u32, be_at(pkt.buf@, rp0 + 4) as u32),
                    ] + ack_pairs(pkt.buf@, rp0 + 8, pkt.size as int));
                    assert(prs[0].0 == s);
                    assert(prs[0].1 == t);
                    assert(prs.drop_first() =~= ack_pairs(pkt.buf@, rp0 + 8, pkt.size as int));
                    assert(self.send_queue@ == ack_scan(q_prev, prs[0].0, prs[0].1));
                    assert(self.rto as int == (rto_prev + wrap_diff(tsnow, prs[0].1)) / 2);
                    assert(acks_fold(q_prev, rto_prev, prs, tsnow) == acks_fold(
                        ack_scan(q_prev, prs[0].0, prs[0].1),
                        (rto_prev + wrap_diff(tsnow, prs[0].1)) / 2,
                        prs.drop_first(),
                        tsnow,
                    ));
                    assert(acks_fold(self.send_queue@, self.rto as int, prs.drop_first(), tsnow)
                        == acks_fold(q_prev, rto_prev, prs, tsnow));
                }
            }
        }
    }

    /// A heartbeat is answered at once with a sequence-less heartbeat
    /// acknowledgement.
    pub fn process_heartbeat(&mut self, now: u64)
        requires
            old(self).wf(),
        ensures
            final(self).wf(),
            pushed_ctrl(
                outbox_views(old(self).outbox@),
                outbox_views(final(self).outbox@),
                ctrl_header(*old(self), CMD_HEARTBEAT_ACK, now),
                0,
            ),
            UcpStream::same_core(*final(self), *old(self)),
            UcpStream::same_queues(*final(self), *old(self)),
    {
        let mut hb_ack = self.new_noseq_packet(CMD_HEARTBEAT_ACK, now);
        let ghost h0 = hb_ack.header();
        let ghost pl0 = hb_ack.payload_bytes();
        self.send_packet_directly(&mut hb_ack);
        proof {
            lemma_packed_subrange(hb_ack.buf@, hb_ack.size as int, h0, pl0);
            assert(outbox_views(self.outbox@).take(outbox_views(old(self).outbox@).len() as int)
                =~= outbox_views(old(self).outbox@));
        }
    }

    /// A heartbeat acknowledgement refreshes the liveness clock.
    pub fn process_heartbeat_ack(&mut self, now: u64)
        ensures
            final(self).alive_time == now,
            final(self).heartbeat == old(self).heartbeat,
            final(self).rto == old(self).rto,
            final(self).state == old(self).state,
            final(self).session_id == old(self).session_id,
            final(self).seq == old(self).seq,
            final(self).una == old(self).una,
            final(self).local_window == old(self).local_window,
            final(self).remote_window == old(self).remote_window,
            UcpStream::same_queues(*final(self), *old(self)),
            final(self).outbox@ == old(self).outbox@,
            old(self).wf() ==> final(self).wf(),
    {
        self.alive_time = now;
    }

    /// One inbound packet on an established stream: cumulative
    /// acknowledgement from the packet's `una` first, then the
    /// command-specific action.
    pub fn process_state_established(&mut self, packet: UcpPacket, now: u64)
        requires
            old(self).wf(),
            packet.inbound(),
            old(self).state == UcpState::Established,
        ensures
            final(self).wf(),
            established_post(*old(self), *final(self), packet, now),
    {
        self.process_una(packet.una);

        if packet.cmd == CMD_ACK {
            self.process_ack(packet, now);
        } else if packet.cmd == CMD_DATA {
            self.process_data(packet);
        } else if packet.cmd == CMD_SYN_ACK {
            let _ = self.process_syn_ack(packet, now);
        } else if packet.cmd == CMD_HEARTBEAT {
            self.process_heartbeat(now);
        } else if packet.cmd == CMD_HEARTBEAT_ACK {
            self.process_heartbeat_ack(now);
        }
    }

    /// Routes one inbound packet for a stream past the idle phase: a
    /// session mismatch drops it, any other refreshes the liveness clock
    /// and the advertised window and is handled by the current phase.
    pub fn processing(&mut self, packet: UcpPacket, now: u64)
        requires
            old(self).wf(),
            packet.inbound(),
        ensures
            final(self).wf(),
            processing_post(*old(self), *final(self), packet, now),
    {
        if self.session_id != packet.session_id {
            return ;
        }
        self.alive_time = now;
        self.remote_window = packet.window;

        if self.state == UcpState::Accepting {
            self.process_state_accepting(packet, now);
        } else if self.state == UcpState::Connecting {
            self.process_state_connecting(packet, now);
        } else if self.state == UcpState::Established {
            self.process_state_established(packet, now);
        }
    }

    /// Emits a heartbeat when 2.5 s have passed since the last one, and
    /// stamps the heartbeat clock.
    pub fn do_heartbeat(&mut self, now: u64)
        requires
            old(self).wf(),
        ensures
            final(self).wf(),
            ({
                let due = now >= old(self).heartbeat && now - old(self).heartbeat
                    >= HEARTBEAT_INTERVAL_MILLIS;
                &&& final(self).heartbeat == (if due {
                    now
                } else {
                    old(self).heartbeat
                })
                &&& (due ==> pushed_ctrl(
                    outbox_views(old(self).outbox@),
                    outbox_views(final(self).outbox@),
                    ctrl_header(*old(self), CMD_HEARTBEAT, now),
                    0,
                ))
                &&& (!due ==> final(self).outbox@ == old(self).outbox@)
            }),
            UcpStream::same_queues(*final(self), *old(self)),
            final(self).state == old(self).state,
            final(self).session_id == old(self).session_id,
            final(self).alive_time == old(self).alive_time,
            final(self).rto == old(self).rto,
            final(self).seq == old(self).seq,
            final(self).una == old(self).una,
            final(self).local_window == old(self).local_window,
            final(self).remote_window == old(self).remote_window,
    {
        if now >= self.heartbeat && now - self.heartbeat >= HEARTBEAT_INTERVAL_MILLIS {
            let mut heartbeat = self.new_noseq_packet(CMD_HEARTBEAT, now);
            let ghost h0 = heartbeat.header();
            let ghost pl0 = heartbeat.payload_bytes();
            self.send_packet_directly(&mut heartbeat);
            self.heartbeat = now;
            proof {
                lemma_packed_subrange(heartbeat.buf@, heartbeat.size as int, h0, pl0);
                assert(outbox_views(self.outbox@).take(outbox_views(old(self).outbox@).len() as int)
                    =~= outbox_views(old(self).outbox@));
            }
        }
    }

    /// The retransmit scan: every in-flight packet whose timeout has
    /// elapsed, or which two out-of-order acknowledgements marked lost, is
    /// refreshed, re-counted and emitted again, in queue order.
    pub fn timeout_resend(&mut self, now: u64)
        requires
            old(self).wf(),
        ensures
            final(self).wf(),
            final(self).send_queue@.len() == old(self).send_queue@.len(),
            forall|i: int|
                0 <= i < old(self).send_queue@.len() ==> (if resend_due(
                    old(self).send_queue@[i],
                    ts32(now),
                    old(self).rto,
                ) {
                    resent_packet(
                        #[trigger] final(self).send_queue@[i],
                        old(self).send_queue@[i],
                        old(self).una,
                        old(self).local_window,
                        ts32(now),
                    )
                } else {
                    final(self).send_queue@[i] == old(self).send_queue@[i]
                }),
            outbox_views(final(self).outbox@).len() == outbox_views(old(self).outbox@).len()
                + resend_ems(
                old(self).send_queue@,
                old(self).una,
                old(self).local_window,
                ts32(now),
                old(self).rto,
            ).len(),
            outbox_views(final(self).outbox@).take(outbox_views(old(self).outbox@).len() as int)
                == outbox_views(old(self).outbox@),
            dgrams_match(
                outbox_views(final(self).outbox@).skip(
                    outbox_views(old(self).outbox@).len() as int,
                ),
                resend_ems(
                    old(self).send_queue@,
                    old(self).una,
                    old(self).local_window,
                    ts32(now),
                    old(self).rto,
                ),
            ),
            final(self).recv_queue@ == old(self).recv_queue@,
            final(self).send_buffer@ == old(self).send_buffer@,
            final(self).ack_list@ == old(self).ack_list@,
            UcpStream::same_core(*final(self), *old(self)),
    {
        let now32 = self.timestamp(now);
        let una = self.una;
        let rto = self.rto;
        let lw = self.local_window;
        let n = self.send_queue.len();
        let ghost ob0 = outbox_views(old(self).outbox@);
        let ghost ems_full = resend_ems(old(self).send_queue@, una, lw, now32, rto);
        let ghost mut ems_done = Seq::<(HeaderView, Seq<u8>)>::empty();
        proof {
            assert(old(self).send_queue@.skip(0) =~= old(self).send_queue@);
            assert(ems_full =~= ems_done + resend_ems(
                old(self).send_queue@.skip(0),
                una,
                lw,
                now32,
                rto,
            ));
            assert(outbox_views(self.outbox@).take(ob0.len() as int) =~= ob0);
            assert(outbox_views(self.outbox@).skip(ob0.len() as int) =~= Seq::<Seq<u8>>::empty());
        }
        let mut i: usize = 0;
        while i < n
            invariant
                n == self.send_queue@.len(),
                n == old(self).send_queue@.len(),
                i <= n,
                now32 == ts32(now),
                una == old(self).una,
                rto == old(self).rto,
                lw == old(self).local_window,
                ems_full == resend_ems(old(self).send_queue@, una, lw, now32, rto),
                ob0 == outbox_views(old(self).outbox@),
                forall|j: int|
                    0 <= j < i ==> (if resend_due(old(self).send_queue@[j], now32, rto) {
                        resent_packet(
                            #[trigger] self.send_queue@[j],
                            old(self).send_queue@[j],
                            una,
                            lw,
                            now32,
                        )
                    } else {
                        self.send_queue@[j] == old(self).send_queue@[j]
                    }),
                forall|j: int|
                    i <= j < n ==> #[trigger] self.send_queue@[j] == old(self).send_queue@[j],
                ems_full == ems_done + resend_ems(
                    old(self).send_queue@.skip(i as int),
                    una,
                    lw,
                    now32,
                    rto,
                ),
                outbox_views(self.outbox@).len() == ob0.len() + ems_done.len(),
                outbox_views(self.outbox@).take(ob0.len() as int) == ob0,
                dgrams_match(outbox_views(self.outbox@).skip(ob0.len() as int), ems_done),
                self.recv_queue@ == old(self).recv_queue@,
                self.send_buffer@ == old(self).send_buffer@,
                self.ack_list@ == old(self).ack_list@,
                UcpStream::same_core(*self, *old(self)),
                self.wf(),
            decreases n - i,
        {
            let ghost qs = old(self).send_queue@.skip(i as int);
            proof {
                assert(qs[0] == old(self).send_queue@[i as int]);
                assert(qs.drop_first() =~= old(self).send_queue@.skip(i as int + 1));
            }
            let due = wrapped_sub(now32, self.send_queue[i].timestamp) >= rto
                || self.send_queue[i].skip_times >= SKIP_RESEND_TIMES;
            if due {
                let ghost q_pre = self.send_queue@;
                let ghost ob_pre = outbox_views(self.outbox@);
                let mut p = self.send_queue.remove(i);
                p.skip_times = 0;
                p.window = lw;
                p.una = una;
                p.timestamp = now32;
                p.xmit = next_in_space(p.xmit);
                let ghost h0 = p.header();
                let ghost pl0 = p.payload_bytes();
                self.send_packet_directly(&mut p);
                proof {
                    lemma_packed_subrange(p.buf@, p.size as int, h0, pl0);
                }
                self.send_queue.insert(i, p);
                proof {
                    assert(self.send_queue@ =~= q_pre.update(i as int, p));
                    assert(h0 == resend_header(old(self).send_queue@[i as int], una, lw, now32));
                    assert(pl0 == old(self).send_queue@[i as int].payload_bytes());
                    assert(p.payload_bytes() =~= pl0);
                    assert(resent_packet(
                        p,
                        old(self).send_queue@[i as int],
                        una,
                        lw,
                        now32,
                    ));
                    let d = p.buf@.subrange(0, p.size as int);
                    ems_done = ems_done.push((h0, pl0));
                    assert(outbox_views(self.outbox@) =~= ob_pre.push(d));
                    assert(outbox_views(self.outbox@).take(ob0.len() as int) =~= ob0);
                    assert(outbox_views(self.outbox@).skip(ob0.len() as int) =~= ob_pre.skip(
                        ob0.len() as int,
                    ).push(d));
                    assert(resend_ems(qs, una, lw, now32, rto) == seq![(h0, pl0)] + resend_ems(
                        qs.drop_first(),
                        una,
                        lw,
                        now32,
                        rto,
                    ));
                    assert(ems_full =~= ems_done + resend_ems(
                        old(self).send_queue@.skip(i as int + 1),
                        una,
                        lw,
                        now32,
                        rto,
                    ));
                }
            } else {
                proof {
                    assert(resend_ems(qs, una, lw, now32, rto) == resend_ems(
                        qs.drop_first(),
                        una,
                        lw,
                        now32,
                        rto,
                    ));
                }
            }
            i = i + 1;
        }
        proof {
            assert(old(self).send_queue@.skip(n as int) =~= Seq::<UcpPacket>::empty());
            assert(ems_full =~= ems_done);
        }
    }

    /// Moves staged packets onto the wire while the peer's window admits
    /// them: each gets the current window, boundary and timestamp, is
    /// emitted, and joins the in-flight queue.
    pub fn send_pending_packets(&mut self, now: u64)
        requires
            old(self).wf(),
        ensures
            final(self).wf(),
            ({
                let m = pending_count(
                    front_seq(old(self).send_queue@),
                    old(self).send_queue@.len() as int,
                    old(self).send_buffer@,
                    old(self).remote_window as int,
                );
                let ob0 = outbox_views(old(self).outbox@);
                let obf = outbox_views(final(self).outbox@);
                &&& final(self).send_buffer@ == old(self).send_buffer@.skip(m)
                &&& final(self).send_queue@.len() == old(self).send_queue@.len() + m
                &&& final(self).send_queue@.take(old(self).send_queue@.len() as int) == old(
                    self,
                ).send_queue@
                &&& (forall|k: int|
                    0 <= k < m ==> staged_out_packet(
                        #[trigger] final(self).send_queue@[old(self).send_queue@.len() + k],
                        old(self).send_buffer@[k],
                        old(self).una,
                        old(self).local_window,
                        ts32(now),
                    ))
                &&& obf.len() == ob0.len() + m
                &&& obf.take(ob0.len() as int) == ob0
                &&& (forall|k: int|
                    0 <= k < m ==> dgram_matches(
                        #[trigger] obf[ob0.len() + k],
                        staged_out_header(
                            old(self).send_buffer@[k],
                            old(self).una,
                            old(self).local_window,
                            ts32(now),
                        ),
                        old(self).send_buffer@[k].payload_bytes(),
                    ))
            }),
            old(self).send_queue@.len() <= old(self).remote_window as int ==> final(self).send_queue@.len() <= old(self).remote_window as int,
            final(self).recv_queue@ == old(self).recv_queue@,
            final(self).ack_list@ == old(self).ack_list@,
            UcpStream::same_core(*final(self), *old(self)),
    {
        let now32 = self.timestamp(now);
        let una = self.una;
        let lw = self.local_window;
        let window = self.remote_window as usize;
        let ghost ob0 = outbox_views(old(self).outbox@);
        let ghost m = pending_count(
            front_seq(old(self).send_queue@),
            old(self).send_queue@.len() as int,
            old(self).send_buffer@,
            window as int,
        );
        let ghost len0 = old(self).send_queue@.len() as int;
        let ghost mut moved: int = 0;
        proof {
            lemma_pending_count_bound(
                front_seq(old(self).send_queue@),
                len0,
                old(self).send_buffer@,
                window as int,
            );
            assert(self.send_buffer@ =~= old(self).send_buffer@.skip(0));
            assert(self.send_queue@.take(len0) =~= old(self).send_queue@);
            assert(outbox_views(self.outbox@).take(ob0.len() as int) =~= ob0);
        }
        while self.send_queue.len() < window && self.send_buffer.len() > 0 && (
        self.send_queue.len() == 0 || (wrapped_sub(
            self.send_buffer[0].seq,
            self.send_queue[0].seq,
        ) as usize) < window)
            invariant
                now32 == ts32(now),
                una == old(self).una,
                lw == old(self).local_window,
                window == old(self).remote_window,
                ob0 == outbox_views(old(self).outbox@),
                len0 == old(self).send_queue@.len() as int,
                m == pending_count(
                    front_seq(old(self).send_queue@),
                    len0,
                    old(self).send_buffer@,
                    window as int,
                ),
                0 <= moved <= m,
                m <= old(self).send_buffer@.len(),
                self.send_buffer@ == old(self).send_buffer@.skip(moved),
                self.send_queue@.len() == len0 + moved,
                self.send_queue@.take(len0) == old(self).send_queue@,
                forall|k: int|
                    0 <= k < moved ==> staged_out_packet(
                        #[trigger] self.send_queue@[len0 + k],
                        old(self).send_buffer@[k],
                        una,
                        lw,
                        now32,
                    ),
                pending_count(
                    front_seq(self.send_queue@),
                    self.send_queue@.len() as int,
                    self.send_buffer@,
                    window as int,
                ) == m - moved,
                outbox_views(self.outbox@).len() == ob0.len() + moved,
                outbox_views(self.outbox@).take(ob0.len() as int) == ob0,
                forall|k: int|
                    0 <= k < moved ==> dgram_matches(
                        #[trigger] outbox_views(self.outbox@)[ob0.len() + k],
                        staged_out_header(old(self).send_buffer@[k], una, lw, now32),
                        old(self).send_buffer@[k].payload_bytes(),
                    ),
                self.recv_queue@ == old(self).recv_queue@,
                self.ack_list@ == old(self).ack_list@,
                UcpStream::same_core(*self, *old(self)),
                self.wf(),
            decreases self.send_buffer@.len(),
        {
            let ghost sq_pre = self.send_queue@;
            let ghost sb_pre = self.send_buffer@;
            let ghost ob_pre = outbox_views(self.outbox@);
            proof {
                assert(pending_count(
                    front_seq(sq_pre),
                    sq_pre.len() as int,
                    sb_pre,
                    window as int,
                ) == 1 + pending_count(
                    if front_seq(sq_pre) is Some {
                        front_seq(sq_pre)
                    } else {
                        Some(sb_pre[0].seq)
                    },
                    sq_pre.len() as int + 1,
                    sb_pre.drop_first(),
                    window as int,
                ));
                lemma_pending_count_bound(
                    if front_seq(sq_pre) is Some {
                        front_seq(sq_pre)
                    } else {
                        Some(sb_pre[0].seq)
                    },
                    sq_pre.len() as int + 1,
                    sb_pre.drop_first(),
                    window as int,
                );
            }
            let mut p = self.send_buffer.remove(0);
            p.window = lw;
            p.una = una;
            p.timestamp = now32;
            let ghost h0 = p.header();
            let ghost pl0 = p.payload_bytes();
            self.send_packet_directly(&mut p);
            proof {
                lemma_packed_subrange(p.buf@, p.size as int, h0, pl0);
            }
            self.send_queue.push(p);
            proof {
                assert(sb_pre[0] == old(self).send_buffer@[moved]);
                assert(self.send_buffer@ =~= sb_pre.drop_first());
                assert(self.send_buffer@ =~= old(self).send_buffer@.skip(moved + 1));
                assert(h0 == staged_out_header(old(self).send_buffer@[moved], una, lw, now32));
                assert(pl0 == old(self).send_buffer@[moved].payload_bytes());
                assert(p.payload_bytes() =~= pl0);
                assert(staged_out_packet(p, old(self).send_buffer@[moved], una, lw, now32));
                let d = p.buf@.subrange(0, p.size as int);
                assert(outbox_views(self.outbox@) =~= ob_pre.push(d));
                assert(outbox_views(self.outbox@).take(ob0.len() as int) =~= ob0);
                assert(self.send_queue@.take(len0) =~= sq_pre.take(len0));
                assert(front_seq(self.send_queue@) == (if front_seq(sq_pre) is Some {
                    front_seq(sq_pre)
                } else {
                    Some(sb_pre[0].seq)
                }));
                moved = moved + 1;
            }
        }
        proof {
            assert(pending_count(
                front_seq(self.send_queue@),
                self.send_queue@.len() as int,
                self.send_buffer@,
                window as int,
            ) == 0);
            assert(moved == m);
        }
    }

    /// Flushes the pending acknowledgement list: the `(seq, timestamp)`
    /// pairs go out in acknowledgement datagrams of up to 171 pairs each,
    /// and the list is cleared.
    pub fn send_ack_list(&mut self, now: u64)
        requires
            old(self).wf(),
        ensures
            final(self).wf(),
            final(self).ack_list@.len() == 0,
            ({
                let n = old(self).ack_list@.len() as int;
                let ob0 = outbox_views(old(self).outbox@);
                let obf = outbox_views(final(self).outbox@);
                &&& obf.len() == ob0.len() + ack_chunk_count(n)
                &&& obf.take(ob0.len() as int) == ob0
                &&& (forall|c: int|
                    0 <= c < ack_chunk_count(n) ==> ack_dgram_ok(
                        #[trigger] obf[ob0.len() + c],
                        ctrl_header(*old(self), CMD_ACK, now),
                        old(self).ack_list@,
                        c,
                    ))
            }),
            final(self).send_queue@ == old(self).send_queue@,
            final(self).recv_queue@ == old(self).recv_queue@,
            final(self).send_buffer@ == old(self).send_buffer@,
            UcpStream::same_core(*final(self), *old(self)),
    {
        if self.ack_list.len() == 0 {
            return ;
        }
        let ghost hdr = ctrl_header(*old(self), CMD_ACK, now);
        let ghost ob0 = outbox_views(old(self).outbox@);
        let mut acks: Vec<(u32, u32)> = Vec::new();
        std::mem::swap(&mut acks, &mut self.ack_list);
        let n = acks.len();
        let mut j: usize = 0;
        let mut c: usize = 0;
        while j < n
            invariant
                n == acks@.len(),
                acks@ == old(self).ack_list@,
                n > 0,
                hdr == ctrl_header(*old(self), CMD_ACK, now),
                ob0 == outbox_views(old(self).outbox@),
                j <= n,
                c == 0 ==> j == 0,
                c > 0 ==> 171 * (c - 1) < j <= 171 * c,
                j == 171 * c || j == n,
                outbox_views(self.outbox@).len() == ob0.len() + c,
                outbox_views(self.outbox@).take(ob0.len() as int) == ob0,
                forall|cc: int|
                    0 <= cc < c ==> ack_dgram_ok(
                        #[trigger] outbox_views(self.outbox@)[ob0.len() + cc],
                        hdr,
                        acks@,
                        cc,
                    ),
                self.ack_list@.len() == 0,
                self.send_queue@ == old(self).send_queue@,
                self.recv_queue@ == old(self).recv_queue@,
                self.send_buffer@ == old(self).send_buffer@,
                UcpStream::same_core(*self, *old(self)),
                self.wf(),
            decreases n - j,
        {
            let ghost ob_pre = outbox_views(self.outbox@);
            let chunk = if n - j < 171 {
                n - j
            } else {
                171
            };
            let mut packet = self.new_noseq_packet(CMD_ACK, now);
            let mut w: usize = 0;
            while w < chunk
                invariant
                    w <= chunk,
                    0 < chunk <= 171,
                    j + chunk <= n,
                    n == acks@.len(),
                    packet.wf(),
                    packet.read_pos == 0,
                    packet.skip_times == 0,
                    packet.payload == 8 * w,
                    packet.session_id == self.session_id,
                    packet.timestamp == ts32(now),
                    packet.window == self.local_window,
                    packet.xmit == 0,
                    packet.una == self.una,
                    packet.seq == 0,
                    packet.cmd == CMD_ACK,
                    forall|k: int|
                        0 <= k < w ==> be_at(
                            packet.buf@,
                            PACKET_META_SIZE + 8 * k,
                        ) == (#[trigger] acks@[j + k]).0 as int && be_at(
                            packet.buf@,
                            PACKET_META_SIZE + 8 * k + 4,
                        ) == acks@[j + k].1 as int,
                decreases chunk - w,
            {
                let ghost b_pre = packet.buf@;
                let pr = acks[j + w];
                let _ = packet.payload_write_u32(pr.0);
                let ghost b_mid = packet.buf@;
                let _ = packet.payload_write_u32(pr.1);
                proof {
                    crate::packet::lemma_be_at_preserved(
                        b_mid,
                        packet.buf@,
                        PACKET_META_SIZE + 8 * w as int,
                        PACKET_META_SIZE + 8 * w as int + 4,
                        PACKET_META_SIZE + 8 * w as int + 8,
                    );
                    assert forall|k: int| 0 <= k < w implies be_at(
                        packet.buf@,
                        PACKET_META_SIZE + 8 * k,
                    ) == (#[trigger] acks@[j + k]).0 as int && be_at(
                        packet.buf@,
                        PACKET_META_SIZE + 8 * k + 4,
                    ) == acks@[j + k].1 as int by {
                        crate::packet::lemma_be_at_preserved(
                            b_pre,
                            b_mid,
                            PACKET_META_SIZE + 8 * k,
                            PACKET_META_SIZE + 8 * w as int,
                            PACKET_META_SIZE + 8 * w as int + 4,
                        );
                        crate::packet::lemma_be_at_preserved(
                            b_pre,
                            b_mid,
                            PACKET_META_SIZE + 8 * k + 4,
                            PACKET_META_SIZE + 8 * w as int,
                            PACKET_META_SIZE + 8 * w as int + 4,
                        );
                        crate::packet::lemma_be_at_preserved(
                            b_mid,
                            packet.buf@,
                            PACKET_META_SIZE + 8 * k,
                            PACKET_META_SIZE + 8 * w as int + 4,
                            PACKET_META_SIZE + 8 * w as int + 8,
                        );
                        crate::packet::lemma_be_at_preserved(
                            b_mid,
                            packet.buf@,
                            PACKET_META_SIZE + 8 * k + 4,
                            PACKET_META_SIZE + 8 * w as int + 4,
                            PACKET_META_SIZE + 8 * w as int + 8,
                        );
                    }
                }
                w = w + 1;
            }
            let ghost h0 = packet.header();
            let ghost pl0 = packet.payload_bytes();
            let ghost b0 = packet.buf@;
            self.send_packet_directly(&mut packet);
            proof {
                lemma_packed_subrange(packet.buf@, packet.size as int, h0, pl0);
                let d = packet.buf@.subrange(0, packet.size as int);
                assert(outbox_views(self.outbox@) =~= ob_pre.push(d));
                assert(outbox_views(self.outbox@).take(ob0.len() as int) =~= ob0);
                assert(h0 == hdr);
                assert(ack_chunk_len(n as int, c as int) == chunk);
                assert(packet.size == PACKET_META_SIZE + 8 * chunk);
                assert(packet.buf@.subrange(PACKET_META_SIZE as int, packet.size as int) == pl0);
                assert(pl0 =~= b0.subrange(PACKET_META_SIZE as int, PACKET_META_SIZE + 8 * chunk));
                assert forall|k: int| 0 <= k < chunk implies be_at(
                    d,
                    PACKET_META_SIZE + 8 * k,
                ) == (#[trigger] acks@[j + k]).0 as int && be_at(
                    d,
                    PACKET_META_SIZE + 8 * k + 4,
                ) == acks@[j + k].1 as int by {
                    crate::packet::lemma_be_at_of_subrange(
                        packet.buf@,
                        0,
                        packet.size as int,
                        PACKET_META_SIZE + 8 * k,
                    );
                    crate::packet::lemma_be_at_of_subrange(
                        packet.buf@,
                        0,
                        packet.size as int,
                        PACKET_META_SIZE + 8 * k + 4,
                    );
                    crate::packet::lemma_be_at_of_subrange(
                        packet.buf@,
                        PACKET_META_SIZE as int,
                        packet.size as int,
                        8 * k,
                    );
                    crate::packet::lemma_be_at_of_subrange(
                        packet.buf@,
                        PACKET_META_SIZE as int,
                        packet.size as int,
                        8 * k + 4,
                    );
                    crate::packet::lemma_be_at_of_subrange(
                        b0,
                        PACKET_META_SIZE as int,
                        PACKET_META_SIZE + 8 * chunk,
                        8 * k,
                    );
                    crate::packet::lemma_be_at_of_subrange(
                        b0,
                        PACKET_META_SIZE as int,
                        PACKET_META_SIZE + 8 * chunk,
                        8 * k + 4,
                    );
                }
                assert(ack_dgram_ok(d, hdr, acks@, c as int));
            }
            j = j + chunk;
            c = c + 1;
        }
        proof {
            vstd::arithmetic::div_mod::lemma_fundamental_div_mod_converse_div(
                n + 170,
                171,
                c as int,
                n + 170 - 171 * (c as int),
            );
        }
    }

    /// The periodic tick.  A stream past its 20 s liveness window is
    /// declared broken: nothing runs and the tick returns false.  Otherwise
    /// the heartbeat, the acknowledgement flush, the retransmit scan and
    /// the window-gated emission run in that order, and the tick returns
    /// true.
    pub fn update(&mut self, now: u64) -> (r: bool)
        requires
            old(self).wf(),
        ensures
            final(self).wf(),
            r == !(now >= old(self).alive_time && now - old(self).alive_time
                >= STREAM_BROKEN_MILLIS),
            !r ==> same_stream(*old(self), *final(self)),
            r ==> ({
                let hb_due = now >= old(self).heartbeat && now - old(self).heartbeat
                    >= HEARTBEAT_INTERVAL_MILLIS;
                let na = old(self).ack_list@.len() as int;
                let ems = resend_ems(
                    old(self).send_queue@,
                    old(self).una,
                    old(self).local_window,
                    ts32(now),
                    old(self).rto,
                );
                let m = pending_count(
                    front_seq(old(self).send_queue@),
                    old(self).send_queue@.len() as int,
                    old(self).send_buffer@,
                    old(self).remote_window as int,
                );
                let ob0 = outbox_views(old(self).outbox@);
                let obf = outbox_views(final(self).outbox@);
                &&& final(self).heartbeat == (if hb_due {
                    now
                } else {
                    old(self).heartbeat
                })
                &&& final(self).alive_time == old(self).alive_time
                &&& final(self).state == old(self).state
                &&& final(self).session_id == old(self).session_id
                &&& final(self).seq == old(self).seq
                &&& final(self).una == old(self).una
                &&& final(self).rto == old(self).rto
                &&& final(self).local_window == old(self).local_window
                &&& final(self).remote_window == old(self).remote_window
                &&& final(self).recv_queue@ == old(self).recv_queue@
                &&& final(self).ack_list@.len() == 0
                &&& final(self).send_buffer@ == old(self).send_buffer@.skip(m)
                &&& final(self).send_queue@.len() == old(self).send_queue@.len() + m
                &&& obf.len() == ob0.len() + (if hb_due {
                    1int
                } else {
                    0int
                }) + ack_chunk_count(na) + ems.len() + m
                &&& obf.take(ob0.len() as int) == ob0
                &&& (hb_due ==> header_of(obf[ob0.len() as int]) == ctrl_header(
                    *old(self),
                    CMD_HEARTBEAT,
                    now,
                ))
                &&& ({
                    let hb: int = if hb_due {
                        1
                    } else {
                        0
                    };
                    let ack_end = ob0.len() + hb + ack_chunk_count(na);
                    &&& ack_dgrams_ok(
                        obf.subrange(ob0.len() + hb, ack_end),
                        ctrl_header(*old(self), CMD_ACK, now),
                        old(self).ack_list@,
                    )
                    &&& dgrams_match(obf.subrange(ack_end, ack_end + ems.len()), ems)
                    &&& dgrams_match(
                        obf.subrange(ack_end + ems.len(), obf.len() as int),
                        staged_ems(
                            old(self).send_buffer@,
                            m,
                            old(self).una,
                            old(self).local_window,
                            ts32(now),
                        ),
                    )
                })
                &&& (forall|i: int|
                    0 <= i < old(self).send_queue@.len() ==> (if resend_due(
                        old(self).send_queue@[i],
                        ts32(now),
                        old(self).rto,
                    ) {
                        resent_packet(
                            #[trigger] final(self).send_queue@[i],
                            old(self).send_queue@[i],
                            old(self).una,
                            old(self).local_window,
                            ts32(now),
                        )
                    } else {
                        final(self).send_queue@[i] == old(self).send_queue@[i]
                    }))
                &&& ({
                    let tail = final(self).send_queue@.skip(old(self).send_queue@.len() as int);
                    &&& tail.len() == m
                    &&& forall|k: int|
                        0 <= k < m ==> staged_out_packet(
                            #[trigger] tail[k],
                            old(self).send_buffer@[k],
                            old(self).una,
                            old(self).local_window,
                            ts32(now),
                        )
                })
                &&& (old(self).send_queue@.len() <= old(self).remote_window as int ==> final(self).send_queue@.len() <= old(self).remote_window as int)
            }),
    {
        let alive = self.check_if_alive(now);
        if !alive {
            return false;
        }
        let ghost s0 = *self;
        self.do_heartbeat(now);
        let ghost s1 = *self;
        self.send_ack_list(now);
        let ghost s2 = *self;
        self.timeout_resend(now);
        let ghost s3 = *self;
        proof {
            assert(s3.send_queue@.len() == s0.send_queue@.len());
            if s3.send_queue@.len() > 0 {
                assert(s3.send_queue@[0].seq == s0.send_queue@[0].seq);
            }
            assert(front_seq(s3.send_queue@) == front_seq(s0.send_queue@));
            assert(resend_ems(s2.send_queue@, s2.una, s2.local_window, ts32(now), s2.rto)
                == resend_ems(
                old(self).send_queue@,
                old(self).una,
                old(self).local_window,
                ts32(now),
                old(self).rto,
            ));
        }
        self.send_pending_packets(now);
        proof {
            let ob0 = outbox_views(old(self).outbox@);
            let ob1 = outbox_views(s1.outbox@);
            let ob2 = outbox_views(s2.outbox@);
            let ob3 = outbox_views(s3.outbox@);
            let obf = outbox_views(self.outbox@);
            let hb_due = now >= old(self).heartbeat && now - old(self).heartbeat
                >= HEARTBEAT_INTERVAL_MILLIS;
            assert(ob1.take(ob0.len() as int) =~= ob0);
            vstd::arithmetic::div_mod::lemma_div_pos_is_pos(s1.ack_list@.len() as int + 170, 171);
            lemma_pending_count_bound(
                front_seq(s3.send_queue@),
                s3.send_queue@.len() as int,
                s3.send_buffer@,
                s3.remote_window as int,
            );
            assert(ob0.len() <= ob1.len() <= ob2.len() <= ob3.len() <= obf.len());
            assert forall|x: int| 0 <= x < ob1.len() implies obf[x] == ob1[x] by {
                assert(ob2[x] == ob2.take(ob1.len() as int)[x]);
                assert(ob3[x] == ob3.take(ob2.len() as int)[x]);
                assert(obf[x] == obf.take(ob3.len() as int)[x]);
            }
            assert forall|x: int| 0 <= x < ob0.len() implies obf[x] == ob0[x] by {
                assert(ob1[x] == ob1.take(ob0.len() as int)[x]);
            }
            assert(obf.take(ob0.len() as int) =~= ob0);
            if hb_due {
                assert(ob1[ob0.len() as int] == ob1.last());
                assert(obf[ob0.len() as int] == ob1[ob0.len() as int]);
            }
            assert forall|x: int| 0 <= x < ob3.len() implies obf[x] == ob3[x] by {
                assert(obf[x] == obf.take(ob3.len() as int)[x]);
            }
            assert forall|x: int| 0 <= x < ob2.len() implies ob3[x] == ob2[x] by {
                assert(ob3[x] == ob3.take(ob2.len() as int)[x]);
            }

            let hb: int = if hb_due {
                1
            } else {
                0
            };
            let na = old(self).ack_list@.len() as int;
            let hdr = ctrl_header(*old(self), CMD_ACK, now);
            assert(hdr == ctrl_header(s1, CMD_ACK, now));
            assert(ob1.len() == ob0.len() + hb);
            let ack_end = ob0.len() + hb + ack_chunk_count(na);
            assert(ack_end == ob2.len());
            assert forall|c: int|
                0 <= c < ack_chunk_count(na) implies ack_dgram_ok(
                #[trigger] obf.subrange(ob0.len() + hb, ack_end)[c],
                hdr,
                old(self).ack_list@,
                c,
            ) by {
                assert(obf.subrange(ob0.len() + hb, ack_end)[c] == obf[ob1.len() + c]);
                assert(obf[ob1.len() + c] == ob2[ob1.len() + c]);
                assert(ack_dgram_ok(ob2[ob1.len() + c], hdr, s1.ack_list@, c));
            }

            let ems = resend_ems(
                old(self).send_queue@,
                old(self).una,
                old(self).local_window,
                ts32(now),
                old(self).rto,
            );
            assert(ack_end + ems.len() == ob3.len());
            assert forall|k: int|
                0 <= k < ems.len() implies dgram_matches(
                #[trigger] obf.subrange(ack_end, ack_end + ems.len())[k],
                ems[k].0,
                ems[k].1,
            ) by {
                assert(obf.subrange(ack_end, ack_end + ems.len())[k] == obf[ob2.len() + k]);
                assert(obf[ob2.len() + k] == ob3[ob2.len() + k]);
                assert(ob3.skip(ob2.len() as int)[k] == ob3[ob2.len() + k]);
            }

            let m = pending_count(
                front_seq(old(self).send_queue@),
                old(self).send_queue@.len() as int,
                old(self).send_buffer@,
                old(self).remote_window as int,
            );
            let sems = staged_ems(
                old(self).send_buffer@,
                m,
                old(self).una,
                old(self).local_window,
                ts32(now),
            );
            assert(s3.send_buffer@ == old(self).send_buffer@);
            assert forall|k: int|
                0 <= k < m implies dgram_matches(
                #[trigger] obf.subrange(ack_end + ems.len(), obf.len() as int)[k],
                sems[k].0,
                sems[k].1,
            ) by {
                assert(obf.subrange(ack_end + ems.len(), obf.len() as int)[k] == obf[ob3.len()
                    + k]);
                assert(dgram_matches(
                    obf[ob3.len() + k],
                    staged_out_header(
                        s3.send_buffer@[k],
                        s3.una,
                        s3.local_window,
                        ts32(now),
                    ),
                    s3.send_buffer@[k].payload_bytes(),
                ));
            }

            let len0 = old(self).send_queue@.len() as int;
            assert forall|i: int| 0 <= i < len0 implies self.send_queue@[i] == s3.send_queue@[
            i] by {
                assert(self.send_queue@.take(len0)[i] == self.send_queue@[i]);
            }
            assert forall|i: int|
                0 <= i < len0 implies (if resend_due(
                old(self).send_queue@[i],
                ts32(now),
                old(self).rto,
            ) {
                resent_packet(
                    #[trigger] self.send_queue@[i],
                    old(self).send_queue@[i],
                    old(self).una,
                    old(self).local_window,
                    ts32(now),
                )
            } else {
                self.send_queue@[i] == old(self).send_queue@[i]
            }) by {
                assert(s2.send_queue@[i] == old(self).send_queue@[i]);
                assert(self.send_queue@[i] == s3.send_queue@[i]);
                if resend_due(s2.send_queue@[i], ts32(now), s2.rto) {
                    assert(resent_packet(
                        s3.send_queue@[i],
                        s2.send_queue@[i],
                        s2.una,
                        s2.local_window,
                        ts32(now),
                    ));
                } else {
                    assert(s3.send_queue@[i] == s2.send_queue@[i]);
                }
            }
            let tail = self.send_queue@.skip(len0);
            assert forall|k: int|
                0 <= k < m implies staged_out_packet(
                #[trigger] tail[k],
                old(self).send_buffer@[k],
                old(self).una,
                old(self).local_window,
                ts32(now),
            ) by {
                assert(tail[k] == self.send_queue@[len0 + k]);
                assert(staged_out_packet(
                    self.send_queue@[len0 + k],
                    s3.send_buffer@[k],
                    s3.una,
                    s3.local_window,
                    ts32(now),
                ));
            }
        }
        true
    }

    /// The stream's inbound entry point: an idle stream adopts a handshake
    /// opener; any other packet goes through session routing.
    pub fn process_packet(&mut self, packet: UcpPacket, now: u64)
        requires
            old(self).wf(),
            packet.inbound(),
        ensures
            final(self).wf(),
            old(self).state == UcpState::Idle && packet.cmd == CMD_SYN ==> accepted_post(
                *old(self),
                *final(self),
                packet,
                now,
            ),
            old(self).state == UcpState::Idle && packet.cmd != CMD_SYN ==> same_stream(
                *old(self),
                *final(self),
            ),
            old(self).state != UcpState::Idle ==> processing_post(
                *old(self),
                *final(self),
                packet,
                now,
            ),
    {
        if self.state == UcpState::Idle {
            if packet.is_syn() {
                self.accepting(&packet, now);
            }
        } else {
            self.processing(packet, now);
        }
    }
}

} // verus!
