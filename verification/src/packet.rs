//! Packet codec: a fixed-capacity 1400-byte datagram holding a 29-byte
//! header followed by up to 1371 payload bytes.
//!
//! The header is laid out big-endian at offset 0: CRC-32 digest, session id,
//! timestamp, advertised window, transmission count, cumulative
//! acknowledgement boundary, sequence number, and a one-byte command.  The
//! digest covers bytes `[4..size]`.  A datagram is legal when it is at least
//! header-sized, its digest matches, and its command is known.

use vstd::prelude::*;

verus! {

pub const CMD_SYN: u8 = 128;

pub const CMD_SYN_ACK: u8 = 129;

pub const CMD_ACK: u8 = 130;

pub const CMD_DATA: u8 = 131;

pub const CMD_HEARTBEAT: u8 = 132;

pub const CMD_HEARTBEAT_ACK: u8 = 133;

/// Size of every datagram buffer.
pub const PACKET_CAPACITY: usize = 1400;

/// Bytes taken by the fixed header.
pub const PACKET_META_SIZE: usize = 29;

/// Largest payload a packet can carry.
pub const MAX_PAYLOAD: usize = 1371;

/// What `crc::crc32::checksum_ieee` returns for a byte sequence: the
/// CRC-32/IEEE digest is a function of the bytes alone.
pub uninterp spec fn crc32_of(b: Seq<u8>) -> u32;

/// Relies on `crc::crc32::checksum_ieee`: the digest depends on the bytes
/// alone, so equal byte sequences yield equal digests.
#[verifier::external_body]
fn crc32_ieee(b: &[u8]) -> (r: u32)
    ensures
        r == crc32_of(b@),
{
    crc::crc32::checksum_ieee(b)
}

/// The big-endian 32-bit value stored at offset `i` of `b`.
pub open spec fn be_at(b: Seq<u8>, i: int) -> int {
    0x1000000 * (b[i] as int) + 0x10000 * (b[i + 1] as int) + 0x100 * (b[i + 2] as int) + (b[i
        + 3] as int)
}

/// A command byte the protocol knows.
pub open spec fn known_cmd(c: int) -> bool {
    128 <= c <= 133
}

/// The header fields, as mathematical integers.
pub struct HeaderView {
    pub session_id: int,
    pub timestamp: int,
    pub window: int,
    pub xmit: int,
    pub una: int,
    pub seq: int,
    pub cmd: int,
}

/// The header fields a buffer encodes at their fixed offsets.
pub open spec fn header_of(b: Seq<u8>) -> HeaderView {
    HeaderView {
        session_id: be_at(b, 4),
        timestamp: be_at(b, 8),
        window: be_at(b, 12),
        xmit: be_at(b, 16),
        una: be_at(b, 20),
        seq: be_at(b, 24),
        cmd: b[28] as int,
    }
}

/// A buffer that passes the integrity check for the given size.
pub open spec fn legal_datagram(b: Seq<u8>, size: int) -> bool {
    &&& b.len() == PACKET_CAPACITY
    &&& PACKET_META_SIZE <= size <= PACKET_CAPACITY
    &&& be_at(b, 0) == crc32_of(b.subrange(4, size)) as int
}

/// What `pack` leaves behind: header fields serialized at their offsets, the
/// payload untouched, and a digest over bytes `[4..size]` written at the
/// front.
pub open spec fn packed_form(b: Seq<u8>, size: int, h: HeaderView, payload: Seq<u8>) -> bool {
    &&& b.len() == PACKET_CAPACITY
    &&& PACKET_META_SIZE <= size <= PACKET_CAPACITY
    &&& size == PACKET_META_SIZE + payload.len()
    &&& header_of(b) == h
    &&& b.subrange(PACKET_META_SIZE as int, size) == payload
    &&& be_at(b, 0) == crc32_of(b.subrange(4, size)) as int
}

/// A packed buffer is legal, and parsing it recovers every header field and
/// the payload bytes unchanged.
pub proof fn lemma_pack_parse_round_trip(b: Seq<u8>, size: int, h: HeaderView, payload: Seq<u8>)
    requires
        packed_form(b, size, h, payload),
    ensures
        legal_datagram(b, size),
        header_of(b) == h,
        b.subrange(PACKET_META_SIZE as int, size) == payload,
{
}

/// A wire datagram that passes the integrity check: at least header-sized,
/// with the digest of bytes `[4..len]` stored at its front.
pub open spec fn wire_legal(d: Seq<u8>) -> bool {
    &&& PACKET_META_SIZE <= d.len() <= PACKET_CAPACITY
    &&& be_at(d, 0) == crc32_of(d.subrange(4, d.len() as int)) as int
}

/// The wire prefix of a packed buffer carries the same header, the same
/// payload, and a matching digest.
pub proof fn lemma_packed_subrange(b: Seq<u8>, size: int, h: HeaderView, payload: Seq<u8>)
    requires
        packed_form(b, size, h, payload),
    ensures
        ({
            let d = b.subrange(0, size);
            &&& d.len() == PACKET_META_SIZE + payload.len()
            &&& header_of(d) == h
            &&& d.subrange(PACKET_META_SIZE as int, d.len() as int) == payload
            &&& wire_legal(d)
        }),
{
    let d = b.subrange(0, size);
    assert(d.subrange(PACKET_META_SIZE as int, d.len() as int) =~= b.subrange(
        PACKET_META_SIZE as int,
        size,
    ));
    assert(d.subrange(4, d.len() as int) =~= b.subrange(4, size));
}

/// A word read inside a subrange equals the word read at the shifted
/// offset of the full buffer.
pub proof fn lemma_be_at_of_subrange(b: Seq<u8>, lo: int, hi: int, i: int)
    requires
        0 <= lo,
        0 <= i,
        lo + i + 4 <= hi <= b.len(),
    ensures
        be_at(b.subrange(lo, hi), i) == be_at(b, lo + i),
{
    assert(b.subrange(lo, hi)[i] == b[lo + i]);
    assert(b.subrange(lo, hi)[i + 1] == b[lo + i + 1]);
    assert(b.subrange(lo, hi)[i + 2] == b[lo + i + 2]);
    assert(b.subrange(lo, hi)[i + 3] == b[lo + i + 3]);
}

/// A word outside the written window keeps its value.
pub proof fn lemma_be_at_preserved(b1: Seq<u8>, b2: Seq<u8>, i: int, lo: int, hi: int)
    requires
        same_outside(b2, b1, lo, hi),
        0 <= i,
        i + 4 <= b1.len(),
        i + 4 <= lo || i >= hi,
    ensures
        be_at(b2, i) == be_at(b1, i),
{
}

/// Two buffers of equal length that agree everywhere outside `[lo, hi)`.
pub open spec fn same_outside(b1: Seq<u8>, b2: Seq<u8>, lo: int, hi: int) -> bool {
    &&& b1.len() == b2.len()
    &&& forall|j: int| 0 <= j < b1.len() && (j < lo || j >= hi) ==> b1[j] == b2[j]
}

/// One protocol datagram: a fixed 1400-byte buffer, its wire size, the
/// payload length, a read cursor into the payload, the fast-retransmit
/// counter, and the decoded (or to-be-encoded) header fields.
pub struct UcpPacket {
    pub buf: Vec<u8>,
    pub size: usize,
    pub payload: u16,
    pub read_pos: usize,
    pub skip_times: u32,
    pub session_id: u32,
    pub timestamp: u32,
    pub window: u32,
    pub xmit: u32,
    pub una: u32,
    pub seq: u32,
    pub cmd: u8,
}

impl UcpPacket {
    /// Structural soundness: full-capacity buffer, bounded payload, and a
    /// read cursor that never passes the wire size.
    pub open spec fn wf(self) -> bool {
        &&& self.buf@.len() == PACKET_CAPACITY
        &&& self.payload as int <= MAX_PAYLOAD
        &&& self.read_pos <= self.size <= PACKET_CAPACITY
    }

    /// A packet as the parser leaves it: cursor at the payload start, size
    /// consistent with the payload length.
    pub open spec fn inbound(self) -> bool {
        &&& self.wf()
        &&& self.read_pos == PACKET_META_SIZE
        &&& self.size == PACKET_META_SIZE + self.payload as int
    }

    /// The header fields this packet carries, as a mathematical view.
    pub open spec fn header(self) -> HeaderView {
        HeaderView {
            session_id: self.session_id as int,
            timestamp: self.timestamp as int,
            window: self.window as int,
            xmit: self.xmit as int,
            una: self.una as int,
            seq: self.seq as int,
            cmd: self.cmd as int,
        }
    }

    /// The payload bytes staged for sending.
    pub open spec fn payload_bytes(self) -> Seq<u8> {
        self.buf@.subrange(PACKET_META_SIZE as int, PACKET_META_SIZE + self.payload as int)
    }

    /// The payload bytes of a received packet not yet consumed by the read
    /// cursor.
    pub open spec fn unread_bytes(self) -> Seq<u8> {
        self.buf@.subrange(self.read_pos as int, self.size as int)
    }

    /// Header fields other than the buffer-dependent ones are equal.
    pub open spec fn same_meta(a: UcpPacket, b: UcpPacket) -> bool {
        &&& a.session_id == b.session_id
        &&& a.timestamp == b.timestamp
        &&& a.window == b.window
        &&& a.xmit == b.xmit
        &&& a.una == b.una
        &&& a.seq == b.seq
        &&& a.cmd == b.cmd
    }

    /// A zeroed packet with full capacity.
    pub fn new() -> (r: UcpPacket)
        ensures
            r.wf(),
            r.size == 0,
            r.payload == 0,
            r.read_pos == 0,
            r.skip_times == 0,
            r.session_id == 0,
            r.timestamp == 0,
            r.window == 0,
            r.xmit == 0,
            r.una == 0,
            r.seq == 0,
            r.cmd == 0,
            forall|j: int| 0 <= j < PACKET_CAPACITY ==> r.buf@[j] == 0,
    {
        UcpPacket {
            buf: vec![0u8; PACKET_CAPACITY],
            size: 0,
            payload: 0,
            read_pos: 0,
            skip_times: 0,
            session_id: 0,
            timestamp: 0,
            window: 0,
            xmit: 0,
            una: 0,
            seq: 0,
            cmd: 0,
        }
    }

    /// Reads the big-endian 32-bit value at `*offset` and advances the
    /// offset.
    pub fn parse_u32(&self, offset: &mut usize) -> (r: u32)
        requires
            self.wf(),
            *old(offset) + 4 <= PACKET_CAPACITY,
        ensures
            *final(offset) == *old(offset) + 4,
            r as int == be_at(self.buf@, *old(offset) as int),
    {
        let b0 = self.buf[*offset] as u32;
        let b1 = self.buf[*offset + 1] as u32;
        let b2 = self.buf[*offset + 2] as u32;
        let b3 = self.buf[*offset + 3] as u32;
        *offset = *offset + 4;
        ((b0 * 0x100 + b1) * 0x100 + b2) * 0x100 + b3
    }

    /// Reads the byte at `*offset` and advances the offset.
    pub fn parse_u8(&self, offset: &mut usize) -> (r: u8)
        requires
            self.wf(),
            *old(offset) < PACKET_CAPACITY,
        ensures
            *final(offset) == *old(offset) + 1,
            r == self.buf@[*old(offset) as int],
    {
        let u = self.buf[*offset];
        *offset = *offset + 1;
        u
    }

    /// Writes `u` big-endian at `*offset` and advances the offset; bytes
    /// outside the window keep their values.
    pub fn write_u32(&mut self, offset: &mut usize, u: u32)
        requires
            old(self).wf(),
            *old(offset) + 4 <= PACKET_CAPACITY,
        ensures
            final(self).wf(),
            *final(offset) == *old(offset) + 4,
            same_outside(final(self).buf@, old(self).buf@, *old(offset) as int, *old(offset) + 4),
            be_at(final(self).buf@, *old(offset) as int) == u as int,
            final(self).size == old(self).size,
            final(self).payload == old(self).payload,
            final(self).read_pos == old(self).read_pos,
            final(self).skip_times == old(self).skip_times,
            UcpPacket::same_meta(*final(self), *old(self)),
    {
        proof {
            lemma_u32_be_decompose(u);
        }
        let b0 = (u / 0x1000000) as u8;
        let r1 = u % 0x1000000;
        let b1 = (r1 / 0x10000) as u8;
        let r2 = r1 % 0x10000;
        let b2 = (r2 / 0x100) as u8;
        let b3 = (r2 % 0x100) as u8;
        let i = *offset;
        self.buf[i] = b0;
        self.buf[i + 1] = b1;
        self.buf[i + 2] = b2;
        self.buf[i + 3] = b3;
        *offset = i + 4;
    }

    /// Writes the byte `u` at `*offset` and advances the offset.
    pub fn write_u8(&mut self, offset: &mut usize, u: u8)
        requires
            old(self).wf(),
            *old(offset) < PACKET_CAPACITY,
        ensures
            final(self).wf(),
            *final(offset) == *old(offset) + 1,
            same_outside(final(self).buf@, old(self).buf@, *old(offset) as int, *old(offset) + 1),
            final(self).buf@[*old(offset) as int] == u,
            final(self).size == old(self).size,
            final(self).payload == old(self).payload,
            final(self).read_pos == old(self).read_pos,
            final(self).skip_times == old(self).skip_times,
            UcpPacket::same_meta(*final(self), *old(self)),
    {
        let i = *offset;
        self.buf[i] = u;
        *offset = i + 1;
    }

    /// Whether the buffer holds a legal datagram: header-sized and with a
    /// matching digest.
    pub fn is_legal(&self) -> (r: bool)
        requires
            self.wf(),
        ensures
            r == legal_datagram(self.buf@, self.size as int),
    {
        self.size >= PACKET_META_SIZE && self.is_crc32_correct()
    }

    /// Whether the digest stored at the front matches the digest of bytes
    /// `[4..size]`.
    pub fn is_crc32_correct(&self) -> (r: bool)
        requires
            self.wf(),
            4 <= self.size,
        ensures
            r == (be_at(self.buf@, 0) == crc32_of(self.buf@.subrange(4, self.size as int)) as int),
    {
        let mut offset: usize = 0;
        let digest = self.parse_u32(&mut offset);
        let body = vstd::slice::slice_subrange(self.buf.as_slice(), 4, self.size);
        crc32_ieee(body) == digest
    }

    /// Serializes the header fields, sets the wire size, and writes the
    /// digest of bytes `[4..size]` at the front.
    pub fn pack(&mut self)
        requires
            old(self).wf(),
            old(self).read_pos <= PACKET_META_SIZE + old(self).payload as int,
        ensures
            final(self).wf(),
            final(self).size == PACKET_META_SIZE + old(self).payload as int,
            final(self).payload == old(self).payload,
            final(self).read_pos == old(self).read_pos,
            final(self).skip_times == old(self).skip_times,
            UcpPacket::same_meta(*final(self), *old(self)),
            packed_form(
                final(self).buf@,
                final(self).size as int,
                old(self).header(),
                old(self).payload_bytes(),
            ),
            same_outside(final(self).buf@, old(self).buf@, 0, PACKET_META_SIZE as int),
    {
        let ghost b_start = self.buf@;
        let mut offset: usize = 4;
        let session_id = self.session_id;
        let timestamp = self.timestamp;
        let window = self.window;
        let xmit = self.xmit;
        let una = self.una;
        let seq = self.seq;
        let cmd = self.cmd;

        self.write_u32(&mut offset, session_id);
        self.write_u32(&mut offset, timestamp);
        self.write_u32(&mut offset, window);
        self.write_u32(&mut offset, xmit);
        self.write_u32(&mut offset, una);
        self.write_u32(&mut offset, seq);
        self.write_u8(&mut offset, cmd);

        self.size = self.payload as usize + PACKET_META_SIZE;
        let ghost b_mid = self.buf@;

        let body = vstd::slice::slice_subrange(self.buf.as_slice(), 4, self.size);
        let digest = crc32_ieee(body);
        let mut front: usize = 0;
        self.write_u32(&mut front, digest);

        proof {
            assert(self.buf@.subrange(4, self.size as int) =~= b_mid.subrange(
                4,
                self.size as int,
            ));
            assert(self.buf@.subrange(
                PACKET_META_SIZE as int,
                self.size as int,
            ) =~= b_start.subrange(
                PACKET_META_SIZE as int,
                PACKET_META_SIZE + old(self).payload as int,
            ));
        }
    }

    /// The wire bytes of a packed packet.
    pub fn packed_buffer(&self) -> (r: &[u8])
        requires
            self.wf(),
        ensures
            r@ == self.buf@.subrange(0, self.size as int),
    {
        vstd::slice::slice_subrange(self.buf.as_slice(), 0, self.size)
    }

    /// Builds a packet from one received datagram and parses it.  The
    /// datagram is admitted exactly when it is at least header-sized, its
    /// digest matches, and its command is known; any other is rejected.
    pub fn from_datagram(bytes: &[u8]) -> (r: Option<UcpPacket>)
        requires
            bytes@.len() <= PACKET_CAPACITY,
        ensures
            (r is Some) == (wire_legal(bytes@) && known_cmd(bytes@[28] as int)),
            match r {
                Some(p) => {
                    &&& p.wf()
                    &&& p.size == bytes@.len()
                    &&& p.buf@.subrange(0, p.size as int) == bytes@
                    &&& legal_datagram(p.buf@, p.size as int)
                    &&& known_cmd(p.buf@[28] as int)
                    &&& p.header() == header_of(p.buf@)
                    &&& p.payload == p.size - PACKET_META_SIZE
                    &&& p.read_pos == PACKET_META_SIZE
                    &&& p.skip_times == 0
                },
                None => true,
            },
    {
        let mut p = UcpPacket::new();
        let n = bytes.len();
        let mut i: usize = 0;
        while i < n
            invariant
                n == bytes@.len() <= PACKET_CAPACITY,
                i <= n,
                p.wf(),
                p.size == 0,
                p.payload == 0,
                p.read_pos == 0,
                p.skip_times == 0,
                p.buf@.len() == PACKET_CAPACITY,
                forall|j: int| 0 <= j < i ==> p.buf@[j] == bytes@[j],
            decreases n - i,
        {
            let b = bytes[i];
            p.buf[i] = b;
            i = i + 1;
        }
        p.size = n;
        proof {
            assert(p.buf@.subrange(0, n as int) =~= bytes@);
            if n >= PACKET_META_SIZE {
                assert(p.buf@.subrange(4, n as int) =~= bytes@.subrange(4, n as int));
                assert(be_at(p.buf@, 0) == be_at(bytes@, 0));
                assert(p.buf@[28] == bytes@[28]);
                assert(legal_datagram(p.buf@, n as int) == wire_legal(bytes@));
            } else {
                assert(!wire_legal(bytes@));
                assert(!legal_datagram(p.buf@, n as int));
            }
        }
        if p.parse() {
            proof {
                assert(p.buf@.subrange(0, p.size as int) =~= bytes@);
            }
            Some(p)
        } else {
            None
        }
    }

    /// Checks legality, then deserializes every header field and puts the
    /// read cursor at the start of the payload.  Returns whether the packet
    /// is legal and its command known.
    pub fn parse(&mut self) -> (r: bool)
        requires
            old(self).wf(),
        ensures
            final(self).wf(),
            final(self).buf@ == old(self).buf@,
            final(self).size == old(self).size,
            final(self).skip_times == old(self).skip_times,
            r == (legal_datagram(old(self).buf@, old(self).size as int) && known_cmd(
                old(self).buf@[28] as int,
            )),
            r ==> {
                &&& final(self).header() == header_of(final(self).buf@)
                &&& final(self).payload == final(self).size - PACKET_META_SIZE
                &&& final(self).read_pos == PACKET_META_SIZE
            },
    {
        if !self.is_legal() {
            return false;
        }
        self.payload = (self.size - PACKET_META_SIZE) as u16;
        self.read_pos = PACKET_META_SIZE;

        let mut offset: usize = 4;
        self.session_id = self.parse_u32(&mut offset);
        self.timestamp = self.parse_u32(&mut offset);
        self.window = self.parse_u32(&mut offset);
        self.xmit = self.parse_u32(&mut offset);
        self.una = self.parse_u32(&mut offset);
        self.seq = self.parse_u32(&mut offset);
        self.cmd = self.parse_u8(&mut offset);

        self.cmd >= CMD_SYN && self.cmd <= CMD_HEARTBEAT_ACK
    }

    /// Whether this packet opens a handshake.
    pub fn is_syn(&self) -> (r: bool)
        ensures
            r == (self.cmd == CMD_SYN),
    {
        self.cmd == CMD_SYN
    }

    /// Payload capacity still free in this packet.
    pub fn remaining_load(&self) -> (r: usize)
        requires
            self.wf(),
        ensures
            r == MAX_PAYLOAD - self.payload as int,
    {
        self.buf.len() - self.payload as usize - PACKET_META_SIZE
    }

    /// Offset just past the staged payload, where the next write lands.
    pub fn payload_offset(&self) -> (r: usize)
        requires
            self.wf(),
        ensures
            r == self.payload + PACKET_META_SIZE,
    {
        self.payload as usize + PACKET_META_SIZE
    }

    /// Appends a big-endian 32-bit value to the payload; fails without
    /// change when fewer than four bytes of capacity remain.
    pub fn payload_write_u32(&mut self, u: u32) -> (r: bool)
        requires
            old(self).wf(),
        ensures
            final(self).wf(),
            r == (old(self).payload as int + 4 <= MAX_PAYLOAD),
            !r ==> *final(self) == *old(self),
            r ==> {
                &&& final(self).payload == old(self).payload + 4
                &&& same_outside(
                    final(self).buf@,
                    old(self).buf@,
                    PACKET_META_SIZE + old(self).payload as int,
                    PACKET_META_SIZE + old(self).payload as int + 4,
                )
                &&& be_at(final(self).buf@, PACKET_META_SIZE + old(self).payload as int)
                    == u as int
                &&& final(self).size == old(self).size
                &&& final(self).read_pos == old(self).read_pos
                &&& final(self).skip_times == old(self).skip_times
                &&& UcpPacket::same_meta(*final(self), *old(self))
            },
    {
        if self.remaining_load() >= 4 {
            let mut offset = self.payload_offset();
            self.write_u32(&mut offset, u);
            self.payload = self.payload + 4;
            true
        } else {
            false
        }
    }

    /// Appends the given bytes to the payload; fails without change when the
    /// remaining capacity cannot hold them all.
    pub fn payload_write_slice(&mut self, data: &[u8]) -> (r: bool)
        requires
            old(self).wf(),
        ensures
            final(self).wf(),
            r == (old(self).payload as int + data@.len() <= MAX_PAYLOAD),
            !r ==> *final(self) == *old(self),
            r ==> {
                &&& final(self).payload == old(self).payload + data@.len()
                &&& same_outside(
                    final(self).buf@,
                    old(self).buf@,
                    PACKET_META_SIZE + old(self).payload as int,
                    PACKET_META_SIZE + old(self).payload as int + data@.len(),
                )
                &&& final(self).buf@.subrange(
                    PACKET_META_SIZE + old(self).payload as int,
                    PACKET_META_SIZE + old(self).payload as int + data@.len(),
                ) == data@
                &&& final(self).size == old(self).size
                &&& final(self).read_pos == old(self).read_pos
                &&& final(self).skip_times == old(self).skip_times
                &&& UcpPacket::same_meta(*final(self), *old(self))
            },
    {
        let n = data.len();
        if self.remaining_load() >= n {
            let off = self.payload_offset();
            let mut i: usize = 0;
            while i < n
                invariant
                    n == data@.len(),
                    i <= n,
                    off == PACKET_META_SIZE + old(self).payload as int,
                    off + n <= PACKET_CAPACITY,
                    self.buf@.len() == PACKET_CAPACITY,
                    self.size == old(self).size,
                    self.payload == old(self).payload,
                    self.read_pos == old(self).read_pos,
                    self.skip_times == old(self).skip_times,
                    UcpPacket::same_meta(*self, *old(self)),
                    old(self).wf(),
                    forall|j: int|
                        0 <= j < PACKET_CAPACITY && (j < off || j >= off + i) ==> self.buf@[j]
                            == old(self).buf@[j],
                    forall|j: int| 0 <= j < i ==> self.buf@[off + j] == data@[j],
                decreases n - i,
            {
                let b = data[i];
                self.buf[off + i] = b;
                i = i + 1;
            }
            self.payload = self.payload + n as u16;
            proof {
                assert(self.buf@.subrange(off as int, off + n) =~= data@);
            }
            true
        } else {
            false
        }
    }

    /// Payload bytes of a parsed packet not yet consumed.
    pub fn payload_remaining(&self) -> (r: usize)
        requires
            self.wf(),
        ensures
            r == self.size - self.read_pos,
    {
        self.size - self.read_pos
    }

    /// Consumes a big-endian 32-bit value at the read cursor.
    pub fn payload_read_u32(&mut self) -> (r: u32)
        requires
            old(self).wf(),
            old(self).read_pos + 4 <= old(self).size,
        ensures
            final(self).wf(),
            r as int == be_at(old(self).buf@, old(self).read_pos as int),
            final(self).read_pos == old(self).read_pos + 4,
            final(self).buf@ == old(self).buf@,
            final(self).size == old(self).size,
            final(self).payload == old(self).payload,
            final(self).skip_times == old(self).skip_times,
            UcpPacket::same_meta(*final(self), *old(self)),
    {
        let mut offset = self.read_pos;
        let u = self.parse_u32(&mut offset);
        self.read_pos = offset;
        u
    }

    /// Consumes up to `want` bytes at the read cursor and returns them; a
    /// partial read is permitted when fewer bytes remain.
    pub fn payload_read_slice(&mut self, want: usize) -> (r: Vec<u8>)
        requires
            old(self).wf(),
        ensures
            final(self).wf(),
            r@.len() == if want as int <= old(self).size - old(self).read_pos {
                want as int
            } else {
                old(self).size - old(self).read_pos
            },
            r@ == old(self).buf@.subrange(
                old(self).read_pos as int,
                old(self).read_pos + r@.len(),
            ),
            final(self).read_pos == old(self).read_pos + r@.len(),
            final(self).buf@ == old(self).buf@,
            final(self).size == old(self).size,
            final(self).payload == old(self).payload,
            final(self).skip_times == old(self).skip_times,
            UcpPacket::same_meta(*final(self), *old(self)),
    {
        let remaining = self.size - self.read_pos;
        let take = if want < remaining {
            want
        } else {
            remaining
        };
        let mut out: Vec<u8> = Vec::new();
        let mut i: usize = 0;
        while i < take
            invariant
                i <= take,
                take <= remaining,
                remaining == self.size - self.read_pos,
                self.wf(),
                out@.len() == i,
                forall|j: int| 0 <= j < i ==> out@[j] == self.buf@[self.read_pos + j],
            decreases take - i,
        {
            let b = self.buf[self.read_pos + i];
            out.push(b);
            i = i + 1;
        }
        self.read_pos = self.read_pos + take;
        proof {
            assert(out@ =~= old(self).buf@.subrange(
                old(self).read_pos as int,
                old(self).read_pos + take as int,
            ));
        }
        out
    }
}

/// A 32-bit value equals the weighted sum of its four big-endian bytes.
proof fn lemma_u32_be_decompose(u: u32)
    ensures
        u / 0x1000000 < 0x100,
        (u % 0x1000000) / 0x10000 < 0x100,
        ((u % 0x1000000) % 0x10000) / 0x100 < 0x100,
        ((u % 0x1000000) % 0x10000) % 0x100 < 0x100,
        0x1000000 * (u / 0x1000000) + 0x10000 * ((u % 0x1000000) / 0x10000) + 0x100 * (((u
            % 0x1000000) % 0x10000) / 0x100) + ((u % 0x1000000) % 0x10000) % 0x100 == u as int,
{
    vstd::arithmetic::div_mod::lemma_fundamental_div_mod(u as int, 0x1000000);
    vstd::arithmetic::div_mod::lemma_mod_bound(u as int, 0x1000000);
    vstd::arithmetic::div_mod::lemma_fundamental_div_mod((u as int) % 0x1000000, 0x10000);
    vstd::arithmetic::div_mod::lemma_mod_bound((u as int) % 0x1000000, 0x10000);
    vstd::arithmetic::div_mod::lemma_fundamental_div_mod(((u as int) % 0x1000000) % 0x10000, 0x100);
    vstd::arithmetic::div_mod::lemma_mod_bound(((u as int) % 0x1000000) % 0x10000, 0x100);
    assert(u / 0x1000000 < 0x100) by (nonlinear_arith)
        requires
            u <= 0xFFFFFFFFu32,
    ;
    assert((u % 0x1000000) / 0x10000 < 0x100) by (nonlinear_arith)
        requires
            0 <= (u as int) % 0x1000000 < 0x1000000,
    ;
    assert(((u % 0x1000000) % 0x10000) / 0x100 < 0x100) by (nonlinear_arith)
        requires
            0 <= ((u as int) % 0x1000000) % 0x10000 < 0x10000,
    ;
}

} // verus!
