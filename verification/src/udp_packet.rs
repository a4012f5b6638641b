use vstd::prelude::*;
use crate::checksum::{crc32_ieee, crc32_of};
use crate::consts::PACKET_DATA_START_BYTE;
use crate::fragment::{Fragment, FragmentMeta};
use crate::misc::OwnedSlice;

verus! {

// ---------------------------------------------------------------------------
// Big-endian u32 framing
// ---------------------------------------------------------------------------
/// The four big-endian bytes of a `u32`.
pub open spec fn u32_be_bytes(x: u32) -> Seq<u8> {
    seq![(x >> 24) as u8, (x >> 16) as u8, (x >> 8) as u8, x as u8]
}

/// The `u32` read big-endian from four bytes.
pub open spec fn be_u32_of(s: Seq<u8>) -> u32
    recommends
        s.len() == 4,
{
    ((s[0] as u32) << 24) | ((s[1] as u32) << 16) | ((s[2] as u32) << 8) | (s[3] as u32)
}

pub proof fn lemma_u32_be_round_trip(x: u32)
    ensures
        be_u32_of(u32_be_bytes(x)) == x,
{
    assert((((x >> 24) as u8 as u32) << 24) | (((x >> 16) as u8 as u32) << 16) | (((x
        >> 8) as u8 as u32) << 8) | (x as u8 as u32) == x) by (bit_vector);
}

/// Append the four big-endian bytes of `x`.
fn push_u32_be(out: &mut Vec<u8>, x: u32)
    ensures
        final(out)@ == old(out)@ + u32_be_bytes(x),
{
    out.push(#[verifier::truncate] ((x >> 24) as u8));
    out.push(#[verifier::truncate] ((x >> 16) as u8));
    out.push(#[verifier::truncate] ((x >> 8) as u8));
    out.push(#[verifier::truncate] (x as u8));
    proof {
        assert(out@ =~= old(out)@ + u32_be_bytes(x));
    }
}

/// Read a big-endian `u32` at `offset`.
fn read_u32_be(bytes: &[u8], offset: usize) -> (r: u32)
    requires
        offset + 4 <= bytes@.len(),
    ensures
        r == be_u32_of(bytes@.subrange(offset as int, offset as int + 4)),
{
    let r = ((bytes[offset] as u32) << 24u32) | ((bytes[offset + 1] as u32) << 16u32) | ((bytes[offset
        + 2] as u32) << 8u32) | (bytes[offset + 3] as u32);
    proof {
        let s = bytes@.subrange(offset as int, offset as int + 4);
        assert(s[0] == bytes@[offset as int]);
        assert(s[1] == bytes@[offset as int + 1]);
        assert(s[2] == bytes@[offset as int + 2]);
        assert(s[3] == bytes@[offset as int + 3]);
    }
    r
}

// ---------------------------------------------------------------------------
// Packets and their abstract model
// ---------------------------------------------------------------------------
/// A decoded packet, owning its payload.
#[derive(Debug)]
pub enum Packet {
    Fragment(Fragment),
    Ack(u32, Vec<u8>),
    Syn,
    SynAck,
    Heartbeat,
    End(u32),
    Abort(u32),
}

/// The abstract value of a packet.
#[verifier::ext_equal]
pub enum PacketModel {
    Fragment { seq_id: u32, frag_id: u8, frag_total: u8, frag_meta: FragmentMeta, data: Seq<u8> },
    Ack { seq_id: u32, data: Seq<u8> },
    Syn,
    SynAck,
    Heartbeat,
    End { last_seq_id: u32 },
    Abort { last_seq_id: u32 },
}

impl View for Packet {
    type V = PacketModel;

    open spec fn view(&self) -> PacketModel {
        match self {
            Packet::Fragment(f) => PacketModel::Fragment {
                seq_id: f.seq_id,
                frag_id: f.frag_id,
                frag_total: f.frag_total,
                frag_meta: f.frag_meta,
                data: f.data@,
            },
            Packet::Ack(seq_id, data) => PacketModel::Ack { seq_id: *seq_id, data: data@ },
            Packet::Syn => PacketModel::Syn,
            Packet::SynAck => PacketModel::SynAck,
            Packet::Heartbeat => PacketModel::Heartbeat,
            Packet::End(last_seq_id) => PacketModel::End { last_seq_id: *last_seq_id },
            Packet::Abort(last_seq_id) => PacketModel::Abort { last_seq_id: *last_seq_id },
        }
    }
}

/// Wire value of a fragment's reliability class.
pub open spec fn meta_byte(m: FragmentMeta) -> u8 {
    match m {
        FragmentMeta::Forgettable => 0,
        FragmentMeta::KeyExpirable => 1,
        FragmentMeta::Key => 2,
    }
}

/// Bytes 4..8 of the header.
pub open spec fn packet_seq_id(p: PacketModel) -> u32 {
    match p {
        PacketModel::Fragment { seq_id, .. } => seq_id,
        PacketModel::Ack { seq_id, .. } => seq_id,
        PacketModel::Syn => 0,
        PacketModel::SynAck => 0,
        PacketModel::Heartbeat => 0,
        PacketModel::End { last_seq_id } => last_seq_id,
        PacketModel::Abort { last_seq_id } => last_seq_id,
    }
}

/// Byte 8 of the header: the frag_id, or 255 for non-fragments.
pub open spec fn packet_frag_id(p: PacketModel) -> u8 {
    match p {
        PacketModel::Fragment { frag_id, .. } => frag_id,
        _ => 255,
    }
}

/// Byte 9 of the header: the frag_total, or the type tag for non-fragments.
pub open spec fn packet_frag_total(p: PacketModel) -> u8 {
    match p {
        PacketModel::Fragment { frag_total, .. } => frag_total,
        PacketModel::Ack { .. } => 0,
        PacketModel::Syn => 1,
        PacketModel::SynAck => 2,
        PacketModel::End { .. } => 3,
        PacketModel::Abort { .. } => 4,
        PacketModel::Heartbeat => 5,
    }
}

/// Bytes 10.. of the datagram: the frag_meta byte and payload of a
/// fragment, the bitmap of an ack, nothing otherwise.
pub open spec fn packet_payload_spec(p: PacketModel) -> Seq<u8> {
    match p {
        PacketModel::Fragment { frag_meta, data, .. } => seq![meta_byte(frag_meta)] + data,
        PacketModel::Ack { data, .. } => data,
        _ => Seq::empty(),
    }
}

/// Bytes 4.. of the datagram: everything the checksum covers.
pub open spec fn packet_body_spec(p: PacketModel) -> Seq<u8> {
    u32_be_bytes(packet_seq_id(p)) + seq![packet_frag_id(p), packet_frag_total(p)]
        + packet_payload_spec(p)
}

/// The full datagram: CRC32 of the body, then the body.
pub open spec fn encoded_packet(p: PacketModel) -> Seq<u8> {
    u32_be_bytes(crc32_of(packet_body_spec(p))) + packet_body_spec(p)
}

/// A datagram whose leading checksum matches its body.
pub open spec fn datagram_crc_valid(bytes: Seq<u8>) -> bool {
    &&& bytes.len() >= 10
    &&& be_u32_of(bytes.subrange(0, 4)) == crc32_of(bytes.skip(4))
}

/// A fragment packet never carries `frag_id > frag_total`; nothing is asked
/// of the other kinds.
pub open spec fn packet_wf(p: PacketModel) -> bool {
    match p {
        PacketModel::Fragment { frag_id, frag_total, .. } => frag_id <= frag_total,
        _ => true,
    }
}

// ---------------------------------------------------------------------------
// Parsing
// ---------------------------------------------------------------------------
/// Why a datagram failed to decode.
#[derive(Debug, Clone, Copy, PartialEq, Eq, Structural)]
pub enum UdpPacketError {
    /// Fewer than 10 bytes, or fewer than 11 for a fragment.
    NotBigEnough,
    /// The leading checksum does not match the body.
    InvalidCrc,
    /// `frag_id > frag_total` without being a known tag (frag_id, frag_total).
    InvalidFragLayout(u8, u8),
    /// A fragment whose frag_meta byte names no reliability class.
    InvalidFragMeta,
}

/// The header of a decoded packet, before the payload is attached.
#[derive(Debug, Clone, Copy)]
pub enum PacketMeta {
    /// A fragment header: (seq_id, frag_id, frag_total, frag_meta).
    Fragment(u32, u8, u8, FragmentMeta),
    /// An ack for the given seq_id; the payload is the bitmap.
    Ack(u32),
    Syn,
    SynAck,
    Heartbeat,
    End(u32),
    Abort(u32),
}

/// How a datagram's header decodes: the type discrimination table over
/// `(frag_id, frag_total)`, after the length and checksum checks.
pub open spec fn parse_packet_meta_spec(bytes: Seq<u8>) -> Result<PacketMeta, UdpPacketError> {
    if bytes.len() < 10 {
        Err(UdpPacketError::NotBigEnough)
    } else if be_u32_of(bytes.subrange(0, 4)) != crc32_of(bytes.skip(4)) {
        Err(UdpPacketError::InvalidCrc)
    } else {
        let seq_id = be_u32_of(bytes.subrange(4, 8));
        let frag_id = bytes[8];
        let frag_total = bytes[9];
        if frag_id == 255 && frag_total == 0 {
            Ok(PacketMeta::Ack(seq_id))
        } else if frag_id == 255 && frag_total == 1 {
            Ok(PacketMeta::Syn)
        } else if frag_id == 255 && frag_total == 2 {
            Ok(PacketMeta::SynAck)
        } else if frag_id == 255 && frag_total == 3 {
            Ok(PacketMeta::End(seq_id))
        } else if frag_id == 255 && frag_total == 4 {
            Ok(PacketMeta::Abort(seq_id))
        } else if frag_id == 255 && frag_total == 5 {
            Ok(PacketMeta::Heartbeat)
        } else if frag_id <= frag_total {
            if bytes.len() < 11 {
                Err(UdpPacketError::NotBigEnough)
            } else if bytes[10] == 0 {
                Ok(PacketMeta::Fragment(seq_id, frag_id, frag_total, FragmentMeta::Forgettable))
            } else if bytes[10] == 1 {
                Ok(PacketMeta::Fragment(seq_id, frag_id, frag_total, FragmentMeta::KeyExpirable))
            } else if bytes[10] == 2 {
                Ok(PacketMeta::Fragment(seq_id, frag_id, frag_total, FragmentMeta::Key))
            } else {
                Err(UdpPacketError::InvalidFragMeta)
            }
        } else {
            Err(UdpPacketError::InvalidFragLayout(frag_id, frag_total))
        }
    }
}

/// The packet a header describes, given the datagram's bytes from offset 10.
pub open spec fn packet_of_meta(m: PacketMeta, stripped: Seq<u8>) -> PacketModel {
    match m {
        PacketMeta::Fragment(seq_id, frag_id, frag_total, frag_meta) => PacketModel::Fragment {
            seq_id,
            frag_id,
            frag_total,
            frag_meta,
            data: stripped.skip(1),
        },
        PacketMeta::Ack(seq_id) => PacketModel::Ack { seq_id, data: stripped },
        PacketMeta::Syn => PacketModel::Syn,
        PacketMeta::SynAck => PacketModel::SynAck,
        PacketMeta::Heartbeat => PacketModel::Heartbeat,
        PacketMeta::End(last_seq_id) => PacketModel::End { last_seq_id },
        PacketMeta::Abort(last_seq_id) => PacketModel::Abort { last_seq_id },
    }
}

/// How a whole datagram decodes.
pub open spec fn parse_packet(bytes: Seq<u8>) -> Result<PacketModel, UdpPacketError> {
    match parse_packet_meta_spec(bytes) {
        Ok(m) => Ok(packet_of_meta(m, bytes.skip(10))),
        Err(e) => Err(e),
    }
}

// ---------------------------------------------------------------------------
// Packet methods
// ---------------------------------------------------------------------------
/// Two packets match when they have the same kind and the same header and
/// payload; the reliability class of fragments is not compared.
pub open spec fn packets_match(a: PacketModel, b: PacketModel) -> bool {
    match (a, b) {
        (
            PacketModel::Fragment { seq_id: s1, frag_id: f1, frag_total: t1, data: d1, .. },
            PacketModel::Fragment { seq_id: s2, frag_id: f2, frag_total: t2, data: d2, .. },
        ) => s1 == s2 && f1 == f2 && t1 == t2 && d1 == d2,
        (
            PacketModel::Ack { seq_id: s1, data: d1 },
            PacketModel::Ack { seq_id: s2, data: d2 },
        ) => s1 == s2 && d1 == d2,
        (PacketModel::Syn, PacketModel::Syn) => true,
        (PacketModel::SynAck, PacketModel::SynAck) => true,
        (PacketModel::Heartbeat, PacketModel::Heartbeat) => true,
        (PacketModel::End { last_seq_id: s1 }, PacketModel::End { last_seq_id: s2 }) => s1 == s2,
        (PacketModel::Abort { last_seq_id: s1 }, PacketModel::Abort { last_seq_id: s2 }) => s1
            == s2,
        _ => false,
    }
}

fn bytes_equal(a: &[u8], b: &[u8]) -> (r: bool)
    ensures
        r == (a@ == b@),
{
    if a.len() != b.len() {
        return false;
    }
    let mut i: usize = 0;
    while i < a.len()
        invariant
            i <= a@.len(),
            a@.len() == b@.len(),
            forall|j: int| 0 <= j < i ==> a@[j] == b@[j],
        decreases a@.len() - i,
    {
        if a[i] != b[i] {
            return false;
        }
        i = i + 1;
    }
    proof {
        assert(a@ =~= b@);
    }
    true
}

impl Packet {
    /// Total size of this packet's datagram.
    pub fn udp_packet_size(&self) -> (r: usize)
        requires
            10 + packet_payload_spec(self@).len() <= usize::MAX,
        ensures
            r == 10 + packet_payload_spec(self@).len(),
    {
        let data_size: usize = match self {
            Packet::Fragment(f) => 1 + f.data.len(),
            Packet::Ack(_, data) => data.len(),
            _ => 0,
        };
        10 + data_size
    }

    /// The header fields: (seq_id, frag_id, frag_total).
    pub fn header(&self) -> (r: (u32, u8, u8))
        ensures
            r.0 == packet_seq_id(self@),
            r.1 == packet_frag_id(self@),
            r.2 == packet_frag_total(self@),
    {
        match self {
            Packet::Fragment(f) => (f.seq_id, f.frag_id, f.frag_total),
            Packet::Ack(seq_id, _) => (*seq_id, 255, 0),
            Packet::Syn => (0, 255, 1),
            Packet::SynAck => (0, 255, 2),
            Packet::End(last_seq_id) => (*last_seq_id, 255, 3),
            Packet::Abort(last_seq_id) => (*last_seq_id, 255, 4),
            Packet::Heartbeat => (0, 255, 5),
        }
    }

    /// Append this packet's payload bytes (frag_meta byte included for
    /// fragments).
    pub fn write_payload(&self, out: &mut Vec<u8>)
        ensures
            final(out)@ == old(out)@ + packet_payload_spec(self@),
    {
        match self {
            Packet::Fragment(f) => {
                let mb: u8 = match f.frag_meta {
                    FragmentMeta::Forgettable => 0,
                    FragmentMeta::KeyExpirable => 1,
                    FragmentMeta::Key => 2,
                };
                out.push(mb);
                out.extend_from_slice(f.data.as_slice());
                proof {
                    assert(out@ =~= old(out)@ + packet_payload_spec(self@));
                }
            },
            Packet::Ack(_, data) => {
                out.extend_from_slice(data.as_slice());
            },
            _ => {
                proof {
                    assert(out@ =~= old(out)@ + packet_payload_spec(self@));
                }
            },
        }
    }

    /// Whether two packets match (kind, header and payload; a fragment's
    /// reliability class is not compared).
    pub fn cmp_with(&self, other: &Packet) -> (r: bool)
        ensures
            r == packets_match(self@, other@),
    {
        match (self, other) {
            (Packet::Fragment(f1), Packet::Fragment(f2)) => f1.seq_id == f2.seq_id && f1.frag_id
                == f2.frag_id && f1.frag_total == f2.frag_total && bytes_equal(
                f1.data.as_slice(),
                f2.data.as_slice(),
            ),
            (Packet::Ack(s1, d1), Packet::Ack(s2, d2)) => s1 == s2 && bytes_equal(
                d1.as_slice(),
                d2.as_slice(),
            ),
            (Packet::Syn, Packet::Syn) => true,
            (Packet::SynAck, Packet::SynAck) => true,
            (Packet::End(s1), Packet::End(s2)) => s1 == s2,
            (Packet::Abort(s1), Packet::Abort(s2)) => s1 == s2,
            (Packet::Heartbeat, Packet::Heartbeat) => true,
            _ => false,
        }
    }
}

impl PacketMeta {
    /// Attach the stripped payload bytes (everything from offset 10) to a
    /// decoded header.
    pub fn build_packet_with(self, data: OwnedSlice) -> (r: Packet)
        requires
            data.wf(),
            (self matches PacketMeta::Fragment(..)) ==> data@.len() >= 1,
        ensures
            r@ == packet_of_meta(self, data@),
    {
        match self {
            PacketMeta::Fragment(seq_id, frag_id, frag_total, frag_meta) => Packet::Fragment(
                Fragment {
                    seq_id,
                    frag_id,
                    frag_total,
                    frag_meta,
                    data: data.with_added_strip(1).into_vec(),
                },
            ),
            PacketMeta::Ack(seq_id) => Packet::Ack(seq_id, data.into_vec()),
            PacketMeta::Syn => Packet::Syn,
            PacketMeta::SynAck => Packet::SynAck,
            PacketMeta::Heartbeat => Packet::Heartbeat,
            PacketMeta::End(last_seq_id) => Packet::End(last_seq_id),
            PacketMeta::Abort(last_seq_id) => Packet::Abort(last_seq_id),
        }
    }
}

// ---------------------------------------------------------------------------
// The datagram itself
// ---------------------------------------------------------------------------
/// One raw datagram: the CRC header, the packet header, and the payload.
#[derive(Debug)]
pub struct UdpPacket {
    buffer: Vec<u8>,
}

impl View for UdpPacket {
    type V = Seq<u8>;

    closed spec fn view(&self) -> Seq<u8> {
        self.buffer@
    }
}

impl UdpPacket {
    pub fn new(buffer: Vec<u8>) -> (r: UdpPacket)
        ensures
            r@ == buffer@,
    {
        UdpPacket { buffer }
    }

    pub fn as_bytes(&self) -> (r: &[u8])
        ensures
            r@ == self@,
    {
        self.buffer.as_slice()
    }

    /// The raw datagram bytes.
    pub fn into_buffer(self) -> (r: Vec<u8>)
        ensures
            r@ == self@,
    {
        self.buffer
    }

    /// Encode a packet into its datagram: the body after byte 4, its CRC32
    /// big-endian in front.
    pub fn from_packet(p: &Packet) -> (r: UdpPacket)
        ensures
            r@ == encoded_packet(p@),
            datagram_crc_valid(r@),
    {
        let mut body: Vec<u8> = Vec::new();
        let header = p.header();
        push_u32_be(&mut body, header.0);
        body.push(header.1);
        body.push(header.2);
        p.write_payload(&mut body);
        proof {
            assert(body@ =~= packet_body_spec(p@));
        }
        let crc: u32 = crc32_ieee(body.as_slice());
        let mut buffer: Vec<u8> = Vec::new();
        push_u32_be(&mut buffer, crc);
        buffer.append(&mut body);
        proof {
            assert(buffer@ =~= encoded_packet(p@));
            assert(buffer@.subrange(0, 4) =~= u32_be_bytes(crc));
            assert(buffer@.skip(4) =~= packet_body_spec(p@));
            lemma_u32_be_round_trip(crc);
        }
        UdpPacket { buffer }
    }

    /// Encode a fragment into its datagram.
    pub fn from_fragment(f: &Fragment) -> (r: UdpPacket)
        ensures
            r@ == encoded_packet(
                PacketModel::Fragment {
                    seq_id: f.seq_id,
                    frag_id: f.frag_id,
                    frag_total: f.frag_total,
                    frag_meta: f.frag_meta,
                    data: f.data@,
                },
            ),
            datagram_crc_valid(r@),
    {
        let p = Packet::Fragment(f.as_borrowed_frag());
        UdpPacket::from_packet(&p)
    }

    /// Check the length floor and the checksum.
    pub fn check_header_crc(udp_message: &[u8]) -> (r: Result<(), UdpPacketError>)
        ensures
            match r {
                Ok(_) => udp_message@.len() >= 10 && be_u32_of(udp_message@.subrange(0, 4))
                    == crc32_of(udp_message@.skip(4)),
                Err(e) => (e == UdpPacketError::NotBigEnough && udp_message@.len() < 10) || (e
                    == UdpPacketError::InvalidCrc && udp_message@.len() >= 10 && be_u32_of(
                    udp_message@.subrange(0, 4),
                ) != crc32_of(udp_message@.skip(4))),
            },
    {
        if udp_message.len() < 10 {
            return Err(UdpPacketError::NotBigEnough);
        }
        let message_crc32: u32 = read_u32_be(udp_message, 0);
        let computed_crc32: u32 = crc32_ieee(
            vstd::slice::slice_subrange(udp_message, 4, udp_message.len()),
        );
        if computed_crc32 != message_crc32 {
            Err(UdpPacketError::InvalidCrc)
        } else {
            Ok(())
        }
    }

    /// Decode the header of this datagram.
    pub fn compute_packet_meta(&self) -> (r: Result<PacketMeta, UdpPacketError>)
        ensures
            r == parse_packet_meta_spec(self@),
    {
        match Self::check_header_crc(self.buffer.as_slice()) {
            Err(e) => Err(e),
            Ok(_) => {
                let frag_id: u8 = self.buffer[8];
                let frag_total: u8 = self.buffer[9];
                let seq_id: u32 = read_u32_be(self.buffer.as_slice(), 4);
                if frag_id == 255 && frag_total == 0 {
                    Ok(PacketMeta::Ack(seq_id))
                } else if frag_id == 255 && frag_total == 1 {
                    Ok(PacketMeta::Syn)
                } else if frag_id == 255 && frag_total == 2 {
                    Ok(PacketMeta::SynAck)
                } else if frag_id == 255 && frag_total == 3 {
                    Ok(PacketMeta::End(seq_id))
                } else if frag_id == 255 && frag_total == 4 {
                    Ok(PacketMeta::Abort(seq_id))
                } else if frag_id == 255 && frag_total == 5 {
                    Ok(PacketMeta::Heartbeat)
                } else if frag_id <= frag_total {
                    if self.buffer.len() < 11 {
                        return Err(UdpPacketError::NotBigEnough);
                    }
                    let frag_meta_byte: u8 = self.buffer[10];
                    if frag_meta_byte == 0 {
                        Ok(
                            PacketMeta::Fragment(
                                seq_id,
                                frag_id,
                                frag_total,
                                FragmentMeta::Forgettable,
                            ),
                        )
                    } else if frag_meta_byte == 1 {
                        Ok(
                            PacketMeta::Fragment(
                                seq_id,
                                frag_id,
                                frag_total,
                                FragmentMeta::KeyExpirable,
                            ),
                        )
                    } else if frag_meta_byte == 2 {
                        Ok(PacketMeta::Fragment(seq_id, frag_id, frag_total, FragmentMeta::Key))
                    } else {
                        Err(UdpPacketError::InvalidFragMeta)
                    }
                } else {
                    Err(UdpPacketError::InvalidFragLayout(frag_id, frag_total))
                }
            },
        }
    }

    /// Decode this datagram into a packet.
    pub fn compute_packet(self) -> (r: Result<Packet, UdpPacketError>)
        ensures
            match r {
                Ok(p) => parse_packet(self@) matches Ok(m) && p@ == m,
                Err(e) => parse_packet(self@) == Err::<PacketModel, UdpPacketError>(e),
            },
    {
        let meta = match self.compute_packet_meta() {
            Ok(m) => m,
            Err(e) => {
                return Err(e);
            },
        };
        let stripped = OwnedSlice::new(self.buffer, PACKET_DATA_START_BYTE);
        Ok(meta.build_packet_with(stripped))
    }
}

// ---------------------------------------------------------------------------
// Round trip: decoding an encoded packet restores it
// ---------------------------------------------------------------------------
/// Decoding an encoded packet restores the packet exactly, for every packet
/// kind, whenever a fragment's ids are well-formed.
pub proof fn lemma_parse_encoded(p: PacketModel)
    requires
        packet_wf(p),
    ensures
        parse_packet(encoded_packet(p)) == Ok::<PacketModel, UdpPacketError>(p),
{
    let body = packet_body_spec(p);
    let enc = encoded_packet(p);
    let payload = packet_payload_spec(p);
    assert(enc.subrange(0, 4) =~= u32_be_bytes(crc32_of(body)));
    assert(enc.skip(4) =~= body);
    lemma_u32_be_round_trip(crc32_of(body));
    assert(enc.subrange(4, 8) =~= u32_be_bytes(packet_seq_id(p)));
    lemma_u32_be_round_trip(packet_seq_id(p));
    assert(enc[8] == packet_frag_id(p));
    assert(enc[9] == packet_frag_total(p));
    assert(enc.skip(10) =~= payload);
    match p {
        PacketModel::Fragment { seq_id, frag_id, frag_total, frag_meta, data } => {
            assert(enc.len() >= 11);
            assert(enc[10] == meta_byte(frag_meta));
            assert(enc.skip(10).skip(1) =~= data);
        },
        PacketModel::Ack { seq_id, data } => {},
        _ => {},
    }
}

} // verus!
