use vstd::prelude::*;

verus! {

/// Leading CRC32 checksum: a `u32`, 4 bytes on the wire.
pub const CRC32_SIZE: usize = 4;

/// 4 bytes for the seq_id, 1 for the frag_id, 1 for the frag_total.
pub const COMMON_HEADER_SIZE: usize = 4 + 1 + 1;

/// One extra header byte for the frag_meta of a fragment.
pub const FRAG_ADD_HEADER_SIZE: usize = 1;

/// Offset where the payload of a non-fragment packet starts.
pub const PACKET_DATA_START_BYTE: usize = 10;

/// Offset where the payload of a fragment starts (after the frag_meta byte).
pub const FRAG_DATA_START_BYTE: usize = 11;

/// Maximum payload bytes carried by a single fragment. 1024 + 128 = 1152 sits
/// safely below common MTU values once the 11 header bytes and the IPv4/UDP
/// headers are added.
pub const MAX_FRAGMENT_MESSAGE_SIZE: usize = 1024 + 128;

/// Largest datagram this protocol ever emits.
pub const MAX_SENT_UDP_DATA_SIZE: usize = 1024 + 128 + 11;

/// Receive buffers should be at least this large.
pub const MAX_RCV_UDP_DATA_SIZE: usize = 1400;

/// Since frag_id is a `u8` and frag_total is the index of the last fragment,
/// a message holds at most 256 fragments.
pub const MAX_FRAGMENTS_IN_MESSAGE: usize = 256;

/// A fully acknowledged outgoing message is kept this long (milliseconds)
/// after the first complete ack, then dropped.
pub const SEQ_DATA_CLEANUP_DELAY_MS: u64 = 5000;

/// Minimum milliseconds between two acks for the same incoming set.
pub const ACK_SEND_INTERVAL_MS: u64 = 50;

} // verus!
