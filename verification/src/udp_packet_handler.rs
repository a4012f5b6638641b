use vstd::prelude::*;
use crate::ack::Acks;
use crate::consts::PACKET_DATA_START_BYTE;
use crate::fragment_combiner::{
    ack_bits_for, ack_due, complete_with, is_stale_spec, lemma_complete_with,
    lemma_reassembled_with, reassembled_with, set_frags, tick_set_after, FragmentCombiner,
    FragmentSet, FragmentSetState,
};
use crate::fragment::Fragment;
use crate::fragment::FragmentMeta;
use crate::misc::OwnedSlice;
use crate::udp_packet::{parse_packet, Packet, PacketModel, UdpPacket};

verus! {

/// One decoded incoming message, ready for the socket's state machine.
#[derive(Debug)]
pub enum ReceivedMessage {
    /// An ack for the given seq_id, with its bitmap.
    Ack(u32, Vec<u8>),
    /// A whole reassembled message.
    Data(u32, Vec<u8>),
    Syn,
    SynAck,
    Heartbeat,
    End(u32),
    Abort(u32),
    /// A datagram that would not decode, handed through raw.
    Raw(Vec<u8>),
}

/// What receiving one datagram does to the decoded-message queue and the
/// fragment sets: the exact effect of `UdpPacketHandler::add_received_packet`,
/// as a relation between the states before (`out0`, `pending0`) and after
/// (`out1`, `pending1`), driven by how the datagram `bytes` parses.
pub open spec fn receive_step(
    out0: Seq<ReceivedMessage>,
    out1: Seq<ReceivedMessage>,
    pending0: Map<u32, FragmentSet>,
    pending1: Map<u32, FragmentSet>,
    bytes: Seq<u8>,
) -> bool {
    match parse_packet(bytes) {
        Err(_) => {
            &&& pending1 == pending0
            &&& out1.len() == out0.len() + 1
            &&& (out1.last() matches ReceivedMessage::Raw(b) && b@ == bytes)
        },
        Ok(m) => match m {
            PacketModel::Ack { seq_id, data } => {
                &&& pending1 == pending0
                &&& out1.len() == out0.len() + 1
                &&& (out1.last() matches ReceivedMessage::Ack(s, d) && s == seq_id && d@ == data)
            },
            PacketModel::Syn => pending1 == pending0 && out1 == out0.push(ReceivedMessage::Syn),
            PacketModel::SynAck => pending1 == pending0 && out1 == out0.push(
                ReceivedMessage::SynAck,
            ),
            PacketModel::Heartbeat => pending1 == pending0 && out1 == out0.push(
                ReceivedMessage::Heartbeat,
            ),
            PacketModel::End { last_seq_id } => pending1 == pending0 && out1 == out0.push(
                ReceivedMessage::End(last_seq_id),
            ),
            PacketModel::Abort { last_seq_id } => pending1 == pending0 && out1 == out0.push(
                ReceivedMessage::Abort(last_seq_id),
            ),
            PacketModel::Fragment { seq_id, frag_id, frag_total, frag_meta, data } => ({
                let existed = pending0.dom().contains(seq_id);
                let was_complete = existed && (pending0[seq_id].state matches
                    FragmentSetState::Complete(_, _));
                let m0 = if existed {
                    set_frags(pending0[seq_id])
                } else {
                    Map::<u32, Fragment>::empty()
                };
                let n = m0.dom().insert(frag_id as u32).len() as int;
                if !was_complete && n > frag_total as int && complete_with(
                    m0,
                    frag_id as u32,
                    frag_total,
                    n,
                ) {
                    &&& out1.len() == out0.len() + 1
                    &&& (out1.last() matches ReceivedMessage::Data(s, d) && s == seq_id && d@
                        == reassembled_with(m0, frag_id as u32, data, n))
                } else {
                    out1 == out0
                }
            }),
        },
    }
}

/// Decodes datagrams, feeds fragments to the combiner, and queues everything
/// else for the state machine.
pub struct UdpPacketHandler {
    fragment_combiner: FragmentCombiner,
    out_messages: Vec<ReceivedMessage>,
}

impl UdpPacketHandler {
    /// The fragment sets held, by seq_id.
    pub closed spec fn pending(&self) -> Map<u32, FragmentSet> {
        self.fragment_combiner.pending()
    }

    /// The decoded messages not yet consumed, oldest first.
    pub closed spec fn out(&self) -> Seq<ReceivedMessage> {
        self.out_messages@
    }

    /// The combiner never holds a reassembled message across calls: each
    /// push is followed by a drain.
    pub closed spec fn wf(&self) -> bool {
        &&& self.fragment_combiner.wf()
        &&& self.fragment_combiner.out().len() == 0
    }

    pub fn new() -> (r: UdpPacketHandler)
        ensures
            r.wf(),
            r.pending() == Map::<u32, FragmentSet>::empty(),
            r.out() == Seq::<ReceivedMessage>::empty(),
    {
        UdpPacketHandler { fragment_combiner: FragmentCombiner::new(), out_messages: Vec::new() }
    }

    /// Decode one datagram and queue what it means.
    ///
    /// A fragment goes through the combiner; exactly when it completes a
    /// consistent set, one `Data` message is queued. Every other packet kind
    /// is queued directly, and an undecodable datagram is queued `Raw`.
    pub fn add_received_packet(&mut self, udp_packet: UdpPacket, now: u64)
        requires
            old(self).wf(),
        ensures
            final(self).wf(),
            final(self).out().len() >= old(self).out().len(),
            final(self).out().take(old(self).out().len() as int) == old(self).out(),
            receive_step(
                old(self).out(),
                final(self).out(),
                old(self).pending(),
                final(self).pending(),
                udp_packet@,
            ),
    {
        let meta = match udp_packet.compute_packet_meta() {
            Ok(meta) => meta,
            Err(_) => {
                self.out_messages.push(ReceivedMessage::Raw(udp_packet.into_buffer()));
                proof {
                    assert(self.out().take(old(self).out().len() as int) =~= old(self).out());
                }
                return;
            },
        };
        let buffer = udp_packet.into_buffer();
        let stripped = OwnedSlice::new(buffer, PACKET_DATA_START_BYTE);
        let packet = meta.build_packet_with(stripped);
        match packet {
            Packet::Fragment(f) => {
                let ghost gf = f;
                let ghost m0 = if old(self).pending().dom().contains(gf.seq_id) {
                    set_frags(old(self).pending()[gf.seq_id])
                } else {
                    Map::<u32, Fragment>::empty()
                };
                self.fragment_combiner.push(f, now);
                proof {
                    lemma_complete_with(m0, gf.frag_id as u32, gf, m0.dom().insert(
                        gf.frag_id as u32,
                    ).len() as int);
                    lemma_reassembled_with(m0, gf.frag_id as u32, gf, m0.dom().insert(
                        gf.frag_id as u32,
                    ).len() as int);
                    assert(m0.insert(gf.frag_id as u32, gf).dom() =~= m0.dom().insert(
                        gf.frag_id as u32,
                    ));
                }
                match self.fragment_combiner.next_out_message() {
                    Some(p) => {
                        self.out_messages.push(ReceivedMessage::Data(p.0, p.1));
                        proof {
                            assert(self.out().take(old(self).out().len() as int) =~= old(
                                self,
                            ).out());
                        }
                    },
                    None => {},
                }
            },
            Packet::Ack(seq_id, data) => {
                self.out_messages.push(ReceivedMessage::Ack(seq_id, data));
                proof {
                    assert(self.out().take(old(self).out().len() as int) =~= old(self).out());
                }
            },
            Packet::Heartbeat => {
                self.out_messages.push(ReceivedMessage::Heartbeat);
            },
            Packet::Syn => {
                self.out_messages.push(ReceivedMessage::Syn);
            },
            Packet::SynAck => {
                self.out_messages.push(ReceivedMessage::SynAck);
            },
            Packet::End(last_seq_id) => {
                self.out_messages.push(ReceivedMessage::End(last_seq_id));
            },
            Packet::Abort(last_seq_id) => {
                self.out_messages.push(ReceivedMessage::Abort(last_seq_id));
            },
        }
        proof {
            assert(self.out().take(old(self).out().len() as int) =~= old(self).out());
        }
    }

    /// Whether a decoded message is waiting.
    pub fn has_messages(&self) -> (r: bool)
        ensures
            r == (self.out().len() > 0),
    {
        self.out_messages.len() > 0
    }

    /// One scheduling turn of the combiner: acks to send now.
    pub fn tick(&mut self, now: u64) -> (acks: Acks)
        requires
            old(self).wf(),
        ensures
            final(self).wf(),
            final(self).out() == old(self).out(),
            forall|k: u32| #[trigger]
                old(self).pending().dom().contains(k) ==> (final(self).pending().dom().contains(k)
                    <==> !is_stale_spec(old(self).pending()[k], now)),
            forall|k: u32| #[trigger]
                final(self).pending().dom().contains(k) ==> old(self).pending().dom().contains(k)
                    && final(self).pending()[k] == tick_set_after(old(self).pending()[k], now),
            forall|j: int|
                0 <= j < acks@.len() ==> {
                    let k = (#[trigger] acks@[j]).0;
                    &&& old(self).pending().dom().contains(k)
                    &&& !is_stale_spec(old(self).pending()[k], now)
                    &&& ack_due(old(self).pending()[k], now)
                    &&& old(self).pending()[k].fragment_meta != FragmentMeta::Forgettable
                    &&& ack_bits_for(old(self).pending()[k], acks@[j].1@)
                },
            forall|k: u32| #[trigger]
                old(self).pending().dom().contains(k) && !is_stale_spec(
                    old(self).pending()[k],
                    now,
                ) && ack_due(old(self).pending()[k], now) ==> exists|j: int|
                    0 <= j < acks@.len() && (#[trigger] acks@[j]).0 == k,
            forall|j1: int, j2: int|
                0 <= j1 < j2 < acks@.len() ==> (#[trigger] acks@[j1]).0 != (
                #[trigger] acks@[j2]).0,
    {
        self.fragment_combiner.tick(now)
    }

    /// The oldest decoded message, if any.
    pub fn next_received_message(&mut self) -> (r: Option<ReceivedMessage>)
        ensures
            final(self).pending() == old(self).pending(),
            final(self).wf() == old(self).wf(),
            old(self).out().len() == 0 ==> r is None && final(self).out() == old(self).out(),
            old(self).out().len() > 0 ==> r == Some(old(self).out()[0]) && final(self).out() == old(
                self,
            ).out().skip(1),
    {
        if self.out_messages.len() == 0 {
            None
        } else {
            Some(self.out_messages.remove(0))
        }
    }
}

} // verus!
