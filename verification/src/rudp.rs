use vstd::prelude::*;
use crate::ack::Ack;
use crate::udp_packet::{
    datagram_crc_valid, encoded_packet, parse_packet, Packet, PacketModel, UdpPacket,
};
use crate::fragment_combiner::{ack_bits_for, ack_due, is_stale_spec, FragmentSet};
use crate::ping_handler::{ping_ms_spec, PingHandler};
use crate::sent_data_tracker::{
    due_resend_datagram, frag_datagram, meta_of_expiration, resend_due_spec, resend_ids_spec,
    tick_removed, SentDataTracker,
};
use crate::udp_packet_handler::{receive_step, ReceivedMessage, UdpPacketHandler};

verus! {

/// Milliseconds of silence after which a remote is declared dead.
pub const DEFAULT_TIMEOUT_DELAY_MS: u64 = 10_000;

/// Milliseconds of not sending after which a heartbeat goes out.
pub const DEFAULT_HEARTBEAT_DELAY_MS: u64 = 1000;

/// Milliseconds between repeated Syn attempts while connecting.
pub const SYN_RESEND_DELAY_MS: u64 = 3000;

/// An event of the socket: data from the remote, or a change of the
/// connection's life.
#[derive(Debug)]
pub enum SocketEvent {
    /// A whole message sent by the remote, reassembled.
    Data(Vec<u8>),
    /// The handshake with the other side completed.
    Connected,
    /// The connection was aborted unexpectedly by the other end.
    Aborted,
    /// The connection was ended peacefully by the other end.
    Ended,
    /// Nothing came from the other end for the whole timeout delay.
    Timeout,
}

/// How often a message is re-sent while unacknowledged.
#[derive(Debug, Copy, Clone)]
pub enum MessagePriority {
    Lowest,
    VeryLow,
    Low,
    Normal,
    High,
    VeryHigh,
    Highest,
    /// A resend cadence of the caller's choosing, in milliseconds.
    Custom { resend_delay_ms: u64 },
}

/// The resend cadence of a priority, in milliseconds.
pub open spec fn resend_delay_spec(p: MessagePriority) -> u64 {
    match p {
        MessagePriority::Highest => 20u64,
        MessagePriority::VeryHigh => 40u64,
        MessagePriority::High => 80u64,
        MessagePriority::Normal => 160u64,
        MessagePriority::Low => 320u64,
        MessagePriority::VeryLow => 640u64,
        MessagePriority::Lowest => 1500u64,
        MessagePriority::Custom { resend_delay_ms } => resend_delay_ms,
    }
}

impl MessagePriority {
    pub fn resend_delay(&self) -> (r: u64)
        ensures
            r == resend_delay_spec(*self),
    {
        match self {
            MessagePriority::Highest => 20,
            MessagePriority::VeryHigh => 40,
            MessagePriority::High => 80,
            MessagePriority::Normal => 160,
            MessagePriority::Low => 320,
            MessagePriority::VeryLow => 640,
            MessagePriority::Lowest => 1500,
            MessagePriority::Custom { resend_delay_ms } => *resend_delay_ms,
        }
    }
}

impl Default for MessagePriority {
    fn default() -> (r: Self)
        ensures
            r is Normal,
    {
        MessagePriority::Normal
    }
}

/// The reliability class of a message to send.
#[derive(Debug, Copy, Clone)]
pub enum MessageType {
    /// Fire and forget: never acked, never retransmitted.
    Forgettable,
    /// Retransmitted until acknowledged or the deadline (milliseconds from
    /// the send) passes.
    KeyExpirableMessage(u64),
    /// Retransmitted until acknowledged.
    KeyMessage,
}

impl MessageType {
    /// Whether the receiver acknowledges this class at all.
    pub fn has_ack(self) -> (r: bool)
        ensures
            r == !(self is Forgettable),
    {
        match self {
            MessageType::KeyExpirableMessage(_) | MessageType::KeyMessage => true,
            MessageType::Forgettable => false,
        }
    }
}

/// Where the connection stands. The parameter of each finished status is
/// when it was entered.
#[derive(Debug, Clone, Copy, PartialEq, Eq, Structural)]
pub enum SocketStatus {
    /// A Syn went out at the given time; waiting for the SynAck.
    SynSent(u64),
    SynReceived,
    TimeoutError(u64),
    Connected,
    TerminateSent(u64),
    TerminateReceived(u64),
}

/// A finished status: no packet will ever be sent again.
pub open spec fn is_finished_spec(s: SocketStatus) -> bool {
    match s {
        SocketStatus::TimeoutError(_) => true,
        SocketStatus::TerminateSent(_) => true,
        SocketStatus::TerminateReceived(_) => true,
        _ => false,
    }
}

impl SocketStatus {
    pub fn is_connected(self) -> (r: bool)
        ensures
            r == (self is Connected),
    {
        match self {
            SocketStatus::Connected => true,
            _ => false,
        }
    }

    /// The event a freshly entered status announces, if any.
    /// `TerminateReceived` announces nothing here: the packet that caused it
    /// already did.
    pub fn event(self) -> (r: Option<SocketEvent>)
        ensures
            match self {
                SocketStatus::TimeoutError(_) => r matches Some(e) && e is Timeout,
                SocketStatus::TerminateSent(_) => r matches Some(e) && e is Ended,
                SocketStatus::Connected => r matches Some(e) && e is Connected,
                _ => r is None,
            },
    {
        match self {
            SocketStatus::TimeoutError(_) => Some(SocketEvent::Timeout),
            SocketStatus::TerminateSent(_) => Some(SocketEvent::Ended),
            SocketStatus::TerminateReceived(_) => None,
            SocketStatus::Connected => Some(SocketEvent::Connected),
            _ => None,
        }
    }

    pub fn is_finished(self) -> (r: bool)
        ensures
            r == is_finished_spec(self),
    {
        match self {
            SocketStatus::TimeoutError(_)
            | SocketStatus::TerminateSent(_)
            | SocketStatus::TerminateReceived(_) => true,
            _ => false,
        }
    }

    /// Finished, and long enough ago to be deleted permanently.
    pub fn is_finished_and_old(self, now: u64) -> (r: bool)
        ensures
            r == match self {
                SocketStatus::TimeoutError(t) => now as int >= t as int + 10_000,
                SocketStatus::TerminateSent(t) => now as int >= t as int + 10_000,
                SocketStatus::TerminateReceived(t) => now as int >= t as int + 10_000,
                _ => false,
            },
    {
        match self {
            SocketStatus::TimeoutError(t)
            | SocketStatus::TerminateSent(t)
            | SocketStatus::TerminateReceived(t) => now >= t && (now - t) / 1000 >= 10,
            _ => false,
        }
    }
}

/// The sending half of a socket: the connection status and the datagrams
/// waiting to be handed to the transport. A finished socket drops every
/// datagram instead of queueing it.
pub struct UdpSocketWrapper {
    status: SocketStatus,
    out_datagrams: Vec<Vec<u8>>,
}

impl UdpSocketWrapper {
    /// The current connection status.
    pub closed spec fn status_spec(&self) -> SocketStatus {
        self.status
    }

    /// The datagrams queued for the transport, oldest first.
    pub closed spec fn out(&self) -> Seq<Seq<u8>> {
        self.out_datagrams@.map_values(|d: Vec<u8>| d@)
    }

    /// Every queued datagram carries a checksum that matches its body.
    pub open spec fn wf(&self) -> bool {
        forall|j: int| 0 <= j < self.out().len() ==> datagram_crc_valid(#[trigger] self.out()[j])
    }

    pub fn new(status: SocketStatus) -> (r: UdpSocketWrapper)
        ensures
            r.wf(),
            r.status_spec() == status,
            r.out() == Seq::<Seq<u8>>::empty(),
    {
        let r = UdpSocketWrapper { status, out_datagrams: Vec::new() };
        proof {
            assert(r.out() =~= Seq::<Seq<u8>>::empty());
        }
        r
    }

    /// Queue one datagram for the transport, unless the connection is
    /// finished.
    pub fn send_udp_packet(&mut self, udp_packet: &UdpPacket)
        requires
            old(self).wf(),
            datagram_crc_valid(udp_packet@),
        ensures
            final(self).wf(),
            final(self).status_spec() == old(self).status_spec(),
            if is_finished_spec(old(self).status_spec()) {
                final(self).out() == old(self).out()
            } else {
                final(self).out() == old(self).out().push(udp_packet@)
            },
    {
        if !self.status.is_finished() {
            let bytes = vstd::slice::slice_to_vec(udp_packet.as_bytes());
            self.out_datagrams.push(bytes);
            proof {
                assert(self.out() =~= old(self).out().push(udp_packet@));
            }
        }
    }

    pub fn status(&self) -> (r: SocketStatus)
        ensures
            r == self.status_spec(),
    {
        self.status
    }

    pub fn set_status(&mut self, new_status: SocketStatus)
        ensures
            final(self).status_spec() == new_status,
            final(self).out() == old(self).out(),
            final(self).wf() == old(self).wf(),
    {
        self.status = new_status;
    }

    /// Hand every queued datagram out, oldest first, leaving the queue
    /// empty. Each carries a valid checksum.
    pub fn take_datagrams(&mut self) -> (r: Vec<Vec<u8>>)
        requires
            old(self).wf(),
        ensures
            final(self).wf(),
            final(self).status_spec() == old(self).status_spec(),
            final(self).out() == Seq::<Seq<u8>>::empty(),
            r@.map_values(|d: Vec<u8>| d@) == old(self).out(),
            forall|j: int| 0 <= j < r@.len() ==> datagram_crc_valid(#[trigger] r@[j]@),
    {
        let mut taken: Vec<Vec<u8>> = Vec::new();
        core::mem::swap(&mut taken, &mut self.out_datagrams);
        proof {
            assert(self.out() =~= Seq::<Seq<u8>>::empty());
            assert forall|j: int| 0 <= j < taken@.len() implies datagram_crc_valid(
                #[trigger] taken@[j]@,
            ) by {
                assert(old(self).out()[j] == taken@[j]@);
            }
        }
        taken
    }
}

/// Neither the clocks, the delays, the seq_id counter nor the tracked
/// outgoing messages changed between two socket states.
pub open spec fn core_unchanged(s0: &RUdpSocket, s1: &RUdpSocket) -> bool {
    &&& s1.next_local_seq_id_spec() == s0.next_local_seq_id_spec()
    &&& s1.cached_now_spec() == s0.cached_now_spec()
    &&& s1.last_received_spec() == s0.last_received_spec()
    &&& s1.timeout_delay_spec() == s0.timeout_delay_spec()
    &&& s1.heartbeat_delay_spec() == s0.heartbeat_delay_spec()
    &&& s1.tracked_sets() == s0.tracked_sets()
}

/// Why a socket could not be created from an incoming datagram.
#[derive(Debug)]
pub enum RUdpCreateError {
    /// The datagram was anything but a well-formed Syn.
    UnexpectedData,
}

/// One reliable-UDP connection to a single remote, driven sans transport:
/// received datagrams are fed in, datagrams to transmit are drained out,
/// and the current time in milliseconds is passed to every tick.
pub struct RUdpSocket {
    socket: UdpSocketWrapper,
    sent_data_tracker: SentDataTracker,
    packet_handler: UdpPacketHandler,
    events: Vec<SocketEvent>,
    ping_handler: PingHandler,
    next_local_seq_id: u32,
    cached_now: u64,
    last_received_message: u64,
    last_sent_message: u64,
    timeout_delay: u64,
    heartbeat_delay: u64,
}

/// An element stays in the queue when the queue is only appended to.
proof fn lemma_out_contains_preserved(out0: Seq<Seq<u8>>, out1: Seq<Seq<u8>>, x: Seq<u8>)
    requires
        out0.contains(x),
        out0.len() <= out1.len(),
        forall|j: int| 0 <= j < out0.len() ==> out1[j] == out0[j],
    ensures
        out1.contains(x),
{
    let idx = choose|idx: int| 0 <= idx < out0.len() && out0[idx] == x;
    assert(out1[idx] == x);
}

impl RUdpSocket {
    /// The connection status.
    pub closed spec fn status_spec(&self) -> SocketStatus {
        self.socket.status_spec()
    }

    /// The events not yet drained, oldest first.
    pub closed spec fn events_spec(&self) -> Seq<SocketEvent> {
        self.events@
    }

    /// The datagrams queued for the transport, oldest first.
    pub closed spec fn out_spec(&self) -> Seq<Seq<u8>> {
        self.socket.out()
    }

    pub closed spec fn next_local_seq_id_spec(&self) -> u32 {
        self.next_local_seq_id
    }

    pub closed spec fn cached_now_spec(&self) -> u64 {
        self.cached_now
    }

    /// The outgoing reliable messages still tracked for retransmission.
    pub closed spec fn tracked_sets(&self) -> Map<u32, crate::sent_data_tracker::SentDataSet> {
        self.sent_data_tracker.sets()
    }

    /// The decoded incoming messages not yet processed, oldest first.
    pub closed spec fn handler_out(&self) -> Seq<ReceivedMessage> {
        self.packet_handler.out()
    }

    /// The incoming fragment sets held, by seq_id.
    pub closed spec fn handler_pending(&self) -> Map<u32, FragmentSet> {
        self.packet_handler.pending()
    }

    /// The outstanding ping being timed, if any.
    pub closed spec fn waiting_ping_spec(&self) -> Option<(u32, u64)> {
        self.ping_handler.waiting_ping
    }

    /// When this side last queued a datagram.
    pub closed spec fn last_sent_spec(&self) -> u64 {
        self.last_sent_message
    }

    pub closed spec fn last_received_spec(&self) -> u64 {
        self.last_received_message
    }

    pub closed spec fn timeout_delay_spec(&self) -> u64 {
        self.timeout_delay
    }

    pub closed spec fn heartbeat_delay_spec(&self) -> u64 {
        self.heartbeat_delay
    }

    /// Every queued datagram is checksummed, the components are sound, and
    /// every tracked outgoing message has an already-assigned seq_id.
    pub closed spec fn wf(&self) -> bool {
        &&& self.socket.wf()
        &&& self.sent_data_tracker.wf()
        &&& self.packet_handler.wf()
        &&& forall|k: u32| #[trigger]
            self.sent_data_tracker.sets().dom().contains(k) ==> k < self.next_local_seq_id
    }

    /// A fresh client socket: status `SynSent(now)`, one Syn datagram
    /// queued.
    pub fn new_client(now: u64) -> (r: RUdpSocket)
        ensures
            r.wf(),
            r.status_spec() == SocketStatus::SynSent(now),
            r.events_spec() == Seq::<SocketEvent>::empty(),
            r.out_spec() == seq![encoded_packet(PacketModel::Syn)],
            r.next_local_seq_id_spec() == 0,
            r.cached_now_spec() == now,
            r.timeout_delay_spec() == DEFAULT_TIMEOUT_DELAY_MS,
            r.heartbeat_delay_spec() == DEFAULT_HEARTBEAT_DELAY_MS,
    {
        let mut r = RUdpSocket {
            socket: UdpSocketWrapper::new(SocketStatus::SynSent(now)),
            sent_data_tracker: SentDataTracker::new(),
            packet_handler: UdpPacketHandler::new(),
            events: Vec::new(),
            ping_handler: PingHandler::new(),
            next_local_seq_id: 0,
            cached_now: now,
            last_received_message: now,
            last_sent_message: now,
            timeout_delay: DEFAULT_TIMEOUT_DELAY_MS,
            heartbeat_delay: DEFAULT_HEARTBEAT_DELAY_MS,
        };
        r.send_syn();
        proof {
            assert(r.out_spec() =~= seq![encoded_packet(PacketModel::Syn)]);
        }
        r
    }

    /// A server-side socket for a remote whose first datagram just arrived.
    ///
    /// Succeeds exactly when that datagram decodes to a Syn; the socket is
    /// then already Connected, has announced it, and has a SynAck queued.
    pub fn new_incoming(incoming_packet: UdpPacket, now: u64) -> (r: Result<
        RUdpSocket,
        RUdpCreateError,
    >)
        ensures
            match r {
                Ok(s) => {
                    &&& parse_packet(incoming_packet@) == Ok::<PacketModel, crate::udp_packet::UdpPacketError>(
                        PacketModel::Syn,
                    )
                    &&& s.wf()
                    &&& s.status_spec() == SocketStatus::Connected
                    &&& (s.events_spec().len() == 1 && s.events_spec()[0] is Connected)
                    &&& s.out_spec() == seq![encoded_packet(PacketModel::SynAck)]
                    &&& s.next_local_seq_id_spec() == 0
                    &&& s.cached_now_spec() == now
                },
                Err(_) => !(parse_packet(incoming_packet@) == Ok::<PacketModel, crate::udp_packet::UdpPacketError>(
                    PacketModel::Syn,
                )),
            },
    {
        let is_syn = match incoming_packet.compute_packet() {
            Ok(Packet::Syn) => true,
            _ => false,
        };
        if is_syn {
            let mut r = RUdpSocket {
                socket: UdpSocketWrapper::new(SocketStatus::SynReceived),
                sent_data_tracker: SentDataTracker::new(),
                packet_handler: UdpPacketHandler::new(),
                events: Vec::new(),
                ping_handler: PingHandler::new(),
                next_local_seq_id: 0,
                cached_now: now,
                last_received_message: now,
                last_sent_message: now,
                timeout_delay: DEFAULT_TIMEOUT_DELAY_MS,
                heartbeat_delay: DEFAULT_HEARTBEAT_DELAY_MS,
            };
            r.send_synack();
            proof {
                assert(r.out_spec() =~= seq![encoded_packet(PacketModel::SynAck)]);
            }
            Ok(r)
        } else {
            Err(RUdpCreateError::UnexpectedData)
        }
    }

    /// Milliseconds of silence before the remote counts as dead.
    pub fn set_timeout_delay(&mut self, timeout_delay: u64)
        ensures
            final(self).timeout_delay_spec() == timeout_delay,
            final(self).heartbeat_delay_spec() == old(self).heartbeat_delay_spec(),
            final(self).wf() == old(self).wf(),
            final(self).status_spec() == old(self).status_spec(),
            final(self).events_spec() == old(self).events_spec(),
            final(self).out_spec() == old(self).out_spec(),
            final(self).next_local_seq_id_spec() == old(self).next_local_seq_id_spec(),
            final(self).cached_now_spec() == old(self).cached_now_spec(),
            final(self).last_received_spec() == old(self).last_received_spec(),
    {
        self.timeout_delay = timeout_delay;
    }

    /// Milliseconds of not sending before a heartbeat goes out.
    pub fn set_heartbeat_delay(&mut self, heartbeat_delay: u64)
        ensures
            final(self).heartbeat_delay_spec() == heartbeat_delay,
            final(self).timeout_delay_spec() == old(self).timeout_delay_spec(),
            final(self).wf() == old(self).wf(),
            final(self).status_spec() == old(self).status_spec(),
            final(self).events_spec() == old(self).events_spec(),
            final(self).out_spec() == old(self).out_spec(),
            final(self).next_local_seq_id_spec() == old(self).next_local_seq_id_spec(),
            final(self).cached_now_spec() == old(self).cached_now_spec(),
            final(self).last_received_spec() == old(self).last_received_spec(),
    {
        self.heartbeat_delay = heartbeat_delay;
    }

    /// All pending events, oldest first; the queue is left empty.
    pub fn drain_events(&mut self) -> (r: Vec<SocketEvent>)
        ensures
            r@ == old(self).events_spec(),
            final(self).events_spec() == Seq::<SocketEvent>::empty(),
            final(self).wf() == old(self).wf(),
            final(self).status_spec() == old(self).status_spec(),
            final(self).out_spec() == old(self).out_spec(),
    {
        let mut taken: Vec<SocketEvent> = Vec::new();
        core::mem::swap(&mut taken, &mut self.events);
        taken
    }

    /// The oldest pending event, if any.
    pub fn next_event(&mut self) -> (r: Option<SocketEvent>)
        ensures
            final(self).wf() == old(self).wf(),
            final(self).status_spec() == old(self).status_spec(),
            final(self).out_spec() == old(self).out_spec(),
            old(self).events_spec().len() == 0 ==> r is None && final(self).events_spec()
                == old(self).events_spec(),
            old(self).events_spec().len() > 0 ==> r == Some(old(self).events_spec()[0])
                && final(self).events_spec() == old(self).events_spec().skip(1),
    {
        if self.events.len() == 0 {
            None
        } else {
            Some(self.events.remove(0))
        }
    }

    /// Change status and announce what the new status announces.
    fn set_status(&mut self, status: SocketStatus)
        ensures
            core_unchanged(old(self), final(self)),
            final(self).last_sent_spec() == old(self).last_sent_spec(),
            final(self).packet_handler == old(self).packet_handler,
            final(self).ping_handler == old(self).ping_handler,
            final(self).sent_data_tracker == old(self).sent_data_tracker,
            final(self).status_spec() == status,
            final(self).out_spec() == old(self).out_spec(),
            final(self).wf() == old(self).wf(),
            final(self).cached_now_spec() == old(self).cached_now_spec(),
            final(self).last_received_spec() == old(self).last_received_spec(),
            final(self).timeout_delay_spec() == old(self).timeout_delay_spec(),
            match status {
                SocketStatus::TimeoutError(_) => final(self).events_spec()
                    == old(self).events_spec().push(SocketEvent::Timeout),
                SocketStatus::TerminateSent(_) => final(self).events_spec()
                    == old(self).events_spec().push(SocketEvent::Ended),
                SocketStatus::Connected => final(self).events_spec()
                    == old(self).events_spec().push(SocketEvent::Connected),
                _ => final(self).events_spec() == old(self).events_spec(),
            },
    {
        self.socket.set_status(status);
        match status.event() {
            Some(event) => {
                self.events.push(event);
            },
            None => {},
        }
    }

    /// Queue one datagram (dropped silently if the connection is finished)
    /// and refresh the send clock.
    fn send_udp_packet(&mut self, udp_packet: &UdpPacket)
        requires
            old(self).wf(),
            datagram_crc_valid(udp_packet@),
        ensures
            core_unchanged(old(self), final(self)),
            final(self).handler_out() == old(self).handler_out(),
            final(self).handler_pending() == old(self).handler_pending(),
            final(self).waiting_ping_spec() == old(self).waiting_ping_spec(),
            final(self).current_ping_spec() == old(self).current_ping_spec(),
            final(self).wf(),
            final(self).status_spec() == old(self).status_spec(),
            final(self).events_spec() == old(self).events_spec(),
            if is_finished_spec(old(self).status_spec()) {
                final(self).out_spec() == old(self).out_spec()
            } else {
                final(self).out_spec() == old(self).out_spec().push(udp_packet@)
            },
    {
        self.last_sent_message = self.cached_now;
        self.socket.send_udp_packet(udp_packet);
    }

    fn send_syn(&mut self)
        requires
            old(self).wf(),
        ensures
            core_unchanged(old(self), final(self)),
            final(self).handler_out() == old(self).handler_out(),
            final(self).handler_pending() == old(self).handler_pending(),
            final(self).waiting_ping_spec() == old(self).waiting_ping_spec(),
            final(self).current_ping_spec() == old(self).current_ping_spec(),
            final(self).wf(),
            final(self).status_spec() == old(self).status_spec(),
            final(self).events_spec() == old(self).events_spec(),
            if is_finished_spec(old(self).status_spec()) {
                final(self).out_spec() == old(self).out_spec()
            } else {
                final(self).out_spec() == old(self).out_spec().push(
                    encoded_packet(PacketModel::Syn),
                )
            },
    {
        let p = Packet::Syn;
        let udp_packet = UdpPacket::from_packet(&p);
        self.send_udp_packet(&udp_packet);
    }

    /// Announce the connection and answer the Syn.
    fn send_synack(&mut self)
        requires
            old(self).wf(),
            !is_finished_spec(old(self).status_spec()),
        ensures
            core_unchanged(old(self), final(self)),
            final(self).handler_out() == old(self).handler_out(),
            final(self).handler_pending() == old(self).handler_pending(),
            final(self).waiting_ping_spec() == old(self).waiting_ping_spec(),
            final(self).current_ping_spec() == old(self).current_ping_spec(),
            final(self).wf(),
            final(self).status_spec() == SocketStatus::Connected,
            final(self).events_spec() == old(self).events_spec().push(SocketEvent::Connected),
            final(self).out_spec() == old(self).out_spec().push(
                encoded_packet(PacketModel::SynAck),
            ),
    {
        let p = Packet::SynAck;
        let udp_packet = UdpPacket::from_packet(&p);
        self.set_status(SocketStatus::Connected);
        self.send_udp_packet(&udp_packet);
    }

    fn send_ack(&mut self, seq_id: u32, ack: Ack)
        requires
            old(self).wf(),
        ensures
            core_unchanged(old(self), final(self)),
            final(self).handler_out() == old(self).handler_out(),
            final(self).handler_pending() == old(self).handler_pending(),
            final(self).waiting_ping_spec() == old(self).waiting_ping_spec(),
            final(self).current_ping_spec() == old(self).current_ping_spec(),
            final(self).wf(),
            final(self).status_spec() == old(self).status_spec(),
            final(self).events_spec() == old(self).events_spec(),
            if is_finished_spec(old(self).status_spec()) {
                final(self).out_spec() == old(self).out_spec()
            } else {
                final(self).out_spec() == old(self).out_spec().push(
                    encoded_packet(PacketModel::Ack { seq_id, data: ack@ }),
                )
            },
    {
        let p = Packet::Ack(seq_id, ack.into_inner());
        let udp_packet = UdpPacket::from_packet(&p);
        self.send_udp_packet(&udp_packet);
    }

    /// Tell the remote this side has nothing more to send (without closing
    /// this socket: it can still receive).
    pub fn send_end(&mut self)
        requires
            old(self).wf(),
        ensures
            core_unchanged(old(self), final(self)),
            final(self).wf(),
            final(self).status_spec() == old(self).status_spec(),
            final(self).events_spec() == old(self).events_spec(),
            ({
                let last = if old(self).next_local_seq_id_spec() > 0 {
                    (old(self).next_local_seq_id_spec() - 1) as u32
                } else {
                    0u32
                };
                if is_finished_spec(old(self).status_spec()) {
                    final(self).out_spec() == old(self).out_spec()
                } else {
                    final(self).out_spec() == old(self).out_spec().push(
                        encoded_packet(PacketModel::End { last_seq_id: last }),
                    )
                }
            }),
    {
        let last: u32 = if self.next_local_seq_id > 0 {
            self.next_local_seq_id - 1
        } else {
            0
        };
        let p = Packet::End(last);
        let udp_packet = UdpPacket::from_packet(&p);
        self.send_udp_packet(&udp_packet);
    }

    /// End the connection on purpose: send End, move to `TerminateSent`,
    /// and announce `Ended`. Nothing will be sent afterwards.
    pub fn terminate(&mut self, now: u64)
        requires
            old(self).wf(),
        ensures
            core_unchanged(old(self), final(self)),
            final(self).wf(),
            final(self).status_spec() == SocketStatus::TerminateSent(now),
            final(self).events_spec() == old(self).events_spec().push(SocketEvent::Ended),
            ({
                let last = if old(self).next_local_seq_id_spec() > 0 {
                    (old(self).next_local_seq_id_spec() - 1) as u32
                } else {
                    0u32
                };
                if is_finished_spec(old(self).status_spec()) {
                    final(self).out_spec() == old(self).out_spec()
                } else {
                    final(self).out_spec() == old(self).out_spec().push(
                        encoded_packet(PacketModel::End { last_seq_id: last }),
                    )
                }
            }),
    {
        self.send_end();
        self.set_status(SocketStatus::TerminateSent(now));
    }

    fn send_heartbeat(&mut self)
        requires
            old(self).wf(),
        ensures
            core_unchanged(old(self), final(self)),
            final(self).handler_out() == old(self).handler_out(),
            final(self).handler_pending() == old(self).handler_pending(),
            final(self).waiting_ping_spec() == old(self).waiting_ping_spec(),
            final(self).current_ping_spec() == old(self).current_ping_spec(),
            final(self).wf(),
            final(self).status_spec() == old(self).status_spec(),
            final(self).events_spec() == old(self).events_spec(),
            if is_finished_spec(old(self).status_spec()) {
                final(self).out_spec() == old(self).out_spec()
            } else {
                final(self).out_spec() == old(self).out_spec().push(
                    encoded_packet(PacketModel::Heartbeat),
                )
            },
    {
        let p = Packet::Heartbeat;
        let udp_packet = UdpPacket::from_packet(&p);
        self.send_udp_packet(&udp_packet);
    }

    /// A best-effort Abort notice, for dropping the connection abnormally.
    pub fn send_abort(&mut self)
        requires
            old(self).wf(),
        ensures
            core_unchanged(old(self), final(self)),
            final(self).wf(),
            final(self).status_spec() == old(self).status_spec(),
            final(self).events_spec() == old(self).events_spec(),
            ({
                let last = if old(self).next_local_seq_id_spec() > 0 {
                    (old(self).next_local_seq_id_spec() - 1) as u32
                } else {
                    0u32
                };
                if is_finished_spec(old(self).status_spec()) {
                    final(self).out_spec() == old(self).out_spec()
                } else {
                    final(self).out_spec() == old(self).out_spec().push(
                        encoded_packet(PacketModel::Abort { last_seq_id: last }),
                    )
                }
            }),
    {
        let last: u32 = if self.next_local_seq_id > 0 {
            self.next_local_seq_id - 1
        } else {
            0
        };
        let p = Packet::Abort(last);
        let udp_packet = UdpPacket::from_packet(&p);
        self.send_udp_packet(&udp_packet);
    }

    /// Send one message to the remote, fragmented and (unless Forgettable)
    /// tracked for retransmission. Returns the assigned seq_id.
    ///
    /// Fails exactly when the payload is empty or needs more than 256
    /// fragments; nothing is sent or tracked then.
    pub fn send_data(
        &mut self,
        data: Vec<u8>,
        message_type: MessageType,
        message_priority: MessagePriority,
    ) -> (r: Result<u32, ()>)
        requires
            old(self).wf(),
            old(self).next_local_seq_id_spec() < u32::MAX,
        ensures
            final(self).wf(),
            final(self).status_spec() == old(self).status_spec(),
            final(self).events_spec() == old(self).events_spec(),
            match r {
                Err(_) => (data@.len() == 0 || data@.len()
                    > crate::consts::MAX_FRAGMENTS_IN_MESSAGE
                    * crate::consts::MAX_FRAGMENT_MESSAGE_SIZE) && final(self).out_spec() == old(
                    self,
                ).out_spec() && final(self).next_local_seq_id_spec() == old(
                    self,
                ).next_local_seq_id_spec() && final(self).waiting_ping_spec() == old(
                    self,
                ).waiting_ping_spec() && final(self).current_ping_spec() == old(
                    self,
                ).current_ping_spec(),
                Ok(seq_id) => {
                    &&& seq_id == old(self).next_local_seq_id_spec()
                    &&& final(self).next_local_seq_id_spec() == old(self).next_local_seq_id_spec()
                        + 1
                    // a ping timing entry is recorded exactly for acked types
                    &&& final(self).current_ping_spec() == old(self).current_ping_spec()
                    &&& (if message_type is Forgettable {
                        final(self).waiting_ping_spec() == old(self).waiting_ping_spec()
                    } else {
                        match old(self).waiting_ping_spec() {
                            Some((_, t)) => if old(self).cached_now_spec() as int >= t as int
                                + crate::ping_handler::PING_TIMEOUT_MS as int {
                                final(self).waiting_ping_spec() == Some(
                                    (seq_id, old(self).cached_now_spec()),
                                )
                            } else {
                                final(self).waiting_ping_spec() == old(self).waiting_ping_spec()
                            },
                            None => final(self).waiting_ping_spec() == Some(
                                (seq_id, old(self).cached_now_spec()),
                            ),
                        }
                    })
                    &&& (if message_type is Forgettable {
                        final(self).tracked_sets() == old(self).tracked_sets()
                    } else {
                        final(self).tracked_sets().dom() == old(self).tracked_sets().dom().insert(seq_id)
                    })
                    &&& (if is_finished_spec(old(self).status_spec()) {
                        final(self).out_spec() == old(self).out_spec()
                    } else {
                        final(self).out_spec() == old(self).out_spec()
                            + crate::sent_data_tracker::frag_datagrams_of_ids(
                            data@,
                            seq_id,
                            crate::sent_data_tracker::meta_of_expiration(
                                crate::sent_data_tracker::expiration_of_type(
                                    message_type,
                                    old(self).cached_now_spec(),
                                ),
                            ),
                            (crate::fragment::chunk_count(data@.len() as int) - 1) as u8,
                            crate::sent_data_tracker::all_frag_ids(
                                (crate::fragment::chunk_count(data@.len() as int) - 1) as u8,
                            ),
                        )
                    })
                },
            },
    {
        if data.len() == 0 || data.len() > crate::consts::MAX_FRAGMENTS_IN_MESSAGE
            * crate::consts::MAX_FRAGMENT_MESSAGE_SIZE {
            return Err(());
        }
        let seq_id = self.next_local_seq_id;
        if message_type.has_ack() {
            self.ping_handler.ping(seq_id, self.cached_now);
        }
        let cached_now = self.cached_now;
        match self.sent_data_tracker.send_data(
            seq_id,
            data,
            cached_now,
            message_type,
            message_priority,
            &mut self.socket,
        ) {
            Ok(_) => {},
            Err(_) => {
                proof {
                    assert(false);
                }
                return Err(());
            },
        }
        self.next_local_seq_id = seq_id + 1;
        Ok(seq_id)
    }

    /// Feed one received datagram in, to be decoded and processed by the
    /// next tick.
    pub fn add_received_packet(&mut self, udp_packet: UdpPacket)
        requires
            old(self).wf(),
        ensures
            final(self).wf(),
            final(self).status_spec() == old(self).status_spec(),
            final(self).events_spec() == old(self).events_spec(),
            final(self).out_spec() == old(self).out_spec(),
            final(self).last_received_spec() == old(self).cached_now_spec(),
            final(self).cached_now_spec() == old(self).cached_now_spec(),
            final(self).next_local_seq_id_spec() == old(self).next_local_seq_id_spec(),
            final(self).timeout_delay_spec() == old(self).timeout_delay_spec(),
            final(self).heartbeat_delay_spec() == old(self).heartbeat_delay_spec(),
            final(self).tracked_sets() == old(self).tracked_sets(),
            final(self).waiting_ping_spec() == old(self).waiting_ping_spec(),
            final(self).current_ping_spec() == old(self).current_ping_spec(),
            final(self).handler_out().len() >= old(self).handler_out().len(),
            final(self).handler_out().take(old(self).handler_out().len() as int) == old(
                self,
            ).handler_out(),
            // the decoded message joins the queue exactly as the datagram parses
            receive_step(
                old(self).handler_out(),
                final(self).handler_out(),
                old(self).handler_pending(),
                final(self).handler_pending(),
                udp_packet@,
            ),
    {
        self.last_received_message = self.cached_now;
        let cached_now = self.cached_now;
        self.packet_handler.add_received_packet(udp_packet, cached_now);
    }

    /// Process the oldest decoded message. An Ack feeds the tracker and
    /// answers the ping clock; a SynAck while connecting completes the
    /// handshake and announces it; End and Abort finish the connection,
    /// yielding the Ended or Aborted event; Data yields the payload; Syn,
    /// Heartbeat and undecodable datagrams are noted and dropped.
    fn next_packet_event(&mut self) -> (r: Option<SocketEvent>)
        requires
            old(self).wf(),
            old(self).handler_out().len() > 0,
        ensures
            final(self).wf(),
            final(self).out_spec() == old(self).out_spec(),
            final(self).cached_now_spec() == old(self).cached_now_spec(),
            final(self).last_received_spec() == old(self).last_received_spec(),
            final(self).last_sent_spec() == old(self).last_sent_spec(),
            final(self).timeout_delay_spec() == old(self).timeout_delay_spec(),
            final(self).heartbeat_delay_spec() == old(self).heartbeat_delay_spec(),
            final(self).next_local_seq_id_spec() == old(self).next_local_seq_id_spec(),
            final(self).handler_out() == old(self).handler_out().skip(1),
            final(self).handler_pending() == old(self).handler_pending(),
            is_finished_spec(old(self).status_spec()) ==> is_finished_spec(
                final(self).status_spec(),
            ),
            final(self).events_spec().take(old(self).events_spec().len() as int) == old(
                self,
            ).events_spec(),
            match old(self).handler_out()[0] {
                ReceivedMessage::End(_) => {
                    &&& final(self).status_spec() == SocketStatus::TerminateReceived(
                        old(self).cached_now_spec(),
                    )
                    &&& (r matches Some(e) && e is Ended)
                    &&& final(self).events_spec() == old(self).events_spec()
                    &&& final(self).tracked_sets() == old(self).tracked_sets()
                    &&& final(self).waiting_ping_spec() == old(self).waiting_ping_spec()
                    &&& final(self).current_ping_spec() == old(self).current_ping_spec()
                },
                ReceivedMessage::Abort(_) => {
                    &&& final(self).status_spec() == SocketStatus::TerminateReceived(
                        old(self).cached_now_spec(),
                    )
                    &&& (r matches Some(e) && e is Aborted)
                    &&& final(self).events_spec() == old(self).events_spec()
                    &&& final(self).tracked_sets() == old(self).tracked_sets()
                    &&& final(self).waiting_ping_spec() == old(self).waiting_ping_spec()
                    &&& final(self).current_ping_spec() == old(self).current_ping_spec()
                },
                ReceivedMessage::Data(_, d) => {
                    &&& final(self).status_spec() == old(self).status_spec()
                    &&& (r matches Some(e) && (e matches SocketEvent::Data(p) && p@ == d@))
                    &&& final(self).events_spec() == old(self).events_spec()
                    &&& final(self).tracked_sets() == old(self).tracked_sets()
                    &&& final(self).waiting_ping_spec() == old(self).waiting_ping_spec()
                    &&& final(self).current_ping_spec() == old(self).current_ping_spec()
                },
                ReceivedMessage::Ack(s, d) => {
                    &&& r is None
                    &&& final(self).status_spec() == old(self).status_spec()
                    &&& final(self).events_spec() == old(self).events_spec()
                    // the ping clock is answered when this ack is the one timed
                    &&& (match old(self).waiting_ping_spec() {
                        Some((sid, t)) => if sid == s {
                            final(self).waiting_ping_spec() is None
                                && final(self).current_ping_spec() == Some(
                                ping_ms_spec(t, old(self).cached_now_spec()),
                            )
                        } else {
                            final(self).waiting_ping_spec() == old(self).waiting_ping_spec()
                                && final(self).current_ping_spec() == old(self).current_ping_spec()
                        },
                        None => final(self).waiting_ping_spec() == old(self).waiting_ping_spec()
                            && final(self).current_ping_spec() == old(self).current_ping_spec(),
                    })
                    // the tracker stores the bitmap for a tracked message
                    &&& (if old(self).tracked_sets().dom().contains(s) {
                        &&& final(self).tracked_sets().dom() == old(self).tracked_sets().dom()
                        &&& (forall|k2: u32|
                            k2 != s && old(self).tracked_sets().dom().contains(k2)
                                ==> #[trigger] final(self).tracked_sets()[k2]
                                == old(self).tracked_sets()[k2])
                        &&& ({
                            let s0 = old(self).tracked_sets()[s];
                            let s1 = final(self).tracked_sets()[s];
                            &&& s1.data@ == s0.data@
                            &&& s1.frag_total == s0.frag_total
                            &&& s1.expiration_type == s0.expiration_type
                            &&& s1.last_sent_packet == s0.last_sent_packet
                            &&& s1.complete_since == s0.complete_since
                            &&& s1.message_priority == s0.message_priority
                            &&& (s1.last_received_ack matches Some((t, a)) && t == old(self).cached_now_spec()
                                && a@ == d@)
                            &&& s1.unanswered_ack == (match s0.unanswered_ack {
                                Some((oldest, _)) => Some((oldest, old(self).cached_now_spec())),
                                None => Some(
                                    (old(self).cached_now_spec(), old(self).cached_now_spec()),
                                ),
                            })
                        })
                    } else {
                        final(self).tracked_sets() == old(self).tracked_sets()
                    })
                },
                ReceivedMessage::SynAck => {
                    &&& r is None
                    &&& final(self).tracked_sets() == old(self).tracked_sets()
                    &&& final(self).waiting_ping_spec() == old(self).waiting_ping_spec()
                    &&& final(self).current_ping_spec() == old(self).current_ping_spec()
                    &&& (if old(self).status_spec() matches SocketStatus::SynSent(_) {
                        final(self).status_spec() == SocketStatus::Connected
                            && final(self).events_spec() == old(self).events_spec().push(
                            SocketEvent::Connected,
                        )
                    } else {
                        final(self).status_spec() == old(self).status_spec()
                            && final(self).events_spec() == old(self).events_spec()
                    })
                },
                ReceivedMessage::Syn => {
                    &&& r is None
                    &&& final(self).status_spec() == old(self).status_spec()
                    &&& final(self).events_spec() == old(self).events_spec()
                    &&& final(self).tracked_sets() == old(self).tracked_sets()
                    &&& final(self).waiting_ping_spec() == old(self).waiting_ping_spec()
                    &&& final(self).current_ping_spec() == old(self).current_ping_spec()
                },
                ReceivedMessage::Heartbeat => {
                    &&& r is None
                    &&& final(self).status_spec() == old(self).status_spec()
                    &&& final(self).events_spec() == old(self).events_spec()
                    &&& final(self).tracked_sets() == old(self).tracked_sets()
                    &&& final(self).waiting_ping_spec() == old(self).waiting_ping_spec()
                    &&& final(self).current_ping_spec() == old(self).current_ping_spec()
                },
                ReceivedMessage::Raw(_) => {
                    &&& r is None
                    &&& final(self).status_spec() == old(self).status_spec()
                    &&& final(self).events_spec() == old(self).events_spec()
                    &&& final(self).tracked_sets() == old(self).tracked_sets()
                    &&& final(self).waiting_ping_spec() == old(self).waiting_ping_spec()
                    &&& final(self).current_ping_spec() == old(self).current_ping_spec()
                },
            },
    {
        let msg = match self.packet_handler.next_received_message() {
            Some(m) => m,
            None => {
                proof {
                    assert(false);
                }
                return None;
            },
        };
        match msg {
            ReceivedMessage::Abort(_last_seq_id) => {
                let now = self.cached_now;
                self.set_status(SocketStatus::TerminateReceived(now));
                Some(SocketEvent::Aborted)
            },
            ReceivedMessage::Ack(seq_id, data) => {
                let now = self.cached_now;
                self.ping_handler.pong(seq_id, now);
                self.sent_data_tracker.receive_ack(seq_id, data, now);
                None
            },
            ReceivedMessage::Data(_seq_id, data) => Some(SocketEvent::Data(data)),
            ReceivedMessage::End(_last_seq_id) => {
                let now = self.cached_now;
                self.set_status(SocketStatus::TerminateReceived(now));
                Some(SocketEvent::Ended)
            },
            ReceivedMessage::Heartbeat => None,
            ReceivedMessage::SynAck => {
                let is_syn_sent = match self.socket.status() {
                    SocketStatus::SynSent(_) => true,
                    _ => false,
                };
                if is_syn_sent {
                    self.set_status(SocketStatus::Connected);
                }
                None
            },
            ReceivedMessage::Syn => None,
            ReceivedMessage::Raw(_bytes) => None,
        }
    }

    /// The measured round trip to the remote, in milliseconds, once known.
    pub closed spec fn current_ping_spec(&self) -> Option<u32> {
        self.ping_handler.current_ping
    }

    /// The measured round trip to the remote, in milliseconds, once known.
    pub fn ping(&self) -> (r: Option<u32>)
        ensures
            r == self.current_ping_spec(),
    {
        self.ping_handler.current_ping_ms()
    }

    /// Refresh the cached clock; every action of the coming tick uses this
    /// time.
    pub fn update_cached_now(&mut self, now: u64)
        ensures
            final(self).wf() == old(self).wf(),
            final(self).cached_now_spec() == now,
            final(self).last_sent_spec() == old(self).last_sent_spec(),
            final(self).handler_out() == old(self).handler_out(),
            final(self).handler_pending() == old(self).handler_pending(),
            final(self).waiting_ping_spec() == old(self).waiting_ping_spec(),
            final(self).current_ping_spec() == old(self).current_ping_spec(),
            final(self).status_spec() == old(self).status_spec(),
            final(self).events_spec() == old(self).events_spec(),
            final(self).out_spec() == old(self).out_spec(),
            final(self).last_received_spec() == old(self).last_received_spec(),
            final(self).timeout_delay_spec() == old(self).timeout_delay_spec(),
            final(self).heartbeat_delay_spec() == old(self).heartbeat_delay_spec(),
            final(self).next_local_seq_id_spec() == old(self).next_local_seq_id_spec(),
            final(self).tracked_sets() == old(self).tracked_sets(),
    {
        self.cached_now = now;
    }

    /// One scheduling turn over everything already received: drain decoded
    /// messages into events, detect a timeout, send the owed acks, keep the
    /// connection warm or retry the handshake, and retransmit tracked
    /// messages.
    ///
    /// A finished socket stays finished and sends nothing; a socket whose
    /// remote has been silent for the whole timeout delay ends this turn in
    /// a finished status. The clauses below spell the turn's work out for a
    /// socket whose message queue was already drained (`quiet`): the
    /// timeout transition and its single event, the acks owed by the
    /// combiner, the heartbeat, the Syn retry, and the tracker's due
    /// retransmissions.
    pub(crate) fn inner_tick(&mut self)
        requires
            old(self).wf(),
        ensures
            final(self).wf(),
            old(self).cached_now_spec() as int >= old(self).last_received_spec() as int + old(
                self,
            ).timeout_delay_spec() as int ==> is_finished_spec(final(self).status_spec()),
            final(self).cached_now_spec() == old(self).cached_now_spec(),
            final(self).last_received_spec() == old(self).last_received_spec(),
            final(self).timeout_delay_spec() == old(self).timeout_delay_spec(),
            final(self).heartbeat_delay_spec() == old(self).heartbeat_delay_spec(),
            final(self).next_local_seq_id_spec() == old(self).next_local_seq_id_spec(),
            is_finished_spec(old(self).status_spec()) ==> (is_finished_spec(
                final(self).status_spec(),
            ) && final(self).out_spec() == old(self).out_spec()),
            final(self).events_spec().len() >= old(self).events_spec().len(),
            final(self).events_spec().take(old(self).events_spec().len() as int) == old(
                self,
            ).events_spec(),
            ({
                let quiet = old(self).handler_out().len() == 0;
                let now = old(self).cached_now_spec();
                let timed_out = now as int >= old(self).last_received_spec() as int + old(
                    self,
                ).timeout_delay_spec() as int;
                // the timeout fires exactly once, with its event
                &&& (quiet && timed_out && !is_finished_spec(old(self).status_spec()) ==> final(self).status_spec() == SocketStatus::TimeoutError(now) && final(self).events_spec()
                    == old(self).events_spec().push(SocketEvent::Timeout))
                // every ack the combiner owes goes out
                &&& (quiet && !timed_out && !is_finished_spec(old(self).status_spec())
                    ==> forall|k: u32| #[trigger]
                    old(self).handler_pending().dom().contains(k) && !is_stale_spec(
                        old(self).handler_pending()[k],
                        now,
                    ) && ack_due(old(self).handler_pending()[k], now) ==> exists|bytes: Seq<u8>|
                        final(self).out_spec().contains(
                            encoded_packet(PacketModel::Ack { seq_id: k, data: bytes }),
                        ) && ack_bits_for(old(self).handler_pending()[k], bytes))
                // the heartbeat keeps a quiet connection warm
                &&& (quiet && !timed_out && old(self).status_spec() is Connected && now as int
                    > old(self).last_sent_spec() as int + old(self).heartbeat_delay_spec() as int
                    && (forall|k: u32| #[trigger]
                    old(self).handler_pending().dom().contains(k) ==> !(!is_stale_spec(
                        old(self).handler_pending()[k],
                        now,
                    ) && ack_due(old(self).handler_pending()[k], now))) ==> final(self).out_spec().contains(encoded_packet(PacketModel::Heartbeat)))
                // the Syn is retried while connecting
                &&& (quiet && !timed_out && (old(self).status_spec() matches SocketStatus::SynSent(
                    t,
                ) && now as int >= t as int + SYN_RESEND_DELAY_MS as int) ==> final(self).out_spec().contains(encoded_packet(PacketModel::Syn)) && final(self).status_spec() == SocketStatus::SynSent(now))
                // every fragment the tracker owes a resend goes out
                &&& (quiet && !timed_out && !is_finished_spec(old(self).status_spec())
                    ==> forall|k: u32, j: int|
                    (#[trigger] old(self).tracked_sets().dom().contains(k)) && !tick_removed(
                        old(self).tracked_sets()[k],
                        now,
                    ) && old(self).tracked_sets()[k].complete_since is None && resend_due_spec(
                        old(self).tracked_sets()[k],
                        now,
                    ) && 0 <= j < resend_ids_spec(old(self).tracked_sets()[k]).len() ==> final(self).out_spec().contains(
                        #[trigger] frag_datagram(
                            old(self).tracked_sets()[k].data@,
                            k,
                            meta_of_expiration(Some(old(self).tracked_sets()[k].expiration_type)),
                            old(self).tracked_sets()[k].frag_total,
                            resend_ids_spec(old(self).tracked_sets()[k])[j] as int,
                        ),
                    ))
            }),
    {
        let ghost quiet = old(self).handler_out().len() == 0;
        let cached_now = self.cached_now;
        let acks_to_send = self.packet_handler.tick(cached_now);
        let ghost gacks = acks_to_send@;
        while self.packet_handler.has_messages()
            invariant
                self.wf(),
                self.cached_now_spec() == old(self).cached_now_spec(),
                self.last_received_spec() == old(self).last_received_spec(),
                self.timeout_delay_spec() == old(self).timeout_delay_spec(),
                self.heartbeat_delay_spec() == old(self).heartbeat_delay_spec(),
                self.next_local_seq_id_spec() == old(self).next_local_seq_id_spec(),
                self.out_spec() == old(self).out_spec(),
                is_finished_spec(old(self).status_spec()) ==> is_finished_spec(self.status_spec()),
                self.events_spec().len() >= old(self).events_spec().len(),
                self.events_spec().take(old(self).events_spec().len() as int) == old(
                    self,
                ).events_spec(),
                quiet == (old(self).handler_out().len() == 0),
                quiet ==> (self.status_spec() == old(self).status_spec() && self.events_spec()
                    == old(self).events_spec() && self.tracked_sets() == old(self).tracked_sets()
                    && self.waiting_ping_spec() == old(self).waiting_ping_spec()
                    && self.current_ping_spec() == old(self).current_ping_spec()
                    && self.last_sent_spec() == old(self).last_sent_spec()
                    && self.handler_out().len() == 0),
            decreases self.packet_handler.out().len(),
        {
            let socket_event = self.next_packet_event();
            match socket_event {
                Some(e) => {
                    self.events.push(e);
                    proof {
                        assert(self.events_spec().take(old(self).events_spec().len() as int) =~= old(
                            self,
                        ).events_spec());
                    }
                },
                None => {},
            }
        }
        let timed_out = {
            let lr = self.last_received_message;
            let td = self.timeout_delay;
            cached_now >= lr && cached_now - lr >= td
        };
        if timed_out && !self.socket.status().is_finished() {
            self.set_status(SocketStatus::TimeoutError(cached_now));
            proof {
                assert(self.events_spec().take(old(self).events_spec().len() as int) =~= old(
                    self,
                ).events_spec());
            }
        }
        let ghost status_checked = self.status_spec();
        let ghost events_checked = self.events_spec();
        let ghost out_checked = self.out_spec();
        let mut acks = acks_to_send;
        while acks.len() > 0
            invariant
                self.wf(),
                self.cached_now_spec() == old(self).cached_now_spec(),
                self.last_received_spec() == old(self).last_received_spec(),
                self.timeout_delay_spec() == old(self).timeout_delay_spec(),
                self.heartbeat_delay_spec() == old(self).heartbeat_delay_spec(),
                self.next_local_seq_id_spec() == old(self).next_local_seq_id_spec(),
                self.status_spec() == status_checked,
                self.events_spec() == events_checked,
                quiet ==> (self.tracked_sets() == old(self).tracked_sets()
                    && self.waiting_ping_spec() == old(self).waiting_ping_spec()
                    && self.current_ping_spec() == old(self).current_ping_spec()),
                acks@.len() <= gacks.len(),
                acks@ == gacks.skip(gacks.len() - acks@.len()),
                out_checked.len() <= self.out_spec().len(),
                forall|j: int|
                    0 <= j < out_checked.len() ==> #[trigger] self.out_spec()[j] == out_checked[j],
                is_finished_spec(status_checked) ==> self.out_spec() == out_checked,
                acks@.len() == gacks.len() ==> (self.out_spec() == out_checked && (quiet
                    ==> self.last_sent_spec() == old(self).last_sent_spec())),
                !is_finished_spec(status_checked) ==> forall|j: int|
                    0 <= j < gacks.len() - acks@.len() ==> self.out_spec().contains(
                        #[trigger] encoded_packet(
                            PacketModel::Ack { seq_id: gacks[j].0, data: gacks[j].1@ },
                        ),
                    ),
            decreases acks@.len(),
        {
            let ghost acks_before = acks@;
            let ghost out_before_ack = self.out_spec();
            let pair = acks.remove(0);
            self.send_ack(pair.0, pair.1);
            proof {
                assert(acks@ =~= gacks.skip(gacks.len() - acks@.len()));
                assert(pair == gacks[gacks.len() - acks_before.len() as int]);
                if !is_finished_spec(status_checked) {
                    assert forall|j: int|
                        0 <= j < gacks.len() - acks@.len() implies self.out_spec().contains(
                        #[trigger] encoded_packet(
                            PacketModel::Ack { seq_id: gacks[j].0, data: gacks[j].1@ },
                        ),
                    ) by {
                        let x = encoded_packet(
                            PacketModel::Ack { seq_id: gacks[j].0, data: gacks[j].1@ },
                        );
                        if j == gacks.len() - acks_before.len() {
                            assert(self.out_spec() == out_before_ack.push(x));
                            assert(self.out_spec()[self.out_spec().len() - 1] == x);
                        } else {
                            lemma_out_contains_preserved(out_before_ack, self.out_spec(), x);
                        }
                    }
                }
            }
        }
        let ghost out_acked = self.out_spec();
        if self.socket.status().is_connected() {
            let ls = self.last_sent_message;
            let hb = self.heartbeat_delay;
            if cached_now >= ls && cached_now - ls > hb {
                self.send_heartbeat();
            }
        } else {
            let syn_sent_at = match self.socket.status() {
                SocketStatus::SynSent(t) => Some(t),
                _ => None,
            };
            match syn_sent_at {
                Some(last_sent) => {
                    if cached_now >= last_sent && cached_now - last_sent >= SYN_RESEND_DELAY_MS {
                        self.send_syn();
                        self.set_status(SocketStatus::SynSent(cached_now));
                    }
                },
                None => {},
            }
        }
        let ghost out_warm = self.out_spec();
        self.sent_data_tracker.next_tick(cached_now, &mut self.socket);
        proof {
            assert(self.events_spec().take(old(self).events_spec().len() as int) =~= old(
                self,
            ).events_spec());
            let now = old(self).cached_now_spec();
            let timed0 = now as int >= old(self).last_received_spec() as int + old(
                self,
            ).timeout_delay_spec() as int;
            // the heartbeat/syn stage only appended, the tracker preserved
            // the prefix: anything queued by the ack stage is still there
            assert(out_acked.len() <= out_warm.len());
            assert forall|j: int| 0 <= j < out_acked.len() implies out_warm[j] == out_acked[j] by {}
            if quiet && !timed0 && !is_finished_spec(old(self).status_spec()) {
                assert forall|k: u32| #[trigger]
                    old(self).handler_pending().dom().contains(k) && !is_stale_spec(
                        old(self).handler_pending()[k],
                        now,
                    ) && ack_due(old(self).handler_pending()[k], now) implies exists|bytes: Seq<u8>|
                    self.out_spec().contains(
                        encoded_packet(PacketModel::Ack { seq_id: k, data: bytes }),
                    ) && ack_bits_for(old(self).handler_pending()[k], bytes) by {
                    let j = choose|j: int| 0 <= j < gacks.len() && (#[trigger] gacks[j]).0 == k;
                    let x = encoded_packet(
                        PacketModel::Ack { seq_id: gacks[j].0, data: gacks[j].1@ },
                    );
                    assert(out_acked.contains(x));
                    lemma_out_contains_preserved(out_acked, out_warm, x);
                    lemma_out_contains_preserved(out_warm, self.out_spec(), x);
                    assert(ack_bits_for(old(self).handler_pending()[k], gacks[j].1@));
                }
            }
            if quiet && !timed0 && (old(self).status_spec() matches SocketStatus::SynSent(t)
                && now as int >= t as int + SYN_RESEND_DELAY_MS as int) {
                let x = encoded_packet(PacketModel::Syn);
                assert(out_warm[out_warm.len() - 1] == x);
                assert(out_warm.contains(x));
                lemma_out_contains_preserved(out_warm, self.out_spec(), x);
            }
            if quiet && !timed0 && old(self).status_spec() is Connected && now as int > old(
                self,
            ).last_sent_spec() as int + old(self).heartbeat_delay_spec() as int && (forall|k: u32|
                #[trigger] old(self).handler_pending().dom().contains(k) ==> !(!is_stale_spec(
                old(self).handler_pending()[k],
                now,
            ) && ack_due(old(self).handler_pending()[k], now))) {
                assert(gacks.len() == 0) by {
                    if gacks.len() > 0 {
                        assert(old(self).handler_pending().dom().contains(gacks[0].0));
                    }
                }
                let x = encoded_packet(PacketModel::Heartbeat);
                assert(out_warm[out_warm.len() - 1] == x);
                assert(out_warm.contains(x));
                lemma_out_contains_preserved(out_warm, self.out_spec(), x);
            }
        }
    }

    /// One full tick at the given time: everything `inner_tick` promises,
    /// at `now`. A remote silent for the whole timeout delay leaves the
    /// socket finished by the end of it.
    pub fn next_tick(&mut self, now: u64)
        requires
            old(self).wf(),
        ensures
            final(self).wf(),
            final(self).cached_now_spec() == now,
            now as int >= old(self).last_received_spec() as int + old(
                self,
            ).timeout_delay_spec() as int ==> is_finished_spec(final(self).status_spec()),
            ({
                let quiet = old(self).handler_out().len() == 0;
                let timed_out = now as int >= old(self).last_received_spec() as int + old(
                    self,
                ).timeout_delay_spec() as int;
                &&& (quiet && timed_out && !is_finished_spec(old(self).status_spec()) ==> final(self).status_spec() == SocketStatus::TimeoutError(now) && final(self).events_spec()
                    == old(self).events_spec().push(SocketEvent::Timeout))
                &&& (quiet && !timed_out && !is_finished_spec(old(self).status_spec())
                    ==> forall|k: u32| #[trigger]
                    old(self).handler_pending().dom().contains(k) && !is_stale_spec(
                        old(self).handler_pending()[k],
                        now,
                    ) && ack_due(old(self).handler_pending()[k], now) ==> exists|bytes: Seq<u8>|
                        final(self).out_spec().contains(
                            encoded_packet(PacketModel::Ack { seq_id: k, data: bytes }),
                        ) && ack_bits_for(old(self).handler_pending()[k], bytes))
                &&& (quiet && !timed_out && old(self).status_spec() is Connected && now as int
                    > old(self).last_sent_spec() as int + old(self).heartbeat_delay_spec() as int
                    && (forall|k: u32| #[trigger]
                    old(self).handler_pending().dom().contains(k) ==> !(!is_stale_spec(
                        old(self).handler_pending()[k],
                        now,
                    ) && ack_due(old(self).handler_pending()[k], now)))
                    ==> final(self).out_spec().contains(
                    encoded_packet(PacketModel::Heartbeat),
                ))
                &&& (quiet && !timed_out && (old(self).status_spec() matches SocketStatus::SynSent(
                    t,
                ) && now as int >= t as int + SYN_RESEND_DELAY_MS as int)
                    ==> final(self).out_spec().contains(encoded_packet(PacketModel::Syn)) && final(self).status_spec() == SocketStatus::SynSent(now))
                &&& (quiet && !timed_out && !is_finished_spec(old(self).status_spec())
                    ==> forall|k: u32, j: int|
                    (#[trigger] old(self).tracked_sets().dom().contains(k)) && !tick_removed(
                        old(self).tracked_sets()[k],
                        now,
                    ) && old(self).tracked_sets()[k].complete_since is None && resend_due_spec(
                        old(self).tracked_sets()[k],
                        now,
                    ) && 0 <= j < resend_ids_spec(old(self).tracked_sets()[k]).len() ==> final(self).out_spec().contains(
                        #[trigger] frag_datagram(
                            old(self).tracked_sets()[k].data@,
                            k,
                            meta_of_expiration(Some(old(self).tracked_sets()[k].expiration_type)),
                            old(self).tracked_sets()[k].frag_total,
                            resend_ids_spec(old(self).tracked_sets()[k])[j] as int,
                        ),
                    ))
            }),
            final(self).timeout_delay_spec() == old(self).timeout_delay_spec(),
            final(self).heartbeat_delay_spec() == old(self).heartbeat_delay_spec(),
            final(self).next_local_seq_id_spec() == old(self).next_local_seq_id_spec(),
            is_finished_spec(old(self).status_spec()) ==> (is_finished_spec(
                final(self).status_spec(),
            ) && final(self).out_spec() == old(self).out_spec()),
            final(self).events_spec().len() >= old(self).events_spec().len(),
            final(self).events_spec().take(old(self).events_spec().len() as int) == old(
                self,
            ).events_spec(),
    {
        self.update_cached_now(now);
        self.inner_tick();
    }

    pub fn status(&self) -> (r: SocketStatus)
        ensures
            r == self.status_spec(),
    {
        self.socket.status()
    }

    /// Whether this socket is finished and old enough to be deleted.
    pub fn should_clear(&self) -> (r: bool)
        ensures
            r == match self.status_spec() {
                SocketStatus::TimeoutError(t) => self.cached_now_spec() as int >= t as int + 10_000,
                SocketStatus::TerminateSent(t) => self.cached_now_spec() as int >= t as int
                    + 10_000,
                SocketStatus::TerminateReceived(t) => self.cached_now_spec() as int >= t as int
                    + 10_000,
                _ => false,
            },
    {
        self.socket.status().is_finished_and_old(self.cached_now)
    }

    /// Whether the remote is known to have received the whole message with
    /// this seq_id. Fails when the seq_id is not (or no longer) tracked.
    pub fn is_seq_id_received(&self, seq_id: u32) -> (r: Result<bool, ()>)
        requires
            self.wf(),
        ensures
            match r {
                Err(_) => !self.tracked_sets().dom().contains(seq_id),
                Ok(b) => self.tracked_sets().dom().contains(seq_id) && b == (self.tracked_sets()[
                    seq_id].complete_since is Some),
            },
    {
        self.sent_data_tracker.is_seq_id_received(seq_id)
    }

    /// All datagrams queued for the transport, oldest first; the queue is
    /// left empty. Every one of them carries a valid CRC32 checksum.
    pub fn drain_outgoing_datagrams(&mut self) -> (r: Vec<Vec<u8>>)
        requires
            old(self).wf(),
        ensures
            final(self).wf(),
            final(self).status_spec() == old(self).status_spec(),
            final(self).events_spec() == old(self).events_spec(),
            final(self).out_spec() == Seq::<Seq<u8>>::empty(),
            r@.map_values(|d: Vec<u8>| d@) == old(self).out_spec(),
            forall|j: int| 0 <= j < r@.len() ==> datagram_crc_valid(#[trigger] r@[j]@),
            final(self).cached_now_spec() == old(self).cached_now_spec(),
            final(self).last_received_spec() == old(self).last_received_spec(),
            final(self).timeout_delay_spec() == old(self).timeout_delay_spec(),
            final(self).heartbeat_delay_spec() == old(self).heartbeat_delay_spec(),
            final(self).next_local_seq_id_spec() == old(self).next_local_seq_id_spec(),
            final(self).tracked_sets() == old(self).tracked_sets(),
    {
        self.socket.take_datagrams()
    }
}

} // verus!
