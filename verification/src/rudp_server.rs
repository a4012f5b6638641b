use vstd::prelude::*;
use vstd::seq_lib::lemma_seq_contains_after_push;
use crate::fragment::chunk_count;
use crate::fragment_combiner::{ack_bits_for, ack_due, is_stale_spec};
use crate::rudp::{
    is_finished_spec, MessagePriority, MessageType, RUdpSocket, SocketEvent, SocketStatus,
};
use crate::sent_data_tracker::{
    all_frag_ids, expiration_of_type, frag_datagram, frag_datagrams_of_ids, meta_of_expiration,
    resend_due_spec, resend_ids_spec, tick_removed,
};
use crate::udp_packet_handler::receive_step;
use crate::udp_packet::{encoded_packet, parse_packet, PacketModel, UdpPacket, UdpPacketError};
use crate::vecmap::VecMap;

verus! {

/// A server over one transport socket: one `RUdpSocket` per remote, keyed
/// by an opaque remote id the caller assigns to each peer address.
///
/// The server accepts incoming handshakes itself: a datagram from an
/// unknown remote creates a connection only when it decodes to a Syn;
/// anything else from an unknown remote is dropped.
pub struct RUdpServer {
    remotes: VecMap<RUdpSocket>,
    timeout_delay: Option<u64>,
    heartbeat_delay: Option<u64>,
}

impl RUdpServer {
    /// The per-remote sockets, by remote id.
    pub closed spec fn remotes_spec(&self) -> Map<u32, RUdpSocket> {
        self.remotes@
    }

    pub closed spec fn wf(&self) -> bool {
        &&& self.remotes.wf()
        &&& forall|k: u32| #[trigger]
            self.remotes@.dom().contains(k) ==> self.remotes@[k].wf()
    }

    pub fn new() -> (r: RUdpServer)
        ensures
            r.wf(),
            r.remotes_spec() == Map::<u32, RUdpSocket>::empty(),
    {
        RUdpServer { remotes: VecMap::new(), timeout_delay: None, heartbeat_delay: None }
    }

    /// Apply a timeout delay to every present and future remote.
    pub fn set_timeout_delay(&mut self, timeout_delay: u64)
        requires
            old(self).wf(),
        ensures
            final(self).wf(),
            final(self).remotes_spec().dom() == old(self).remotes_spec().dom(),
            forall|k: u32| #[trigger]
                final(self).remotes_spec().dom().contains(k) ==> final(self).remotes_spec()[
                    k].timeout_delay_spec() == timeout_delay,
    {
        self.timeout_delay = Some(timeout_delay);
        let keys = self.remotes.keys();
        let mut i: usize = 0;
        while i < keys.len()
            invariant
                self.wf(),
                i <= keys@.len(),
                keys@.no_duplicates(),
                forall|j: int|
                    0 <= j < keys@.len() ==> old(self).remotes_spec().dom().contains(
                        #[trigger] keys@[j],
                    ),
                forall|k: u32| #[trigger]
                    old(self).remotes_spec().dom().contains(k) ==> keys@.contains(k),
                self.remotes_spec().dom() == old(self).remotes_spec().dom(),
                forall|k: u32| #[trigger]
                    self.remotes_spec().dom().contains(k) && keys@.take(i as int).contains(k)
                    ==> self.remotes_spec()[k].timeout_delay_spec() == timeout_delay,
                forall|k: u32| #[trigger]
                    self.remotes_spec().dom().contains(k) && !keys@.take(i as int).contains(k)
                    ==> self.remotes_spec()[k] == old(self).remotes_spec()[k],
            decreases keys@.len() - i,
        {
            let k = keys[i];
            proof {
                assert(keys@.take(i as int + 1) =~= keys@.take(i as int).push(k));
                assert forall|v: u32| #[trigger]
                    keys@.take(i as int + 1).contains(v) implies keys@.take(i as int).contains(v)
                    || v == k by {
                    lemma_seq_contains_after_push(keys@.take(i as int), k, v);
                }
                assert forall|v: u32|
                    keys@.take(i as int).contains(v) || v == k implies #[trigger] keys@.take(
                    i as int + 1,
                ).contains(v) by {
                    lemma_seq_contains_after_push(keys@.take(i as int), k, v);
                }
            }
            match self.remotes.remove(k) {
                Some(mut socket) => {
                    socket.set_timeout_delay(timeout_delay);
                    self.remotes.insert(k, socket);
                    proof {
                        assert(self.remotes_spec().dom() =~= old(self).remotes_spec().dom());
                    }
                },
                None => {},
            }
            i = i + 1;
        }
        proof {
            assert(keys@.take(keys@.len() as int) =~= keys@);
        }
    }

    /// Apply a heartbeat delay to every present and future remote.
    pub fn set_heartbeat(&mut self, delay: u64)
        requires
            old(self).wf(),
        ensures
            final(self).wf(),
            final(self).remotes_spec().dom() == old(self).remotes_spec().dom(),
            forall|k: u32| #[trigger]
                final(self).remotes_spec().dom().contains(k) ==> final(self).remotes_spec()[
                    k].heartbeat_delay_spec() == delay,
    {
        self.heartbeat_delay = Some(delay);
        let keys = self.remotes.keys();
        let mut i: usize = 0;
        while i < keys.len()
            invariant
                self.wf(),
                i <= keys@.len(),
                keys@.no_duplicates(),
                forall|j: int|
                    0 <= j < keys@.len() ==> old(self).remotes_spec().dom().contains(
                        #[trigger] keys@[j],
                    ),
                forall|k: u32| #[trigger]
                    old(self).remotes_spec().dom().contains(k) ==> keys@.contains(k),
                self.remotes_spec().dom() == old(self).remotes_spec().dom(),
                forall|k: u32| #[trigger]
                    self.remotes_spec().dom().contains(k) && keys@.take(i as int).contains(k)
                    ==> self.remotes_spec()[k].heartbeat_delay_spec() == delay,
                forall|k: u32| #[trigger]
                    self.remotes_spec().dom().contains(k) && !keys@.take(i as int).contains(k)
                    ==> self.remotes_spec()[k] == old(self).remotes_spec()[k],
            decreases keys@.len() - i,
        {
            let k = keys[i];
            proof {
                assert(keys@.take(i as int + 1) =~= keys@.take(i as int).push(k));
                assert forall|v: u32| #[trigger]
                    keys@.take(i as int + 1).contains(v) implies keys@.take(i as int).contains(v)
                    || v == k by {
                    lemma_seq_contains_after_push(keys@.take(i as int), k, v);
                }
                assert forall|v: u32|
                    keys@.take(i as int).contains(v) || v == k implies #[trigger] keys@.take(
                    i as int + 1,
                ).contains(v) by {
                    lemma_seq_contains_after_push(keys@.take(i as int), k, v);
                }
            }
            match self.remotes.remove(k) {
                Some(mut socket) => {
                    socket.set_heartbeat_delay(delay);
                    self.remotes.insert(k, socket);
                    proof {
                        assert(self.remotes_spec().dom() =~= old(self).remotes_spec().dom());
                    }
                },
                None => {},
            }
            i = i + 1;
        }
        proof {
            assert(keys@.take(keys@.len() as int) =~= keys@);
        }
    }

    /// One datagram arrived from the remote with the given id.
    ///
    /// A known remote gets it queued for its next tick. An unknown remote
    /// is accepted only when the datagram decodes to a Syn: a connection is
    /// created, already Connected, with a SynAck queued. Anything else from
    /// an unknown remote is dropped.
    pub fn handle_incoming(&mut self, remote_id: u32, udp_packet: UdpPacket, now: u64)
        requires
            old(self).wf(),
        ensures
            final(self).wf(),
            if old(self).remotes_spec().dom().contains(remote_id) {
                &&& final(self).remotes_spec().dom() == old(self).remotes_spec().dom()
                &&& (forall|k: u32|
                    k != remote_id && old(self).remotes_spec().dom().contains(k)
                        ==> #[trigger] final(self).remotes_spec()[k] == old(self).remotes_spec()[k])
                &&& ({
                    let s0 = old(self).remotes_spec()[remote_id];
                    let s1 = final(self).remotes_spec()[remote_id];
                    &&& s1.status_spec() == s0.status_spec()
                    &&& s1.events_spec() == s0.events_spec()
                    &&& s1.out_spec() == s0.out_spec()
                    &&& s1.last_received_spec() == s0.cached_now_spec()
                    &&& s1.tracked_sets() == s0.tracked_sets()
                    // the datagram's decoded message joins the child's queue,
                    // to be processed by its next tick
                    &&& s1.handler_out().take(s0.handler_out().len() as int) == s0.handler_out()
                    &&& receive_step(
                        s0.handler_out(),
                        s1.handler_out(),
                        s0.handler_pending(),
                        s1.handler_pending(),
                        udp_packet@,
                    )
                })
            } else if parse_packet(udp_packet@) == Ok::<PacketModel, UdpPacketError>(
                PacketModel::Syn,
            ) {
                &&& final(self).remotes_spec().dom() == old(self).remotes_spec().dom().insert(
                    remote_id,
                )
                &&& (forall|k: u32|
                    k != remote_id && old(self).remotes_spec().dom().contains(k)
                        ==> #[trigger] final(self).remotes_spec()[k] == old(self).remotes_spec()[k])
                &&& ({
                    let s = final(self).remotes_spec()[remote_id];
                    &&& s.status_spec() == SocketStatus::Connected
                    &&& (s.events_spec().len() == 1 && s.events_spec()[0] is Connected)
                    &&& s.out_spec() == seq![
                        crate::udp_packet::encoded_packet(PacketModel::SynAck),
                    ]
                })
            } else {
                final(self).remotes_spec() == old(self).remotes_spec()
            },
    {
        if self.remotes.contains_key(remote_id) {
            match self.remotes.remove(remote_id) {
                Some(mut socket) => {
                    socket.add_received_packet(udp_packet);
                    self.remotes.insert(remote_id, socket);
                    proof {
                        assert(self.remotes_spec().dom() =~= old(self).remotes_spec().dom());
                    }
                },
                None => {
                    proof {
                        assert(false);
                    }
                },
            }
        } else {
            match RUdpSocket::new_incoming(udp_packet, now) {
                Ok(mut rudp_socket) => {
                    match self.timeout_delay {
                        Some(delay) => {
                            rudp_socket.set_timeout_delay(delay);
                        },
                        None => {},
                    }
                    match self.heartbeat_delay {
                        Some(heartbeat) => {
                            rudp_socket.set_heartbeat_delay(heartbeat);
                        },
                        None => {},
                    }
                    self.remotes.insert(remote_id, rudp_socket);
                },
                Err(_) => {},
            }
        }
    }

    /// Broadcast one message to every remote, under the same reliability
    /// class and priority; each remote assigns its own seq_id.
    ///
    /// Fails exactly when the payload is empty or needs more than 256
    /// fragments; nothing is sent then.
    pub fn send_data(
        &mut self,
        data: &Vec<u8>,
        message_type: MessageType,
        message_priority: MessagePriority,
    ) -> (r: Result<(), ()>)
        requires
            old(self).wf(),
            forall|k: u32| #[trigger]
                old(self).remotes_spec().dom().contains(k) ==> old(self).remotes_spec()[
                    k].next_local_seq_id_spec() < u32::MAX,
        ensures
            final(self).wf(),
            final(self).remotes_spec().dom() == old(self).remotes_spec().dom(),
            match r {
                Err(_) => (data@.len() == 0 || data@.len()
                    > crate::consts::MAX_FRAGMENTS_IN_MESSAGE
                    * crate::consts::MAX_FRAGMENT_MESSAGE_SIZE) && final(self).remotes_spec()
                    == old(self).remotes_spec(),
                Ok(_) => forall|k: u32| #[trigger]
                    final(self).remotes_spec().dom().contains(k) ==> {
                        let s0 = old(self).remotes_spec()[k];
                        let s1 = final(self).remotes_spec()[k];
                        let ft = (chunk_count(data@.len() as int) - 1) as u8;
                        &&& s1.next_local_seq_id_spec() == s0.next_local_seq_id_spec() + 1
                        &&& s1.status_spec() == s0.status_spec()
                        &&& s1.events_spec() == s0.events_spec()
                        // the message's fragment datagrams join the child's queue
                        &&& (if is_finished_spec(s0.status_spec()) {
                            s1.out_spec() == s0.out_spec()
                        } else {
                            s1.out_spec() == s0.out_spec() + frag_datagrams_of_ids(
                                data@,
                                s0.next_local_seq_id_spec(),
                                meta_of_expiration(
                                    expiration_of_type(message_type, s0.cached_now_spec()),
                                ),
                                ft,
                                all_frag_ids(ft),
                            )
                        })
                        &&& (message_type is Forgettable ==> s1.tracked_sets()
                            == s0.tracked_sets())
                        &&& (!(message_type is Forgettable) ==> s1.tracked_sets().dom()
                            == s0.tracked_sets().dom().insert(s0.next_local_seq_id_spec()))
                    },
            },
    {
        if data.len() == 0 || data.len() > crate::consts::MAX_FRAGMENTS_IN_MESSAGE
            * crate::consts::MAX_FRAGMENT_MESSAGE_SIZE {
            return Err(());
        }
        let keys = self.remotes.keys();
        let mut i: usize = 0;
        while i < keys.len()
            invariant
                self.wf(),
                i <= keys@.len(),
                keys@.no_duplicates(),
                1 <= data@.len() <= crate::consts::MAX_FRAGMENTS_IN_MESSAGE
                    * crate::consts::MAX_FRAGMENT_MESSAGE_SIZE,
                forall|j: int|
                    0 <= j < keys@.len() ==> old(self).remotes_spec().dom().contains(
                        #[trigger] keys@[j],
                    ),
                forall|k: u32| #[trigger]
                    old(self).remotes_spec().dom().contains(k) ==> keys@.contains(k),
                forall|k: u32| #[trigger]
                    old(self).remotes_spec().dom().contains(k) ==> old(self).remotes_spec()[
                        k].next_local_seq_id_spec() < u32::MAX,
                self.remotes_spec().dom() == old(self).remotes_spec().dom(),
                forall|k: u32| #[trigger]
                    self.remotes_spec().dom().contains(k) && !keys@.take(i as int).contains(k)
                    ==> self.remotes_spec()[k] == old(self).remotes_spec()[k],
                forall|k: u32| #[trigger]
                    self.remotes_spec().dom().contains(k) && keys@.take(i as int).contains(k)
                    ==> {
                        let s0 = old(self).remotes_spec()[k];
                        let s1 = self.remotes_spec()[k];
                        let ft = (chunk_count(data@.len() as int) - 1) as u8;
                        &&& s1.next_local_seq_id_spec() == s0.next_local_seq_id_spec() + 1
                        &&& s1.status_spec() == s0.status_spec()
                        &&& s1.events_spec() == s0.events_spec()
                        &&& (if is_finished_spec(s0.status_spec()) {
                            s1.out_spec() == s0.out_spec()
                        } else {
                            s1.out_spec() == s0.out_spec() + frag_datagrams_of_ids(
                                data@,
                                s0.next_local_seq_id_spec(),
                                meta_of_expiration(
                                    expiration_of_type(message_type, s0.cached_now_spec()),
                                ),
                                ft,
                                all_frag_ids(ft),
                            )
                        })
                        &&& (message_type is Forgettable ==> s1.tracked_sets()
                            == s0.tracked_sets())
                        &&& (!(message_type is Forgettable) ==> s1.tracked_sets().dom()
                            == s0.tracked_sets().dom().insert(s0.next_local_seq_id_spec()))
                    },
            decreases keys@.len() - i,
        {
            let k = keys[i];
            proof {
                assert(keys@.take(i as int + 1) =~= keys@.take(i as int).push(k));
                assert(!keys@.take(i as int).contains(k)) by {
                    if keys@.take(i as int).contains(k) {
                        let j = choose|j: int|
                            0 <= j < i && #[trigger] keys@.take(i as int)[j] == k;
                        assert(keys@[j] == keys@[i as int]);
                    }
                }
                assert forall|v: u32| #[trigger]
                    keys@.take(i as int + 1).contains(v) implies keys@.take(i as int).contains(v)
                    || v == k by {
                    lemma_seq_contains_after_push(keys@.take(i as int), k, v);
                }
                assert forall|v: u32|
                    keys@.take(i as int).contains(v) || v == k implies #[trigger] keys@.take(
                    i as int + 1,
                ).contains(v) by {
                    lemma_seq_contains_after_push(keys@.take(i as int), k, v);
                }
            }
            match self.remotes.remove(k) {
                Some(mut socket) => {
                    let copy = vstd::slice::slice_to_vec(data.as_slice());
                    let sent = socket.send_data(copy, message_type, message_priority);
                    proof {
                        assert(sent is Ok);
                    }
                    self.remotes.insert(k, socket);
                    proof {
                        assert(self.remotes_spec().dom() =~= old(self).remotes_spec().dom());
                    }
                },
                None => {
                    proof {
                        assert(false);
                    }
                },
            }
            i = i + 1;
        }
        proof {
            assert(keys@.take(keys@.len() as int) =~= keys@);
        }
        Ok(())
    }

    /// How many remotes are currently connected or connecting.
    pub fn remotes_len(&self) -> (r: usize)
        requires
            self.wf(),
        ensures
            self.remotes_spec().dom().finite(),
            r == self.remotes_spec().dom().len(),
    {
        self.remotes.len()
    }

    /// One scheduling turn at the given time: long-finished remotes are
    /// reaped, every other remote runs its own tick.
    pub fn next_tick(&mut self, now: u64)
        requires
            old(self).wf(),
        ensures
            final(self).wf(),
            forall|k: u32| #[trigger]
                old(self).remotes_spec().dom().contains(k)
                    ==> (final(self).remotes_spec().dom().contains(k) <==> !(match old(
                    self,
                ).remotes_spec()[k].status_spec() {
                    SocketStatus::TimeoutError(t) => old(self).remotes_spec()[k].cached_now_spec()
                        as int >= t as int + 10_000,
                    SocketStatus::TerminateSent(t) => old(self).remotes_spec()[k].cached_now_spec()
                        as int >= t as int + 10_000,
                    SocketStatus::TerminateReceived(t) => old(self).remotes_spec()[
                        k].cached_now_spec() as int >= t as int + 10_000,
                    _ => false,
                })),
            forall|k: u32| #[trigger]
                final(self).remotes_spec().dom().contains(k)
                    ==> old(self).remotes_spec().dom().contains(k),
            forall|k: u32| #[trigger]
                final(self).remotes_spec().dom().contains(k) ==> {
                    let s0 = old(self).remotes_spec()[k];
                    let s1 = final(self).remotes_spec()[k];
                    &&& s1.cached_now_spec() == now
                    &&& (is_finished_spec(s0.status_spec()) ==> is_finished_spec(s1.status_spec()))
                    // each kept child ran its tick: a remote silent for the
                    // whole timeout delay leaves the child finished
                    &&& (now as int >= s0.last_received_spec() as int + s0.timeout_delay_spec()
                        as int ==> is_finished_spec(s1.status_spec()))
                    // and a drained, unexpired child queued every ack its
                    // combiner owes
                    &&& (s0.handler_out().len() == 0 && !(now as int >= s0.last_received_spec()
                        as int + s0.timeout_delay_spec() as int) && !is_finished_spec(
                        s0.status_spec(),
                    ) ==> forall|k2: u32| #[trigger]
                        s0.handler_pending().dom().contains(k2) && !is_stale_spec(
                            s0.handler_pending()[k2],
                            now,
                        ) && ack_due(s0.handler_pending()[k2], now) ==> exists|bytes: Seq<u8>|
                            s1.out_spec().contains(
                                encoded_packet(PacketModel::Ack { seq_id: k2, data: bytes }),
                            ) && ack_bits_for(s0.handler_pending()[k2], bytes))
                    // and queued every fragment its tracker owes a resend
                    &&& (s0.handler_out().len() == 0 && !(now as int >= s0.last_received_spec()
                        as int + s0.timeout_delay_spec() as int) && !is_finished_spec(
                        s0.status_spec(),
                    ) ==> forall|k2: u32, j: int|
                        (#[trigger] s0.tracked_sets().dom().contains(k2)) && !tick_removed(
                            s0.tracked_sets()[k2],
                            now,
                        ) && s0.tracked_sets()[k2].complete_since is None && resend_due_spec(
                            s0.tracked_sets()[k2],
                            now,
                        ) && 0 <= j < resend_ids_spec(s0.tracked_sets()[k2]).len()
                            ==> s1.out_spec().contains(
                            #[trigger] frag_datagram(
                                s0.tracked_sets()[k2].data@,
                                k2,
                                meta_of_expiration(Some(s0.tracked_sets()[k2].expiration_type)),
                                s0.tracked_sets()[k2].frag_total,
                                resend_ids_spec(s0.tracked_sets()[k2])[j] as int,
                            ),
                        ))
                },
    {
        let keys = self.remotes.keys();
        let mut i: usize = 0;
        while i < keys.len()
            invariant
                self.wf(),
                i <= keys@.len(),
                keys@.no_duplicates(),
                forall|j: int|
                    0 <= j < keys@.len() ==> old(self).remotes_spec().dom().contains(
                        #[trigger] keys@[j],
                    ),
                forall|k: u32| #[trigger]
                    old(self).remotes_spec().dom().contains(k) ==> keys@.contains(k),
                forall|k: u32| #[trigger]
                    self.remotes_spec().dom().contains(k) ==> old(
                        self,
                    ).remotes_spec().dom().contains(k),
                forall|k: u32| #[trigger]
                    old(self).remotes_spec().dom().contains(k) && !keys@.take(i as int).contains(k)
                    ==> (self.remotes_spec().dom().contains(k) && self.remotes_spec()[k] == old(
                        self,
                    ).remotes_spec()[k]),
                forall|k: u32| #[trigger]
                    old(self).remotes_spec().dom().contains(k) && keys@.take(i as int).contains(k)
                    ==> (self.remotes_spec().dom().contains(k) <==> !(match old(
                        self,
                    ).remotes_spec()[k].status_spec() {
                        SocketStatus::TimeoutError(t) => old(self).remotes_spec()[
                            k].cached_now_spec() as int >= t as int + 10_000,
                        SocketStatus::TerminateSent(t) => old(self).remotes_spec()[
                            k].cached_now_spec() as int >= t as int + 10_000,
                        SocketStatus::TerminateReceived(t) => old(self).remotes_spec()[
                            k].cached_now_spec() as int >= t as int + 10_000,
                        _ => false,
                    })),
                forall|k: u32| #[trigger]
                    self.remotes_spec().dom().contains(k) && keys@.take(i as int).contains(k)
                    ==> {
                        let s0 = old(self).remotes_spec()[k];
                        let s1 = self.remotes_spec()[k];
                        &&& s1.cached_now_spec() == now
                        &&& (is_finished_spec(s0.status_spec()) ==> is_finished_spec(
                            s1.status_spec(),
                        ))
                        &&& (now as int >= s0.last_received_spec() as int + s0.timeout_delay_spec()
                            as int ==> is_finished_spec(s1.status_spec()))
                        &&& (s0.handler_out().len() == 0 && !(now as int >= s0.last_received_spec()
                            as int + s0.timeout_delay_spec() as int) && !is_finished_spec(
                            s0.status_spec(),
                        ) ==> forall|k2: u32| #[trigger]
                            s0.handler_pending().dom().contains(k2) && !is_stale_spec(
                                s0.handler_pending()[k2],
                                now,
                            ) && ack_due(s0.handler_pending()[k2], now) ==> exists|bytes: Seq<u8>|
                                s1.out_spec().contains(
                                    encoded_packet(PacketModel::Ack { seq_id: k2, data: bytes }),
                                ) && ack_bits_for(s0.handler_pending()[k2], bytes))
                    // and queued every fragment its tracker owes a resend
                    &&& (s0.handler_out().len() == 0 && !(now as int >= s0.last_received_spec()
                        as int + s0.timeout_delay_spec() as int) && !is_finished_spec(
                        s0.status_spec(),
                    ) ==> forall|k2: u32, j: int|
                        (#[trigger] s0.tracked_sets().dom().contains(k2)) && !tick_removed(
                            s0.tracked_sets()[k2],
                            now,
                        ) && s0.tracked_sets()[k2].complete_since is None && resend_due_spec(
                            s0.tracked_sets()[k2],
                            now,
                        ) && 0 <= j < resend_ids_spec(s0.tracked_sets()[k2]).len()
                            ==> s1.out_spec().contains(
                            #[trigger] frag_datagram(
                                s0.tracked_sets()[k2].data@,
                                k2,
                                meta_of_expiration(Some(s0.tracked_sets()[k2].expiration_type)),
                                s0.tracked_sets()[k2].frag_total,
                                resend_ids_spec(s0.tracked_sets()[k2])[j] as int,
                            ),
                        ))
                    },
            decreases keys@.len() - i,
        {
            let k = keys[i];
            proof {
                assert(keys@.take(i as int + 1) =~= keys@.take(i as int).push(k));
                assert(!keys@.take(i as int).contains(k)) by {
                    if keys@.take(i as int).contains(k) {
                        let j = choose|j: int|
                            0 <= j < i && #[trigger] keys@.take(i as int)[j] == k;
                        assert(keys@[j] == keys@[i as int]);
                    }
                }
                assert forall|v: u32| #[trigger]
                    keys@.take(i as int + 1).contains(v) implies keys@.take(i as int).contains(v)
                    || v == k by {
                    lemma_seq_contains_after_push(keys@.take(i as int), k, v);
                }
                assert forall|v: u32|
                    keys@.take(i as int).contains(v) || v == k implies #[trigger] keys@.take(
                    i as int + 1,
                ).contains(v) by {
                    lemma_seq_contains_after_push(keys@.take(i as int), k, v);
                }
            }
            match self.remotes.remove(k) {
                Some(mut socket) => {
                    if !socket.should_clear() {
                        socket.update_cached_now(now);
                        socket.inner_tick();
                        self.remotes.insert(k, socket);
                    }
                },
                None => {
                    proof {
                        assert(false);
                    }
                },
            }
            i = i + 1;
        }
        proof {
            assert(keys@.take(keys@.len() as int) =~= keys@);
        }
    }

    /// The ids of all current remotes, in insertion order.
    pub fn addresses(&self) -> (r: Vec<u32>)
        requires
            self.wf(),
        ensures
            r@.no_duplicates(),
            r@.to_set() == self.remotes_spec().dom(),
    {
        self.remotes.keys()
    }

    /// The socket for the given remote id.
    pub fn get(&self, remote_id: u32) -> (r: Option<&RUdpSocket>)
        requires
            self.wf(),
        ensures
            match r {
                Some(s) => self.remotes_spec().dom().contains(remote_id) && *s
                    == self.remotes_spec()[remote_id],
                None => !self.remotes_spec().dom().contains(remote_id),
            },
    {
        self.remotes.get(remote_id)
    }

    /// Mutable access to the socket for the given remote id, for per-remote
    /// sends and tuning.
    pub fn get_mut(&mut self, remote_id: u32) -> (r: Option<&mut RUdpSocket>)
        requires
            old(self).wf(),
        ensures
            match r {
                Some(s) => {
                    &&& old(self).remotes_spec().dom().contains(remote_id)
                    &&& *s == old(self).remotes_spec()[remote_id]
                    &&& final(self).remotes_spec() == old(self).remotes_spec().insert(
                        remote_id,
                        *final(s),
                    )
                    &&& (final(s).wf() ==> final(self).wf())
                },
                None => !old(self).remotes_spec().dom().contains(remote_id)
                    && final(self).remotes_spec() == old(self).remotes_spec()
                    && final(self).wf() == old(self).wf(),
            },
    {
        self.remotes.get_mut(remote_id)
    }

    /// Every remote's pending events, tagged with its id, oldest first per
    /// remote; the queues are left empty.
    pub fn drain_events(&mut self) -> (r: Vec<(u32, SocketEvent)>)
        requires
            old(self).wf(),
        ensures
            final(self).wf(),
            final(self).remotes_spec().dom() == old(self).remotes_spec().dom(),
            forall|j: int|
                0 <= j < r@.len() ==> old(self).remotes_spec().dom().contains(
                    (#[trigger] r@[j]).0,
                ),
            forall|k: u32| #[trigger]
                final(self).remotes_spec().dom().contains(k) ==> {
                    let s0 = old(self).remotes_spec()[k];
                    let s1 = final(self).remotes_spec()[k];
                    &&& s1.events_spec() == Seq::<SocketEvent>::empty()
                    &&& s1.status_spec() == s0.status_spec()
                    &&& s1.out_spec() == s0.out_spec()
                },
    {
        let keys = self.remotes.keys();
        let mut r: Vec<(u32, SocketEvent)> = Vec::new();
        let mut i: usize = 0;
        while i < keys.len()
            invariant
                self.wf(),
                i <= keys@.len(),
                keys@.no_duplicates(),
                forall|j: int|
                    0 <= j < keys@.len() ==> old(self).remotes_spec().dom().contains(
                        #[trigger] keys@[j],
                    ),
                forall|k: u32| #[trigger]
                    old(self).remotes_spec().dom().contains(k) ==> keys@.contains(k),
                self.remotes_spec().dom() == old(self).remotes_spec().dom(),
                forall|j: int|
                    0 <= j < r@.len() ==> old(self).remotes_spec().dom().contains(
                        (#[trigger] r@[j]).0,
                    ),
                forall|k: u32| #[trigger]
                    self.remotes_spec().dom().contains(k) && !keys@.take(i as int).contains(k)
                    ==> self.remotes_spec()[k] == old(self).remotes_spec()[k],
                forall|k: u32| #[trigger]
                    self.remotes_spec().dom().contains(k) && keys@.take(i as int).contains(k)
                    ==> {
                        let s0 = old(self).remotes_spec()[k];
                        let s1 = self.remotes_spec()[k];
                        &&& s1.events_spec() == Seq::<SocketEvent>::empty()
                        &&& s1.status_spec() == s0.status_spec()
                        &&& s1.out_spec() == s0.out_spec()
                    },
            decreases keys@.len() - i,
        {
            let k = keys[i];
            proof {
                assert(keys@.take(i as int + 1) =~= keys@.take(i as int).push(k));
                assert(!keys@.take(i as int).contains(k)) by {
                    if keys@.take(i as int).contains(k) {
                        let j = choose|j: int|
                            0 <= j < i && #[trigger] keys@.take(i as int)[j] == k;
                        assert(keys@[j] == keys@[i as int]);
                    }
                }
                assert forall|v: u32| #[trigger]
                    keys@.take(i as int + 1).contains(v) implies keys@.take(i as int).contains(v)
                    || v == k by {
                    lemma_seq_contains_after_push(keys@.take(i as int), k, v);
                }
                assert forall|v: u32|
                    keys@.take(i as int).contains(v) || v == k implies #[trigger] keys@.take(
                    i as int + 1,
                ).contains(v) by {
                    lemma_seq_contains_after_push(keys@.take(i as int), k, v);
                }
            }
            match self.remotes.remove(k) {
                Some(mut socket) => {
                    let mut events = socket.drain_events();
                    while events.len() > 0
                        invariant
                            old(self).remotes_spec().dom().contains(k),
                            forall|j: int|
                                0 <= j < r@.len() ==> old(self).remotes_spec().dom().contains(
                                    (#[trigger] r@[j]).0,
                                ),
                        decreases events@.len(),
                    {
                        let ev = events.remove(0);
                        r.push((k, ev));
                    }
                    self.remotes.insert(k, socket);
                    proof {
                        assert(self.remotes_spec().dom() =~= old(self).remotes_spec().dom());
                    }
                },
                None => {
                    proof {
                        assert(false);
                    }
                },
            }
            i = i + 1;
        }
        proof {
            assert(keys@.take(keys@.len() as int) =~= keys@);
        }
        r
    }

    /// Every remote's queued datagrams, tagged with its id, oldest first
    /// per remote; the queues are left empty. Every datagram carries a
    /// valid CRC32 checksum.
    pub fn drain_outgoing_datagrams(&mut self) -> (r: Vec<(u32, Vec<u8>)>)
        requires
            old(self).wf(),
        ensures
            final(self).wf(),
            final(self).remotes_spec().dom() == old(self).remotes_spec().dom(),
            forall|j: int|
                0 <= j < r@.len() ==> old(self).remotes_spec().dom().contains(
                    (#[trigger] r@[j]).0,
                ),
            forall|j: int|
                0 <= j < r@.len() ==> crate::udp_packet::datagram_crc_valid(
                    (#[trigger] r@[j]).1@,
                ),
            forall|k: u32| #[trigger]
                final(self).remotes_spec().dom().contains(k) ==> {
                    let s0 = old(self).remotes_spec()[k];
                    let s1 = final(self).remotes_spec()[k];
                    &&& s1.out_spec() == Seq::<Seq<u8>>::empty()
                    &&& s1.status_spec() == s0.status_spec()
                    &&& s1.events_spec() == s0.events_spec()
                },
    {
        let keys = self.remotes.keys();
        let mut r: Vec<(u32, Vec<u8>)> = Vec::new();
        let mut i: usize = 0;
        while i < keys.len()
            invariant
                self.wf(),
                i <= keys@.len(),
                keys@.no_duplicates(),
                forall|j: int|
                    0 <= j < keys@.len() ==> old(self).remotes_spec().dom().contains(
                        #[trigger] keys@[j],
                    ),
                forall|k: u32| #[trigger]
                    old(self).remotes_spec().dom().contains(k) ==> keys@.contains(k),
                self.remotes_spec().dom() == old(self).remotes_spec().dom(),
                forall|j: int|
                    0 <= j < r@.len() ==> old(self).remotes_spec().dom().contains(
                        (#[trigger] r@[j]).0,
                    ),
                forall|j: int|
                    0 <= j < r@.len() ==> crate::udp_packet::datagram_crc_valid(
                        (#[trigger] r@[j]).1@,
                    ),
                forall|k: u32| #[trigger]
                    self.remotes_spec().dom().contains(k) && !keys@.take(i as int).contains(k)
                    ==> self.remotes_spec()[k] == old(self).remotes_spec()[k],
                forall|k: u32| #[trigger]
                    self.remotes_spec().dom().contains(k) && keys@.take(i as int).contains(k)
                    ==> {
                        let s0 = old(self).remotes_spec()[k];
                        let s1 = self.remotes_spec()[k];
                        &&& s1.out_spec() == Seq::<Seq<u8>>::empty()
                        &&& s1.status_spec() == s0.status_spec()
                        &&& s1.events_spec() == s0.events_spec()
                    },
            decreases keys@.len() - i,
        {
            let k = keys[i];
            proof {
                assert(keys@.take(i as int + 1) =~= keys@.take(i as int).push(k));
                assert(!keys@.take(i as int).contains(k)) by {
                    if keys@.take(i as int).contains(k) {
                        let j = choose|j: int|
                            0 <= j < i && #[trigger] keys@.take(i as int)[j] == k;
                        assert(keys@[j] == keys@[i as int]);
                    }
                }
                assert forall|v: u32| #[trigger]
                    keys@.take(i as int + 1).contains(v) implies keys@.take(i as int).contains(v)
                    || v == k by {
                    lemma_seq_contains_after_push(keys@.take(i as int), k, v);
                }
                assert forall|v: u32|
                    keys@.take(i as int).contains(v) || v == k implies #[trigger] keys@.take(
                    i as int + 1,
                ).contains(v) by {
                    lemma_seq_contains_after_push(keys@.take(i as int), k, v);
                }
            }
            match self.remotes.remove(k) {
                Some(mut socket) => {
                    let mut datagrams = socket.drain_outgoing_datagrams();
                    while datagrams.len() > 0
                        invariant
                            old(self).remotes_spec().dom().contains(k),
                            forall|j: int|
                                0 <= j < r@.len() ==> old(self).remotes_spec().dom().contains(
                                    (#[trigger] r@[j]).0,
                                ),
                            forall|j: int|
                                0 <= j < r@.len() ==> crate::udp_packet::datagram_crc_valid(
                                    (#[trigger] r@[j]).1@,
                                ),
                            forall|j: int|
                                0 <= j < datagrams@.len()
                                    ==> crate::udp_packet::datagram_crc_valid(
                                    (#[trigger] datagrams@[j])@,
                                ),
                        decreases datagrams@.len(),
                    {
                        let bytes = datagrams.remove(0);
                        r.push((k, bytes));
                    }
                    self.remotes.insert(k, socket);
                    proof {
                        assert(self.remotes_spec().dom() =~= old(self).remotes_spec().dom());
                    }
                },
                None => {
                    proof {
                        assert(false);
                    }
                },
            }
            i = i + 1;
        }
        proof {
            assert(keys@.take(keys@.len() as int) =~= keys@);
        }
        r
    }
}

} // verus!
