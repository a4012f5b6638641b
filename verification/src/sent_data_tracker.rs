use vstd::prelude::*;
use vstd::arithmetic::div_mod::lemma_div_is_ordered;
use vstd::seq_lib::lemma_seq_contains_after_push;
use crate::ack::{missing_ids, Ack};
use crate::consts::{
    MAX_FRAGMENTS_IN_MESSAGE, MAX_FRAGMENT_MESSAGE_SIZE, SEQ_DATA_CLEANUP_DELAY_MS,
};
use crate::fragment::{build_fragments_from_bytes, chunk_count, chunk_of, Fragment, FragmentMeta};
use crate::fragment_generator::FragmentGenerator;
use crate::rudp::{
    is_finished_spec, resend_delay_spec, MessagePriority, MessageType, UdpSocketWrapper,
};
use crate::udp_packet::{encoded_packet, PacketModel, UdpPacket};
use crate::vecmap::VecMap;

verus! {

/// Whether an outgoing reliable message ever stops being retransmitted on
/// its own.
#[derive(Debug, Clone, Copy)]
pub enum PacketExpiration {
    /// Kept until acknowledged.
    Key,
    /// Kept until the given time (milliseconds), then dropped.
    ExpirableKey { expiration: u64 },
}

/// The reliability class a packet expiration stands for on the wire.
pub open spec fn meta_of_expiration(e: Option<PacketExpiration>) -> FragmentMeta {
    match e {
        None => FragmentMeta::Forgettable,
        Some(PacketExpiration::Key) => FragmentMeta::Key,
        Some(PacketExpiration::ExpirableKey { .. }) => FragmentMeta::KeyExpirable,
    }
}

/// The expiration a message type asks for, taken at time `now`; a deadline
/// saturates instead of wrapping.
pub open spec fn expiration_of_type(t: MessageType, now: u64) -> Option<PacketExpiration> {
    match t {
        MessageType::Forgettable => None,
        MessageType::KeyExpirableMessage(v) => Some(
            PacketExpiration::ExpirableKey {
                expiration: if now as int + v as int <= u64::MAX as int {
                    (now + v) as u64
                } else {
                    u64::MAX as u64
                },
            },
        ),
        MessageType::KeyMessage => Some(PacketExpiration::Key),
    }
}

impl PacketExpiration {
    pub fn from_message_type(message_type: MessageType, now: u64) -> (r: Option<PacketExpiration>)
        ensures
            r == expiration_of_type(message_type, now),
    {
        match message_type {
            MessageType::Forgettable => None,
            MessageType::KeyExpirableMessage(v) => {
                let expiration: u64 = if now <= u64::MAX - v {
                    now + v
                } else {
                    u64::MAX
                };
                Some(PacketExpiration::ExpirableKey { expiration })
            },
            MessageType::KeyMessage => Some(PacketExpiration::Key),
        }
    }
}

/// The wire class of a (reliable) expiration.
pub fn frag_meta_of_expiration(e: Option<PacketExpiration>) -> (r: FragmentMeta)
    ensures
        r == meta_of_expiration(e),
{
    match e {
        None => FragmentMeta::Forgettable,
        Some(PacketExpiration::Key) => FragmentMeta::Key,
        Some(PacketExpiration::ExpirableKey { .. }) => FragmentMeta::KeyExpirable,
    }
}

/// The datagram of fragment `i` of a payload.
pub open spec fn frag_datagram(
    data: Seq<u8>,
    seq_id: u32,
    meta: FragmentMeta,
    ft: u8,
    i: int,
) -> Seq<u8> {
    encoded_packet(
        PacketModel::Fragment {
            seq_id,
            frag_id: i as u8,
            frag_total: ft,
            frag_meta: meta,
            data: chunk_of(data, i),
        },
    )
}

/// The datagrams of the fragments with the given ids, in order.
pub open spec fn frag_datagrams_of_ids(
    data: Seq<u8>,
    seq_id: u32,
    meta: FragmentMeta,
    ft: u8,
    ids: Seq<u8>,
) -> Seq<Seq<u8>> {
    ids.map_values(|i: u8| frag_datagram(data, seq_id, meta, ft, i as int))
}

/// The ids `0..=ft`, in order.
pub open spec fn all_frag_ids(ft: u8) -> Seq<u8> {
    Seq::new((ft + 1) as nat, |i: int| i as u8)
}

/// One outgoing reliable message, kept for retransmission.
pub struct SentDataSet {
    pub data: Vec<u8>,
    pub frag_total: u8,
    pub expiration_type: PacketExpiration,
    /// The latest ack bitmap and when it arrived.
    pub last_received_ack: Option<(u64, Ack)>,
    pub last_sent_packet: u64,
    /// When a fully-ones ack was first observed.
    pub complete_since: Option<u64>,
    /// (oldest, newest) acks received since the last retransmission.
    pub unanswered_ack: Option<(u64, u64)>,
    pub message_priority: MessagePriority,
}

/// The message has passed its deadline.
pub open spec fn is_expired_spec(s: SentDataSet, now: u64) -> bool {
    match s.expiration_type {
        PacketExpiration::ExpirableKey { expiration } => now > expiration,
        PacketExpiration::Key => false,
    }
}

/// A fully acknowledged message is dropped once the grace window after the
/// first complete ack has passed.
pub open spec fn cleanup_due_spec(s: SentDataSet, now: u64) -> bool {
    match s.complete_since {
        Some(t) => now >= t && now as int - t as int >= SEQ_DATA_CLEANUP_DELAY_MS as int,
        None => false,
    }
}

/// A retransmission is owed: the full resend delay has passed since the
/// last transmission, or acks have arrived without completing the message
/// and the oldest is over 4/5 (or the newest over 3/5) of the delay old.
pub open spec fn resend_due_spec(s: SentDataSet, now: u64) -> bool {
    let d = resend_delay_spec(s.message_priority) as int;
    ||| now as int >= s.last_sent_packet as int + d
    ||| (s.unanswered_ack matches Some((oldest, newest)) && (now as int >= oldest as int + d * 4 / 5
        || (now >= newest && now as int - newest as int >= d * 3 / 5)))
}

/// The bitmap of the last ack reports every fragment received.
pub open spec fn last_ack_complete(s: SentDataSet) -> bool {
    s.last_received_ack matches Some((t, a)) && missing_ids(a@, s.frag_total).len() == 0
}

impl SentDataSet {
    /// The payload is what the fragments were cut from.
    pub open spec fn wf(&self) -> bool {
        &&& 1 <= self.data@.len()
        &&& self.data@.len() <= MAX_FRAGMENTS_IN_MESSAGE * MAX_FRAGMENT_MESSAGE_SIZE
        &&& self.frag_total as int == chunk_count(self.data@.len() as int) - 1
    }

    pub fn new(
        data: Vec<u8>,
        frag_total: u8,
        now: u64,
        expiration_type: PacketExpiration,
        message_priority: MessagePriority,
    ) -> (r: SentDataSet)
        requires
            1 <= data@.len() <= MAX_FRAGMENTS_IN_MESSAGE * MAX_FRAGMENT_MESSAGE_SIZE,
            frag_total as int == chunk_count(data@.len() as int) - 1,
        ensures
            r.wf(),
            r.data@ == data@,
            r.frag_total == frag_total,
            r.expiration_type == expiration_type,
            r.last_received_ack is None,
            r.last_sent_packet == now,
            r.complete_since is None,
            r.unanswered_ack is None,
            r.message_priority == message_priority,
    {
        SentDataSet {
            data,
            frag_total,
            expiration_type,
            last_received_ack: None,
            last_sent_packet: now,
            unanswered_ack: None,
            complete_since: None,
            message_priority,
        }
    }

    pub fn is_expired(&self, now: u64) -> (r: bool)
        ensures
            r == is_expired_spec(*self, now),
    {
        match self.expiration_type {
            PacketExpiration::ExpirableKey { expiration } => now > expiration,
            PacketExpiration::Key => false,
        }
    }
}

/// What one (attempted) retransmission does: the bookkeeping fields of the
/// set advance, and — unless the connection is finished — the datagrams of
/// exactly the missing fragments (all of them when no ack was ever
/// received) are queued, in id order.
pub open spec fn resend_post(
    s0: SentDataSet,
    s1: SentDataSet,
    out0: Seq<Seq<u8>>,
    out1: Seq<Seq<u8>>,
    finished: bool,
    seq_id: u32,
    now: u64,
    r: Option<u64>,
) -> bool {
    let meta = meta_of_expiration(Some(s0.expiration_type));
    let ft = s0.frag_total;
    &&& s1.data == s0.data
    &&& s1.frag_total == s0.frag_total
    &&& s1.expiration_type == s0.expiration_type
    &&& s1.message_priority == s0.message_priority
    &&& s1.complete_since == s0.complete_since
    &&& s1.last_received_ack == s0.last_received_ack
    &&& s1.unanswered_ack is None
    &&& s1.last_sent_packet == now
    &&& match s0.last_received_ack {
        None => r is None && (if finished {
            out1 == out0
        } else {
            out1 == out0 + frag_datagrams_of_ids(s0.data@, seq_id, meta, ft, all_frag_ids(ft))
        }),
        Some((t, a)) => {
            let missing = missing_ids(a@, ft);
            &&& r == (if missing.len() == 0 {
                Some(t)
            } else {
                None::<u64>
            })
            &&& (if finished {
                out1 == out0
            } else {
                out1 == out0 + frag_datagrams_of_ids(s0.data@, seq_id, meta, ft, missing)
            })
        },
    }
}

/// Queue the datagrams of every fragment the generator yields, in order.
fn send_all_fragments(
    generator: &mut FragmentGenerator,
    seq_id: u32,
    socket: &mut UdpSocketWrapper,
)
    requires
        old(generator)@.wf(),
        old(generator)@.next_frag == 0,
        old(generator)@.seq_id == seq_id,
        old(socket).wf(),
    ensures
        final(socket).wf(),
        final(socket).status_spec() == old(socket).status_spec(),
        if is_finished_spec(old(socket).status_spec()) {
            final(socket).out() == old(socket).out()
        } else {
            final(socket).out() == old(socket).out() + frag_datagrams_of_ids(
                old(generator)@.data,
                seq_id,
                old(generator)@.frag_meta,
                old(generator)@.frag_total,
                all_frag_ids(old(generator)@.frag_total),
            )
        },
{
    let ghost g0 = old(generator)@;
    let ghost out0 = old(socket).out();
    let ghost finished = is_finished_spec(old(socket).status_spec());
    let total: u8 = generator.frag_total();
    let mut sent: usize = 0;
    while sent < total as usize + 1
        invariant
            total == g0.frag_total,
            generator@.wf(),
            generator@.data == g0.data,
            generator@.seq_id == seq_id,
            generator@.frag_total == g0.frag_total,
            generator@.frag_meta == g0.frag_meta,
            generator@.next_frag == sent as int,
            sent <= g0.frag_total as int + 1,
            socket.wf(),
            socket.status_spec() == old(socket).status_spec(),
            finished == is_finished_spec(old(socket).status_spec()),
            if finished {
                socket.out() == out0
            } else {
                socket.out() == out0 + frag_datagrams_of_ids(
                    g0.data,
                    seq_id,
                    g0.frag_meta,
                    g0.frag_total,
                    all_frag_ids(g0.frag_total).take(sent as int),
                )
            },
        decreases g0.frag_total as int + 1 - sent,
    {
        let f = match generator.next() {
            Some(f) => f,
            None => {
                proof {
                    assert(false);
                }
                return ;
            },
        };
        let packet = UdpPacket::from_fragment(&f);
        let ghost pre_out = socket.out();
        socket.send_udp_packet(&packet);
        proof {
            if !finished {
                assert(socket.out() == pre_out.push(packet@));
            }
            assert((PacketModel::Fragment {
                seq_id: f.seq_id,
                frag_id: f.frag_id,
                frag_total: f.frag_total,
                frag_meta: f.frag_meta,
                data: f.data@,
            }) =~= (PacketModel::Fragment {
                seq_id,
                frag_id: (sent as int) as u8,
                frag_total: g0.frag_total,
                frag_meta: g0.frag_meta,
                data: chunk_of(g0.data, sent as int),
            }));
            let ids = all_frag_ids(g0.frag_total);
            assert(ids.take(sent as int + 1) =~= ids.take(sent as int).push(sent as u8));
            assert(frag_datagrams_of_ids(
                g0.data,
                seq_id,
                g0.frag_meta,
                g0.frag_total,
                ids.take(sent as int + 1),
            ) =~= frag_datagrams_of_ids(
                g0.data,
                seq_id,
                g0.frag_meta,
                g0.frag_total,
                ids.take(sent as int),
            ).push(frag_datagram(g0.data, seq_id, g0.frag_meta, g0.frag_total, sent as int)));
            assert(packet@ == frag_datagram(g0.data, seq_id, g0.frag_meta, g0.frag_total,
                sent as int));
            if !finished {
                assert(socket.out() == (out0 + frag_datagrams_of_ids(
                    g0.data,
                    seq_id,
                    g0.frag_meta,
                    g0.frag_total,
                    ids.take(sent as int),
                )).push(packet@));
                assert((out0 + frag_datagrams_of_ids(
                    g0.data,
                    seq_id,
                    g0.frag_meta,
                    g0.frag_total,
                    ids.take(sent as int),
                )).push(packet@) =~= out0 + frag_datagrams_of_ids(
                    g0.data,
                    seq_id,
                    g0.frag_meta,
                    g0.frag_total,
                    ids.take(sent as int),
                ).push(packet@));
                assert(socket.out() =~= out0 + frag_datagrams_of_ids(
                    g0.data,
                    seq_id,
                    g0.frag_meta,
                    g0.frag_total,
                    ids.take(sent as int + 1),
                ));
            }
        }
        sent = sent + 1;
    }
    proof {
        assert(all_frag_ids(g0.frag_total).take(g0.frag_total as int + 1) =~= all_frag_ids(
            g0.frag_total,
        ));
    }
}

impl SentDataSet {
    /// Retransmit what the last ack reports missing (everything when no ack
    /// was ever received), and report since when the remote has had it all.
    pub fn resend_packets(&mut self, seq_id: u32, now: u64, socket: &mut UdpSocketWrapper) -> (r:
        Option<u64>)
        requires
            old(self).wf(),
            old(socket).wf(),
        ensures
            final(self).wf(),
            final(socket).wf(),
            final(socket).status_spec() == old(socket).status_spec(),
            resend_post(
                *old(self),
                *final(self),
                old(socket).out(),
                final(socket).out(),
                is_finished_spec(old(socket).status_spec()),
                seq_id,
                now,
                r,
            ),
    {
        let ghost s0 = *old(self);
        let ghost out0 = old(socket).out();
        let ghost finished = is_finished_spec(old(socket).status_spec());
        let frag_meta = frag_meta_of_expiration(Some(self.expiration_type));
        let (mut generator, frag_total) = match build_fragments_from_bytes(
            &self.data,
            seq_id,
            frag_meta,
        ) {
            Ok(p) => p,
            Err(_) => {
                proof {
                    assert(false);
                }
                return None;
            },
        };
        proof {
            assert(frag_total == self.frag_total);
        }
        let result: Option<u64>;
        let has_ack: bool;
        let ack_time: u64;
        let missing: Vec<u8>;
        match &self.last_received_ack {
            Some((t, ack)) => {
                has_ack = true;
                ack_time = *t;
                missing = ack.missing_iter(self.frag_total);
            },
            None => {
                has_ack = false;
                ack_time = 0;
                missing = Vec::new();
            },
        }
        if !has_ack {
            // no ack yet: retransmit every fragment
            send_all_fragments(&mut generator, seq_id, socket);
            result = None;
        } else {
            // gather the fragments, indexed by id
            let mut all_fragments: Vec<Fragment> = Vec::new();
            while all_fragments.len() < frag_total as usize + 1
                invariant
                    frag_total == s0.frag_total,
                    generator@.wf(),
                    generator@.data == s0.data@,
                    generator@.seq_id == seq_id,
                    generator@.frag_total == frag_total,
                    generator@.frag_meta == meta_of_expiration(Some(s0.expiration_type)),
                    generator@.next_frag == all_fragments@.len(),
                    all_fragments@.len() <= frag_total as int + 1,
                    forall|j: int|
                        0 <= j < all_fragments@.len() ==> {
                            let f = #[trigger] all_fragments@[j];
                            &&& f.seq_id == seq_id
                            &&& f.frag_id as int == j
                            &&& f.frag_total == frag_total
                            &&& f.frag_meta == meta_of_expiration(Some(s0.expiration_type))
                            &&& f.data@ == chunk_of(s0.data@, j)
                        },
                decreases frag_total as int + 1 - all_fragments@.len(),
            {
                let f = match generator.next() {
                    Some(f) => f,
                    None => {
                        proof {
                            assert(false);
                        }
                        return None;
                    },
                };
                all_fragments.push(f);
            }
            let ghost gmissing = missing@;
            let mut mi: usize = 0;
            while mi < missing.len()
                invariant
                    missing@ == gmissing,
                    gmissing == missing_ids(
                        s0.last_received_ack->Some_0.1@,
                        s0.frag_total,
                    ),
                    s0.last_received_ack is Some,
                    mi <= gmissing.len(),
                    frag_total == s0.frag_total,
                    all_fragments@.len() == frag_total as int + 1,
                    forall|j: int|
                        0 <= j < all_fragments@.len() ==> {
                            let f = #[trigger] all_fragments@[j];
                            &&& f.seq_id == seq_id
                            &&& f.frag_id as int == j
                            &&& f.frag_total == frag_total
                            &&& f.frag_meta == meta_of_expiration(Some(s0.expiration_type))
                            &&& f.data@ == chunk_of(s0.data@, j)
                        },
                    socket.wf(),
                    socket.status_spec() == old(socket).status_spec(),
                    finished == is_finished_spec(old(socket).status_spec()),
                    if finished {
                        socket.out() == out0
                    } else {
                        socket.out() == out0 + frag_datagrams_of_ids(
                            s0.data@,
                            seq_id,
                            meta_of_expiration(Some(s0.expiration_type)),
                            s0.frag_total,
                            gmissing.take(mi as int),
                        )
                    },
                decreases gmissing.len() - mi,
            {
                let id = missing[mi];
                proof {
                    assert(gmissing.contains(gmissing[mi as int]));
                    crate::ack::lemma_missing_ids_upto_contains(
                        s0.last_received_ack->Some_0.1@,
                        s0.frag_total as int + 1,
                        id,
                    );
                }
                let f = &all_fragments[id as usize];
                let packet = UdpPacket::from_fragment(f);
                socket.send_udp_packet(&packet);
                proof {
                    let meta = meta_of_expiration(Some(s0.expiration_type));
                    assert((PacketModel::Fragment {
                        seq_id: f.seq_id,
                        frag_id: f.frag_id,
                        frag_total: f.frag_total,
                        frag_meta: f.frag_meta,
                        data: f.data@,
                    }) =~= (PacketModel::Fragment {
                        seq_id,
                        frag_id: (id as int) as u8,
                        frag_total: s0.frag_total,
                        frag_meta: meta,
                        data: chunk_of(s0.data@, id as int),
                    }));
                    assert(gmissing.take(mi as int + 1) =~= gmissing.take(mi as int).push(
                        gmissing[mi as int],
                    ));
                    assert(frag_datagrams_of_ids(
                        s0.data@,
                        seq_id,
                        meta,
                        s0.frag_total,
                        gmissing.take(mi as int + 1),
                    ) =~= frag_datagrams_of_ids(
                        s0.data@,
                        seq_id,
                        meta,
                        s0.frag_total,
                        gmissing.take(mi as int),
                    ).push(frag_datagram(s0.data@, seq_id, meta, s0.frag_total, id as int)));
                    assert(packet@ == frag_datagram(s0.data@, seq_id, meta, s0.frag_total,
                        id as int));
                    if !finished {
                        assert((out0 + frag_datagrams_of_ids(
                            s0.data@,
                            seq_id,
                            meta,
                            s0.frag_total,
                            gmissing.take(mi as int),
                        )).push(packet@) =~= out0 + frag_datagrams_of_ids(
                            s0.data@,
                            seq_id,
                            meta,
                            s0.frag_total,
                            gmissing.take(mi as int),
                        ).push(packet@));
                        assert(socket.out() =~= out0 + frag_datagrams_of_ids(
                            s0.data@,
                            seq_id,
                            meta,
                            s0.frag_total,
                            gmissing.take(mi as int + 1),
                        ));
                    }
                }
                mi = mi + 1;
            }
            proof {
                assert(gmissing.take(gmissing.len() as int) =~= gmissing);
            }
            result = if missing.len() == 0 {
                Some(ack_time)
            } else {
                None
            };
        }
        self.unanswered_ack = None;
        self.last_sent_packet = now;
        result
    }
}

/// `d * num / 5`, exactly, without overflowing.
fn delay_frac(d: u64, num: u64) -> (r: u64)
    requires
        1 <= num <= 4,
    ensures
        r == d as int * num as int / 5,
{
    proof {
        assert(d as int * num as int <= d as int * 4) by (nonlinear_arith)
            requires
                num <= 4,
                0 <= d as int,
        ;
        lemma_div_is_ordered(d as int * num as int, d as int * 5, 5);
        assert(d as int * 5 / 5 == d as int) by (nonlinear_arith);
    }
    ((d as u128) * (num as u128) / 5) as u64
}

/// The fragment ids a retransmission would send: the missing ones, or all
/// of them when no ack was ever received.
pub open spec fn resend_ids_spec(s: SentDataSet) -> Seq<u8> {
    match s.last_received_ack {
        None => all_frag_ids(s.frag_total),
        Some((t, a)) => missing_ids(a@, s.frag_total),
    }
}

/// `d` is the datagram of a still-missing fragment of some kept,
/// retransmission-due set in `sets`.
pub open spec fn due_resend_datagram(sets: Map<u32, SentDataSet>, now: u64, d: Seq<u8>) -> bool {
    exists|k: u32, i: int|
        #![trigger resend_ids_spec(sets[k])[i]]
        sets.dom().contains(k) && !tick_removed(sets[k], now) && sets[k].complete_since is None
            && resend_due_spec(sets[k], now) && 0 <= i < resend_ids_spec(sets[k]).len() && d
            == frag_datagram(
            sets[k].data@,
            k,
            meta_of_expiration(Some(sets[k].expiration_type)),
            sets[k].frag_total,
            resend_ids_spec(sets[k])[i] as int,
        )
}

/// A set's fate at one tick: dropped when expired or done with its grace
/// window.
pub open spec fn tick_removed(s: SentDataSet, now: u64) -> bool {
    is_expired_spec(s, now) || cleanup_due_spec(s, now)
}

/// A kept set after one tick: a due retransmission advances the send
/// bookkeeping and records completion when the last ack was all-ones.
pub open spec fn tick_set_transform(s: SentDataSet, now: u64) -> SentDataSet {
    if s.complete_since is Some {
        s
    } else if resend_due_spec(s, now) {
        SentDataSet {
            unanswered_ack: None,
            last_sent_packet: now,
            complete_since: if last_ack_complete(s) {
                Some(s.last_received_ack->Some_0.0)
            } else {
                None
            },
            ..s
        }
    } else {
        s
    }
}

impl SentDataSet {
    /// Retransmit when a retransmission is owed; otherwise do nothing.
    pub fn attempt_resend_packets(&mut self, seq_id: u32, now: u64, socket: &mut UdpSocketWrapper)
        -> (r: Option<u64>)
        requires
            old(self).wf(),
            old(socket).wf(),
        ensures
            final(self).wf(),
            final(socket).wf(),
            final(socket).status_spec() == old(socket).status_spec(),
            if resend_due_spec(*old(self), now) {
                resend_post(
                    *old(self),
                    *final(self),
                    old(socket).out(),
                    final(socket).out(),
                    is_finished_spec(old(socket).status_spec()),
                    seq_id,
                    now,
                    r,
                )
            } else {
                *final(self) == *old(self) && final(socket).out() == old(socket).out() && r
                    is None
            },
    {
        let d = self.message_priority.resend_delay();
        let mut due: bool = now >= self.last_sent_packet && now - self.last_sent_packet >= d;
        if !due {
            match self.unanswered_ack {
                Some((oldest, newest)) => {
                    let d45 = delay_frac(d, 4);
                    let d35 = delay_frac(d, 3);
                    due = (now >= oldest && now - oldest >= d45) || (now >= newest && now - newest
                        >= d35);
                },
                None => {},
            }
        }
        if due {
            self.resend_packets(seq_id, now, socket)
        } else {
            None
        }
    }
}

/// Holds outgoing reliable messages and selectively retransmits the
/// fragments the remote still misses, until acknowledged or expired.
pub struct SentDataTracker {
    sets: VecMap<SentDataSet>,
}

impl SentDataTracker {
    /// The tracked messages, by seq_id.
    pub closed spec fn sets(&self) -> Map<u32, SentDataSet> {
        self.sets@
    }

    pub closed spec fn wf(&self) -> bool {
        &&& self.sets.wf()
        &&& forall|k: u32| #[trigger] self.sets@.dom().contains(k) ==> self.sets@[k].wf()
    }

    pub fn new() -> (r: SentDataTracker)
        ensures
            r.wf(),
            r.sets() == Map::<u32, SentDataSet>::empty(),
    {
        SentDataTracker { sets: VecMap::new() }
    }

    /// Transmit every fragment of a message at once and, unless it is
    /// Forgettable, register it for retransmission.
    ///
    /// Fails exactly when the payload is empty or needs more than 256
    /// fragments, in which case nothing is sent or registered.
    pub fn send_data(
        &mut self,
        seq_id: u32,
        data: Vec<u8>,
        now: u64,
        message_type: MessageType,
        message_priority: MessagePriority,
        socket: &mut UdpSocketWrapper,
    ) -> (r: Result<(), ()>)
        requires
            old(self).wf(),
            old(socket).wf(),
            !old(self).sets().dom().contains(seq_id),
        ensures
            final(self).wf(),
            final(socket).wf(),
            final(socket).status_spec() == old(socket).status_spec(),
            match r {
                Err(_) => (data@.len() == 0 || data@.len() > MAX_FRAGMENTS_IN_MESSAGE
                    * MAX_FRAGMENT_MESSAGE_SIZE) && final(self).sets() == old(self).sets()
                    && final(socket).out() == old(socket).out(),
                Ok(_) => ({
                    let meta = meta_of_expiration(expiration_of_type(message_type, now));
                    let ft = (chunk_count(data@.len() as int) - 1) as u8;
                    &&& 1 <= data@.len() <= MAX_FRAGMENTS_IN_MESSAGE * MAX_FRAGMENT_MESSAGE_SIZE
                    &&& (if is_finished_spec(old(socket).status_spec()) {
                        final(socket).out() == old(socket).out()
                    } else {
                        final(socket).out() == old(socket).out() + frag_datagrams_of_ids(
                            data@,
                            seq_id,
                            meta,
                            ft,
                            all_frag_ids(ft),
                        )
                    })
                    &&& if message_type is Forgettable {
                        final(self).sets() == old(self).sets()
                    } else {
                        &&& final(self).sets().dom() == old(self).sets().dom().insert(seq_id)
                        &&& (forall|k: u32|
                            k != seq_id && old(self).sets().dom().contains(k)
                                ==> #[trigger] final(self).sets()[k] == old(self).sets()[k])
                        &&& ({
                            let set = final(self).sets()[seq_id];
                            &&& set.data@ == data@
                            &&& set.frag_total == ft
                            &&& Some(set.expiration_type) == expiration_of_type(message_type, now)
                            &&& set.last_received_ack is None
                            &&& set.last_sent_packet == now
                            &&& set.complete_since is None
                            &&& set.unanswered_ack is None
                            &&& set.message_priority == message_priority
                        })
                    }
                }),
            },
    {
        let expiration = PacketExpiration::from_message_type(message_type, now);
        let frag_meta = frag_meta_of_expiration(expiration);
        let (mut generator, frag_total) = match build_fragments_from_bytes(
            &data,
            seq_id,
            frag_meta,
        ) {
            Ok(p) => p,
            Err(_) => {
                return Err(());
            },
        };
        send_all_fragments(&mut generator, seq_id, socket);
        match expiration {
            Some(exp) => {
                let set = SentDataSet::new(data, frag_total, now, exp, message_priority);
                self.sets.insert(seq_id, set);
                proof {
                    assert(self.sets@.dom() =~= old(self).sets().dom().insert(seq_id));
                }
            },
            None => {},
        }
        Ok(())
    }

    /// Whether the remote is known to have received the whole message.
    /// Fails when the seq_id is not (or no longer) tracked.
    pub fn is_seq_id_received(&self, seq_id: u32) -> (r: Result<bool, ()>)
        requires
            self.wf(),
        ensures
            match r {
                Err(_) => !self.sets().dom().contains(seq_id),
                Ok(b) => self.sets().dom().contains(seq_id) && b == (self.sets()[seq_id].complete_since
                    is Some),
            },
    {
        match self.sets.get(seq_id) {
            None => Err(()),
            Some(set) => Ok(set.complete_since.is_some()),
        }
    }

    /// Store a newly arrived ack bitmap for a tracked message; an unknown
    /// seq_id is silently dropped.
    pub fn receive_ack(&mut self, seq_id: u32, data: Vec<u8>, now: u64)
        requires
            old(self).wf(),
        ensures
            final(self).wf(),
            if old(self).sets().dom().contains(seq_id) {
                &&& final(self).sets().dom() == old(self).sets().dom()
                &&& (forall|k: u32|
                    k != seq_id && old(self).sets().dom().contains(k)
                        ==> #[trigger] final(self).sets()[k] == old(self).sets()[k])
                &&& ({
                    let s0 = old(self).sets()[seq_id];
                    let s1 = final(self).sets()[seq_id];
                    &&& s1.data@ == s0.data@
                    &&& s1.frag_total == s0.frag_total
                    &&& s1.expiration_type == s0.expiration_type
                    &&& s1.last_sent_packet == s0.last_sent_packet
                    &&& s1.complete_since == s0.complete_since
                    &&& s1.message_priority == s0.message_priority
                    &&& (s1.last_received_ack matches Some((t, a)) && t == now && a@ == data@)
                    &&& s1.unanswered_ack == (match s0.unanswered_ack {
                        Some((oldest, _)) => Some((oldest, now)),
                        None => Some((now, now)),
                    })
                })
            } else {
                final(self).sets() == old(self).sets()
            },
    {
        match self.sets.remove(seq_id) {
            Some(mut set) => {
                let ack = Ack::new(data);
                set.last_received_ack = Some((now, ack));
                match set.unanswered_ack {
                    Some((oldest, _)) => {
                        set.unanswered_ack = Some((oldest, now));
                    },
                    None => {
                        set.unanswered_ack = Some((now, now));
                    },
                }
                self.sets.insert(seq_id, set);
                proof {
                    assert(self.sets@.dom() =~= old(self).sets().dom());
                }
            },
            None => {
                proof {
                    assert(self.sets@ =~= old(self).sets());
                }
            },
        }
    }

    /// One scheduling turn: drop expired and long-complete messages, and
    /// retransmit what is owed. For every message whose retransmission is
    /// due, the datagram of each still-missing fragment is queued (all of
    /// them when no ack was ever received), unless the connection is
    /// finished.
    pub fn next_tick(&mut self, now: u64, socket: &mut UdpSocketWrapper)
        requires
            old(self).wf(),
            old(socket).wf(),
        ensures
            final(self).wf(),
            final(socket).wf(),
            final(socket).status_spec() == old(socket).status_spec(),
            forall|k: u32| #[trigger]
                old(self).sets().dom().contains(k) ==> (final(self).sets().dom().contains(k) <==> !tick_removed(
                    old(self).sets()[k],
                    now,
                )),
            forall|k: u32| #[trigger]
                final(self).sets().dom().contains(k) ==> old(self).sets().dom().contains(k)
                    && final(self).sets()[k] == tick_set_transform(old(self).sets()[k], now),
            old(socket).out().len() <= final(socket).out().len(),
            forall|j: int|
                0 <= j < old(socket).out().len() ==> #[trigger] final(socket).out()[j]
                    == old(socket).out()[j],
            is_finished_spec(old(socket).status_spec()) ==> final(socket).out() == old(
                socket,
            ).out(),
            // nothing beyond the due resends is ever queued: every appended
            // datagram is a missing fragment of a kept, resend-due set
            forall|j: int|
                old(socket).out().len() <= j < final(socket).out().len() ==> due_resend_datagram(
                    old(self).sets(),
                    now,
                    #[trigger] final(socket).out()[j],
                ),
            !is_finished_spec(old(socket).status_spec()) ==> forall|k: u32, j: int|
                (#[trigger] old(self).sets().dom().contains(k)) && !tick_removed(
                    old(self).sets()[k],
                    now,
                ) && old(self).sets()[k].complete_since is None && resend_due_spec(
                    old(self).sets()[k],
                    now,
                ) && 0 <= j < resend_ids_spec(old(self).sets()[k]).len()
                    ==> final(socket).out().contains(
                    #[trigger] frag_datagram(
                        old(self).sets()[k].data@,
                        k,
                        meta_of_expiration(Some(old(self).sets()[k].expiration_type)),
                        old(self).sets()[k].frag_total,
                        resend_ids_spec(old(self).sets()[k])[j] as int,
                    ),
                ),
    {
        let ghost old_sets = old(self).sets();
        let ghost finished = is_finished_spec(old(socket).status_spec());
        let keys = self.sets.keys();
        let mut i: usize = 0;
        while i < keys.len()
            invariant
                self.wf(),
                socket.wf(),
                socket.status_spec() == old(socket).status_spec(),
                finished == is_finished_spec(old(socket).status_spec()),
                old_sets == old(self).sets(),
                i <= keys@.len(),
                keys@.no_duplicates(),
                forall|j: int| 0 <= j < keys@.len() ==> old_sets.dom().contains(#[trigger] keys@[j]),
                forall|k: u32| #[trigger] old_sets.dom().contains(k) ==> keys@.contains(k),
                forall|k: u32| #[trigger]
                    old_sets.dom().contains(k) && !keys@.take(i as int).contains(k) ==> (
                    self.sets().dom().contains(k) && self.sets()[k] == old_sets[k]),
                forall|k: u32| #[trigger]
                    old_sets.dom().contains(k) && keys@.take(i as int).contains(k) ==> (
                    self.sets().dom().contains(k) <==> !tick_removed(old_sets[k], now)),
                forall|k: u32| #[trigger]
                    old_sets.dom().contains(k) && keys@.take(i as int).contains(k)
                    && self.sets().dom().contains(k) ==> self.sets()[k] == tick_set_transform(
                    old_sets[k],
                    now,
                ),
                forall|k: u32| #[trigger]
                    self.sets().dom().contains(k) ==> old_sets.dom().contains(k),
                old(socket).out().len() <= socket.out().len(),
                forall|j: int|
                    0 <= j < old(socket).out().len() ==> #[trigger] socket.out()[j] == old(
                        socket,
                    ).out()[j],
                finished ==> socket.out() == old(socket).out(),
                forall|j: int|
                    old(socket).out().len() <= j < socket.out().len() ==> due_resend_datagram(
                        old_sets,
                        now,
                        #[trigger] socket.out()[j],
                    ),
                !finished ==> forall|k: u32, j: int|
                    (#[trigger] old_sets.dom().contains(k)) && keys@.take(i as int).contains(k)
                        && !tick_removed(old_sets[k], now) && old_sets[k].complete_since is None
                        && resend_due_spec(old_sets[k], now) && 0 <= j < resend_ids_spec(
                        old_sets[k],
                    ).len() ==> socket.out().contains(
                        #[trigger] frag_datagram(
                            old_sets[k].data@,
                            k,
                            meta_of_expiration(Some(old_sets[k].expiration_type)),
                            old_sets[k].frag_total,
                            resend_ids_spec(old_sets[k])[j] as int,
                        ),
                    ),
            decreases keys@.len() - i,
        {
            let k = keys[i];
            proof {
                assert(old_sets.dom().contains(k));
                assert(!keys@.take(i as int).contains(k)) by {
                    if keys@.take(i as int).contains(k) {
                        let j = choose|j: int|
                            0 <= j < i && #[trigger] keys@.take(i as int)[j] == k;
                        assert(keys@[j] == keys@[i as int]);
                    }
                }
                assert(keys@.take(i as int + 1) =~= keys@.take(i as int).push(k));
                assert forall|v: u32| #[trigger]
                    keys@.take(i as int + 1).contains(v) implies keys@.take(i as int).contains(v)
                    || v == k by {
                    lemma_seq_contains_after_push(keys@.take(i as int), k, v);
                }
                assert forall|v: u32|
                    keys@.take(i as int).contains(v) || v == k implies #[trigger] keys@.take(
                    i as int + 1,
                ).contains(v) by {
                    lemma_seq_contains_after_push(keys@.take(i as int), k, v);
                }
            }
            let mut set = match self.sets.remove(k) {
                Some(s) => s,
                None => {
                    proof {
                        assert(false);
                    }
                    return ;
                },
            };
            let ghost out_before = socket.out();
            let mut keep = true;
            if set.is_expired(now) {
                keep = false;
            } else {
                let complete_since = set.complete_since;
                match complete_since {
                    Some(complete_time) => {
                        if now >= complete_time && now - complete_time
                            >= SEQ_DATA_CLEANUP_DELAY_MS {
                            keep = false;
                        }
                    },
                    None => {
                        let ack_received = set.attempt_resend_packets(k, now, socket);
                        match ack_received {
                            Some(t) => {
                                set.complete_since = Some(t);
                            },
                            None => {},
                        }
                    },
                }
            }
            if keep {
                self.sets.insert(k, set);
            }
            proof {
                // every index added this iteration (or earlier) carries a
                // due resend of a kept set
                assert forall|j: int|
                    old(socket).out().len() <= j < socket.out().len() implies due_resend_datagram(
                        old_sets,
                        now,
                        #[trigger] socket.out()[j],
                    ) by {
                    if j < out_before.len() {
                        assert(socket.out()[j] == out_before[j]);
                    } else {
                        let ids = resend_ids_spec(old_sets[k]);
                        let seg = frag_datagrams_of_ids(
                            old_sets[k].data@,
                            k,
                            meta_of_expiration(Some(old_sets[k].expiration_type)),
                            old_sets[k].frag_total,
                            ids,
                        );
                        assert(socket.out() == out_before + seg);
                        let i2 = j - out_before.len();
                        assert(socket.out()[j] == seg[i2]);
                        assert(seg[i2] == frag_datagram(
                            old_sets[k].data@,
                            k,
                            meta_of_expiration(Some(old_sets[k].expiration_type)),
                            old_sets[k].frag_total,
                            resend_ids_spec(old_sets[k])[i2] as int,
                        ));
                    }
                }
                // earlier containment claims survive: the queue only grew
                if !finished {
                    assert forall|k2: u32, j: int|
                        (#[trigger] old_sets.dom().contains(k2)) && keys@.take(
                            i as int + 1,
                        ).contains(k2) && !tick_removed(old_sets[k2], now)
                        && old_sets[k2].complete_since is None && resend_due_spec(
                        old_sets[k2],
                        now,
                    ) && 0 <= j < resend_ids_spec(old_sets[k2]).len() implies socket.out().contains(
                        #[trigger] frag_datagram(
                            old_sets[k2].data@,
                            k2,
                            meta_of_expiration(Some(old_sets[k2].expiration_type)),
                            old_sets[k2].frag_total,
                            resend_ids_spec(old_sets[k2])[j] as int,
                        ),
                    ) by {
                        let x = frag_datagram(
                            old_sets[k2].data@,
                            k2,
                            meta_of_expiration(Some(old_sets[k2].expiration_type)),
                            old_sets[k2].frag_total,
                            resend_ids_spec(old_sets[k2])[j] as int,
                        );
                        if k2 == k {
                            // this iteration queued exactly the resend ids
                            let ids = resend_ids_spec(old_sets[k]);
                            let seg = frag_datagrams_of_ids(
                                old_sets[k].data@,
                                k,
                                meta_of_expiration(Some(old_sets[k].expiration_type)),
                                old_sets[k].frag_total,
                                ids,
                            );
                            assert(socket.out() == out_before + seg);
                            assert(socket.out()[out_before.len() + j] == seg[j]);
                            assert(seg[j] == x);
                        } else {
                            assert(keys@.take(i as int).contains(k2));
                            let idx = choose|idx: int|
                                0 <= idx < out_before.len() && out_before[idx] == x;
                            assert(socket.out()[idx] == x);
                        }
                    }
                }
            }
            i = i + 1;
        }
        proof {
            assert(keys@.take(keys@.len() as int) =~= keys@);
        }
    }
}

} // verus!
