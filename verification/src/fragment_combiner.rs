use vstd::prelude::*;
use vstd::seq_lib::lemma_seq_contains_after_push;
use crate::ack::{ack_bit, ack_bitmap_spec, ack_size_spec, complete_ack_bitmap, Ack, Acks};
use crate::ack::lemma_ack_bitmap_spec_bits;
use crate::consts::ACK_SEND_INTERVAL_MS;
use crate::fragment::{
    all_frag_totals_equal, build_data_from_fragments, frags_complete, idx_of_id, payload_of_id,
    reassembled, reassembled_prefix, Fragment, FragmentMeta,
};
use crate::vecmap::{lemma_map_of_dom, lemma_map_of_get, map_of, unique_keys, VecMap};

verus! {

/// Milliseconds an incomplete set of a Forgettable message survives without
/// new fragments.
pub const FORGETTABLE_STALE_MS: u64 = 10_000;

/// Milliseconds an incomplete set of a reliable message survives without new
/// fragments.
pub const KEY_STALE_MS: u64 = 60_000;

/// Milliseconds a completed set is kept, to keep acking stragglers.
pub const COMPLETE_STALE_MS: u64 = 20_000;

/// The fragments gathered so far for one incoming `seq_id`, or the record of
/// its completion.
pub enum FragmentSetState {
    Incomplete { fragments: VecMap<Fragment> },
    /// (time of completion, frag_total)
    Complete(u64, u8),
}

/// All fragments received for one incoming `seq_id`.
pub struct FragmentSet {
    pub seq_id: u32,
    /// Captured from the first-seen fragment.
    pub frag_total: u8,
    pub state: FragmentSetState,
    /// Captured from the first-seen fragment; governs whether acks are sent.
    pub fragment_meta: FragmentMeta,
    /// When the last ack for this set was sent.
    pub last_sent_ack: Option<u64>,
    pub last_received: u64,
    /// Acks sent since the last new fragment arrived.
    pub acks_sent_count: u32,
}

/// The fragments held by a set (empty once complete).
pub open spec fn set_frags(s: FragmentSet) -> Map<u32, Fragment> {
    match s.state {
        FragmentSetState::Incomplete { fragments } => fragments@,
        FragmentSetState::Complete(_, _) => Map::empty(),
    }
}

/// The map keys are the stored fragments' own ids.
pub open spec fn frags_keyed_by_id(m: Map<u32, Fragment>) -> bool {
    forall|k: u32| #[trigger]
        m.dom().contains(k) ==> k <= 255 && m[k].frag_id as u32 == k
}

/// A map of fragments holds each id `0..n` exactly once and every fragment
/// declares `n` fragments in total.
pub open spec fn map_frags_complete(m: Map<u32, Fragment>, n: int) -> bool {
    &&& n >= 1
    &&& forall|k: u32| m.dom().contains(k) ==> (k as int) < n
    &&& forall|id: u32| (id as int) < n ==> m.dom().contains(id)
    &&& forall|k: u32|
        m.dom().contains(k) ==> ((#[trigger] m[k]).frag_total as int) + 1 == n
}

/// Concatenation of the payloads of ids `0..n` held in a map.
pub open spec fn map_reassembled_prefix(m: Map<u32, Fragment>, n: int) -> Seq<u8>
    decreases n,
{
    if n <= 0 {
        Seq::empty()
    } else {
        map_reassembled_prefix(m, n - 1) + m[(n - 1) as u32].data@
    }
}

/// A set no longer worth keeping: complete for 20 s, or idle for 10 s
/// (Forgettable) or 60 s (reliable).
pub open spec fn is_stale_spec(s: FragmentSet, now: u64) -> bool {
    match s.state {
        FragmentSetState::Complete(complete_time, _) => now as int >= complete_time as int
            + COMPLETE_STALE_MS as int,
        FragmentSetState::Incomplete { .. } => match s.fragment_meta {
            FragmentMeta::Forgettable => now as int >= s.last_received as int
                + FORGETTABLE_STALE_MS as int,
            _ => now as int >= s.last_received as int + KEY_STALE_MS as int,
        },
    }
}

/// An ack is due: the message is not Forgettable, fewer than two acks have
/// been sent since the last fragment arrived, and the last ack is at least
/// the ack interval old.
pub open spec fn ack_due(s: FragmentSet, now: u64) -> bool {
    &&& s.fragment_meta != FragmentMeta::Forgettable
    &&& s.acks_sent_count < 2
    &&& match s.last_sent_ack {
        None => true,
        Some(t) => now as int >= t as int + ACK_SEND_INTERVAL_MS as int,
    }
}

/// The bitmap a set acks with: all ones once complete, otherwise one bit per
/// fragment held (ids above the declared total are not representable).
pub open spec fn ack_bits_for(s: FragmentSet, bytes: Seq<u8>) -> bool {
    match s.state {
        FragmentSetState::Complete(_, ft) => bytes == complete_ack_bitmap(ft),
        FragmentSetState::Incomplete { fragments } => {
            &&& bytes.len() == ack_size_spec(s.frag_total)
            &&& forall|i: int|
                0 <= i < 8 * bytes.len() ==> (ack_bit(bytes, i) <==> (i <= s.frag_total as int
                    && fragments@.dom().contains(i as u32)))
        },
    }
}

/// A set after one tick: the ack bookkeeping advances when an ack was due.
pub open spec fn tick_set_after(s: FragmentSet, now: u64) -> FragmentSet {
    if ack_due(s, now) {
        FragmentSet {
            seq_id: s.seq_id,
            frag_total: s.frag_total,
            state: s.state,
            fragment_meta: s.fragment_meta,
            last_sent_ack: Some(now),
            last_received: s.last_received,
            acks_sent_count: (s.acks_sent_count + 1) as u32,
        }
    } else {
        s
    }
}

/// Completeness of a set after one more fragment (id `fid`, declared total
/// `ftot`) joins the fragments `m0`: each id `0..n` is present exactly once
/// and every fragment, the new one included, declares `n` fragments.
pub open spec fn complete_with(m0: Map<u32, Fragment>, fid: u32, ftot: u8, n: int) -> bool {
    &&& n >= 1
    &&& ftot as int + 1 == n
    &&& forall|k: u32| #[trigger] m0.dom().insert(fid).contains(k) ==> (k as int) < n
    &&& forall|id: u32| (id as int) < n ==> m0.dom().insert(fid).contains(id)
    &&& forall|k: u32| #[trigger]
        m0.dom().contains(k) && k != fid ==> m0[k].frag_total as int + 1 == n
}

/// The message reassembled from the fragments `m0` with the payload of id
/// `fid` overridden by `fdata`.
pub open spec fn reassembled_with(m0: Map<u32, Fragment>, fid: u32, fdata: Seq<u8>, n: int) -> Seq<
    u8,
>
    decreases n,
{
    if n <= 0 {
        Seq::empty()
    } else {
        reassembled_with(m0, fid, fdata, n - 1) + (if (n - 1) as u32 == fid {
            fdata
        } else {
            m0[(n - 1) as u32].data@
        })
    }
}

/// Inserting the fragment and reassembling equals reassembling with the
/// payload overridden.
pub proof fn lemma_reassembled_with(m0: Map<u32, Fragment>, fid: u32, f: Fragment, p: int)
    ensures
        map_reassembled_prefix(m0.insert(fid, f), p) == reassembled_with(m0, fid, f.data@, p),
    decreases p,
{
    if p > 0 {
        lemma_reassembled_with(m0, fid, f, p - 1);
    }
}

/// The two completeness readings agree once the fragment is inserted.
pub proof fn lemma_complete_with(m0: Map<u32, Fragment>, fid: u32, f: Fragment, n: int)
    requires
        f.frag_id as u32 == fid,
    ensures
        map_frags_complete(m0.insert(fid, f), n) == complete_with(m0, fid, f.frag_total, n),
{
    let m1 = m0.insert(fid, f);
    assert(m1.dom() =~= m0.dom().insert(fid));
    if map_frags_complete(m1, n) {
        assert(m1.dom().contains(fid) && m1[fid] == f);
        assert forall|k: u32| #[trigger] m0.dom().contains(k) && k != fid implies m0[k].frag_total
            as int + 1 == n by {
            assert(m1.dom().contains(k) && m1[k] == m0[k]);
        }
    }
    if complete_with(m0, fid, f.frag_total, n) {
        assert forall|k: u32| #[trigger] m1.dom().contains(k) implies (m1[k].frag_total as int) + 1
            == n by {
            if k != fid {
                assert(m1[k] == m0[k]);
            }
        }
    }
}

/// A set holding exactly the fragments of one payload (chunk `k` under id
/// `k`, each declaring the same total) is complete, and reassembles to that
/// payload exactly. Together with the contract of `push`, this says that
/// once every fragment of a fragmented payload has arrived, the payload
/// itself is emitted, exactly once.
pub proof fn lemma_fragmented_set_completes(data: Seq<u8>, m: Map<u32, Fragment>)
    requires
        1 <= data.len(),
        data.len() <= crate::consts::MAX_FRAGMENTS_IN_MESSAGE
            * crate::consts::MAX_FRAGMENT_MESSAGE_SIZE,
        forall|k: u32| #[trigger]
            m.dom().contains(k) ==> (k as int) < crate::fragment::chunk_count(data.len() as int),
        forall|id: u32|
            (id as int) < crate::fragment::chunk_count(data.len() as int) ==> m.dom().contains(id),
        forall|k: u32| #[trigger]
            m.dom().contains(k) ==> m[k].frag_total as int == crate::fragment::chunk_count(
                data.len() as int,
            ) - 1 && m[k].data@ == crate::fragment::chunk_of(data, k as int),
    ensures
        map_frags_complete(m, crate::fragment::chunk_count(data.len() as int)),
        map_reassembled_prefix(m, crate::fragment::chunk_count(data.len() as int)) == data,
{
    let n = crate::fragment::chunk_count(data.len() as int);
    crate::fragment::lemma_chunk_bounds(data.len() as int, 0);
    lemma_map_reassembled_take(data, m, n);
    crate::fragment::lemma_chunk_count_covers(data.len() as int);
    assert(data.take(data.len() as int) =~= data);
}

proof fn lemma_map_reassembled_take(data: Seq<u8>, m: Map<u32, Fragment>, p: int)
    requires
        1 <= data.len(),
        data.len() <= crate::consts::MAX_FRAGMENTS_IN_MESSAGE
            * crate::consts::MAX_FRAGMENT_MESSAGE_SIZE,
        forall|id: u32|
            (id as int) < crate::fragment::chunk_count(data.len() as int) ==> m.dom().contains(id),
        forall|k: u32| #[trigger]
            m.dom().contains(k) ==> m[k].data@ == crate::fragment::chunk_of(data, k as int),
        0 <= p <= crate::fragment::chunk_count(data.len() as int),
    ensures
        map_reassembled_prefix(m, p) == data.take(
            if p * (crate::consts::MAX_FRAGMENT_MESSAGE_SIZE as int) <= data.len() {
                p * (crate::consts::MAX_FRAGMENT_MESSAGE_SIZE as int)
            } else {
                data.len() as int
            },
        ),
    decreases p,
{
    let c = crate::consts::MAX_FRAGMENT_MESSAGE_SIZE as int;
    if p == 0 {
        assert(map_reassembled_prefix(m, 0) =~= data.take(0));
    } else {
        lemma_map_reassembled_take(data, m, p - 1);
        crate::fragment::lemma_chunk_bounds(data.len() as int, p - 1);
        crate::fragment::lemma_chunk_count_bound(data.len() as int);
        let a = (p - 1) * c;
        let b = if p * c <= data.len() {
            p * c
        } else {
            data.len() as int
        };
        assert(m.dom().contains((p - 1) as u32));
        assert(m[(p - 1) as u32].data@ == crate::fragment::chunk_of(data, p - 1));
        assert(data.take(a) + data.subrange(a, b) =~= data.take(b));
    }
}

impl FragmentSet {
    /// An incomplete set's fragments are keyed by their own ids.
    pub open spec fn wf(&self) -> bool {
        match self.state {
            FragmentSetState::Incomplete { fragments } => fragments.wf() && frags_keyed_by_id(
                fragments@,
            ),
            FragmentSetState::Complete(_, _) => true,
        }
    }

    /// A fresh, empty set.
    pub fn with_capacity(seq_id: u32, now: u64, frag_total: u8, frag_meta: FragmentMeta) -> (r:
        FragmentSet)
        ensures
            r.wf(),
            r.seq_id == seq_id,
            r.frag_total == frag_total,
            r.fragment_meta == frag_meta,
            r.last_sent_ack is None,
            r.last_received == now,
            r.acks_sent_count == 0,
            r.state matches FragmentSetState::Incomplete { .. },
            set_frags(r) == Map::<u32, Fragment>::empty(),
    {
        FragmentSet {
            seq_id,
            frag_total,
            fragment_meta: frag_meta,
            state: FragmentSetState::Incomplete { fragments: VecMap::new() },
            last_sent_ack: None,
            last_received: now,
            acks_sent_count: 0,
        }
    }

    /// Transition an incomplete set to complete, handing its fragments out.
    pub fn complete(self, now: u64) -> (r: (FragmentSet, VecMap<Fragment>))
        requires
            self.wf(),
            self.state matches FragmentSetState::Incomplete { .. },
        ensures
            r.1.wf(),
            frags_keyed_by_id(r.1@),
            r.1@ == set_frags(self),
            r.0.wf(),
            r.0.seq_id == self.seq_id,
            r.0.frag_total == self.frag_total,
            r.0.fragment_meta == self.fragment_meta,
            r.0.last_sent_ack is None,
            r.0.last_received == self.last_received,
            r.0.acks_sent_count == 0,
            r.0.state matches FragmentSetState::Complete(t, ft) && t == now && (set_frags(
                self,
            ).dom().len() >= 1 && set_frags(self).dom().len() <= 256 ==> ft as int == set_frags(
                self,
            ).dom().len() - 1),
    {
        match self.state {
            FragmentSetState::Incomplete { fragments } => {
                let n = fragments.len();
                let ft: u8 = if n == 0 {
                    0
                } else if n > 256 {
                    255
                } else {
                    (n - 1) as u8
                };
                let completed = FragmentSet {
                    seq_id: self.seq_id,
                    frag_total: self.frag_total,
                    fragment_meta: self.fragment_meta,
                    state: FragmentSetState::Complete(now, ft),
                    last_sent_ack: None,
                    last_received: self.last_received,
                    acks_sent_count: 0,
                };
                (completed, fragments)
            },
            FragmentSetState::Complete(_, _) => {
                // excluded by the precondition
                (self, VecMap::new())
            },
        }
    }

    /// The ack bitmap for this set: all ones once complete, else the bits of
    /// the fragments held.
    pub fn generate_ack(&self) -> (r: Ack)
        requires
            self.wf(),
        ensures
            ack_bits_for(*self, r@),
    {
        match &self.state {
            FragmentSetState::Complete(_, frag_total) => Ack::create_complete(*frag_total),
            FragmentSetState::Incomplete { fragments } => {
                let keys = fragments.keys();
                proof {
                    assert forall|j: int| 0 <= j < keys@.len() implies (#[trigger] keys@[j])
                        <= 255 by {
                        assert(fragments@.dom().contains(keys@[j]));
                    }
                }
                let mut ids: Vec<u8> = Vec::new();
                let mut i: usize = 0;
                while i < keys.len()
                    invariant
                        i <= keys@.len(),
                        forall|j: int| 0 <= j < keys@.len() ==> (#[trigger] keys@[j]) <= 255,
                        forall|v: u8|
                            ids@.contains(v) <==> (keys@.take(i as int).contains(v as u32) && v
                                <= self.frag_total),
                    decreases keys@.len() - i,
                {
                    let k = keys[i];
                    proof {
                        assert(keys@.take(i as int + 1) =~= keys@.take(i as int).push(keys@[
                            i as int]));
                        assert forall|v: u32| #[trigger]
                            keys@.take(i as int + 1).contains(v) implies keys@.take(
                            i as int,
                        ).contains(v) || v == keys@[i as int] by {
                            lemma_seq_contains_after_push(keys@.take(i as int), keys@[i as int], v);
                        }
                        assert forall|v: u32|
                            keys@.take(i as int).contains(v) || v == keys@[i as int] implies #[trigger]
                            keys@.take(i as int + 1).contains(v) by {
                            lemma_seq_contains_after_push(keys@.take(i as int), keys@[i as int], v);
                        }
                    }
                    if k <= self.frag_total as u32 {
                        let kb = k as u8;
                        proof {
                            assert forall|v: u8| #[trigger]
                                ids@.push(kb).contains(v) implies (keys@.take(
                                i as int + 1,
                            ).contains(v as u32) && v <= self.frag_total) by {
                                lemma_seq_contains_after_push(ids@, kb, v);
                            }
                            assert forall|v: u8|
                                (keys@.take(i as int + 1).contains(v as u32) && v
                                    <= self.frag_total) implies #[trigger] ids@.push(kb).contains(
                                v,
                            ) by {
                                lemma_seq_contains_after_push(ids@, kb, v);
                            }
                        }
                        ids.push(kb);
                    }
                    i = i + 1;
                }
                proof {
                    assert(keys@.take(keys@.len() as int) =~= keys@);
                    assert forall|j: int| 0 <= j < ids@.len() implies ids@[j]
                        <= self.frag_total by {
                        assert(ids@.contains(ids@[j]));
                    }
                }
                let r = Ack::create_from_frag_ids(&ids, self.frag_total);
                proof {
                    assert forall|i2: int| 0 <= i2 < 8 * r@.len() implies (ack_bit(r@, i2) <==> (i2
                        <= self.frag_total as int && fragments@.dom().contains(i2 as u32))) by {
                        lemma_ack_bitmap_spec_bits(ids@, self.frag_total, i2);
                        if 0 <= i2 <= self.frag_total as int {
                            assert(ids@.contains(i2 as u8) <==> (keys@.contains(i2 as u32) && (
                            i2 as u8) <= self.frag_total));
                        }
                    }
                    lemma_ack_bitmap_spec_bits(ids@, self.frag_total, 0);
                }
                r
            },
        }
    }

    /// Record that an ack was just sent.
    pub fn send_ack(&mut self, now: u64)
        requires
            old(self).acks_sent_count < u32::MAX,
        ensures
            *final(self) == (FragmentSet {
                last_sent_ack: Some(now),
                acks_sent_count: (old(self).acks_sent_count + 1) as u32,
                ..*old(self)
            }),
    {
        self.last_sent_ack = Some(now);
        self.acks_sent_count = self.acks_sent_count + 1;
    }

    /// Forget the ack history (a new fragment arrived or the set completed).
    pub fn reset_ack_sent_count(&mut self)
        ensures
            *final(self) == (FragmentSet {
                last_sent_ack: None,
                acks_sent_count: 0,
                ..*old(self)
            }),
    {
        self.last_sent_ack = None;
        self.acks_sent_count = 0;
    }

    /// Whether acks are sent for this set at all.
    pub fn can_send_ack(&self) -> (r: bool)
        ensures
            r == (self.fragment_meta != FragmentMeta::Forgettable),
    {
        match self.fragment_meta {
            FragmentMeta::Forgettable => false,
            _ => true,
        }
    }

    /// Whether the set should be dropped: nothing more will arrive and no
    /// more acks are owed.
    pub fn is_stale(&self, now: u64) -> (r: bool)
        ensures
            r == is_stale_spec(*self, now),
    {
        match &self.state {
            FragmentSetState::Complete(complete_time, _) => now >= *complete_time && now
                - *complete_time >= COMPLETE_STALE_MS,
            FragmentSetState::Incomplete { .. } => {
                let delay: u64 = match self.fragment_meta {
                    FragmentMeta::Forgettable => FORGETTABLE_STALE_MS,
                    _ => KEY_STALE_MS,
                };
                now >= self.last_received && now - self.last_received >= delay
            },
        }
    }
}

// ---------------------------------------------------------------------------
// Bridging a map of fragments and the vector handed to reassembly
// ---------------------------------------------------------------------------
proof fn lemma_vec_entries_bridge(
    entries: Seq<(u32, Fragment)>,
    vec: Seq<Fragment>,
    m: Map<u32, Fragment>,
)
    requires
        unique_keys(entries),
        map_of(entries) == m,
        frags_keyed_by_id(m),
        vec.len() == entries.len(),
        vec.len() <= 256,
        forall|j: int| 0 <= j < vec.len() ==> vec[j] == entries[j].1,
    ensures
        (frags_complete(vec) && all_frag_totals_equal(vec)) <==> map_frags_complete(
            m,
            vec.len() as int,
        ),
{
    let n = vec.len() as int;
    assert forall|j: int| 0 <= j < n implies m.dom().contains((#[trigger] entries[j]).0) && m[
        entries[j].0] == entries[j].1 by {
        lemma_map_of_get(entries, j);
    }
    assert forall|j: int| 0 <= j < n implies (#[trigger] vec[j]).frag_id as u32
        == entries[j].0 by {
        assert(m.dom().contains(entries[j].0));
    }
    if frags_complete(vec) && all_frag_totals_equal(vec) {
        // strays
        assert forall|k: u32| #[trigger] m.dom().contains(k) implies (k as int) < n by {
            lemma_map_of_dom(entries, k);
            let j = choose|j: int| 0 <= j < entries.len() && (#[trigger] entries[j]).0 == k;
            assert(vec[j].frag_id as u32 == k);
            assert(vec[j].frag_id < vec.len());
        }
        // coverage
        assert forall|id: u32| (id as int) < n implies m.dom().contains(id) by {
            let jx = idx_of_id(vec, id as int);
            assert(0 <= jx < n && vec[jx].frag_id as int == id as int);
            assert(entries[jx].0 == id);
            assert(m.dom().contains(entries[jx].0));
        }
        // common frag_total
        let jx0 = idx_of_id(vec, 0);
        assert(vec[jx0].frag_total == vec[0].frag_total);
        assert forall|k: u32| #[trigger] m.dom().contains(k) implies (m[k].frag_total as int) + 1
            == n by {
            lemma_map_of_dom(entries, k);
            let j = choose|j: int| 0 <= j < entries.len() && (#[trigger] entries[j]).0 == k;
            assert(m[k] == entries[j].1);
            assert(m[k] == vec[j]);
            assert(vec[j].frag_total == vec[0].frag_total);
        }
    }
    if map_frags_complete(m, n) {
        assert forall|j: int| 0 <= j < n implies (#[trigger] vec[j]).frag_id < vec.len() by {
            assert(m.dom().contains(entries[j].0));
        }
        assert forall|j1: int, j2: int| 0 <= j1 < j2 < n implies (#[trigger] vec[j1]).frag_id != (
        #[trigger] vec[j2]).frag_id by {
            assert(entries[j1].0 != entries[j2].0);
        }
        assert forall|id: int| 0 <= id < n implies {
            let jx = #[trigger] idx_of_id(vec, id);
            0 <= jx < vec.len() && vec[jx].frag_id as int == id
        } by {
            assert(m.dom().contains(id as u32));
            lemma_map_of_dom(entries, id as u32);
            let j = choose|j: int| 0 <= j < entries.len() && (#[trigger] entries[j]).0 == id as u32;
            assert(vec[j].frag_id as int == id);
            assert(exists|jj: int| 0 <= jj < vec.len() && vec[jj].frag_id as int == id);
        }
        assert forall|j: int| 0 <= j < n implies (#[trigger] vec[j]).frag_total
            == vec[0].frag_total by {
            assert(m.dom().contains(entries[j].0));
            assert(m[entries[j].0].frag_total as int + 1 == n);
            assert(m.dom().contains(entries[0].0));
            assert(m[entries[0].0].frag_total as int + 1 == n);
        }
        let jx0 = idx_of_id(vec, 0);
        assert(vec[jx0].frag_total == vec[0].frag_total);
    }
}

proof fn lemma_reassembled_bridge(
    entries: Seq<(u32, Fragment)>,
    vec: Seq<Fragment>,
    m: Map<u32, Fragment>,
    p: int,
)
    requires
        unique_keys(entries),
        map_of(entries) == m,
        frags_keyed_by_id(m),
        vec.len() == entries.len(),
        vec.len() <= 256,
        forall|j: int| 0 <= j < vec.len() ==> vec[j] == entries[j].1,
        frags_complete(vec),
        0 <= p <= vec.len(),
    ensures
        reassembled_prefix(vec, p) == map_reassembled_prefix(m, p),
    decreases p,
{
    if p > 0 {
        lemma_reassembled_bridge(entries, vec, m, p - 1);
        let n = vec.len() as int;
        let id = p - 1;
        let jx = idx_of_id(vec, id);
        assert(0 <= jx < n && vec[jx].frag_id as int == id);
        assert(vec[jx] == entries[jx].1);
        lemma_map_of_get(entries, jx);
        assert(m.dom().contains(entries[jx].0));
        assert(entries[jx].0 == id as u32);
        assert(payload_of_id(vec, id) == m[id as u32].data@);
    }
}

// ---------------------------------------------------------------------------
// The combiner
// ---------------------------------------------------------------------------
/// Accumulates incoming fragments per `seq_id`, emits reassembled messages,
/// and produces bitmap acks on tick.
pub struct FragmentCombiner {
    pending_fragments: VecMap<FragmentSet>,
    out_messages: Vec<(u32, Vec<u8>)>,
}

impl FragmentCombiner {
    /// The sets held, by `seq_id`.
    pub closed spec fn pending(&self) -> Map<u32, FragmentSet> {
        self.pending_fragments@
    }

    /// The reassembled messages not yet handed out, oldest first.
    pub closed spec fn out(&self) -> Seq<(u32, Seq<u8>)> {
        self.out_messages@.map_values(|p: (u32, Vec<u8>)| (p.0, p.1@))
    }

    pub open spec fn wf(&self) -> bool {
        &&& self.pending_fragments_wf()
        &&& forall|k: u32| #[trigger]
            self.pending().dom().contains(k) ==> self.pending()[k].wf() && self.pending()[k].seq_id
                == k
    }

    pub closed spec fn pending_fragments_wf(&self) -> bool {
        self.pending_fragments.wf()
    }

    pub fn new() -> (r: FragmentCombiner)
        ensures
            r.wf(),
            r.pending() == Map::<u32, FragmentSet>::empty(),
            r.out() == Seq::<(u32, Seq<u8>)>::empty(),
    {
        let r = FragmentCombiner { pending_fragments: VecMap::new(), out_messages: Vec::new() };
        proof {
            assert(r.out() =~= Seq::<(u32, Seq<u8>)>::empty());
        }
        r
    }

    /// The oldest reassembled message, if any.
    pub fn next_out_message(&mut self) -> (r: Option<(u32, Vec<u8>)>)
        requires
            old(self).wf(),
        ensures
            final(self).wf(),
            final(self).pending() == old(self).pending(),
            old(self).out().len() == 0 ==> r is None && final(self).out() == old(self).out(),
            old(self).out().len() > 0 ==> ((r matches Some(p) && (p.0, p.1@) == old(self).out()[0])
                && final(self).out() == old(self).out().skip(1)),
    {
        if self.out_messages.len() == 0 {
            None
        } else {
            let p = self.out_messages.remove(0);
            proof {
                assert(self.out() =~= old(self).out().skip(1));
            }
            Some(p)
        }
    }

    /// Feed one received fragment in.
    ///
    /// A fragment for an already-completed set only refreshes its receive
    /// time. Otherwise the fragment is stored under its id; when enough
    /// fragments are held, either the reassembled message is queued exactly
    /// once and the set marked complete, or — if the fragments disagree on
    /// their total — the whole set is dropped without producing a message.
    pub fn push(&mut self, fragment: Fragment, now: u64)
        requires
            old(self).wf(),
        ensures
            final(self).wf(),
            ({
                let sid = fragment.seq_id;
                let existed = old(self).pending().dom().contains(sid);
                let was_complete = existed && (old(self).pending()[sid].state matches
                    FragmentSetState::Complete(_, _));
                let m0 = if existed {
                    set_frags(old(self).pending()[sid])
                } else {
                    Map::<u32, Fragment>::empty()
                };
                let m1 = m0.insert(fragment.frag_id as u32, fragment);
                let n = m1.dom().len() as int;
                if was_complete {
                    &&& final(self).out() == old(self).out()
                    &&& final(self).pending() == old(self).pending().insert(
                        sid,
                        (FragmentSet { last_received: now, ..old(self).pending()[sid] }),
                    )
                } else {
                    &&& (forall|k: u32|
                        k != sid ==> (final(self).pending().dom().contains(k) == old(
                            self,
                        ).pending().dom().contains(k) && (old(self).pending().dom().contains(k)
                            ==> #[trigger] final(self).pending()[k] == old(self).pending()[k])))
                    &&& if n <= fragment.frag_total as int {
                        // not yet complete: the fragment is stored
                        &&& final(self).out() == old(self).out()
                        &&& final(self).pending().dom().contains(sid)
                        &&& ({
                            let s = final(self).pending()[sid];
                            &&& s.seq_id == sid
                            &&& s.state matches FragmentSetState::Incomplete { .. }
                            &&& set_frags(s) == m1
                            &&& s.last_received == now
                            &&& s.acks_sent_count == 0
                            &&& s.frag_total == (if existed {
                                old(self).pending()[sid].frag_total
                            } else {
                                fragment.frag_total
                            })
                            &&& s.fragment_meta == (if existed {
                                old(self).pending()[sid].fragment_meta
                            } else {
                                fragment.frag_meta
                            })
                        })
                    } else if map_frags_complete(m1, n) {
                        // completion: the message is emitted exactly once
                        &&& final(self).out() == old(self).out().push(
                            (sid, map_reassembled_prefix(m1, n)),
                        )
                        &&& final(self).pending().dom().contains(sid)
                        &&& ({
                            let s = final(self).pending()[sid];
                            &&& s.seq_id == sid
                            &&& s.state matches FragmentSetState::Complete(t, ft) && t == now
                                && ft as int == n - 1
                            &&& s.frag_total == (if existed {
                                old(self).pending()[sid].frag_total
                            } else {
                                fragment.frag_total
                            })
                            &&& s.fragment_meta == (if existed {
                                old(self).pending()[sid].fragment_meta
                            } else {
                                fragment.frag_meta
                            })
                            &&& s.last_received == now
                            &&& s.acks_sent_count == 0
                            &&& s.last_sent_ack is None
                        })
                    } else {
                        // corrupted set: dropped, no message
                        &&& final(self).out() == old(self).out()
                        &&& final(self).pending() == old(self).pending().remove(sid)
                    }
                }
            }),
    {
        let sid = fragment.seq_id;
        let fid = fragment.frag_id;
        let ftot = fragment.frag_total;
        let fmeta = fragment.frag_meta;
        let ghost old_pending = self.pending();
        let ghost old_out = self.out();
        let mut set = match self.pending_fragments.remove(sid) {
            Some(s) => s,
            None => FragmentSet::with_capacity(sid, now, ftot, fmeta),
        };
        set.last_received = now;
        let set_is_complete = match &set.state {
            FragmentSetState::Complete(_, _) => true,
            FragmentSetState::Incomplete { .. } => false,
        };
        if set_is_complete {
            self.pending_fragments.insert(sid, set);
            proof {
                assert(self.pending() =~= old_pending.insert(
                    sid,
                    (FragmentSet { last_received: now, ..old_pending[sid] }),
                ));
            }
            return;
        }
        set.acks_sent_count = 0;
        match &mut set.state {
            FragmentSetState::Incomplete { fragments } => {
                fragments.insert(fid as u32, fragment);
            },
            FragmentSetState::Complete(_, _) => {},
        }
        let ghost m1 = set_frags(set);
        let n = match &set.state {
            FragmentSetState::Incomplete { fragments } => fragments.len(),
            FragmentSetState::Complete(_, _) => 0,
        };
        if n <= ftot as usize {
            self.pending_fragments.insert(sid, set);
            proof {
                assert forall|k: u32|
                    k != sid implies (self.pending().dom().contains(k) == old_pending.dom().contains(
                    k,
                ) && (old_pending.dom().contains(k) ==> #[trigger] self.pending()[k]
                    == old_pending[k])) by {}
            }
            return;
        }
        // enough fragments: try to reassemble
        let (completed, frags_map) = set.complete(now);
        let n2 = frags_map.len();
        if n2 > 256 {
            // more entries than a u8 id space allows: corrupted beyond repair
            proof {
                assert(m1.dom().contains(256u32) ==> false);
                assert(!map_frags_complete(m1, n as int));
                assert(self.pending() =~= old_pending.remove(sid));
            }
            return;
        }
        let entries = frags_map.into_entries();
        let ghost gentries = entries@;
        // all fragments must agree on their declared total
        let first_ft: u8 = if entries.len() > 0 {
            entries[0].1.frag_total
        } else {
            0
        };
        let mut all_eq = true;
        let mut i: usize = 0;
        while i < entries.len()
            invariant
                i <= gentries.len(),
                entries@ == gentries,
                gentries.len() > 0,
                first_ft == gentries[0].1.frag_total,
                all_eq == (forall|j: int|
                    0 <= j < i ==> (#[trigger] gentries[j]).1.frag_total == first_ft),
            decreases gentries.len() - i,
        {
            if entries[i].1.frag_total != first_ft {
                all_eq = false;
                proof {
                    assert(!(forall|j: int|
                        0 <= j < i + 1 ==> (#[trigger] gentries[j]).1.frag_total == first_ft));
                }
            }
            i = i + 1;
        }
        // gather the fragments in a vector for reassembly
        let mut entries_rest = entries;
        let mut vec: Vec<Fragment> = Vec::new();
        while entries_rest.len() > 0
            invariant
                vec@.len() + entries_rest@.len() == gentries.len(),
                entries_rest@ == gentries.skip(vec@.len() as int),
                forall|j: int| 0 <= j < vec@.len() ==> #[trigger] vec@[j] == gentries[j].1,
            decreases entries_rest@.len(),
        {
            let e = entries_rest.remove(0);
            vec.push(e.1);
            proof {
                assert(entries_rest@ =~= gentries.skip(vec@.len() as int));
                assert(e == gentries[vec@.len() - 1]);
            }
        }
        let ghost gvec = vec@;
        proof {
            assert(gvec.len() == gentries.len());
            lemma_vec_entries_bridge(gentries, gvec, m1);
            assert(all_eq == all_frag_totals_equal(gvec)) by {
                if all_eq {
                    assert forall|j: int| 0 <= j < gvec.len() implies (#[trigger] gvec[j]).frag_total
                        == gvec[0].frag_total by {
                        assert(gvec[j] == gentries[j].1);
                        assert(gvec[0] == gentries[0].1);
                    }
                } else {
                    let j = choose|j: int|
                        0 <= j < gentries.len() && (#[trigger] gentries[j]).1.frag_total != first_ft;
                    assert(gvec[j] == gentries[j].1);
                    assert(gvec[0] == gentries[0].1);
                    assert(!all_frag_totals_equal(gvec));
                }
            }
        }
        if !all_eq {
            proof {
                assert(!map_frags_complete(m1, n as int));
                assert(self.pending() =~= old_pending.remove(sid));
            }
            return;
        }
        match build_data_from_fragments(vec) {
            Ok(message) => {
                proof {
                    lemma_reassembled_bridge(gentries, gvec, m1, gvec.len() as int);
                }
                self.out_messages.push((sid, message));
                self.pending_fragments.insert(sid, completed);
                proof {
                    assert(self.out() =~= old_out.push(
                        (sid, map_reassembled_prefix(m1, n as int)),
                    ));
                    assert forall|k: u32|
                        k != sid implies (self.pending().dom().contains(k)
                        == old_pending.dom().contains(k) && (old_pending.dom().contains(k)
                        ==> #[trigger] self.pending()[k] == old_pending[k])) by {}
                }
            },
            Err(_) => {
                proof {
                    assert(!map_frags_complete(m1, n as int));
                    assert(self.pending() =~= old_pending.remove(sid));
                }
            },
        }
    }

    /// One scheduling turn: drop stale sets, and emit an ack for every set
    /// that owes one. No ack is ever produced for a Forgettable set.
    pub fn tick(&mut self, now: u64) -> (acks: Acks)
        requires
            old(self).wf(),
        ensures
            final(self).wf(),
            final(self).out() == old(self).out(),
            // stale sets are dropped, all others kept
            forall|k: u32| #[trigger]
                old(self).pending().dom().contains(k) ==> (final(self).pending().dom().contains(k)
                    <==> !is_stale_spec(old(self).pending()[k], now)),
            forall|k: u32| #[trigger]
                final(self).pending().dom().contains(k) ==> old(self).pending().dom().contains(k)
                    && final(self).pending()[k] == tick_set_after(old(self).pending()[k], now),
            // one ack per kept set that owes one, carrying that set's bits
            forall|j: int|
                0 <= j < acks@.len() ==> {
                    let k = (#[trigger] acks@[j]).0;
                    &&& old(self).pending().dom().contains(k)
                    &&& !is_stale_spec(old(self).pending()[k], now)
                    &&& ack_due(old(self).pending()[k], now)
                    &&& old(self).pending()[k].fragment_meta != FragmentMeta::Forgettable
                    &&& ack_bits_for(old(self).pending()[k], acks@[j].1@)
                },
            forall|k: u32| #[trigger]
                old(self).pending().dom().contains(k) && !is_stale_spec(
                    old(self).pending()[k],
                    now,
                ) && ack_due(old(self).pending()[k], now) ==> exists|j: int|
                    0 <= j < acks@.len() && (#[trigger] acks@[j]).0 == k,
            // at most one ack per set
            forall|j1: int, j2: int|
                0 <= j1 < j2 < acks@.len() ==> (#[trigger] acks@[j1]).0 != (
                #[trigger] acks@[j2]).0,
    {
        let ghost old_pending = self.pending();
        let keys = self.pending_fragments.keys();
        let mut acks: Acks = Vec::new();
        let mut i: usize = 0;
        while i < keys.len()
            invariant
                self.wf(),
                i <= keys@.len(),
                keys@.no_duplicates(),
                forall|j: int| 0 <= j < keys@.len() ==> old_pending.dom().contains(#[trigger] keys@[j]),
                forall|k: u32| #[trigger] old_pending.dom().contains(k) ==> keys@.contains(k),
                self.out() == old(self).out(),
                // keys not yet processed are untouched
                forall|k: u32| #[trigger]
                    old_pending.dom().contains(k) && !keys@.take(i as int).contains(k) ==> (
                    self.pending().dom().contains(k) && self.pending()[k] == old_pending[k]),
                // processed keys are transformed or dropped
                forall|k: u32| #[trigger]
                    old_pending.dom().contains(k) && keys@.take(i as int).contains(k) ==> (
                    self.pending().dom().contains(k) <==> !is_stale_spec(old_pending[k], now)),
                forall|k: u32| #[trigger]
                    old_pending.dom().contains(k) && keys@.take(i as int).contains(k)
                    && self.pending().dom().contains(k) ==> self.pending()[k] == tick_set_after(
                    old_pending[k],
                    now,
                ),
                forall|k: u32| #[trigger]
                    self.pending().dom().contains(k) ==> old_pending.dom().contains(k),
                // acks collected so far
                forall|j: int|
                    0 <= j < acks@.len() ==> {
                        let k = (#[trigger] acks@[j]).0;
                        &&& old_pending.dom().contains(k)
                        &&& keys@.take(i as int).contains(k)
                        &&& !is_stale_spec(old_pending[k], now)
                        &&& ack_due(old_pending[k], now)
                        &&& ack_bits_for(old_pending[k], acks@[j].1@)
                    },
                forall|k: u32| #[trigger]
                    old_pending.dom().contains(k) && keys@.take(i as int).contains(k)
                    && !is_stale_spec(old_pending[k], now) && ack_due(old_pending[k], now)
                    ==> exists|j: int| 0 <= j < acks@.len() && (#[trigger] acks@[j]).0 == k,
                forall|j1: int, j2: int|
                    0 <= j1 < j2 < acks@.len() ==> (#[trigger] acks@[j1]).0 != (
                    #[trigger] acks@[j2]).0,
            decreases keys@.len() - i,
        {
            let k = keys[i];
            proof {
                assert(old_pending.dom().contains(k));
                assert(!keys@.take(i as int).contains(k)) by {
                    if keys@.take(i as int).contains(k) {
                        let j = choose|j: int|
                            0 <= j < i && #[trigger] keys@.take(i as int)[j] == k;
                        assert(keys@[j] == keys@[i as int]);
                    }
                }
                assert(keys@.take(i as int + 1) =~= keys@.take(i as int).push(k));
                assert forall|v: u32| #[trigger]
                    keys@.take(i as int + 1).contains(v) implies keys@.take(i as int).contains(v)
                    || v == k by {
                    lemma_seq_contains_after_push(keys@.take(i as int), k, v);
                }
                assert forall|v: u32|
                    keys@.take(i as int).contains(v) || v == k implies #[trigger] keys@.take(
                    i as int + 1,
                ).contains(v) by {
                    lemma_seq_contains_after_push(keys@.take(i as int), k, v);
                }
            }
            let mut set = match self.pending_fragments.remove(k) {
                Some(s) => s,
                None => {
                    proof {
                        assert(false);
                    }
                    FragmentSet::with_capacity(0, 0, 0, FragmentMeta::Key)
                },
            };
            if set.is_stale(now) {
                // dropped: nothing more will arrive for it
            } else {
                let due = set.can_send_ack() && set.acks_sent_count < 2 && (match set.last_sent_ack {
                    None => true,
                    Some(t) => now >= t && now - t >= ACK_SEND_INTERVAL_MS,
                });
                if due {
                    let ack = set.generate_ack();
                    let ghost acks0 = acks@;
                    acks.push((k, ack));
                    set.send_ack(now);
                    proof {
                        assert(acks@[acks@.len() - 1].0 == k);
                        assert forall|j1: int, j2: int|
                            0 <= j1 < j2 < acks@.len() implies (#[trigger] acks@[j1]).0 != (
                        #[trigger] acks@[j2]).0 by {
                            if j2 == acks@.len() - 1 {
                                assert(acks@[j1] == acks0[j1]);
                                assert(keys@.take(i as int).contains(acks0[j1].0));
                            } else {
                                assert(acks@[j1] == acks0[j1] && acks@[j2] == acks0[j2]);
                            }
                        }
                        assert forall|k2: u32| #[trigger]
                            old_pending.dom().contains(k2) && keys@.take(i as int + 1).contains(k2)
                            && !is_stale_spec(old_pending[k2], now) && ack_due(old_pending[k2], now)
                            implies exists|j: int|
                            0 <= j < acks@.len() && (#[trigger] acks@[j]).0 == k2 by {
                            if k2 == k {
                                assert(acks@[acks@.len() - 1].0 == k2);
                            } else {
                                assert(keys@.take(i as int).contains(k2));
                                let j = choose|j: int|
                                    0 <= j < acks0.len() && (#[trigger] acks0[j]).0 == k2;
                                assert(acks@[j].0 == k2);
                            }
                        }
                    }
                }
                self.pending_fragments.insert(k, set);
            }
            i = i + 1;
        }
        proof {
            assert(keys@.take(keys@.len() as int) =~= keys@);
        }
        acks
    }
}

} // verus!
