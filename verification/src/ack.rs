use vstd::prelude::*;
use vstd::arithmetic::div_mod::lemma_fundamental_div_mod;

verus! {

/// Pairs of (seq_id, ack bitmap), as produced by one combiner tick.
pub type Acks = Vec<(u32, Ack)>;

/// An ack bitmap: bit `i` (LSB of byte `i / 8`, shift `i % 8`) is set when
/// fragment `i` of the acknowledged message has been received.
#[derive(Debug, Clone)]
pub struct Ack {
    data: Vec<u8>,
}

impl View for Ack {
    type V = Seq<u8>;

    closed spec fn view(&self) -> Seq<u8> {
        self.data@
    }
}

/// Bit `i` of the bitmap is present and set.
pub open spec fn ack_bit(bytes: Seq<u8>, i: int) -> bool {
    &&& 0 <= i
    &&& i / 8 < bytes.len()
    &&& (bytes[i / 8] >> ((i % 8) as u8)) & 1u8 == 1u8
}

/// Bit `i` of the bitmap is present (its byte exists) and clear.
pub open spec fn ack_bit_missing(bytes: Seq<u8>, i: int) -> bool {
    &&& 0 <= i
    &&& i / 8 < bytes.len()
    &&& (bytes[i / 8] >> ((i % 8) as u8)) & 1u8 != 1u8
}

/// Number of bytes in the bitmap for a message whose last fragment has index
/// `frag_total`: one bit per fragment, so `ceil((frag_total + 1) / 8)`.
pub open spec fn ack_size_spec(frag_total: u8) -> int {
    frag_total as int / 8 + 1
}

pub fn ack_size_from_frag_total(frag_total: u8) -> (r: usize)
    ensures
        r == ack_size_spec(frag_total),
{
    (frag_total / 8 + 1) as usize
}

/// The bitmap with one bit set for each id in `ids`, over
/// `ack_size_spec(frag_total)` bytes.
pub open spec fn ack_bitmap_spec(ids: Seq<u8>, frag_total: u8) -> Seq<u8>
    decreases ids.len(),
{
    if ids.len() == 0 {
        Seq::new(ack_size_spec(frag_total) as nat, |b: int| 0u8)
    } else {
        ack_set_bit(ack_bitmap_spec(ids.drop_last(), frag_total), ids.last())
    }
}

/// `bytes` with bit `id` set.
pub open spec fn ack_set_bit(bytes: Seq<u8>, id: u8) -> Seq<u8> {
    bytes.update(id as int / 8, bytes[id as int / 8] | (1u8 << (id % 8)))
}

/// The byte at position `b` of a bitmap that acknowledges every fragment of
/// a message with `frag_total + 1` fragments: all ones over the valid bit
/// range, zeroes above it.
pub open spec fn complete_ack_byte(frag_total: u8, b: int) -> u8 {
    if b < frag_total as int / 8 {
        0xFFu8
    } else {
        (((1u16 << ((frag_total % 8 + 1) as u16)) - 1) as u8)
    }
}

/// The bitmap that acknowledges every fragment.
pub open spec fn complete_ack_bitmap(frag_total: u8) -> Seq<u8> {
    Seq::new(ack_size_spec(frag_total) as nat, |b: int| complete_ack_byte(frag_total, b))
}

/// The ids `< n` whose bit is set, in increasing order.
pub open spec fn received_ids_upto(bytes: Seq<u8>, n: int) -> Seq<u8>
    decreases n,
{
    if n <= 0 {
        Seq::empty()
    } else {
        let p = received_ids_upto(bytes, n - 1);
        if ack_bit(bytes, n - 1) {
            p.push((n - 1) as u8)
        } else {
            p
        }
    }
}

/// The ids `0..=frag_total` whose bit is set, in increasing order.
pub open spec fn received_ids(bytes: Seq<u8>, frag_total: u8) -> Seq<u8> {
    received_ids_upto(bytes, frag_total as int + 1)
}

/// The ids `< n` whose byte is present but whose bit is clear, in increasing
/// order.
pub open spec fn missing_ids_upto(bytes: Seq<u8>, n: int) -> Seq<u8>
    decreases n,
{
    if n <= 0 {
        Seq::empty()
    } else {
        let p = missing_ids_upto(bytes, n - 1);
        if ack_bit_missing(bytes, n - 1) {
            p.push((n - 1) as u8)
        } else {
            p
        }
    }
}

/// The ids `0..=frag_total` whose byte is present but whose bit is clear,
/// in increasing order.
pub open spec fn missing_ids(bytes: Seq<u8>, frag_total: u8) -> Seq<u8> {
    missing_ids_upto(bytes, frag_total as int + 1)
}

/// The received ids of a bitmap are exactly the ids below the cutoff whose
/// bit is set.
pub proof fn lemma_received_ids_upto_contains(bytes: Seq<u8>, n: int, v: u8)
    requires
        n <= 256,
    ensures
        received_ids_upto(bytes, n).contains(v) <==> ((v as int) < n && ack_bit(bytes, v as int)),
    decreases n,
{
    if n <= 0 {
    } else {
        lemma_received_ids_upto_contains(bytes, n - 1, v);
        let p = received_ids_upto(bytes, n - 1);
        if ack_bit(bytes, n - 1) {
            let q = p.push((n - 1) as u8);
            assert(q[p.len() as int] == (n - 1) as u8);
            if q.contains(v) {
                let j = choose|j: int| 0 <= j < q.len() && #[trigger] q[j] == v;
                if j < p.len() {
                    assert(p[j] == v);
                    assert(p.contains(v));
                }
            }
            if p.contains(v) {
                let j = choose|j: int| 0 <= j < p.len() && #[trigger] p[j] == v;
                assert(q[j] == v);
            }
        }
    }
}

/// The missing ids of a bitmap are exactly the ids below the cutoff whose
/// byte is present and whose bit is clear.
pub proof fn lemma_missing_ids_upto_contains(bytes: Seq<u8>, n: int, v: u8)
    requires
        n <= 256,
    ensures
        missing_ids_upto(bytes, n).contains(v) <==> ((v as int) < n && ack_bit_missing(
            bytes,
            v as int,
        )),
    decreases n,
{
    if n <= 0 {
    } else {
        lemma_missing_ids_upto_contains(bytes, n - 1, v);
        let p = missing_ids_upto(bytes, n - 1);
        if ack_bit_missing(bytes, n - 1) {
            let q = p.push((n - 1) as u8);
            assert(q[p.len() as int] == (n - 1) as u8);
            if q.contains(v) {
                let j = choose|j: int| 0 <= j < q.len() && #[trigger] q[j] == v;
                if j < p.len() {
                    assert(p[j] == v);
                    assert(p.contains(v));
                }
            }
            if p.contains(v) {
                let j = choose|j: int| 0 <= j < p.len() && #[trigger] p[j] == v;
                assert(q[j] == v);
            }
        }
    }
}

proof fn lemma_or_bit(b: u8, j: u8, k: u8)
    requires
        j < 8,
        k < 8,
    ensures
        ((b | (1u8 << j)) >> k) & 1u8 == 1u8 <==> (j == k || (b >> k) & 1u8 == 1u8),
{
    assert(j < 8 && k < 8 ==> (((b | (1u8 << j)) >> k) & 1u8 == 1u8 <==> (j == k || (b >> k) & 1u8
        == 1u8))) by (bit_vector);
}

proof fn lemma_id_split(i: int, id: u8)
    requires
        0 <= i,
    ensures
        i == id as int <==> (i / 8 == id as int / 8 && i % 8 == id as int % 8),
{
    lemma_fundamental_div_mod(i, 8);
    lemma_fundamental_div_mod(id as int, 8);
}

/// The bitmap built from `ids` has exactly the bits of `ids` set.
pub proof fn lemma_ack_bitmap_spec_bits(ids: Seq<u8>, frag_total: u8, i: int)
    requires
        forall|j: int| 0 <= j < ids.len() ==> ids[j] <= frag_total,
    ensures
        ack_bitmap_spec(ids, frag_total).len() == ack_size_spec(frag_total),
        ack_bit(ack_bitmap_spec(ids, frag_total), i) <==> (0 <= i <= frag_total as int
            && ids.contains(i as u8)),
    decreases ids.len(),
{
    let bm = ack_bitmap_spec(ids, frag_total);
    if ids.len() == 0 {
        if 0 <= i && i / 8 < bm.len() {
            let k = (i % 8) as u8;
            assert((0u8 >> k) & 1u8 != 1u8) by (bit_vector);
        }
        assert(!ids.contains(i as u8));
    } else {
        lemma_ack_bitmap_spec_bits(ids.drop_last(), frag_total, i);
        let prev = ack_bitmap_spec(ids.drop_last(), frag_total);
        let id = ids.last();
        // bit `id` lands inside the bitmap
        assert(id as int / 8 < ack_size_spec(frag_total));
        if 0 <= i && i / 8 < bm.len() {
            lemma_id_split(i, id);
            if i / 8 == id as int / 8 {
                lemma_or_bit(prev[i / 8], (id % 8) as u8, (i % 8) as u8);
            }
        }
        // membership in `ids` vs its prefix
        assert(ids.drop_last().push(id) =~= ids);
        if ids.contains(i as u8) {
            let j = choose|j: int| 0 <= j < ids.len() && ids[j] == i as u8;
            if j < ids.len() - 1 {
                assert(ids.drop_last()[j] == i as u8);
                assert(ids.drop_last().contains(i as u8));
            }
        }
        if ids.drop_last().contains(i as u8) {
            let j = choose|j: int| 0 <= j < ids.drop_last().len() && ids.drop_last()[j] == i as u8;
            assert(ids[j] == i as u8);
        }
    }
}

/// Every bit of the all-ones bitmap up to `frag_total` is set, and none
/// above it.
pub proof fn lemma_complete_ack_bits(frag_total: u8, i: int)
    ensures
        ack_bit(complete_ack_bitmap(frag_total), i) <==> 0 <= i <= frag_total as int,
{
    let bm = complete_ack_bitmap(frag_total);
    let ft = frag_total;
    if 0 <= i && i / 8 < bm.len() {
        let k = (i % 8) as u8;
        if i / 8 < ft as int / 8 {
            assert(k < 8 ==> (0xFFu8 >> k) & 1u8 == 1u8) by (bit_vector);
            lemma_fundamental_div_mod(i, 8);
            lemma_fundamental_div_mod(ft as int, 8);
        } else {
            assert(i / 8 == ft as int / 8);
            let m = ft % 8;
            assert(m < 8 && k < 8 ==> (((((1u16 << ((m + 1) as u16)) - 1) as u8) >> k) & 1u8 == 1u8
                <==> k <= m)) by (bit_vector);
            lemma_fundamental_div_mod(i, 8);
            lemma_fundamental_div_mod(ft as int, 8);
        }
    } else if 0 <= i {
        lemma_fundamental_div_mod(i, 8);
        lemma_fundamental_div_mod(ft as int, 8);
    }
}

/// For a bitmap built from a collection of fragment ids (all at most
/// `frag_total`), the ids read back as received are exactly the collection,
/// and the ids read back as missing are exactly the rest of
/// `0..=frag_total`.
pub proof fn lemma_ack_round_trip(ids: Seq<u8>, frag_total: u8)
    requires
        forall|j: int| 0 <= j < ids.len() ==> ids[j] <= frag_total,
    ensures
        received_ids(ack_bitmap_spec(ids, frag_total), frag_total).to_set() == ids.to_set(),
        missing_ids(ack_bitmap_spec(ids, frag_total), frag_total).to_set() == Set::new(
            |v: u8| v <= frag_total,
        ).difference(ids.to_set()),
{
    let bm = ack_bitmap_spec(ids, frag_total);
    assert forall|v: u8| #[trigger] received_ids(bm, frag_total).to_set().contains(v)
        <==> ids.to_set().contains(v) by {
        lemma_received_ids_upto_contains(bm, frag_total as int + 1, v);
        lemma_ack_bitmap_spec_bits(ids, frag_total, v as int);
        assert(received_ids(bm, frag_total).to_set().contains(v) <==> received_ids(
            bm,
            frag_total,
        ).contains(v));
        assert(ids.to_set().contains(v) <==> ids.contains(v));
    }
    assert(received_ids(bm, frag_total).to_set() =~= ids.to_set());
    assert forall|v: u8| #[trigger] missing_ids(bm, frag_total).to_set().contains(v) <==> (v
        <= frag_total && !ids.to_set().contains(v)) by {
        lemma_missing_ids_upto_contains(bm, frag_total as int + 1, v);
        lemma_ack_bitmap_spec_bits(ids, frag_total, v as int);
        if v <= frag_total {
            // the byte of bit v exists in the bitmap
            lemma_fundamental_div_mod(v as int, 8);
            lemma_fundamental_div_mod(frag_total as int, 8);
        }
        assert(ids.to_set().contains(v) <==> ids.contains(v));
    }
    assert(missing_ids(bm, frag_total).to_set() =~= Set::new(|v: u8| v <= frag_total).difference(
        ids.to_set(),
    ));
}

/// The ids `0..=frag_total` whose bit is set in `ack_bytes`, in increasing
/// order.
pub fn frag_ids_received_from_ack(ack_bytes: &Vec<u8>, frag_total: u8) -> (r: Vec<u8>)
    ensures
        r@ == received_ids(ack_bytes@, frag_total),
{
    let mut r: Vec<u8> = Vec::new();
    let mut i: usize = 0;
    while i <= frag_total as usize
        invariant
            i <= frag_total as usize + 1,
            r@ == received_ids_upto(ack_bytes@, i as int),
        decreases frag_total as int + 1 - i,
    {
        let byte_index = i / 8;
        let bit_index = (i % 8) as u8;
        if byte_index < ack_bytes.len() && (ack_bytes[byte_index] >> bit_index) & 1u8 == 1u8 {
            r.push(i as u8);
        }
        i = i + 1;
    }
    r
}

/// The ids `0..=frag_total` whose byte is present in `ack_bytes` but whose
/// bit is clear, in increasing order.
pub fn frag_ids_missing_from_ack(ack_bytes: &Vec<u8>, frag_total: u8) -> (r: Vec<u8>)
    ensures
        r@ == missing_ids(ack_bytes@, frag_total),
{
    let mut r: Vec<u8> = Vec::new();
    let mut i: usize = 0;
    while i <= frag_total as usize
        invariant
            i <= frag_total as usize + 1,
            r@ == missing_ids_upto(ack_bytes@, i as int),
        decreases frag_total as int + 1 - i,
    {
        let byte_index = i / 8;
        let bit_index = (i % 8) as u8;
        if byte_index < ack_bytes.len() && (ack_bytes[byte_index] >> bit_index) & 1u8 != 1u8 {
            r.push(i as u8);
        }
        i = i + 1;
    }
    r
}

impl Ack {
    /// The bitmap acknowledging every fragment of a message with
    /// `frag_total + 1` fragments.
    pub fn create_complete(frag_total: u8) -> (r: Ack)
        ensures
            r@ == complete_ack_bitmap(frag_total),
    {
        let n = ack_size_from_frag_total(frag_total);
        let full_bytes = (frag_total / 8) as usize;
        let m: u16 = (frag_total % 8) as u16;
        proof {
            assert(m <= 7 ==> (1u16 << (m + 1) as u16) >= 1) by (bit_vector);
        }
        let last_byte: u8 = ((1u16 << (m + 1)) - 1) as u8;
        let mut data: Vec<u8> = Vec::new();
        let mut b: usize = 0;
        while b < n
            invariant
                b <= n,
                n == ack_size_spec(frag_total),
                full_bytes == frag_total as int / 8,
                last_byte == complete_ack_byte(frag_total, frag_total as int / 8),
                data@.len() == b,
                forall|j: int| 0 <= j < b ==> data@[j] == complete_ack_byte(frag_total, j),
            decreases n - b,
        {
            if b < full_bytes {
                data.push(0xFFu8);
            } else {
                data.push(last_byte);
            }
            b = b + 1;
        }
        proof {
            assert(data@ =~= complete_ack_bitmap(frag_total));
        }
        Ack { data }
    }

    /// The bitmap with exactly the bits of `frag_ids` set.
    pub fn create_from_frag_ids(frag_ids: &Vec<u8>, frag_total: u8) -> (r: Ack)
        requires
            forall|j: int| 0 <= j < frag_ids@.len() ==> frag_ids@[j] <= frag_total,
        ensures
            r@ == ack_bitmap_spec(frag_ids@, frag_total),
    {
        let n = ack_size_from_frag_total(frag_total);
        let mut data: Vec<u8> = Vec::new();
        let mut b: usize = 0;
        while b < n
            invariant
                b <= n,
                n == ack_size_spec(frag_total),
                data@ == Seq::new(b as nat, |j: int| 0u8),
            decreases n - b,
        {
            data.push(0u8);
            proof {
                assert(data@ =~= Seq::new(b as nat + 1, |j: int| 0u8));
            }
            b = b + 1;
        }
        let mut k: usize = 0;
        while k < frag_ids.len()
            invariant
                k <= frag_ids@.len(),
                forall|j: int| 0 <= j < frag_ids@.len() ==> frag_ids@[j] <= frag_total,
                data@ == ack_bitmap_spec(frag_ids@.take(k as int), frag_total),
                data@.len() == ack_size_spec(frag_total),
            decreases frag_ids@.len() - k,
        {
            proof {
                lemma_ack_bitmap_spec_bits(frag_ids@.take(k as int), frag_total, 0);
            }
            let frag_id = frag_ids[k];
            let byte_index = (frag_id / 8) as usize;
            let bit_index: u8 = frag_id % 8;
            let updated: u8 = data[byte_index] | (1u8 << bit_index);
            data[byte_index] = updated;
            proof {
                let taken = frag_ids@.take(k as int + 1);
                assert(taken.drop_last() =~= frag_ids@.take(k as int));
                assert(taken.last() == frag_ids@[k as int]);
            }
            k = k + 1;
        }
        proof {
            assert(frag_ids@.take(frag_ids@.len() as int) =~= frag_ids@);
        }
        Ack { data }
    }

    pub fn new(data: Vec<u8>) -> (r: Ack)
        ensures
            r@ == data@,
    {
        Ack { data }
    }

    /// The ids this bitmap reports as received, in increasing order.
    pub fn into_iter(self, frag_total: u8) -> (r: Vec<u8>)
        ensures
            r@ == received_ids(self@, frag_total),
    {
        frag_ids_received_from_ack(&self.data, frag_total)
    }

    /// The ids this bitmap reports as missing, in increasing order.
    pub fn into_missing_iter(self, frag_total: u8) -> (r: Vec<u8>)
        ensures
            r@ == missing_ids(self@, frag_total),
    {
        frag_ids_missing_from_ack(&self.data, frag_total)
    }

    /// The ids this bitmap reports as missing, in increasing order.
    pub fn missing_iter(&self, frag_total: u8) -> (r: Vec<u8>)
        ensures
            r@ == missing_ids(self@, frag_total),
    {
        frag_ids_missing_from_ack(&self.data, frag_total)
    }

    pub fn into_inner(self) -> (r: Vec<u8>)
        ensures
            r@ == self@,
    {
        self.data
    }
}

} // verus!
