use vstd::prelude::*;
use vstd::arithmetic::div_mod::lemma_fundamental_div_mod;
use crate::consts::MAX_FRAGMENT_MESSAGE_SIZE;
use crate::consts::MAX_FRAGMENTS_IN_MESSAGE;
use crate::fragment_generator::FragmentGenerator;

verus! {

/// Reliability class of one message, carried on the wire in every fragment.
#[derive(Debug, Clone, Copy, PartialEq, Eq, Structural)]
pub enum FragmentMeta {
    Forgettable,
    KeyExpirable,
    Key,
}

/// One slice of a logical message. `frag_total` is the index of the last
/// fragment, so `frag_total == 0` means a single-fragment message.
#[derive(Debug)]
pub struct Fragment {
    pub seq_id: u32,
    pub frag_id: u8,
    pub frag_total: u8,
    pub frag_meta: FragmentMeta,
    pub data: Vec<u8>,
}

impl Fragment {
    /// A field-for-field copy of this fragment.
    pub fn as_borrowed_frag(&self) -> (r: Fragment)
        ensures
            r.seq_id == self.seq_id,
            r.frag_id == self.frag_id,
            r.frag_total == self.frag_total,
            r.frag_meta == self.frag_meta,
            r.data@ == self.data@,
    {
        Fragment {
            seq_id: self.seq_id,
            frag_id: self.frag_id,
            frag_total: self.frag_total,
            frag_meta: self.frag_meta,
            data: vstd::slice::slice_to_vec(self.data.as_slice()),
        }
    }

    /// This fragment as an owned value.
    pub fn into_boxed(self) -> (r: Fragment)
        ensures
            r == self,
    {
        self
    }
}

/// Number of chunks a payload of `len` bytes splits into.
pub open spec fn chunk_count(len: int) -> int {
    if len % (MAX_FRAGMENT_MESSAGE_SIZE as int) == 0 {
        len / (MAX_FRAGMENT_MESSAGE_SIZE as int)
    } else {
        len / (MAX_FRAGMENT_MESSAGE_SIZE as int) + 1
    }
}

/// Chunk `i` of a payload: bytes `i * chunk .. min((i + 1) * chunk, len)`.
pub open spec fn chunk_of(data: Seq<u8>, i: int) -> Seq<u8> {
    data.subrange(
        i * (MAX_FRAGMENT_MESSAGE_SIZE as int),
        if (i + 1) * (MAX_FRAGMENT_MESSAGE_SIZE as int) <= data.len() {
            (i + 1) * (MAX_FRAGMENT_MESSAGE_SIZE as int)
        } else {
            data.len() as int
        },
    )
}

/// Every chunk index below the chunk count starts strictly inside the
/// payload.
pub proof fn lemma_chunk_bounds(len: int, i: int)
    requires
        1 <= len,
        0 <= i,
        i <= chunk_count(len) - 1,
    ensures
        i * (MAX_FRAGMENT_MESSAGE_SIZE as int) < len,
        chunk_count(len) >= 1,
{
    let m = MAX_FRAGMENT_MESSAGE_SIZE as int;
    lemma_fundamental_div_mod(len, m);
}

/// A payload that fits the maximum message size needs at most 256 chunks.
pub proof fn lemma_chunk_count_bound(len: int)
    requires
        1 <= len,
        len <= MAX_FRAGMENTS_IN_MESSAGE * MAX_FRAGMENT_MESSAGE_SIZE,
    ensures
        chunk_count(len) <= MAX_FRAGMENTS_IN_MESSAGE,
{
    let m = MAX_FRAGMENT_MESSAGE_SIZE as int;
    lemma_fundamental_div_mod(len, m);
}

/// The whole payload is covered once the last chunk is taken.
pub proof fn lemma_chunk_count_covers(len: int)
    requires
        1 <= len,
    ensures
        len <= chunk_count(len) * (MAX_FRAGMENT_MESSAGE_SIZE as int),
{
    let m = MAX_FRAGMENT_MESSAGE_SIZE as int;
    lemma_fundamental_div_mod(len, m);
}

/// Index of the fragment carrying id `id` (meaningful when exactly one
/// exists).
pub open spec fn idx_of_id(frags: Seq<Fragment>, id: int) -> int {
    choose|j: int| 0 <= j < frags.len() && frags[j].frag_id as int == id
}

/// Payload of the fragment carrying id `id`.
pub open spec fn payload_of_id(frags: Seq<Fragment>, id: int) -> Seq<u8> {
    frags[idx_of_id(frags, id)].data@
}

/// The fragments carry each id `0..frags.len()` exactly once, and the
/// fragment with id 0 declares `frags.len()` fragments in total.
pub open spec fn frags_complete(frags: Seq<Fragment>) -> bool {
    &&& frags.len() >= 1
    &&& forall|j: int| 0 <= j < frags.len() ==> (#[trigger] frags[j]).frag_id < frags.len()
    &&& forall|j1: int, j2: int|
        0 <= j1 < j2 < frags.len() ==> (#[trigger] frags[j1]).frag_id != (
        #[trigger] frags[j2]).frag_id
    &&& forall|id: int|
        0 <= id < frags.len() ==> {
            let jx = #[trigger] idx_of_id(frags, id);
            0 <= jx < frags.len() && frags[jx].frag_id as int == id
        }
    &&& frags[idx_of_id(frags, 0)].frag_total as int + 1 == frags.len()
}

/// Every fragment declares the same total.
pub open spec fn all_frag_totals_equal(frags: Seq<Fragment>) -> bool {
    forall|j: int|
        0 <= j < frags.len() ==> (#[trigger] frags[j]).frag_total == frags[0].frag_total
}

/// Concatenation of the payloads of ids `0..n`, in id order.
pub open spec fn reassembled_prefix(frags: Seq<Fragment>, n: int) -> Seq<u8>
    decreases n,
{
    if n <= 0 {
        Seq::empty()
    } else {
        reassembled_prefix(frags, n - 1) + payload_of_id(frags, n - 1)
    }
}

/// The message restored from a complete collection of fragments.
pub open spec fn reassembled(frags: Seq<Fragment>) -> Seq<u8> {
    reassembled_prefix(frags, frags.len() as int)
}

spec fn count_some(s: Seq<Option<usize>>) -> int
    decreases s.len(),
{
    if s.len() == 0 {
        0
    } else {
        count_some(s.drop_last()) + if s.last() is Some {
            1int
        } else {
            0int
        }
    }
}

proof fn lemma_count_some_le(s: Seq<Option<usize>>)
    ensures
        0 <= count_some(s) <= s.len(),
    decreases s.len(),
{
    if s.len() > 0 {
        lemma_count_some_le(s.drop_last());
    }
}

proof fn lemma_count_some_update(s: Seq<Option<usize>>, j: int, v: usize)
    requires
        0 <= j < s.len(),
        s[j] is None,
    ensures
        count_some(s.update(j, Some(v))) == count_some(s) + 1,
    decreases s.len(),
{
    let t = s.update(j, Some(v));
    if j == s.len() - 1 {
        assert(t.drop_last() =~= s.drop_last());
    } else {
        assert(t.drop_last() =~= s.drop_last().update(j, Some(v)));
        lemma_count_some_update(s.drop_last(), j, v);
    }
}

proof fn lemma_count_some_all(s: Seq<Option<usize>>)
    requires
        count_some(s) == s.len(),
    ensures
        forall|j: int| 0 <= j < s.len() ==> (#[trigger] s[j]) is Some,
    decreases s.len(),
{
    if s.len() > 0 {
        lemma_count_some_le(s.drop_last());
        lemma_count_some_all(s.drop_last());
        assert forall|j: int| 0 <= j < s.len() implies (#[trigger] s[j]) is Some by {
            if j < s.len() - 1 {
                assert(s.drop_last()[j] is Some);
            }
        }
    }
}

proof fn lemma_count_some_none(s: Seq<Option<usize>>)
    requires
        forall|j: int| 0 <= j < s.len() ==> (#[trigger] s[j]) is None,
    ensures
        count_some(s) == 0,
    decreases s.len(),
{
    if s.len() > 0 {
        lemma_count_some_none(s.drop_last());
    }
}

/// Restore a message from its fragments, which may arrive in any order.
///
/// Succeeds exactly when every id `0..len` occurs exactly once and the
/// fragment with id 0 declares the right total; the result is the payloads
/// concatenated in id order.
pub fn build_data_from_fragments(fragments: Vec<Fragment>) -> (r: Result<Vec<u8>, ()>)
    ensures
        match r {
            Ok(d) => frags_complete(fragments@) && d@ == reassembled(fragments@),
            Err(_) => !frags_complete(fragments@),
        },
{
    let n = fragments.len();
    if n == 0 {
        return Err(());
    }
    let mut slots: Vec<Option<usize>> = Vec::new();
    let mut k: usize = 0;
    while k < n
        invariant
            k <= n,
            slots@.len() == k,
            forall|j: int| 0 <= j < k ==> (#[trigger] slots@[j]) is None,
        decreases n - k,
    {
        slots.push(None);
        k = k + 1;
    }
    proof {
        lemma_count_some_none(slots@);
    }
    let mut i: usize = 0;
    while i < n
        invariant
            i <= n,
            n == fragments@.len(),
            slots@.len() == n,
            count_some(slots@) == i,
            forall|s: int|
                0 <= s < n ==> ((#[trigger] slots@[s]) matches Some(j) ==> 0 <= j < i
                    && fragments@[j as int].frag_id as int == s),
            forall|j: int|
                0 <= j < i ==> 0 <= (#[trigger] fragments@[j]).frag_id < n && slots@[fragments@[j].frag_id as int]
                    == Some(j as usize),
        decreases n - i,
    {
        let fid = fragments[i].frag_id as usize;
        if fid >= n {
            return Err(());
        }
        if slots[fid].is_some() {
            proof {
                let j1 = slots@[fid as int]->Some_0;
                assert(fragments@[j1 as int].frag_id == fragments@[i as int].frag_id);
            }
            return Err(());
        }
        proof {
            lemma_count_some_update(slots@, fid as int, i);
        }
        slots[fid] = Some(i);
        i = i + 1;
    }
    proof {
        lemma_count_some_all(slots@);
    }
    // every slot is filled; the ids are exactly 0..n, each once
    let j0 = match slots[0] {
        Some(j) => j,
        None => {
            return Err(());  // unreachable: all slots are filled
        },
    };
    proof {
        let jx = idx_of_id(fragments@, 0);
        assert(fragments@[j0 as int].frag_id as int == 0);
        assert(0 <= jx < n && fragments@[jx].frag_id as int == 0);
        assert(slots@[0] == Some(jx as usize));
    }
    if fragments[j0].frag_total as usize + 1 != n {
        return Err(());
    }
    proof {
        assert forall|id: int| 0 <= id < n implies {
            let jx = #[trigger] idx_of_id(fragments@, id);
            0 <= jx < fragments@.len() && fragments@[jx].frag_id as int == id
        } by {
            assert(slots@[id] is Some);
            let sj = slots@[id]->Some_0;
            assert(0 <= sj < fragments@.len() && fragments@[sj as int].frag_id as int == id);
            assert(exists|j: int| 0 <= j < fragments@.len() && fragments@[j].frag_id as int == id);
        }
    }
    let mut result: Vec<u8> = Vec::new();
    let mut id: usize = 0;
    while id < n
        invariant
            id <= n,
            n == fragments@.len(),
            slots@.len() == n,
            frags_complete(fragments@),
            forall|s: int|
                0 <= s < n ==> ((#[trigger] slots@[s]) matches Some(j) && 0 <= j < n
                    && fragments@[j as int].frag_id as int == s),
            result@ == reassembled_prefix(fragments@, id as int),
        decreases n - id,
    {
        let j = match slots[id] {
            Some(j) => j,
            None => {
                return Err(());  // unreachable: all slots are filled
            },
        };
        proof {
            let jx = idx_of_id(fragments@, id as int);
            assert(fragments@[j as int].frag_id as int == id as int);
            assert(0 <= jx < n && fragments@[jx].frag_id as int == id as int);
            assert(slots@[id as int] == Some(jx as usize));
            assert(payload_of_id(fragments@, id as int) == fragments@[j as int].data@);
        }
        result.extend_from_slice(fragments[j].data.as_slice());
        id = id + 1;
    }
    Ok(result)
}

/// Slice a payload into fragments.
///
/// Succeeds exactly when the payload is non-empty and fits in 256 chunks;
/// the generator then yields fragments `0..=frag_total` carrying the chunks
/// of the payload in order.
pub fn build_fragments_from_bytes(data: &Vec<u8>, seq_id: u32, frag_meta: FragmentMeta) -> (r:
    Result<(FragmentGenerator, u8), ()>)
    ensures
        match r {
            Ok((g, frag_total)) => {
                &&& 1 <= data@.len() <= MAX_FRAGMENTS_IN_MESSAGE * MAX_FRAGMENT_MESSAGE_SIZE
                &&& frag_total as int == chunk_count(data@.len() as int) - 1
                &&& g@.wf()
                &&& g@.data == data@
                &&& g@.seq_id == seq_id
                &&& g@.frag_meta == frag_meta
                &&& g@.frag_total == frag_total
                &&& g@.next_frag == 0
            },
            Err(_) => data@.len() == 0 || data@.len() > MAX_FRAGMENTS_IN_MESSAGE
                * MAX_FRAGMENT_MESSAGE_SIZE,
        },
{
    if data.len() == 0 {
        return Err(());
    }
    let mut fragments_count: usize = data.len() / MAX_FRAGMENT_MESSAGE_SIZE;
    if data.len() % MAX_FRAGMENT_MESSAGE_SIZE != 0 {
        fragments_count = fragments_count + 1;
    }
    if fragments_count > MAX_FRAGMENTS_IN_MESSAGE {
        proof {
            lemma_fundamental_div_mod(data@.len() as int, MAX_FRAGMENT_MESSAGE_SIZE as int);
        }
        return Err(());
    }
    proof {
        lemma_fundamental_div_mod(data@.len() as int, MAX_FRAGMENT_MESSAGE_SIZE as int);
    }
    let frag_total = (fragments_count - 1) as u8;
    let owned: Vec<u8> = vstd::slice::slice_to_vec(data.as_slice());
    Ok((FragmentGenerator::new(owned, seq_id, frag_total, frag_meta), frag_total))
}

proof fn lemma_reassembled_take(frags: Seq<Fragment>, data: Seq<u8>, k: int)
    requires
        1 <= data.len(),
        frags.len() == chunk_count(data.len() as int),
        forall|id: int|
            0 <= id < frags.len() ==> #[trigger] payload_of_id(frags, id) == chunk_of(data, id),
        0 <= k <= frags.len(),
    ensures
        reassembled_prefix(frags, k) == data.take(
            if k * (MAX_FRAGMENT_MESSAGE_SIZE as int) <= data.len() {
                k * (MAX_FRAGMENT_MESSAGE_SIZE as int)
            } else {
                data.len() as int
            },
        ),
    decreases k,
{
    let m = MAX_FRAGMENT_MESSAGE_SIZE as int;
    if k == 0 {
        assert(reassembled_prefix(frags, 0) =~= data.take(0));
    } else {
        lemma_reassembled_take(frags, data, k - 1);
        lemma_chunk_bounds(data.len() as int, k - 1);
        let a = (k - 1) * m;
        let b = if k * m <= data.len() {
            k * m
        } else {
            data.len() as int
        };
        assert(payload_of_id(frags, k - 1) == chunk_of(data, k - 1));
        assert(data.take(a) + data.subrange(a, b) =~= data.take(b));
    }
}

/// Reassembling the fragments of a payload restores the payload: any
/// complete collection of fragments whose payload for id `i` is chunk `i`
/// of `data` concatenates back to `data` exactly.
pub proof fn lemma_reassemble_fragments(frags: Seq<Fragment>, data: Seq<u8>)
    requires
        1 <= data.len(),
        frags.len() == chunk_count(data.len() as int),
        forall|id: int|
            0 <= id < frags.len() ==> #[trigger] payload_of_id(frags, id) == chunk_of(data, id),
    ensures
        reassembled_prefix(frags, frags.len() as int) == data,
{
    let m = MAX_FRAGMENT_MESSAGE_SIZE as int;
    lemma_reassembled_take(frags, data, frags.len() as int);
    lemma_chunk_count_covers(data.len() as int);
    assert(data.take(data.len() as int) =~= data);
}

} // verus!
