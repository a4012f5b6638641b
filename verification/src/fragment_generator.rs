use vstd::prelude::*;
use crate::consts::MAX_FRAGMENT_MESSAGE_SIZE;
use crate::consts::MAX_FRAGMENTS_IN_MESSAGE;
use crate::fragment::{chunk_count, chunk_of, Fragment, FragmentMeta};

verus! {

/// Yields the fragments of one payload in order of `frag_id`, each carrying
/// one chunk of at most `MAX_FRAGMENT_MESSAGE_SIZE` bytes.
pub struct FragmentGenerator {
    data: Vec<u8>,
    seq_id: u32,
    frag_total: u8,
    next_frag: u16,
    frag_meta: FragmentMeta,
}

/// The abstract state of a `FragmentGenerator`.
pub struct FragmentGeneratorModel {
    pub data: Seq<u8>,
    pub seq_id: u32,
    pub frag_total: u8,
    pub next_frag: int,
    pub frag_meta: FragmentMeta,
}

impl FragmentGeneratorModel {
    /// The payload fits in at most 256 chunks, `frag_total` is the index of
    /// the last chunk, and the cursor has not run past the end.
    pub open spec fn wf(self) -> bool {
        &&& 1 <= self.data.len()
        &&& self.data.len() <= MAX_FRAGMENTS_IN_MESSAGE * MAX_FRAGMENT_MESSAGE_SIZE
        &&& self.frag_total as int == chunk_count(self.data.len() as int) - 1
        &&& 0 <= self.next_frag <= self.frag_total as int + 1
    }
}

impl View for FragmentGenerator {
    type V = FragmentGeneratorModel;

    closed spec fn view(&self) -> FragmentGeneratorModel {
        FragmentGeneratorModel {
            data: self.data@,
            seq_id: self.seq_id,
            frag_total: self.frag_total,
            next_frag: self.next_frag as int,
            frag_meta: self.frag_meta,
        }
    }
}

impl FragmentGenerator {
    pub fn new(data: Vec<u8>, seq_id: u32, frag_total: u8, frag_meta: FragmentMeta) -> (r:
        FragmentGenerator)
        requires
            1 <= data@.len() <= MAX_FRAGMENTS_IN_MESSAGE * MAX_FRAGMENT_MESSAGE_SIZE,
            frag_total as int == chunk_count(data@.len() as int) - 1,
        ensures
            r@ == (FragmentGeneratorModel {
                data: data@,
                seq_id,
                frag_total,
                next_frag: 0,
                frag_meta,
            }),
            r@.wf(),
    {
        FragmentGenerator { data, seq_id, frag_total, next_frag: 0, frag_meta }
    }

    /// The index of the last fragment this generator yields.
    pub fn frag_total(&self) -> (r: u8)
        ensures
            r == self@.frag_total,
    {
        self.frag_total
    }

    /// The next fragment, or `None` once all `frag_total + 1` chunks have
    /// been yielded. No fragment ever leaves with `frag_id > frag_total`.
    pub fn next(&mut self) -> (r: Option<Fragment>)
        requires
            old(self)@.wf(),
        ensures
            final(self)@.wf(),
            final(self)@.data == old(self)@.data,
            final(self)@.seq_id == old(self)@.seq_id,
            final(self)@.frag_total == old(self)@.frag_total,
            final(self)@.frag_meta == old(self)@.frag_meta,
            old(self)@.next_frag > old(self)@.frag_total as int ==> r is None && final(self)@
                == old(self)@,
            old(self)@.next_frag <= old(self)@.frag_total as int ==> {
                &&& final(self)@.next_frag == old(self)@.next_frag + 1
                &&& r matches Some(f)
                &&& f.seq_id == old(self)@.seq_id
                &&& f.frag_id as int == old(self)@.next_frag
                &&& f.frag_total == old(self)@.frag_total
                &&& f.frag_meta == old(self)@.frag_meta
                &&& f.data@ == chunk_of(old(self)@.data, old(self)@.next_frag)
                &&& f.frag_id <= f.frag_total
            },
    {
        if self.next_frag > self.frag_total as u16 {
            return None;
        }
        let current_frag: u16 = self.next_frag;
        let start: usize = current_frag as usize * MAX_FRAGMENT_MESSAGE_SIZE;
        proof {
            crate::fragment::lemma_chunk_bounds(self.data@.len() as int, current_frag as int);
        }
        let end: usize = if start + MAX_FRAGMENT_MESSAGE_SIZE <= self.data.len() {
            start + MAX_FRAGMENT_MESSAGE_SIZE
        } else {
            self.data.len()
        };
        let chunk = vstd::slice::slice_to_vec(
            vstd::slice::slice_subrange(self.data.as_slice(), start, end),
        );
        self.next_frag = current_frag + 1;
        Some(
            Fragment {
                seq_id: self.seq_id,
                frag_id: current_frag as u8,
                frag_total: self.frag_total,
                frag_meta: self.frag_meta,
                data: chunk,
            },
        )
    }
}

} // verus!
