use vstd::prelude::*;

verus! {

/// An owned byte buffer viewed from a starting offset: the cheap equivalent
/// of slicing the front off a buffer while keeping ownership of it.
pub struct OwnedSlice {
    data: Vec<u8>,
    strip_begin: usize,
}

impl View for OwnedSlice {
    type V = Seq<u8>;

    closed spec fn view(&self) -> Seq<u8> {
        self.data@.skip(self.strip_begin as int)
    }
}

impl OwnedSlice {
    /// The offset does not run past the end of the buffer.
    pub closed spec fn wf(&self) -> bool {
        self.strip_begin <= self.data@.len()
    }

    pub fn new(data: Vec<u8>, strip_begin: usize) -> (r: OwnedSlice)
        requires
            strip_begin <= data@.len(),
        ensures
            r.wf(),
            r@ == data@.skip(strip_begin as int),
    {
        OwnedSlice { data, strip_begin }
    }

    pub fn with_added_strip(self, added_strip: usize) -> (r: OwnedSlice)
        requires
            self.wf(),
            added_strip <= self@.len(),
        ensures
            r.wf(),
            r@ == self@.skip(added_strip as int),
    {
        let total_len: usize = self.data.len();
        proof {
            assert(self@.len() == total_len - self.strip_begin);
        }
        let new_strip: usize = self.strip_begin + added_strip;
        proof {
            assert(self.data@.skip(new_strip as int) =~= self@.skip(added_strip as int));
        }
        OwnedSlice::new(self.data, new_strip)
    }

    pub fn as_slice(&self) -> (r: &[u8])
        requires
            self.wf(),
        ensures
            r@ == self@,
    {
        vstd::slice::slice_subrange(self.data.as_slice(), self.strip_begin, self.data.len())
    }

    /// The viewed bytes as a fresh vector.
    pub fn into_vec(self) -> (r: Vec<u8>)
        requires
            self.wf(),
        ensures
            r@ == self@,
    {
        vstd::slice::slice_to_vec(self.as_slice())
    }
}

} // verus!
