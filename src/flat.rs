use vstd::prelude::*;
use vstd::slice::slice_subrange;

use crate::buffer::Buffer;

verus! {

/// A buffer over one contiguous slice of bytes that it borrows.
pub struct SliceBuffer<'a> {
    data: &'a [u8],
    pos: usize,
}

impl<'a> SliceBuffer<'a> {
    #[verifier::type_invariant]
    spec fn inv(&self) -> bool {
        self.pos <= self.data.len()
    }

    /// A buffer over `data` with its cursor at the start.
    pub fn new(data: &'a [u8]) -> (r: Self)
        ensures
            r.content() == data@,
            r.cursor() == 0,
    {
        SliceBuffer { data, pos: 0 }
    }
}

impl<'a> Buffer for SliceBuffer<'a> {
    closed spec fn content(&self) -> Seq<u8> {
        self.data@
    }

    closed spec fn cursor(&self) -> nat {
        self.pos as nat
    }

    fn length(&self) -> (r: usize) {
        self.data.len()
    }

    fn forward(&mut self, cnt: usize) {
        proof {
            use_type_invariant(&*self);
        }
        self.pos = self.pos + cnt;
    }

    fn backward(&mut self, cnt: usize) {
        proof {
            use_type_invariant(&*self);
        }
        self.pos = self.pos - cnt;
    }

    fn position(&self) -> (r: usize) {
        proof {
            use_type_invariant(self);
        }
        self.pos
    }

    fn bytes(&self) -> (r: &[u8]) {
        proof {
            use_type_invariant(self);
        }
        slice_subrange(self.data, self.pos, self.data.len())
    }
}

} // verus!
