use vstd::prelude::*;
use vstd::slice::slice_subrange;

use crate::buffer::Buffer;

verus! {

/// A buffer over two borrowed slices read one after the other. Its window
/// never crosses from the first slice into the second.
pub struct ChainBuffer<'a> {
    head: &'a [u8],
    tail: &'a [u8],
    pos: usize,
}

impl<'a> ChainBuffer<'a> {
    #[verifier::type_invariant]
    spec fn inv(&self) -> bool {
        &&& self.head.len() + self.tail.len() <= usize::MAX
        &&& self.pos <= self.head.len() + self.tail.len()
    }

    /// A buffer over `head` followed by `tail`, with its cursor at the start.
    pub fn new(head: &'a [u8], tail: &'a [u8]) -> (r: Self)
        requires
            head@.len() + tail@.len() <= usize::MAX,
        ensures
            r.content() == head@ + tail@,
            r.cursor() == 0,
    {
        ChainBuffer { head, tail, pos: 0 }
    }
}

impl<'a> Buffer for ChainBuffer<'a> {
    closed spec fn content(&self) -> Seq<u8> {
        self.head@ + self.tail@
    }

    closed spec fn cursor(&self) -> nat {
        self.pos as nat
    }

    fn length(&self) -> (r: usize) {
        proof {
            use_type_invariant(self);
        }
        self.head.len() + self.tail.len()
    }

    fn forward(&mut self, cnt: usize) {
        proof {
            use_type_invariant(&*self);
        }
        self.pos = self.pos + cnt;
    }

    fn backward(&mut self, cnt: usize) {
        proof {
            use_type_invariant(&*self);
        }
        self.pos = self.pos - cnt;
    }

    fn position(&self) -> (r: usize) {
        proof {
            use_type_invariant(self);
        }
        self.pos
    }

    fn bytes(&self) -> (r: &[u8]) {
        proof {
            use_type_invariant(self);
        }
        let split = self.head.len();
        if self.pos < split {
            let r = slice_subrange(self.head, self.pos, split);
            assert(r@ =~= self.content().subrange(
                self.pos as int,
                (self.pos + r@.len()) as int,
            ));
            r
        } else {
            let r = slice_subrange(self.tail, self.pos - split, self.tail.len());
            assert(r@ =~= self.content().subrange(
                self.pos as int,
                (self.pos + r@.len()) as int,
            ));
            r
        }
    }
}

} // verus!
