use vstd::prelude::*;

use crate::endian::{
    as_signed, be_value, decode_be, decode_le, le_value, lemma_be_value_bound, lemma_le_value_bound,
    lemma_pow256_widths,
};

verus! {

/// The `n` bytes of `b` that follow its cursor.
pub open spec fn ahead<B: Buffer>(b: B, n: nat) -> Seq<u8> {
    b.content().subrange(b.cursor() as int, (b.cursor() + n) as int)
}

/// `after` holds the same bytes as `before`, with the cursor `n` further on.
pub open spec fn advanced<B: Buffer>(before: B, after: B, n: nat) -> bool {
    &&& after.content() == before.content()
    &&& after.cursor() == before.cursor() + n
}

/// `after` holds the same bytes as `before`, with the cursor `n` further back.
pub open spec fn rewound<B: Buffer>(before: B, after: B, n: nat) -> bool {
    &&& after.content() == before.content()
    &&& after.cursor() + n == before.cursor()
}

/// A read-only byte source with a cursor, and typed reads on top of it.
///
/// A backing supplies the primitives (`length`, `position`, `bytes`,
/// `forward`, `backward`); the decoding methods are provided. Each read of
/// `n` bytes needs at least `n` bytes after the cursor, and moves the
/// cursor by exactly `n` without changing the bytes.
pub trait Buffer: Sized {
    /// Every byte of the buffer, from its start to its end.
    spec fn content(&self) -> Seq<u8>;

    /// Index in `content` of the next byte to be read.
    spec fn cursor(&self) -> nat;

    /// Total number of bytes in the buffer.
    fn length(&self) -> (r: usize)
        ensures
            r == self.content().len(),
    ;

    /// Moves the cursor `cnt` bytes forward.
    fn forward(&mut self, cnt: usize)
        requires
            old(self).cursor() + cnt <= old(self).content().len(),
        ensures
            final(self).content() == old(self).content(),
            final(self).cursor() == old(self).cursor() + cnt,
    ;

    /// Moves the cursor `cnt` bytes back.
    fn backward(&mut self, cnt: usize)
        requires
            cnt <= old(self).cursor(),
        ensures
            final(self).content() == old(self).content(),
            final(self).cursor() + cnt == old(self).cursor(),
    ;

    /// The cursor, which never passes the end of the buffer.
    fn position(&self) -> (r: usize)
        ensures
            r == self.cursor(),
            self.cursor() <= self.content().len(),
    ;

    /// A window on the bytes that follow the cursor. It may end before the
    /// buffer does, but holds at least one byte while any is left.
    fn bytes(&self) -> (r: &[u8])
        ensures
            self.cursor() + r@.len() <= self.content().len(),
            r@ == self.content().subrange(
                self.cursor() as int,
                (self.cursor() + r@.len()) as int,
            ),
            self.cursor() < self.content().len() ==> r@.len() > 0,
    ;

    /// Number of bytes left after the cursor.
    fn remaining(&self) -> (r: usize)
        ensures
            r + self.cursor() == self.content().len(),
    {
        self.length() - self.position()
    }

    /// Fills `dst` with the bytes that follow the cursor and moves the
    /// cursor past them.
    fn copy_to_slice(&mut self, dst: &mut [u8])
        requires
            old(self).cursor() + old(dst)@.len() <= old(self).content().len(),
        ensures
            final(dst)@ == old(self).content().subrange(
                old(self).cursor() as int,
                (old(self).cursor() + old(dst)@.len()) as int,
            ),
            final(self).content() == old(self).content(),
            final(self).cursor() == old(self).cursor() + old(dst)@.len(),
    {
        let n = dst.len();
        let mut i: usize = 0;
        while i < n
            invariant
                n == dst@.len(),
                i <= n,
                old(self).cursor() + n <= old(self).content().len(),
                self.content() == old(self).content(),
                self.cursor() == old(self).cursor() + i,
                dst@.take(i as int) == old(self).content().subrange(
                    old(self).cursor() as int,
                    old(self).cursor() + i,
                ),
            decreases n - i,
        {
            let window = self.bytes();
            let k = if window.len() < n - i {
                window.len()
            } else {
                n - i
            };
            let mut j: usize = 0;
            while j < k
                invariant
                    n == dst@.len(),
                    i + k <= n,
                    k <= window@.len(),
                    j <= k,
                    window@ == self.content().subrange(
                        self.cursor() as int,
                        (self.cursor() + window@.len()) as int,
                    ),
                    self.content() == old(self).content(),
                    self.cursor() == old(self).cursor() + i,
                    dst@.take(i as int) == old(self).content().subrange(
                        old(self).cursor() as int,
                        old(self).cursor() + i,
                    ),
                    forall|t: int| 0 <= t < j ==> #[trigger] dst@[i + t] == window@[t],
                decreases k - j,
            {
                dst[i + j] = window[j];
                j = j + 1;
            }
            proof {
                let c = old(self).content();
                let c0 = old(self).cursor() as int;
                assert forall|t: int| 0 <= t < i + k implies #[trigger] dst@.take(
                    (i + k) as int,
                )[t] == c.subrange(c0, c0 + i + k)[t] by {
                    if t < i {
                        assert(dst@.take(i as int)[t] == c.subrange(c0, c0 + i)[t]);
                    } else {
                        assert(dst@[i + (t - i)] == window@[t - i]);
                    }
                }
                assert(dst@.take((i + k) as int) =~= c.subrange(c0, c0 + i + k));
            }
            self.forward(k);
            i = i + k;
        }
        assert(dst@.take(n as int) =~= dst@);
    }

    /// Reads one byte as an unsigned value.
    fn get_u8(&mut self) -> (r: u8)
        requires
            old(self).cursor() + 1 <= old(self).content().len(),
        ensures
            r == old(self).content()[old(self).cursor() as int],
            final(self).content() == old(self).content(),
            final(self).cursor() == old(self).cursor() + 1,
    {
        let r = self.bytes()[0];
        self.forward(1);
        r
    }

    /// Reads one byte as a two's-complement value.
    fn get_i8(&mut self) -> (r: i8)
        requires
            old(self).cursor() + 1 <= old(self).content().len(),
        ensures
            r as int == as_signed(old(self).content()[old(self).cursor() as int] as nat, 1),
            final(self).content() == old(self).content(),
            final(self).cursor() == old(self).cursor() + 1,
    {
        let u = self.get_u8();
        proof {
            lemma_pow256_widths();
        }
        if u < 0x80 {
            u as i8
        } else {
            (u as i16 - 0x100) as i8
        }
    }

    /// Reads 2 bytes, most-significant first, as an unsigned value.
    fn get_be_u16(&mut self) -> (r: u16)
        requires
            old(self).cursor() + 2 <= old(self).content().len(),
        ensures
            r as nat == be_value(
                old(self).content().subrange(
                    old(self).cursor() as int,
                    (old(self).cursor() + 2) as int,
                ),
            ),
            final(self).content() == old(self).content(),
            final(self).cursor() == old(self).cursor() + 2,
    {
        let mut b = [0u8; 2];
        self.copy_to_slice(&mut b);
        proof {
            lemma_be_value_bound(b@);
            lemma_pow256_widths();
        }
        decode_be(b.as_slice()) as u16
    }

    /// Reads 2 bytes, least-significant first, as an unsigned value.
    fn get_le_u16(&mut self) -> (r: u16)
        requires
            old(self).cursor() + 2 <= old(self).content().len(),
        ensures
            r as nat == le_value(
                old(self).content().subrange(
                    old(self).cursor() as int,
                    (old(self).cursor() + 2) as int,
                ),
            ),
            final(self).content() == old(self).content(),
            final(self).cursor() == old(self).cursor() + 2,
    {
        let mut b = [0u8; 2];
        self.copy_to_slice(&mut b);
        proof {
            lemma_le_value_bound(b@);
            lemma_pow256_widths();
        }
        decode_le(b.as_slice()) as u16
    }

    /// Reads 2 bytes, most-significant first, as a two's-complement value.
    fn get_be_i16(&mut self) -> (r: i16)
        requires
            old(self).cursor() + 2 <= old(self).content().len(),
        ensures
            r as int == as_signed(
                be_value(
                    old(self).content().subrange(
                        old(self).cursor() as int,
                        (old(self).cursor() + 2) as int,
                    ),
                ),
                2,
            ),
            final(self).content() == old(self).content(),
            final(self).cursor() == old(self).cursor() + 2,
    {
        let u = self.get_be_u16();
        proof {
            lemma_pow256_widths();
        }
        if u < 0x8000 {
            u as i16
        } else {
            (u as i32 - 0x1_0000) as i16
        }
    }

    /// Reads 2 bytes, least-significant first, as a two's-complement value.
    fn get_le_i16(&mut self) -> (r: i16)
        requires
            old(self).cursor() + 2 <= old(self).content().len(),
        ensures
            r as int == as_signed(
                le_value(
                    old(self).content().subrange(
                        old(self).cursor() as int,
                        (old(self).cursor() + 2) as int,
                    ),
                ),
                2,
            ),
            final(self).content() == old(self).content(),
            final(self).cursor() == old(self).cursor() + 2,
    {
        let u = self.get_le_u16();
        proof {
            lemma_pow256_widths();
        }
        if u < 0x8000 {
            u as i16
        } else {
            (u as i32 - 0x1_0000) as i16
        }
    }

    /// Reads 4 bytes, most-significant first, as an unsigned value.
    fn get_be_u32(&mut self) -> (r: u32)
        requires
            old(self).cursor() + 4 <= old(self).content().len(),
        ensures
            r as nat == be_value(
                old(self).content().subrange(
                    old(self).cursor() as int,
                    (old(self).cursor() + 4) as int,
                ),
            ),
            final(self).content() == old(self).content(),
            final(self).cursor() == old(self).cursor() + 4,
    {
        let mut b = [0u8; 4];
        self.copy_to_slice(&mut b);
        proof {
            lemma_be_value_bound(b@);
            lemma_pow256_widths();
        }
        decode_be(b.as_slice()) as u32
    }

    /// Reads 4 bytes, least-significant first, as an unsigned value.
    fn get_le_u32(&mut self) -> (r: u32)
        requires
            old(self).cursor() + 4 <= old(self).content().len(),
        ensures
            r as nat == le_value(
                old(self).content().subrange(
                    old(self).cursor() as int,
                    (old(self).cursor() + 4) as int,
                ),
            ),
            final(self).content() == old(self).content(),
            final(self).cursor() == old(self).cursor() + 4,
    {
        let mut b = [0u8; 4];
        self.copy_to_slice(&mut b);
        proof {
            lemma_le_value_bound(b@);
            lemma_pow256_widths();
        }
        decode_le(b.as_slice()) as u32
    }

    /// Reads 8 bytes, most-significant first, as an unsigned value.
    fn get_be_u64(&mut self) -> (r: u64)
        requires
            old(self).cursor() + 8 <= old(self).content().len(),
        ensures
            r as nat == be_value(
                old(self).content().subrange(
                    old(self).cursor() as int,
                    (old(self).cursor() + 8) as int,
                ),
            ),
            final(self).content() == old(self).content(),
            final(self).cursor() == old(self).cursor() + 8,
    {
        let mut b = [0u8; 8];
        self.copy_to_slice(&mut b);
        proof {
            lemma_be_value_bound(b@);
            lemma_pow256_widths();
        }
        decode_be(b.as_slice()) as u64
    }

    /// Reads 8 bytes, least-significant first, as an unsigned value.
    fn get_le_u64(&mut self) -> (r: u64)
        requires
            old(self).cursor() + 8 <= old(self).content().len(),
        ensures
            r as nat == le_value(
                old(self).content().subrange(
                    old(self).cursor() as int,
                    (old(self).cursor() + 8) as int,
                ),
            ),
            final(self).content() == old(self).content(),
            final(self).cursor() == old(self).cursor() + 8,
    {
        let mut b = [0u8; 8];
        self.copy_to_slice(&mut b);
        proof {
            lemma_le_value_bound(b@);
            lemma_pow256_widths();
        }
        decode_le(b.as_slice()) as u64
    }
}

/// The sum of `widths`.
pub open spec fn total_width(widths: Seq<nat>) -> nat
    decreases widths.len(),
{
    if widths.len() == 0 {
        0
    } else {
        total_width(widths.drop_last()) + widths.last()
    }
}

/// A run of reads, each taking `widths[i]` bytes from `states[i]` to
/// `states[i + 1]`, leaves the bytes as they were and the cursor moved by
/// the sum of the widths.
pub proof fn lemma_reads_accumulate<B: Buffer>(states: Seq<B>, widths: Seq<nat>)
    requires
        states.len() == widths.len() + 1,
        forall|i: int|
            0 <= i < widths.len() ==> #[trigger] advanced(states[i], states[i + 1], widths[i]),
    ensures
        advanced(states[0], states.last(), total_width(widths)),
    decreases widths.len(),
{
    if widths.len() > 0 {
        let k = widths.len() - 1;
        lemma_reads_accumulate(states.drop_last(), widths.drop_last());
        assert(advanced(states[k], states[k + 1], widths[k]));
    }
}

/// Moving the cursor `n` bytes forward and then `n` bytes back returns it
/// to where it was, over the same bytes.
pub proof fn lemma_forward_backward<B: Buffer>(start: B, moved: B, back: B, n: nat)
    requires
        advanced(start, moved, n),
        rewound(moved, back, n),
    ensures
        back.content() == start.content(),
        back.cursor() == start.cursor(),
{
}

/// The bytes that a read of `n` bytes at any offset of `b` sees are those it
/// would see at the start of a fresh buffer holding a copy of them, so every
/// decoding method gives the same value in both places.
pub proof fn lemma_unaligned_read<B: Buffer, C: Buffer>(b: B, fresh: C, n: nat)
    requires
        b.cursor() + n <= b.content().len(),
        fresh.cursor() == 0,
        fresh.content() == Seq::new(n, |i: int| b.content()[b.cursor() + i]),
    ensures
        ahead(fresh, n) == ahead(b, n),
{
    assert(ahead(fresh, n) =~= ahead(b, n));
}

} // verus!
