//! A cursor that reads unsigned integers of arbitrary bit width from a byte
//! buffer.
//!
//! The stream is big-endian at the bit level: within each byte the
//! most-significant bit comes first, and a multi-bit field is the base-2
//! number formed by its bits in stream order.

use vstd::prelude::*;

verus! {

use vstd::arithmetic::power2::pow2;
use vstd::arithmetic::power2::lemma2_to64;

/// The value (0 or 1) of bit `i` of the stream over `buf`, counting from the
/// start of the buffer, most significant bit of each byte first.
pub open spec fn bit_at(buf: Seq<u8>, i: int) -> int
    recommends
        0 <= i < 8 * buf.len(),
{
    if (buf[i / 8] >> (7 - i % 8) as u8) & 1 == 1 {
        1
    } else {
        0
    }
}

/// The unsigned value of the `count` bits starting at bit offset `off`, read
/// in stream order as a big-endian base-2 number.
pub open spec fn bits_value(buf: Seq<u8>, off: int, count: int) -> int
    recommends
        0 <= off,
        0 <= count,
        off + count <= 8 * buf.len(),
    decreases count,
{
    if count <= 0 {
        0
    } else {
        2 * bits_value(buf, off, count - 1) + bit_at(buf, off + count - 1)
    }
}

/// A field of `count` bits is smaller than `pow2(count)`.
pub proof fn lemma_bits_value_bound(buf: Seq<u8>, off: int, count: int)
    requires
        0 <= count,
    ensures
        0 <= bits_value(buf, off, count) < pow2(count as nat),
    decreases count,
{
    if count == 0 {
        lemma2_to64();
    } else {
        vstd::arithmetic::power2::lemma_pow2_unfold(count as nat);
        lemma_bits_value_bound(buf, off, count - 1);
    }
}

/// Law: reading `a + b` bits in one field gives the same integer as reading
/// `a` bits and then `b` bits and concatenating the two, with the first field
/// in the high position.  This is what makes repeated `consume` calls read
/// the stream like one long big-endian number.
pub proof fn lemma_bits_value_concat(buf: Seq<u8>, off: int, a: int, b: int)
    requires
        0 <= a,
        0 <= b,
    ensures
        bits_value(buf, off, a + b) == bits_value(buf, off, a) * pow2(b as nat) + bits_value(
            buf,
            off + a,
            b,
        ),
    decreases b,
{
    if b == 0 {
        lemma2_to64();
        assert(pow2(0) == 1);
        assert(bits_value(buf, off + a, 0) == 0);
        assert(bits_value(buf, off, a + b) == bits_value(buf, off, a) * pow2(b as nat)
            + bits_value(buf, off + a, b));
    } else {
        lemma_bits_value_concat(buf, off, a, b - 1);
        vstd::arithmetic::power2::lemma_pow2_unfold(b as nat);
        let x = bits_value(buf, off, a);
        let y = bits_value(buf, off + a, b - 1);
        let bit = bit_at(buf, off + a + b - 1);
        assert(bits_value(buf, off, a + b) == 2 * bits_value(buf, off, a + b - 1) + bit);
        assert(bits_value(buf, off + a, b) == 2 * y + bit);
        assert(bits_value(buf, off, a + b - 1) == x * pow2((b - 1) as nat) + y);
        assert(2 * (x * pow2((b - 1) as nat) + y) + bit == x * pow2(b as nat) + (2 * y + bit))
            by (nonlinear_arith)
            requires
                pow2(b as nat) == 2 * pow2((b - 1) as nat),
        ;
        assert(bits_value(buf, off, a + b) == bits_value(buf, off, a) * pow2(b as nat)
            + bits_value(buf, off + a, b));
    }
}

/// A cursor over a byte buffer, addressed in bits.
///
/// `offset` is the number of bits already consumed; it only ever increases.
/// Reading past the end of the buffer reports exhaustion and leaves the
/// cursor unchanged.
pub struct BitReader<'a> {
    buf: &'a [u8],
    offset: usize,
}

impl<'a> BitReader<'a> {
    /// The bytes the cursor reads from.
    pub closed spec fn buf_spec(&self) -> Seq<u8> {
        self.buf@
    }

    /// The current bit offset of the cursor.
    pub closed spec fn offset_spec(&self) -> int {
        self.offset as int
    }

    /// The buffer is small enough that every bit offset within it fits in a
    /// `usize`, and the cursor stands at a representable offset.
    pub open spec fn wf(&self) -> bool {
        &&& 8 * self.buf_spec().len() <= usize::MAX
        &&& 0 <= self.offset_spec() <= usize::MAX
    }

    /// A cursor over `buf` starting at bit offset `start_offset`.
    pub fn new(buf: &[u8], start_offset: usize) -> (r: BitReader<'_>)
        requires
            8 * buf@.len() <= usize::MAX,
        ensures
            r.buf_spec() == buf@,
            r.offset_spec() == start_offset as int,
            r.wf(),
    {
        BitReader { buf, offset: start_offset }
    }

    /// The number of bits consumed so far.
    pub fn offset(&self) -> (r: usize)
        ensures
            r as int == self.offset_spec(),
    {
        self.offset
    }

    /// Read the next `count` bits as a big-endian unsigned integer and
    /// advance the cursor past them.
    ///
    /// Succeeds exactly when `count` more bits are available; on exhaustion
    /// the cursor does not move.  `count` must not exceed the 16-bit width of
    /// the result.
    pub fn consume(&mut self, count: usize) -> (r: Option<u16>)
        requires
            old(self).wf(),
            1 <= count <= 16,
        ensures
            final(self).buf_spec() == old(self).buf_spec(),
            final(self).wf(),
            match r {
                Some(v) => {
                    &&& old(self).offset_spec() + count <= 8 * old(self).buf_spec().len()
                    &&& v as int == bits_value(old(self).buf_spec(), old(self).offset_spec(), count as int)
                    &&& final(self).offset_spec() == old(self).offset_spec() + count
                },
                None => {
                    &&& old(self).offset_spec() + count > 8 * old(self).buf_spec().len()
                    &&& *final(self) == *old(self)
                },
            },
    {
        let ghost start = self.offset as int;
        let ghost bufs = self.buf@;
        let mut offset = self.offset;
        let mut result: u16 = 0;
        let mut consumed: usize = 0;
        proof {
            lemma2_to64();
        }
        while consumed < count
            invariant
                *self == *old(self),
                bufs == self.buf@,
                start == self.offset as int,
                8 * bufs.len() <= usize::MAX,
                1 <= count <= 16,
                0 <= consumed <= count,
                offset == start + consumed,
                consumed > 0 ==> start + consumed <= 8 * bufs.len(),
                result as int == bits_value(bufs, start, consumed as int),
                result < pow2(consumed as nat),
            decreases count - consumed,
        {
            let byte_index = offset / 8;
            if byte_index >= self.buf.len() {
                // The bit at `offset` lies past the end of the buffer, so the
                // requested field cannot be completed.
                assert(offset >= 8 * bufs.len());
                return None;
            }
            let byte = self.buf[byte_index];
            let shift: u8 = (7 - (offset % 8)) as u8;
            let bit: u16 = if (byte >> shift) & 1 == 1 {
                1
            } else {
                0
            };
            proof {
                assert(bit as int == bit_at(bufs, start + consumed));
                lemma2_to64();
                vstd::arithmetic::power2::lemma_pow2_unfold((consumed + 1) as nat);
                if consumed + 1 < 16 {
                    vstd::arithmetic::power2::lemma_pow2_strictly_increases(
                        (consumed + 1) as nat,
                        16,
                    );
                }
            }
            result = result * 2 + bit;
            consumed = consumed + 1;
            offset = offset + 1;
        }
        self.offset = offset;
        Some(result)
    }
}

} // verus!
