//! The variable-length literal encoding: 5-bit groups whose top bit says
//! whether another group follows, and whose low 4 bits carry the payload.

use vstd::prelude::*;

verus! {

use crate::bits::BitReader;
use crate::bits::bits_value;

/// The accumulator value at which folding in one more 4-bit payload could no
/// longer fit in 64 bits.
pub open spec fn varint_limit() -> int {
    0x1000_0000_0000_0000
}

/// The value and group count decoded by reading 5-bit groups from `off`
/// onwards, having already accumulated `acc` from `groups` earlier groups.
///
/// Decoding fails when the stream runs out before a terminating group, and
/// when the accumulator no longer has 4 leading zero bits to receive the next
/// payload.
pub open spec fn varint_at(buf: Seq<u8>, off: int, acc: int, groups: int) -> Option<(int, int)>
    decreases 8 * buf.len() - off,
{
    if off + 5 > 8 * buf.len() {
        None
    } else if acc >= varint_limit() {
        None
    } else {
        let g = bits_value(buf, off, 5);
        let acc2 = acc * 16 + g % 16;
        if g < 16 {
            Some((acc2, groups + 1))
        } else {
            varint_at(buf, off + 5, acc2, groups + 1)
        }
    }
}

/// The value and group count of the varint starting at bit offset `off`, if
/// one can be decoded there.
pub open spec fn spec_varint(buf: Seq<u8>, off: int) -> Option<(int, int)> {
    varint_at(buf, off, 0, 0)
}

/// A decoded literal value together with the number of 5-bit groups it
/// occupied in the stream.
#[derive(Debug, Clone, Copy, PartialEq, Eq, Structural)]
pub struct Varint(pub u64, pub usize);

impl Varint {
    /// Decode one varint from the reader's current position.
    ///
    /// On success the cursor stands just past the terminating group; on
    /// failure (exhaustion or a value that cannot fit in 64 bits) the cursor
    /// has only moved forward.
    pub fn decode(reader: &mut BitReader<'_>) -> (r: Option<Varint>)
        requires
            old(reader).wf(),
        ensures
            final(reader).buf_spec() == old(reader).buf_spec(),
            final(reader).wf(),
            match r {
                Some(v) => {
                    &&& spec_varint(old(reader).buf_spec(), old(reader).offset_spec())
                        == Some((v.0 as int, v.1 as int))
                    &&& final(reader).offset_spec() == old(reader).offset_spec() + 5 * v.1
                    &&& 1 <= v.1
                },
                None => {
                    &&& spec_varint(old(reader).buf_spec(), old(reader).offset_spec()) is None
                    &&& old(reader).offset_spec() <= final(reader).offset_spec()
                },
            },
    {
        let ghost bufs = old(reader).buf_spec();
        let ghost start = old(reader).offset_spec();
        let mut result: u64 = 0;
        let mut size: usize = 0;
        loop
            invariant
                reader.wf(),
                bufs == old(reader).buf_spec(),
                start == old(reader).offset_spec(),
                0 <= start,
                reader.buf_spec() == bufs,
                reader.offset_spec() == start + 5 * size,
                varint_at(bufs, start, 0, 0) == varint_at(
                    bufs,
                    reader.offset_spec(),
                    result as int,
                    size as int,
                ),
            decreases 8 * bufs.len() - reader.offset_spec(),
        {
            let ghost off_pre = reader.offset_spec();
            match reader.consume(5) {
                None => {
                    return None;
                },
                Some(g) => {
                    if result >= 0x1000_0000_0000_0000 {
                        return None;
                    }
                    assert(g as int == bits_value(bufs, off_pre, 5));
                    assert(g < 32) by {
                        crate::bits::lemma_bits_value_bound(bufs, off_pre, 5);
                        vstd::arithmetic::power2::lemma2_to64();
                    }
                    result = result * 16 + (g % 16) as u64;
                    assert(off_pre + 5 <= 8 * bufs.len() <= usize::MAX);
                    assert(off_pre == start + 5 * size);
                    assert(5 * size + 5 <= usize::MAX);
                    size = size + 1;
                    if g < 16 {
                        return Some(Varint(result, size));
                    }
                },
            }
        }
    }
}

} // verus!
