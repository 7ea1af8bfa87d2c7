//! Binary diagnostics: the most and least common bit of each column give
//! the power consumption, and repeated filtering gives the life support
//! rating.

use vstd::prelude::*;

verus! {

/// The number denoted by a sequence of binary digit bytes, most significant
/// first.
pub open spec fn bin_value(s: Seq<u8>) -> int
    decreases s.len(),
{
    if s.len() == 0 {
        0
    } else {
        bin_value(s.drop_last()) * 2 + (s.last() - 0x30)
    }
}

/// Is `b` the code of a binary digit?
pub open spec fn is_bin_digit(b: u8) -> bool {
    b == 0x30 || b == 0x31
}

/// What `parse_bin_u32` returns: the value of a nonempty all-binary string
/// that fits in 32 bits.
pub open spec fn spec_parse_bin(s: Seq<u8>) -> Option<int> {
    if s.len() == 0 {
        None
    } else if exists|i: int| 0 <= i < s.len() && !is_bin_digit(#[trigger] s[i]) {
        None
    } else if bin_value(s) > u32::MAX {
        None
    } else {
        Some(bin_value(s))
    }
}

proof fn lemma_bin_value_nonneg(s: Seq<u8>)
    requires
        forall|i: int| 0 <= i < s.len() ==> is_bin_digit(#[trigger] s[i]),
    ensures
        bin_value(s) >= 0,
    decreases s.len(),
{
    if s.len() > 0 {
        lemma_bin_value_nonneg(s.drop_last());
    }
}

proof fn lemma_bin_value_prefix(s: Seq<u8>, k: int)
    requires
        0 <= k <= s.len(),
        forall|i: int| 0 <= i < s.len() ==> is_bin_digit(#[trigger] s[i]),
    ensures
        bin_value(s.take(k)) <= bin_value(s),
    decreases s.len(),
{
    if k == s.len() {
        assert(s.take(k) =~= s);
    } else {
        assert(s.drop_last().take(k) =~= s.take(k));
        lemma_bin_value_prefix(s.drop_last(), k);
        lemma_bin_value_nonneg(s.drop_last());
    }
}

/// Read a nonempty string of binary digits as a 32-bit number.
pub fn parse_bin_u32(s: &[u8]) -> (r: Option<u32>)
    ensures
        match r {
            Some(v) => spec_parse_bin(s@) == Some(v as int),
            None => spec_parse_bin(s@) is None,
        },
{
    if s.len() == 0 {
        return None;
    }
    let mut acc: u32 = 0;
    let mut i: usize = 0;
    proof {
        assert(s@.take(0) =~= Seq::<u8>::empty());
    }
    while i < s.len()
        invariant
            0 <= i <= s@.len(),
            forall|j: int| 0 <= j < i ==> is_bin_digit(#[trigger] s@[j]),
            acc as int == bin_value(s@.take(i as int)),
        decreases s@.len() - i,
    {
        let b = s[i];
        if b != 0x30 && b != 0x31 {
            return None;
        }
        proof {
            assert(s@.take(i as int + 1).drop_last() =~= s@.take(i as int));
            assert(s@.take(i as int + 1).last() == s@[i as int]);
        }
        let d = (b - 0x30) as u32;
        let shifted = match acc.checked_mul(2) {
            None => {
                proof {
                    lemma_bin_overflow(s@, i as int);
                }
                return None;
            },
            Some(v) => v,
        };
        acc = match shifted.checked_add(d) {
            None => {
                proof {
                    lemma_bin_overflow(s@, i as int);
                }
                return None;
            },
            Some(v) => v,
        };
        i = i + 1;
    }
    proof {
        assert(s@.take(s@.len() as int) =~= s@);
    }
    Some(acc)
}

/// If the running value overflows while digits remain, the whole string's
/// value does not fit either.
proof fn lemma_bin_overflow(s: Seq<u8>, i: int)
    requires
        0 <= i < s.len(),
        forall|j: int| 0 <= j <= i ==> is_bin_digit(#[trigger] s[j]),
        bin_value(s.take(i)) * 2 + (s[i] - 0x30) > u32::MAX,
    ensures
        (forall|j: int| 0 <= j < s.len() ==> is_bin_digit(#[trigger] s[j])) ==> bin_value(s)
            > u32::MAX,
{
    if forall|j: int| 0 <= j < s.len() ==> is_bin_digit(#[trigger] s[j]) {
        lemma_bin_value_prefix(s, i + 1);
        assert(s.take(i + 1).drop_last() =~= s.take(i));
        assert(s.take(i + 1).last() == s[i]);
    }
}

/// Is the bit at position `bit` of `x` set?
pub open spec fn bit_of(x: u32, bit: u32) -> bool {
    (x >> bit) & 1 == 1
}

/// How many reports have the bit at `bit` set.
pub open spec fn count_with_bit(s: Seq<u32>, bit: u32) -> int
    decreases s.len(),
{
    if s.len() == 0 {
        0
    } else {
        count_with_bit(s.drop_last(), bit) + if bit_of(s.last(), bit) {
            1int
        } else {
            0int
        }
    }
}

/// The number of meaningful bits of `x`: the least `n` with `x >> n == 0`.
pub open spec fn bitlen_from(x: u32, n: int) -> int
    decreases 32 - n,
{
    if n >= 32 {
        32
    } else if x >> (n as u32) == 0 {
        n
    } else {
        bitlen_from(x, n + 1)
    }
}

/// The widest report decides how many columns the diagnostic has.
pub open spec fn spec_report_size(s: Seq<u32>) -> int
    decreases s.len(),
{
    if s.len() <= 1 {
        bitlen_from(s[0], 0)
    } else {
        let rest = spec_report_size(s.drop_last());
        let last = bitlen_from(s.last(), 0);
        if last > rest {
            last
        } else {
            rest
        }
    }
}

/// The number of meaningful bits of one report.
fn bitlen(x: u32) -> (r: u32)
    ensures
        r as int == bitlen_from(x, 0),
        r <= 32,
{
    let mut n: u32 = 0;
    while n < 32 && (x >> n) != 0
        invariant
            0 <= n <= 32,
            bitlen_from(x, 0) == bitlen_from(x, n as int),
        decreases 32 - n,
    {
        n = n + 1;
    }
    n
}

/// The number of columns: the bit length of the widest report.
pub fn get_size(reports: &Vec<u32>) -> (r: Option<u32>)
    ensures
        match r {
            Some(v) => reports@.len() > 0 && v as int == spec_report_size(reports@) && v <= 32,
            None => reports@.len() == 0,
        },
{
    if reports.len() == 0 {
        return None;
    }
    let mut best: u32 = bitlen(reports[0]);
    let mut i: usize = 1;
    proof {
        assert(reports@.take(1) =~= seq![reports@[0]]);
    }
    while i < reports.len()
        invariant
            1 <= i <= reports@.len(),
            best as int == spec_report_size(reports@.take(i as int)),
            best <= 32,
        decreases reports@.len() - i,
    {
        proof {
            assert(reports@.take(i as int + 1).drop_last() =~= reports@.take(i as int));
            assert(reports@.take(i as int + 1).last() == reports@[i as int]);
        }
        let l = bitlen(reports[i]);
        if l > best {
            best = l;
        }
        i = i + 1;
    }
    proof {
        assert(reports@.take(reports@.len() as int) =~= reports@);
    }
    Some(best)
}

/// The most-common-bit word over the low `size` columns: bit `b` is set
/// exactly when strictly more reports have it set than clear.
pub open spec fn spec_gamma(s: Seq<u32>, size: int) -> u32
    decreases size,
{
    if size <= 0 {
        0
    } else {
        spec_gamma(s, size - 1) | (if 2 * count_with_bit(s, (size - 1) as u32) > s.len() {
            1u32 << ((size - 1) as u32)
        } else {
            0u32
        })
    }
}

/// The complementary word: bit `b` is set when at most as many reports have
/// it set as clear.
pub open spec fn spec_epsilon(s: Seq<u32>, size: int) -> u32
    decreases size,
{
    if size <= 0 {
        0
    } else {
        spec_epsilon(s, size - 1) | (if 2 * count_with_bit(s, (size - 1) as u32) <= s.len() {
            1u32 << ((size - 1) as u32)
        } else {
            0u32
        })
    }
}

/// Count the reports whose bit at `bit` is set.
fn count_ones_at(reports: &Vec<u32>, bit: u32) -> (r: usize)
    requires
        bit < 32,
    ensures
        r as int == count_with_bit(reports@, bit),
        r <= reports@.len(),
{
    let mut count: usize = 0;
    let mut i: usize = 0;
    proof {
        assert(reports@.take(0) =~= Seq::<u32>::empty());
    }
    while i < reports.len()
        invariant
            bit < 32,
            0 <= i <= reports@.len(),
            count <= i,
            count as int == count_with_bit(reports@.take(i as int), bit),
        decreases reports@.len() - i,
    {
        proof {
            assert(reports@.take(i as int + 1).drop_last() =~= reports@.take(i as int));
            assert(reports@.take(i as int + 1).last() == reports@[i as int]);
        }
        if (reports[i] >> bit) & 1 == 1 {
            count = count + 1;
        }
        i = i + 1;
    }
    proof {
        assert(reports@.take(reports@.len() as int) =~= reports@);
    }
    count
}

/// The power consumption: the gamma and epsilon words over the given
/// number of columns, multiplied.
pub fn power_consumption(reports: &Vec<u32>, size: u32) -> (r: u64)
    requires
        size <= 32,
        2 * reports@.len() <= usize::MAX,
    ensures
        r as int == spec_gamma(reports@, size as int) * spec_epsilon(reports@, size as int),
{
    let mut gamma: u32 = 0;
    let mut epsilon: u32 = 0;
    let mut bit: u32 = 0;
    while bit < size
        invariant
            0 <= bit <= size <= 32,
            2 * reports@.len() <= usize::MAX,
            gamma == spec_gamma(reports@, bit as int),
            epsilon == spec_epsilon(reports@, bit as int),
        decreases size - bit,
    {
        let ones = count_ones_at(reports, bit);
        proof {
            assert(gamma | 0u32 == gamma) by (bit_vector);
            assert(epsilon | 0u32 == epsilon) by (bit_vector);
        }
        if 2 * ones > reports.len() {
            gamma = gamma | (1u32 << bit);
        } else {
            epsilon = epsilon | (1u32 << bit);
        }
        bit = bit + 1;
    }
    proof {
        assert((gamma as int) * (epsilon as int) <= u64::MAX) by (nonlinear_arith)
            requires
                0 <= gamma <= u32::MAX,
                0 <= epsilon <= u32::MAX,
        ;
    }
    (gamma as u64) * (epsilon as u64)
}

/// Which bit criterion a rating keeps at each column.
#[derive(Debug, Clone, Copy, PartialEq, Eq, Structural)]
pub enum Criterion {
    /// Keep the reports with the most common bit, ties favouring a set bit.
    MostCommon,
    /// Keep the reports with the least common bit, ties favouring a clear
    /// bit.
    LeastCommon,
}

/// The recursion bound on the rating search.
pub open spec fn max_rating_rounds() -> int {
    100
}

/// The rating left after filtering column by column from `bit` on:
/// `None` when the reports run out or the bound is hit.
pub open spec fn spec_rating(s: Seq<u32>, bit: int, size: u32, crit: Criterion) -> Option<u32>
    decreases max_rating_rounds() - bit,
{
    if s.len() == 0 || bit >= max_rating_rounds() || bit < 0 {
        None
    } else if s.len() == 1 {
        Some(s[0])
    } else if size < 1 + bit {
        None
    } else {
        let col = (size - 1 - bit) as u32;
        let ones = s.filter(|x: u32| bit_of(x, col));
        let zeros = s.filter(|x: u32| !bit_of(x, col));
        let keep_ones = match crit {
            Criterion::MostCommon => 2 * ones.len() >= s.len(),
            Criterion::LeastCommon => 2 * ones.len() < s.len(),
        };
        if keep_ones {
            spec_rating(ones, bit + 1, size, crit)
        } else {
            spec_rating(zeros, bit + 1, size, crit)
        }
    }
}

/// Filter the reports column by column, keeping the chosen criterion's bit,
/// until one report is left.
///
/// Returns `None` when the reports run out, when the round bound is hit,
/// and when the columns are exhausted first.
pub fn rating(reports: &Vec<u32>, bit: u32, size: u32, crit: Criterion) -> (r: Option<u32>)
    requires
        bit <= 100,
        size <= 32,
        2 * reports@.len() <= usize::MAX,
    ensures
        r == spec_rating(reports@, bit as int, size, crit),
    decreases 100 - bit,
{
    let ghost s = reports@;
    if reports.len() == 0 || bit >= 100 {
        return None;
    }
    if reports.len() == 1 {
        return Some(reports[0]);
    }
    if size < 1 + bit {
        return None;
    }
    let col = size - 1 - bit;
    let ghost onesm = s.filter(|x: u32| bit_of(x, col));
    let ghost zerosm = s.filter(|x: u32| !bit_of(x, col));
    let mut ones: Vec<u32> = Vec::new();
    let mut zeros: Vec<u32> = Vec::new();
    let mut i: usize = 0;
    proof {
        reveal(Seq::filter);
        s.lemma_filter_len(|x: u32| bit_of(x, col));
        s.lemma_filter_len(|x: u32| !bit_of(x, col));
        assert(s.take(0) =~= Seq::<u32>::empty());
        assert(s.take(0).filter(|x: u32| bit_of(x, col)) =~= Seq::<u32>::empty());
        assert(s.take(0).filter(|x: u32| !bit_of(x, col)) =~= Seq::<u32>::empty());
    }
    while i < reports.len()
        invariant
            col < 32,
            s == reports@,
            0 <= i <= s.len(),
            ones@ == s.take(i as int).filter(|x: u32| bit_of(x, col)),
            zeros@ == s.take(i as int).filter(|x: u32| !bit_of(x, col)),
        decreases s.len() - i,
    {
        proof {
            assert(s.take(i as int + 1).drop_last() =~= s.take(i as int));
            assert(s.take(i as int + 1).last() == s[i as int]);
        }
        let x = reports[i];
        if (x >> col) & 1 == 1 {
            ones.push(x);
        } else {
            zeros.push(x);
        }
        proof {
            reveal(Seq::filter);
            let pred = |x: u32| bit_of(x, col);
            let npred = |x: u32| !bit_of(x, col);
            assert(pred(s[i as int]) == bit_of(s[i as int], col));
            assert(npred(s[i as int]) == !bit_of(s[i as int], col));
            assert(s.take(i as int + 1).filter(pred) == if pred(s[i as int]) {
                s.take(i as int).filter(pred).push(s[i as int])
            } else {
                s.take(i as int).filter(pred)
            });
            assert(s.take(i as int + 1).filter(npred) == if npred(s[i as int]) {
                s.take(i as int).filter(npred).push(s[i as int])
            } else {
                s.take(i as int).filter(npred)
            });
            assert(ones@ =~= s.take(i as int + 1).filter(pred));
            assert(zeros@ =~= s.take(i as int + 1).filter(npred));
        }
        i = i + 1;
    }
    proof {
        assert(s.take(s.len() as int) =~= s);
    }
    let keep_ones = match crit {
        Criterion::MostCommon => 2 * ones.len() >= reports.len(),
        Criterion::LeastCommon => 2 * ones.len() < reports.len(),
    };
    if keep_ones {
        rating(&ones, bit + 1, size, crit)
    } else {
        rating(&zeros, bit + 1, size, crit)
    }
}

} // verus!
