//! Parsing helpers shared by the solvers: splitting a byte string at a
//! separator and reading unsigned decimal numbers.

use vstd::prelude::*;

verus! {

/// Is `b` the code of a decimal digit?
pub open spec fn is_digit(b: u8) -> bool {
    0x30 <= b <= 0x39
}

/// The number denoted by a sequence of decimal digit bytes, most significant
/// first.
pub open spec fn digits_value(s: Seq<u8>) -> int
    decreases s.len(),
{
    if s.len() == 0 {
        0
    } else {
        digits_value(s.drop_last()) * 10 + (s.last() - 0x30)
    }
}

/// What `parse_u64` returns: the value of a nonempty all-digit string that
/// fits in 64 bits.
pub open spec fn spec_parse_u64(s: Seq<u8>) -> Option<int> {
    if s.len() == 0 {
        None
    } else if exists|i: int| 0 <= i < s.len() && !is_digit(#[trigger] s[i]) {
        None
    } else if digits_value(s) > u64::MAX {
        None
    } else {
        Some(digits_value(s))
    }
}

proof fn lemma_digits_value_nonneg(s: Seq<u8>)
    requires
        forall|i: int| 0 <= i < s.len() ==> is_digit(#[trigger] s[i]),
    ensures
        digits_value(s) >= 0,
    decreases s.len(),
{
    if s.len() > 0 {
        lemma_digits_value_nonneg(s.drop_last());
    }
}

proof fn lemma_digits_value_prefix(s: Seq<u8>, k: int)
    requires
        0 <= k <= s.len(),
        forall|i: int| 0 <= i < s.len() ==> is_digit(#[trigger] s[i]),
    ensures
        digits_value(s.take(k)) <= digits_value(s),
    decreases s.len(),
{
    if k == s.len() {
        assert(s.take(k) =~= s);
    } else {
        assert(s.drop_last().take(k) =~= s.take(k));
        lemma_digits_value_prefix(s.drop_last(), k);
        lemma_digits_value_nonneg(s.drop_last());
    }
}

/// Read a nonempty string of decimal digits as a 64-bit number.
///
/// Returns `None` on an empty string, on any non-digit byte, and on a value
/// that does not fit.
pub fn parse_u64(s: &[u8]) -> (r: Option<u64>)
    ensures
        match r {
            Some(v) => spec_parse_u64(s@) == Some(v as int),
            None => spec_parse_u64(s@) is None,
        },
{
    if s.len() == 0 {
        return None;
    }
    let mut acc: u64 = 0;
    let mut i: usize = 0;
    proof {
        assert(s@.take(0) =~= Seq::<u8>::empty());
    }
    while i < s.len()
        invariant
            0 <= i <= s@.len(),
            forall|j: int| 0 <= j < i ==> is_digit(#[trigger] s@[j]),
            acc as int == digits_value(s@.take(i as int)),
        decreases s@.len() - i,
    {
        let b = s[i];
        if b < 0x30 || b > 0x39 {
            return None;
        }
        proof {
            assert(s@.take(i as int + 1).drop_last() =~= s@.take(i as int));
            assert(s@.take(i as int + 1).last() == s@[i as int]);
        }
        let d = (b - 0x30) as u64;
        let shifted = match acc.checked_mul(10) {
            None => {
                proof {
                    lemma_digits_overflow(s@, i as int);
                }
                return None;
            },
            Some(v) => v,
        };
        acc = match shifted.checked_add(d) {
            None => {
                proof {
                    lemma_digits_overflow(s@, i as int);
                }
                return None;
            },
            Some(v) => v,
        };
        i = i + 1;
    }
    proof {
        assert(s@.take(s@.len() as int) =~= s@);
    }
    Some(acc)
}

/// If the running value overflows while digits remain, the whole string's
/// value does not fit either.
proof fn lemma_digits_overflow(s: Seq<u8>, i: int)
    requires
        0 <= i < s.len(),
        forall|j: int| 0 <= j <= i ==> is_digit(#[trigger] s[j]),
        digits_value(s.take(i)) * 10 + (s[i] - 0x30) > u64::MAX,
    ensures
        (forall|j: int| 0 <= j < s.len() ==> is_digit(#[trigger] s[j])) ==> digits_value(s)
            > u64::MAX,
{
    if forall|j: int| 0 <= j < s.len() ==> is_digit(#[trigger] s[j]) {
        lemma_digits_value_prefix(s, i + 1);
        assert(s.take(i + 1).drop_last() =~= s.take(i));
        assert(s.take(i + 1).last() == s[i]);
    }
}

/// `b` with an upper-case letter turned lower-case.
pub open spec fn lower_byte(b: u8) -> u8 {
    if 0x41 <= b <= 0x5a {
        (b + 0x20) as u8
    } else {
        b
    }
}

/// `s` with upper-case letters turned lower-case.
pub open spec fn lower(s: Seq<u8>) -> Seq<u8> {
    s.map_values(|b: u8| lower_byte(b))
}

/// The index of the first `sep` in `s`, or a negative value if there is
/// none.
pub open spec fn find_byte(s: Seq<u8>, sep: u8) -> int
    decreases s.len(),
{
    if s.len() == 0 {
        -1
    } else if s[0] == sep {
        0
    } else {
        let r = find_byte(s.drop_first(), sep);
        if r < 0 {
            -1
        } else {
            r + 1
        }
    }
}

pub proof fn lemma_find_byte(s: Seq<u8>, sep: u8)
    ensures
        find_byte(s, sep) < 0 ==> forall|j: int| 0 <= j < s.len() ==> s[j] != sep,
        find_byte(s, sep) >= 0 ==> {
            &&& find_byte(s, sep) < s.len()
            &&& s[find_byte(s, sep)] == sep
            &&& forall|j: int| 0 <= j < find_byte(s, sep) ==> s[j] != sep
        },
    decreases s.len(),
{
    if s.len() > 0 && s[0] != sep {
        lemma_find_byte(s.drop_first(), sep);
        let r = find_byte(s.drop_first(), sep);
        if r < 0 {
            assert forall|j: int| 0 <= j < s.len() implies s[j] != sep by {
                if j > 0 {
                    assert(s.drop_first()[j - 1] == s[j]);
                }
            }
        } else {
            assert(s[r + 1] == s.drop_first()[r]);
            assert forall|j: int| 0 <= j < r + 1 implies s[j] != sep by {
                if j > 0 {
                    assert(s.drop_first()[j - 1] == s[j]);
                }
            }
        }
    }
}

/// The first occurrence of `sep` is wherever a separator stands with none
/// before it.
pub proof fn lemma_find_byte_at(s: Seq<u8>, sep: u8, k: int)
    requires
        0 <= k < s.len(),
        s[k] == sep,
        forall|j: int| 0 <= j < k ==> s[j] != sep,
    ensures
        find_byte(s, sep) == k,
    decreases s.len(),
{
    if k > 0 {
        lemma_find_byte_at(s.drop_first(), sep, k - 1);
    }
}

/// The pieces of `s` between occurrences of `sep`, in order.  A separator at
/// either end or two in a row produce empty pieces, and a string without any
/// separator is one piece.
pub open spec fn spec_split(s: Seq<u8>, sep: u8) -> Seq<Seq<u8>>
    decreases s.len(),
{
    let i = find_byte(s, sep);
    if i < 0 || i >= s.len() {
        seq![s]
    } else {
        seq![s.take(i)] + spec_split(s.skip(i + 1), sep)
    }
}

/// Split a byte string at every occurrence of `sep`.
pub fn split_bytes(s: &[u8], sep: u8) -> (r: Vec<Vec<u8>>)
    ensures
        r@.map_values(|v: Vec<u8>| v@) == spec_split(s@, sep),
{
    let mut out: Vec<Vec<u8>> = Vec::new();
    let mut token: Vec<u8> = Vec::new();
    let mut i: usize = 0;
    proof {
        assert(s@.subrange(0, 0) =~= Seq::<u8>::empty());
        assert(s@.skip(0) =~= s@);
        assert(out@.map_values(|v: Vec<u8>| v@) =~= Seq::<Seq<u8>>::empty());
        assert(Seq::<Seq<u8>>::empty() + spec_split(s@, sep) =~= spec_split(s@, sep));
    }
    while i < s.len()
        invariant
            0 <= i <= s@.len(),
            token@.len() <= i,
            token@ == s@.subrange(i - token@.len(), i as int),
            forall|j: int| 0 <= j < token@.len() ==> #[trigger] token@[j] != sep,
            spec_split(s@, sep) == out@.map_values(|v: Vec<u8>| v@) + spec_split(
                s@.skip(i - token@.len()),
                sep,
            ),
        decreases s@.len() - i,
    {
        let ghost t = i - token@.len();
        let b = s[i];
        if b == sep {
            proof {
                let rest = s@.skip(t);
                assert(rest[i - t] == sep);
                assert forall|j: int| 0 <= j < i - t implies rest[j] != sep by {
                    assert(rest[j] == token@[j]);
                }
                lemma_find_byte_at(rest, sep, i - t);
                assert(rest.take(i - t) =~= token@);
                assert(rest.skip(i - t + 1) =~= s@.skip(i + 1));
                assert(spec_split(rest, sep) == seq![token@] + spec_split(s@.skip(i + 1), sep));
                assert(out@.push(token).map_values(|v: Vec<u8>| v@) =~= out@.map_values(
                    |v: Vec<u8>| v@,
                ) + seq![token@]);
                assert((out@.map_values(|v: Vec<u8>| v@) + seq![token@]) + spec_split(
                    s@.skip(i + 1),
                    sep,
                ) =~= out@.map_values(|v: Vec<u8>| v@) + (seq![token@] + spec_split(
                    s@.skip(i + 1),
                    sep,
                )));
                assert(s@.subrange(i + 1, i + 1) =~= Seq::<u8>::empty());
            }
            out.push(token);
            token = Vec::new();
        } else {
            proof {
                assert(s@.subrange(t, i + 1) =~= s@.subrange(t, i as int).push(s@[i as int]));
            }
            token.push(b);
        }
        i = i + 1;
    }
    proof {
        let t = i - token@.len();
        let rest = s@.skip(t);
        assert(rest =~= token@);
        lemma_find_byte(token@, sep);
        assert(find_byte(token@, sep) < 0);
        assert(spec_split(rest, sep) == seq![token@]);
        assert(out@.push(token).map_values(|v: Vec<u8>| v@) =~= out@.map_values(|v: Vec<u8>| v@)
            + seq![token@]);
        assert(out@.map_values(|v: Vec<u8>| v@) + seq![token@] =~= spec_split(s@, sep));
    }
    out.push(token);
    out
}

/// What `parse_u64_list` returns: every separated piece read as a number, if
/// each one parses.
pub open spec fn spec_parse_u64_list(s: Seq<u8>, sep: u8) -> Option<Seq<int>> {
    let parts = spec_split(s, sep);
    if forall|i: int| 0 <= i < parts.len() ==> spec_parse_u64(#[trigger] parts[i]) is Some {
        Some(Seq::new(parts.len(), |i: int| spec_parse_u64(parts[i])->0))
    } else {
        None
    }
}

/// Split `s` at `sep` and read every piece as a 64-bit number.
pub fn parse_u64_list(s: &[u8], sep: u8) -> (r: Option<Vec<u64>>)
    ensures
        match r {
            Some(v) => spec_parse_u64_list(s@, sep) == Some(v@.map_values(|x: u64| x as int)),
            None => spec_parse_u64_list(s@, sep) is None,
        },
{
    let parts = split_bytes(s, sep);
    let ghost pm = spec_split(s@, sep);
    let mut out: Vec<u64> = Vec::new();
    let mut i: usize = 0;
    while i < parts.len()
        invariant
            0 <= i <= parts@.len(),
            pm == spec_split(s@, sep),
            pm == parts@.map_values(|v: Vec<u8>| v@),
            pm.len() == parts@.len(),
            out@.len() == i,
            forall|j: int| 0 <= j < i ==> spec_parse_u64(#[trigger] pm[j]) == Some(out@[j] as int),
        decreases parts@.len() - i,
    {
        match parse_u64(parts[i].as_slice()) {
            None => {
                proof {
                    assert(spec_parse_u64(pm[i as int]) is None);
                }
                return None;
            },
            Some(v) => {
                out.push(v);
            },
        }
        i = i + 1;
    }
    proof {
        assert forall|j: int| 0 <= j < pm.len() implies spec_parse_u64(#[trigger] pm[j]) is Some
            by {}
        assert(Seq::new(pm.len(), |j: int| spec_parse_u64(pm[j])->0) =~= out@.map_values(
            |x: u64| x as int,
        ));
    }
    Some(out)
}

} // verus!
