//! Decoding and encoding of hexadecimal strings.
//!
//! A string of an even number of hexadecimal digits decodes to one byte per
//! digit pair, in order.  An odd-length string or a non-digit character is
//! rejected before any byte is produced.

use vstd::prelude::*;

verus! {

use vstd::string::StrSliceExecFns;
use vstd::string::StringExecFns;

broadcast use vstd::string::group_string_axioms;

/// Why a hexadecimal string failed to decode.
#[derive(Debug, Clone, Copy, PartialEq, Eq, Structural)]
pub enum HexError {
    /// The string has an odd number of characters, so the final digit would
    /// describe half a byte.
    OddLength,
    /// A character of the string is not a hexadecimal digit.
    InvalidDigit,
}

/// Is `c` one of the characters `0-9`, `a-f` or `A-F`?
pub open spec fn is_hex_digit(c: char) -> bool {
    ('0' <= c && c <= '9') || ('a' <= c && c <= 'f') || ('A' <= c && c <= 'F')
}

/// Numeric value of a hexadecimal digit character.
pub open spec fn hex_digit_value(c: char) -> int
    recommends
        is_hex_digit(c),
{
    if '0' <= c && c <= '9' {
        c as int - '0' as int
    } else if 'a' <= c && c <= 'f' {
        c as int - 'a' as int + 10
    } else {
        c as int - 'A' as int + 10
    }
}

/// The lower-case hexadecimal digit character for a value in `[0, 16)`.
pub open spec fn hex_digit_char(v: int) -> char
    recommends
        0 <= v < 16,
{
    if v < 10 {
        (('0' as int + v) as u8) as char
    } else {
        (('a' as int + v - 10) as u8) as char
    }
}

/// The bytes denoted by an even-length sequence of hexadecimal digits.
pub open spec fn decoded_bytes(s: Seq<char>) -> Seq<u8>
    recommends
        s.len() % 2 == 0,
        forall|i: int| 0 <= i < s.len() ==> is_hex_digit(#[trigger] s[i]),
{
    Seq::new((s.len() / 2) as nat, |i: int| (hex_digit_value(s[2 * i]) * 16 + hex_digit_value(
        s[2 * i + 1],
    )) as u8)
}

/// What `decode` returns for any input string.
pub open spec fn spec_decode(s: Seq<char>) -> Result<Seq<u8>, HexError> {
    if s.len() % 2 != 0 {
        Err(HexError::OddLength)
    } else if exists|i: int| 0 <= i < s.len() && !is_hex_digit(#[trigger] s[i]) {
        Err(HexError::InvalidDigit)
    } else {
        Ok(decoded_bytes(s))
    }
}

/// The lower-case hexadecimal rendering of a byte sequence, two digits per
/// byte.
pub open spec fn spec_encode(b: Seq<u8>) -> Seq<char> {
    Seq::new(2 * b.len(), |i: int| hex_digit_char(
        if i % 2 == 0 {
            b[i / 2] as int / 16
        } else {
            b[i / 2] as int % 16
        },
    ))
}

/// `s` with upper-case hexadecimal digits replaced by lower-case ones.
pub open spec fn lower_hex(s: Seq<char>) -> Seq<char> {
    s.map(|i: int, c: char| if 'A' <= c && c <= 'F' {
        ((c as int + 32) as u8) as char
    } else {
        c
    })
}

/// Numeric value of a hexadecimal digit byte, if it is one.
fn hex_val(b: u8) -> (r: Option<u8>)
    ensures
        forall|c: char| '\0' <= c <= '\u{7f}' && c as u8 == b ==> {
            &&& r is Some <==> is_hex_digit(c)
            &&& r is Some ==> r->0 == hex_digit_value(c) && r->0 < 16
        },
{
    if 0x30 <= b && b <= 0x39 {
        Some(b - 0x30)
    } else if 0x61 <= b && b <= 0x66 {
        Some(b - 0x61 + 10)
    } else if 0x41 <= b && b <= 0x46 {
        Some(b - 0x41 + 10)
    } else {
        None
    }
}

/// Decode a string of hexadecimal digits into the byte sequence it denotes.
///
/// Fails on an odd-length string and on any character that is not a
/// hexadecimal digit; otherwise each adjacent digit pair becomes one byte,
/// in order.
pub fn decode(s: &str) -> (r: Result<Vec<u8>, HexError>)
    ensures
        match r {
            Ok(v) => spec_decode(s@) == Ok::<Seq<u8>, HexError>(v@),
            Err(e) => spec_decode(s@) == Err::<Seq<u8>, HexError>(e),
        },
{
    let n = s.unicode_len();
    if n % 2 != 0 {
        return Err(HexError::OddLength);
    }
    if !s.is_ascii() {
        let ghost i = choose|i: int| !(0 <= i < s@.len() ==> '\0' <= #[trigger] s@[i] <= '\u{7f}');
        assert(!is_hex_digit(s@[i]));
        return Err(HexError::InvalidDigit);
    }
    let mut v: Vec<u8> = Vec::new();
    let mut k: usize = 0;
    while k < n / 2
        invariant
            n == s@.len(),
            n % 2 == 0,
            k <= n / 2,
            s.is_ascii(),
            forall|i: int| 0 <= i < 2 * k ==> is_hex_digit(#[trigger] s@[i]),
            v@.len() == k,
            forall|i: int| 0 <= i < k ==> v@[i] == (hex_digit_value(s@[2 * i]) * 16
                + hex_digit_value(s@[2 * i + 1])) as u8,
        decreases n / 2 - k,
    {
        let b0 = s.get_ascii(2 * k);
        let b1 = s.get_ascii(2 * k + 1);
        let d0 = match hex_val(b0) {
            Some(d) => d,
            None => {
                assert(!is_hex_digit(s@[2 * k as int]));
                return Err(HexError::InvalidDigit);
            },
        };
        let d1 = match hex_val(b1) {
            Some(d) => d,
            None => {
                assert(!is_hex_digit(s@[2 * k as int + 1]));
                return Err(HexError::InvalidDigit);
            },
        };
        v.push(d0 * 16 + d1);
        k = k + 1;
    }
    assert(v@ =~= decoded_bytes(s@));
    Ok(v)
}

/// Append the lower-case hexadecimal digit character for `v` to `out`.
fn push_hex_digit(out: &mut String, v: u8)
    requires
        v < 16,
    ensures
        final(out)@ == old(out)@ + seq![hex_digit_char(v as int)],
{
    let d = match v {
        0 => "0",
        1 => "1",
        2 => "2",
        3 => "3",
        4 => "4",
        5 => "5",
        6 => "6",
        7 => "7",
        8 => "8",
        9 => "9",
        10 => "a",
        11 => "b",
        12 => "c",
        13 => "d",
        14 => "e",
        _ => "f",
    };
    proof {
        reveal_strlit("0");
        reveal_strlit("1");
        reveal_strlit("2");
        reveal_strlit("3");
        reveal_strlit("4");
        reveal_strlit("5");
        reveal_strlit("6");
        reveal_strlit("7");
        reveal_strlit("8");
        reveal_strlit("9");
        reveal_strlit("a");
        reveal_strlit("b");
        reveal_strlit("c");
        reveal_strlit("d");
        reveal_strlit("e");
        reveal_strlit("f");
    }
    out.append(d);
    assert(final(out)@ =~= old(out)@ + seq![hex_digit_char(v as int)]);
}

/// Encode a byte sequence as a lower-case hexadecimal string, two digits per
/// byte, in order.
pub fn encode(b: &Vec<u8>) -> (r: String)
    ensures
        r@ == spec_encode(b@),
{
    let mut out = String::new();
    let mut k: usize = 0;
    while k < b.len()
        invariant
            k <= b@.len(),
            out@ == spec_encode(b@).take(2 * k),
        decreases b@.len() - k,
    {
        let byte = b[k];
        push_hex_digit(&mut out, byte / 16);
        push_hex_digit(&mut out, byte % 16);
        assert(out@ =~= spec_encode(b@).take(2 * (k + 1)));
        k = k + 1;
    }
    assert(out@ =~= spec_encode(b@));
    out
}

/// Law: decoding an even-length string of hexadecimal digits and re-encoding
/// the bytes yields the original string up to letter case.
pub proof fn lemma_decode_encode_round_trip(s: Seq<char>)
    requires
        s.len() % 2 == 0,
        forall|i: int| 0 <= i < s.len() ==> is_hex_digit(#[trigger] s[i]),
    ensures
        spec_decode(s) is Ok,
        spec_encode(spec_decode(s)->Ok_0) == lower_hex(s),
{
    let b = decoded_bytes(s);
    assert forall|i: int| 0 <= i < 2 * b.len() implies spec_encode(b)[i] == lower_hex(s)[i] by {
        let c0 = s[2 * (i / 2)];
        let c1 = s[2 * (i / 2) + 1];
        let v = hex_digit_value(c0) * 16 + hex_digit_value(c1);
        assert(0 <= hex_digit_value(c0) < 16);
        assert(0 <= hex_digit_value(c1) < 16);
        assert(b[i / 2] == v as u8);
        assert(v / 16 == hex_digit_value(c0)) by (nonlinear_arith)
            requires
                v == hex_digit_value(c0) * 16 + hex_digit_value(c1),
                0 <= hex_digit_value(c0) < 16,
                0 <= hex_digit_value(c1) < 16,
        ;
        assert(v % 16 == hex_digit_value(c1)) by (nonlinear_arith)
            requires
                v == hex_digit_value(c0) * 16 + hex_digit_value(c1),
                0 <= hex_digit_value(c0) < 16,
                0 <= hex_digit_value(c1) < 16,
        ;
        if i % 2 == 0 {
            assert(2 * (i / 2) == i);
            assert(hex_digit_char(hex_digit_value(c0)) == lower_hex(s)[i]);
        } else {
            assert(2 * (i / 2) + 1 == i);
            assert(hex_digit_char(hex_digit_value(c1)) == lower_hex(s)[i]);
        }
    }
    assert(spec_encode(b) =~= lower_hex(s));
}

/// Law: encoding any byte sequence and decoding the result returns the same
/// bytes.
pub proof fn lemma_encode_decode_round_trip(b: Seq<u8>)
    ensures
        spec_decode(spec_encode(b)) == Ok::<Seq<u8>, HexError>(b),
{
    let s = spec_encode(b);
    assert forall|i: int| 0 <= i < s.len() implies is_hex_digit(#[trigger] s[i]) by {
        assert(0 <= b[i / 2] as int / 16 < 16);
        assert(0 <= b[i / 2] as int % 16 < 16);
    }
    assert forall|i: int| 0 <= i < b.len() implies decoded_bytes(s)[i] == b[i] by {
        let hi = b[i] as int / 16;
        let lo = b[i] as int % 16;
        assert(s[2 * i] == hex_digit_char(hi));
        assert(s[2 * i + 1] == hex_digit_char(lo));
        assert(hex_digit_value(hex_digit_char(hi)) == hi);
        assert(hex_digit_value(hex_digit_char(lo)) == lo);
    }
    assert(decoded_bytes(s) =~= b);
}

} // verus!
