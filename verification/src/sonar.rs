//! Sonar sweep: counting depth measurements that increase, singly and over
//! three-measurement windows.

use vstd::prelude::*;

verus! {

use crate::parse;

/// How many adjacent pairs of the sequence increase.
pub open spec fn count_increases(s: Seq<u64>) -> int
    decreases s.len(),
{
    if s.len() <= 1 {
        0
    } else {
        count_increases(s.drop_last()) + if s.last() > s[s.len() - 2] {
            1int
        } else {
            0int
        }
    }
}

/// Count the measurements that are deeper than the one before them.
pub fn solve(depths: &Vec<u64>) -> (r: usize)
    ensures
        r as int == count_increases(depths@),
{
    let mut count: usize = 0;
    let mut i: usize = 0;
    while i < depths.len()
        invariant
            0 <= i <= depths@.len(),
            count <= i,
            count as int == count_increases(depths@.take(i as int)),
        decreases depths@.len() - i,
    {
        proof {
            assert(depths@.take(i as int + 1).drop_last() =~= depths@.take(i as int));
        }
        if i > 0 && depths[i] > depths[i - 1] {
            count = count + 1;
        }
        i = i + 1;
    }
    proof {
        assert(depths@.take(depths@.len() as int) =~= depths@);
    }
    count
}

/// Each line read as one depth measurement.
pub open spec fn spec_depths(lines: Seq<Seq<char>>) -> Option<Seq<int>> {
    if forall|i: int|
        0 <= i < lines.len() ==> parse::spec_parse_u64(
            vstd::utf8::encode_utf8(#[trigger] lines[i]),
        ) is Some {
        Some(
            Seq::new(
                lines.len(),
                |i: int| parse::spec_parse_u64(vstd::utf8::encode_utf8(lines[i]))->0,
            ),
        )
    } else {
        None
    }
}

/// Parse one depth measurement per line.
pub fn parse_depths(lines: &Vec<String>) -> (r: Option<Vec<u64>>)
    ensures
        match r {
            Some(v) => spec_depths(lines@.map_values(|l: String| l@)) == Some(
                v@.map_values(|x: u64| x as int),
            ),
            None => spec_depths(lines@.map_values(|l: String| l@)) is None,
        },
{
    let ghost lm = lines@.map_values(|l: String| l@);
    let mut out: Vec<u64> = Vec::new();
    let mut i: usize = 0;
    while i < lines.len()
        invariant
            0 <= i <= lines@.len(),
            lm == lines@.map_values(|l: String| l@),
            out@.len() == i,
            forall|j: int|
                0 <= j < i ==> parse::spec_parse_u64(vstd::utf8::encode_utf8(#[trigger] lm[j]))
                    == Some(out@[j] as int),
        decreases lines@.len() - i,
    {
        match parse::parse_u64(lines[i].as_str().as_bytes()) {
            None => {
                proof {
                    assert(parse::spec_parse_u64(vstd::utf8::encode_utf8(lm[i as int])) is None);
                }
                return None;
            },
            Some(v) => {
                out.push(v);
            },
        }
        i = i + 1;
    }
    proof {
        assert(Seq::new(
            lm.len(),
            |j: int| parse::spec_parse_u64(vstd::utf8::encode_utf8(lm[j]))->0,
        ) =~= out@.map_values(|x: u64| x as int));
    }
    Some(out)
}

/// The sums of the three-measurement windows of `s`.
pub open spec fn window_sums(s: Seq<u64>) -> Seq<int> {
    Seq::new(
        if s.len() < 3 {
            0
        } else {
            (s.len() - 2) as nat
        },
        |i: int| s[i] + s[i + 1] + s[i + 2],
    )
}

/// Sum each window of three consecutive measurements.
pub fn sum_windows(depths: &Vec<u64>) -> (r: Vec<u64>)
    requires
        forall|i: int|
            0 <= i < window_sums(depths@).len() ==> #[trigger] window_sums(depths@)[i]
                <= u64::MAX,
    ensures
        r@.map_values(|x: u64| x as int) == window_sums(depths@),
{
    let mut out: Vec<u64> = Vec::new();
    if depths.len() < 3 {
        proof {
            assert(out@.map_values(|x: u64| x as int) =~= window_sums(depths@));
        }
        return out;
    }
    let n = depths.len() - 2;
    let mut i: usize = 0;
    while i < n
        invariant
            3 <= depths@.len() <= usize::MAX,
            n == depths@.len() - 2,
            0 <= i <= n,
            out@.len() == i,
            forall|j: int|
                0 <= j < window_sums(depths@).len() ==> #[trigger] window_sums(depths@)[j]
                    <= u64::MAX,
            forall|j: int| 0 <= j < i ==> out@[j] as int == #[trigger] window_sums(depths@)[j],
        decreases n - i,
    {
        assert(window_sums(depths@)[i as int] == depths@[i as int] + depths@[i as int + 1]
            + depths@[i as int + 2]);
        assert(window_sums(depths@)[i as int] <= u64::MAX);
        assert(depths@[i as int] + depths@[i as int + 1] + depths@[i as int + 2] <= u64::MAX);
        let w = depths[i] + depths[i + 1] + depths[i + 2];
        out.push(w);
        i = i + 1;
    }
    proof {
        assert(out@.map_values(|x: u64| x as int) =~= window_sums(depths@));
    }
    out
}

} // verus!
