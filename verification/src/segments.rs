//! Seven-segment search: signal patterns as segment sets, and the output
//! digits whose segment count identifies them outright.

use vstd::prelude::*;

verus! {

use crate::parse;
use crate::parse::spec_split;

/// One of the seven display segments.
#[derive(Debug, Clone, Copy, PartialEq, Eq, Structural)]
pub enum Segment {
    A,
    B,
    C,
    D,
    E,
    F,
    G,
}

/// Why a pattern failed to parse.
#[derive(Debug, Clone, Copy, PartialEq, Eq, Structural)]
pub enum SegmentsError {
    /// A byte that names no segment.
    InvalidSegment(u8),
    /// A pattern with an impossible number of segments.
    InvalidWiring,
    /// The line has no pattern part.
    MissingInput,
    /// The line has no output part.
    MissingOutput,
}

/// The segment denoted by one byte.
pub open spec fn spec_segment_of(b: u8) -> Option<Segment> {
    if b == 0x61 {
        Some(Segment::A)
    } else if b == 0x62 {
        Some(Segment::B)
    } else if b == 0x63 {
        Some(Segment::C)
    } else if b == 0x64 {
        Some(Segment::D)
    } else if b == 0x65 {
        Some(Segment::E)
    } else if b == 0x66 {
        Some(Segment::F)
    } else if b == 0x67 {
        Some(Segment::G)
    } else {
        None
    }
}

impl Segment {
    /// The segment denoted by one byte.
    pub fn of_byte(b: u8) -> (r: Option<Segment>)
        ensures
            r == spec_segment_of(b),
    {
        match b {
            0x61 => Some(Segment::A),
            0x62 => Some(Segment::B),
            0x63 => Some(Segment::C),
            0x64 => Some(Segment::D),
            0x65 => Some(Segment::E),
            0x66 => Some(Segment::F),
            0x67 => Some(Segment::G),
            _ => None,
        }
    }
}

/// What one pattern's bytes denote: a segment each.
pub open spec fn spec_parse_segments(s: Seq<u8>) -> Option<Seq<Segment>> {
    if forall|i: int| 0 <= i < s.len() ==> spec_segment_of(#[trigger] s[i]) is Some {
        Some(Seq::new(s.len(), |i: int| spec_segment_of(s[i])->0))
    } else {
        None
    }
}

/// Parse a pattern of segment letters.
pub fn parse_segments(s: &[u8]) -> (r: Result<Vec<Segment>, SegmentsError>)
    ensures
        match r {
            Ok(v) => spec_parse_segments(s@) == Some(v@),
            Err(e) => spec_parse_segments(s@) is None && (e matches
            SegmentsError::InvalidSegment(b) && spec_segment_of(b) is None),
        },
{
    let mut out: Vec<Segment> = Vec::new();
    let mut i: usize = 0;
    while i < s.len()
        invariant
            0 <= i <= s@.len(),
            out@.len() == i,
            forall|j: int| 0 <= j < i ==> spec_segment_of(#[trigger] s@[j]) is Some,
            forall|j: int| 0 <= j < i ==> #[trigger] out@[j] == spec_segment_of(s@[j])->0,
        decreases s@.len() - i,
    {
        match Segment::of_byte(s[i]) {
            None => {
                return Err(SegmentsError::InvalidSegment(s[i]));
            },
            Some(seg) => {
                out.push(seg);
            },
        }
        i = i + 1;
    }
    proof {
        assert(out@ =~= Seq::new(s@.len(), |i: int| spec_segment_of(s@[i])->0));
    }
    Ok(out)
}

/// The digit a pattern must show, going by its segment count alone: 1, 4,
/// 7 and 8 use a unique number of segments; five and six segments stay
/// ambiguous, and any other count is no digit at all.
pub open spec fn spec_value_of_len(n: int) -> Result<Option<u32>, SegmentsError> {
    if n == 2 {
        Ok(Some(1))
    } else if n == 3 {
        Ok(Some(7))
    } else if n == 4 {
        Ok(Some(4))
    } else if n == 7 {
        Ok(Some(8))
    } else if n == 5 || n == 6 {
        Ok(None)
    } else {
        Err(SegmentsError::InvalidWiring)
    }
}

/// One signal pattern: its segments and, where the count decides it, its
/// digit.
#[derive(Debug, Clone)]
pub struct Digit {
    pub wiring: Vec<Segment>,
    pub value: Option<u32>,
}

impl Digit {
    /// Parse one pattern into a digit.
    pub fn parse(s: &[u8]) -> (r: Result<Digit, SegmentsError>)
        ensures
            match r {
                Ok(d) => {
                    &&& spec_parse_segments(s@) == Some(d.wiring@)
                    &&& spec_value_of_len(s@.len() as int) == Ok::<Option<u32>, SegmentsError>(
                        d.value,
                    )
                },
                Err(e) => spec_parse_segments(s@) is None || spec_value_of_len(
                    s@.len() as int,
                ) is Err,
            },
    {
        let segments = parse_segments(s)?;
        let value = match segments.len() {
            2 => Some(1),
            3 => Some(7),
            4 => Some(4),
            7 => Some(8),
            5 => None,
            6 => None,
            _ => {
                return Err(SegmentsError::InvalidWiring);
            },
        };
        Ok(Digit { wiring: segments, value })
    }

    /// Does the segment count alone decide this digit?
    pub fn is_unique(&self) -> (r: bool)
        ensures
            r == (self.value matches Some(v) && (v == 1 || v == 4 || v == 7 || v == 8)),
    {
        if let Some(val) = self.value {
            matches!(val, 1 | 4 | 7 | 8)
        } else {
            false
        }
    }

    /// The segments this digit shares with another, in this digit's order,
    /// duplicates kept.
    pub fn common_segments(&self, other: &Digit) -> (r: Vec<Segment>)
        ensures
            r@ == self.wiring@.filter(|seg: Segment| other.wiring@.contains(seg)),
    {
        let ghost pred = |seg: Segment| other.wiring@.contains(seg);
        let mut common: Vec<Segment> = Vec::new();
        let mut i: usize = 0;
        proof {
            reveal(Seq::filter);
            assert(self.wiring@.take(0).filter(|seg: Segment| other.wiring@.contains(seg))
                =~= Seq::<Segment>::empty());
        }
        while i < self.wiring.len()
            invariant
                0 <= i <= self.wiring@.len(),
                common@ == self.wiring@.take(i as int).filter(
                    |seg: Segment| other.wiring@.contains(seg),
                ),
            decreases self.wiring@.len() - i,
        {
            proof {
                reveal(Seq::filter);
                assert(self.wiring@.take(i as int + 1).drop_last() =~= self.wiring@.take(
                    i as int,
                ));
                assert(self.wiring@.take(i as int + 1).last() == self.wiring@[i as int]);
            }
            let seg = self.wiring[i];
            let mut found = false;
            let mut j: usize = 0;
            while j < other.wiring.len()
                invariant
                    0 <= j <= other.wiring@.len(),
                    found == exists|k: int| 0 <= k < j && #[trigger] other.wiring@[k] == seg,
                decreases other.wiring@.len() - j,
            {
                if other.wiring[j] == seg {
                    found = true;
                }
                j = j + 1;
            }
            proof {
                assert(found == other.wiring@.contains(seg));
            }
            if found {
                common.push(seg);
            }
            i = i + 1;
        }
        proof {
            assert(self.wiring@.take(self.wiring@.len() as int) =~= self.wiring@);
        }
        common
    }
}

/// One note entry: the ten signal patterns and the four output digits.
#[derive(Debug)]
pub struct Entry {
    pub pattern: Vec<Digit>,
    pub output: Vec<Digit>,
}

/// What one pattern denotes as a digit: its segments and decided value.
pub open spec fn spec_digit(s: Seq<u8>) -> Option<(Seq<Segment>, Option<u32>)> {
    match spec_parse_segments(s) {
        None => None,
        Some(w) => match spec_value_of_len(s.len() as int) {
            Err(e) => None,
            Ok(v) => Some((w, v)),
        },
    }
}

/// What a run of space-separated patterns denotes, empty pieces skipped:
/// every nonempty piece as a digit, or nothing if one fails.
pub open spec fn spec_digits(parts: Seq<Seq<u8>>) -> Option<Seq<(Seq<Segment>, Option<u32>)>>
    decreases parts.len(),
{
    if parts.len() == 0 {
        Some(Seq::empty())
    } else {
        match spec_digits(parts.drop_last()) {
            None => None,
            Some(rest) => if parts.last().len() == 0 {
                Some(rest)
            } else {
                match spec_digit(parts.last()) {
                    None => None,
                    Some(m) => Some(rest.push(m)),
                }
            },
        }
    }
}

/// The models of a list of digits.
pub open spec fn digits_model(v: Seq<Digit>) -> Seq<(Seq<Segment>, Option<u32>)> {
    v.map_values(|d: Digit| (d.wiring@, d.value))
}

impl Entry {
    /// Parse one note line: patterns, a `|`, then outputs, all separated by
    /// spaces.
    pub fn parse(s: &[u8]) -> (r: Result<Entry, SegmentsError>)
        ensures
            r matches Ok(e) ==> {
                let halves = spec_split(s@, 0x7c);
                &&& halves.len() >= 2
                &&& spec_digits(spec_split(halves[0], 0x20)) == Some(digits_model(e.pattern@))
                &&& spec_digits(spec_split(halves[1], 0x20)) == Some(digits_model(e.output@))
            },
            r is Err ==> spec_split(s@, 0x7c).len() < 2 || spec_digits(
                spec_split(spec_split(s@, 0x7c)[0], 0x20),
            ) is None || spec_digits(spec_split(spec_split(s@, 0x7c)[1], 0x20)) is None,
    {
        let halves = parse::split_bytes(s, 0x7c);
        proof {
            assert(spec_split(s@, 0x7c).len() >= 1);
        }
        if halves.len() < 2 {
            return Err(SegmentsError::MissingOutput);
        }
        proof {
            assert(spec_split(s@, 0x7c)[0] == halves@.map_values(|v: Vec<u8>| v@)[0]);
            assert(spec_split(s@, 0x7c)[1] == halves@.map_values(|v: Vec<u8>| v@)[1]);
        }
        let pattern = Self::parse_digits(&halves[0])?;
        let output = Self::parse_digits(&halves[1])?;
        Ok(Entry { pattern, output })
    }

    /// Parse a run of space-separated patterns, empty pieces skipped.
    fn parse_digits(s: &Vec<u8>) -> (r: Result<Vec<Digit>, SegmentsError>)
        ensures
            match r {
                Ok(v) => spec_digits(spec_split(s@, 0x20)) == Some(digits_model(v@)),
                Err(e) => spec_digits(spec_split(s@, 0x20)) is None,
            },
    {
        let parts = parse::split_bytes(s.as_slice(), 0x20);
        let ghost pm = spec_split(s@, 0x20);
        let mut out: Vec<Digit> = Vec::new();
        let mut i: usize = 0;
        proof {
            assert(pm.take(0) =~= Seq::<Seq<u8>>::empty());
            assert(digits_model(out@) =~= Seq::<(Seq<Segment>, Option<u32>)>::empty());
        }
        while i < parts.len()
            invariant
                pm == spec_split(s@, 0x20),
                pm == parts@.map_values(|v: Vec<u8>| v@),
                pm.len() == parts@.len(),
                0 <= i <= parts@.len(),
                spec_digits(pm.take(i as int)) == Some(digits_model(out@)),
            decreases parts@.len() - i,
        {
            proof {
                assert(pm.take(i as int + 1).drop_last() =~= pm.take(i as int));
                assert(pm.take(i as int + 1).last() == pm[i as int]);
                assert(pm[i as int] == parts@.map_values(|v: Vec<u8>| v@)[i as int]);
            }
            if parts[i].len() > 0 {
                let d = match Digit::parse(parts[i].as_slice()) {
                    Err(e) => {
                        proof {
                            assert(spec_digits(pm.take(i as int + 1)) is None);
                            lemma_digits_none(pm, i as int + 1);
                        }
                        return Err(e);
                    },
                    Ok(d) => d,
                };
                let ghost pre = out@;
                out.push(d);
                proof {
                    assert(digits_model(out@) =~= digits_model(pre).push((d.wiring@, d.value)));
                    assert(spec_digit(pm[i as int]) == Some((d.wiring@, d.value)));
                }
            }
            i = i + 1;
        }
        proof {
            assert(pm.take(pm.len() as int) =~= pm);
        }
        Ok(out)
    }
}

/// If a prefix of the pieces fails, the whole run fails.
proof fn lemma_digits_none(pm: Seq<Seq<u8>>, k: int)
    requires
        0 <= k <= pm.len(),
        spec_digits(pm.take(k)) is None,
    ensures
        spec_digits(pm) is None,
    decreases pm.len(),
{
    if k < pm.len() {
        assert(pm.drop_last().take(k) =~= pm.take(k));
        lemma_digits_none(pm.drop_last(), k);
    } else {
        assert(pm.take(k) =~= pm);
    }
}

/// How many of the digits are decided by their segment count alone.
pub open spec fn count_unique(s: Seq<Digit>) -> int
    decreases s.len(),
{
    if s.len() == 0 {
        0
    } else {
        count_unique(s.drop_last()) + if s.last().value matches Some(v) && (v == 1 || v == 4 || v
            == 7 || v == 8) {
            1int
        } else {
            0int
        }
    }
}

/// Count the output digits whose segment count alone decides them.
pub fn count_unique_outputs(entries: &Vec<Entry>) -> (r: Option<u64>)
    ensures
        ({
            let total = total_unique(entries@);
            match r {
                Some(v) => v as int == total,
                None => total > u64::MAX,
            }
        }),
{
    let mut total: u64 = 0;
    let mut i: usize = 0;
    proof {
        assert(entries@.take(0) =~= Seq::<Entry>::empty());
    }
    while i < entries.len()
        invariant
            0 <= i <= entries@.len(),
            total as int == total_unique(entries@.take(i as int)),
        decreases entries@.len() - i,
    {
        proof {
            assert(entries@.take(i as int + 1).drop_last() =~= entries@.take(i as int));
            assert(entries@.take(i as int + 1).last() == entries@[i as int]);
        }
        let ghost outputs = entries@[i as int].output@;
        let mut count: u64 = 0;
        let mut j: usize = 0;
        proof {
            assert(outputs.take(0) =~= Seq::<Digit>::empty());
            lemma_count_unique_bound(outputs);
        }
        let entry = &entries[i];
        while j < entry.output.len()
            invariant
                outputs == entry.output@,
                0 <= j <= outputs.len(),
                count as int == count_unique(outputs.take(j as int)),
                count <= j,
            decreases outputs.len() - j,
        {
            proof {
                assert(outputs.take(j as int + 1).drop_last() =~= outputs.take(j as int));
                assert(outputs.take(j as int + 1).last() == outputs[j as int]);
            }
            if entry.output[j].is_unique() {
                count = count + 1;
            }
            j = j + 1;
        }
        proof {
            assert(outputs.take(outputs.len() as int) =~= outputs);
            lemma_total_unique_prefix(entries@, i as int + 1);
            lemma_total_unique_nonneg(entries@.take(i as int));
        }
        total = match total.checked_add(count) {
            None => {
                proof {
                    lemma_total_unique_prefix(entries@, i as int + 1);
                    lemma_total_unique_nonneg(entries@);
                }
                return None;
            },
            Some(t) => t,
        };
        i = i + 1;
    }
    proof {
        assert(entries@.take(entries@.len() as int) =~= entries@);
    }
    Some(total)
}

/// The unique output digits of all the entries, added up.
pub open spec fn total_unique(entries: Seq<Entry>) -> int
    decreases entries.len(),
{
    if entries.len() == 0 {
        0
    } else {
        total_unique(entries.drop_last()) + count_unique(entries.last().output@)
    }
}

proof fn lemma_count_unique_bound(s: Seq<Digit>)
    ensures
        0 <= count_unique(s) <= s.len(),
    decreases s.len(),
{
    if s.len() > 0 {
        lemma_count_unique_bound(s.drop_last());
    }
}

proof fn lemma_total_unique_nonneg(entries: Seq<Entry>)
    ensures
        total_unique(entries) >= 0,
    decreases entries.len(),
{
    if entries.len() > 0 {
        lemma_total_unique_nonneg(entries.drop_last());
        lemma_count_unique_bound(entries.last().output@);
    }
}

proof fn lemma_total_unique_prefix(entries: Seq<Entry>, k: int)
    requires
        0 <= k <= entries.len(),
    ensures
        total_unique(entries.take(k)) <= total_unique(entries),
    decreases entries.len(),
{
    if k == entries.len() {
        assert(entries.take(k) =~= entries);
    } else {
        assert(entries.drop_last().take(k) =~= entries.take(k));
        lemma_total_unique_prefix(entries.drop_last(), k);
        lemma_count_unique_bound(entries.last().output@);
    }
}

} // verus!
