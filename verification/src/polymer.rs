//! Polymer growth: pair insertion rules applied by counting pairs, and the
//! spread between the most and least common elements.

use vstd::prelude::*;

verus! {

use crate::parse;
use crate::parse::spec_split;

/// The number of distinct byte pairs a table covers.
pub const TABLE: usize = 65536;

/// The slot of the pair `(a, b)`.
pub open spec fn pair_slot(a: u8, b: u8) -> int {
    a * 256 + b
}

/// What one rule line `AB -> C` denotes.
pub open spec fn spec_parse_rule(s: Seq<u8>) -> Option<(u8, u8, u8)> {
    let parts = spec_split(s, 0x20);
    if parts.len() == 3 && parts[0].len() == 2 && parts[1] == seq![0x2du8, 0x3e] && parts[2].len()
        == 1 {
        Some((parts[0][0], parts[0][1], parts[2][0]))
    } else {
        None
    }
}

/// Parse one insertion rule line.
pub fn parse_rule(s: &[u8]) -> (r: Option<(u8, u8, u8)>)
    ensures
        r == spec_parse_rule(s@),
{
    let parts = parse::split_bytes(s, 0x20);
    let ghost pm = spec_split(s@, 0x20);
    if parts.len() != 3 {
        return None;
    }
    proof {
        assert(pm[0] == parts@.map_values(|v: Vec<u8>| v@)[0]);
        assert(pm[1] == parts@.map_values(|v: Vec<u8>| v@)[1]);
        assert(pm[2] == parts@.map_values(|v: Vec<u8>| v@)[2]);
    }
    let pair = &parts[0];
    let arrow = &parts[1];
    let ins = &parts[2];
    let ok = pair.len() == 2 && arrow.len() == 2 && *arrow.get(0).unwrap() == 0x2d && *arrow.get(
        1,
    ).unwrap() == 0x3e && ins.len() == 1;
    proof {
        assert((arrow@.len() == 2 && arrow@[0] == 0x2d && arrow@[1] == 0x3e) == (arrow@ =~= seq![
            0x2du8,
            0x3e,
        ]));
    }
    if !ok {
        return None;
    }
    Some((*pair.get(0).unwrap(), *pair.get(1).unwrap(), *ins.get(0).unwrap()))
}

/// A full rule table: the byte inserted into each pair's gap, if any.
pub struct Rules {
    inserts: Vec<Option<u8>>,
}

impl Rules {
    /// What the rules insert into the gap of the pair at `slot`.
    pub closed spec fn insert_spec(&self, slot: int) -> Option<u8> {
        self.inserts@[slot]
    }

    /// The table covers every pair.
    pub open spec fn wf(&self) -> bool {
        self.table_len() == TABLE
    }

    /// The length of the table.
    pub closed spec fn table_len(&self) -> int {
        self.inserts@.len() as int
    }

    /// An empty rule table.
    pub fn new() -> (r: Rules)
        ensures
            r.wf(),
            forall|slot: int| 0 <= slot < TABLE ==> #[trigger] r.insert_spec(slot) is None,
    {
        let inserts = vec![None; TABLE];
        Rules { inserts }
    }

    /// Record one rule.
    pub fn add(&mut self, a: u8, b: u8, c: u8)
        requires
            old(self).wf(),
        ensures
            final(self).wf(),
            final(self).insert_spec(pair_slot(a, b)) == Some(c),
            forall|slot: int|
                0 <= slot < TABLE && slot != pair_slot(a, b)
                    ==> #[trigger] final(self).insert_spec(slot) == old(self).insert_spec(slot),
    {
        let slot = (a as usize) * 256 + (b as usize);
        self.inserts.set(slot, Some(c));
    }
}

/// A table of how often each byte pair occurs in the polymer.
pub struct PairCounts {
    counts: Vec<u64>,
}

/// A sequence of zeros covering every pair.
pub open spec fn zero_table() -> Seq<int> {
    Seq::new(TABLE as nat, |i: int| 0int)
}

/// `t` with `v` added at `j`.
pub open spec fn add_at(t: Seq<int>, j: int, v: int) -> Seq<int> {
    t.update(j, t[j] + v)
}

/// The new pair table after processing the source pairs below `upto`: a
/// pair with an insertion rule feeds its count to its two child pairs, and
/// one without keeps its own.
pub open spec fn step_partial(old_t: Seq<int>, rules: &Rules, upto: int) -> Seq<int>
    decreases upto,
{
    if upto <= 0 {
        zero_table()
    } else {
        let t = step_partial(old_t, rules, upto - 1);
        let i = upto - 1;
        let a = i / 256;
        let b = i % 256;
        let v = old_t[i];
        match rules.insert_spec(i) {
            Some(c) => add_at(add_at(t, a * 256 + c, v), c * 256 + b, v),
            None => add_at(t, i, v),
        }
    }
}

/// One whole growth step over the pair table.
pub open spec fn spec_step(old_t: Seq<int>, rules: &Rules) -> Seq<int> {
    step_partial(old_t, rules, TABLE as int)
}

impl PairCounts {
    /// The count of each pair, by slot.
    pub closed spec fn counts_spec(&self) -> Seq<int> {
        self.counts@.map_values(|x: u64| x as int)
    }

    /// The table covers every pair.
    pub open spec fn wf(&self) -> bool {
        self.counts_spec().len() == TABLE
    }

    /// A table with no pairs counted.
    pub fn new() -> (r: PairCounts)
        ensures
            r.wf(),
            r.counts_spec() == zero_table(),
    {
        let counts = vec![0u64; TABLE];
        let r = PairCounts { counts };
        proof {
            assert(r.counts_spec() =~= zero_table());
        }
        r
    }

    /// Count one more occurrence of the pair `(a, b)`; `None` on overflow.
    pub fn bump(&mut self, a: u8, b: u8, by: u64) -> (r: Option<()>)
        requires
            old(self).wf(),
        ensures
            match r {
                Some(u) => final(self).wf() && final(self).counts_spec() == add_at(
                    old(self).counts_spec(),
                    pair_slot(a, b),
                    by as int,
                ),
                None => old(self).counts_spec()[pair_slot(a, b)] + by > u64::MAX && *final(self)
                    == *old(self),
            },
    {
        let slot = (a as usize) * 256 + (b as usize);
        let v = self.counts[slot];
        match v.checked_add(by) {
            None => None,
            Some(n) => {
                self.counts.set(slot, n);
                proof {
                    assert(self.counts_spec() =~= add_at(
                        old(self).counts_spec(),
                        pair_slot(a, b),
                        by as int,
                    ));
                }
                Some(())
            },
        }
    }

    /// Grow the polymer one step: every pair with a rule becomes its two
    /// child pairs; every other pair stays.  `None` when a count outgrows
    /// 64 bits.
    pub fn step(&self, rules: &Rules) -> (r: Option<PairCounts>)
        requires
            self.wf(),
            rules.wf(),
        ensures
            r matches Some(t) ==> t.wf() && t.counts_spec() == spec_step(
                self.counts_spec(),
                rules,
            ),
    {
        let mut out = PairCounts::new();
        let mut i: usize = 0;
        while i < TABLE
            invariant
                self.wf(),
                rules.wf(),
                out.wf(),
                0 <= i <= TABLE,
                out.counts_spec() == step_partial(self.counts_spec(), rules, i as int),
            decreases TABLE - i,
        {
            let a = (i / 256) as u8;
            let b = (i % 256) as u8;
            let v = self.counts[i];
            proof {
                assert(a * 256 + b == i);
                assert(self.counts_spec()[i as int] == v as int);
            }
            match rules.insert_lookup(i) {
                Some(c) => {
                    proof {
                        assert(pair_slot(a, c) == (a as int) * 256 + c);
                        assert(pair_slot(c, b) == (c as int) * 256 + b);
                    }
                    if out.bump(a, c, v).is_none() {
                        return None;
                    }
                    if out.bump(c, b, v).is_none() {
                        return None;
                    }
                },
                None => {
                    if out.bump(a, b, v).is_none() {
                        return None;
                    }
                },
            }
            i = i + 1;
        }
        Some(out)
    }
}

impl Rules {
    /// The insertion for the pair at `slot`, if any.
    pub fn insert_lookup(&self, slot: usize) -> (r: Option<u8>)
        requires
            self.wf(),
            slot < TABLE,
        ensures
            r == self.insert_spec(slot as int),
    {
        self.inserts[slot]
    }
}

/// The pairs of adjacent bytes in the template, each counted once.
pub open spec fn template_pairs(s: Seq<u8>, upto: int) -> Seq<int>
    decreases upto,
{
    if upto <= 1 {
        zero_table()
    } else {
        add_at(template_pairs(s, upto - 1), pair_slot(s[upto - 2], s[upto - 1]), 1)
    }
}

impl PairCounts {
    /// Count the adjacent pairs of the starting template.
    pub fn from_template(s: &[u8]) -> (r: Option<PairCounts>)
        ensures
            r matches Some(t) ==> t.wf() && t.counts_spec() == template_pairs(
                s@,
                s@.len() as int,
            ),
    {
        let mut out = PairCounts::new();
        let mut i: usize = 1;
        if s.len() < 2 {
            proof {
                assert(template_pairs(s@, s@.len() as int) == zero_table());
            }
            return Some(out);
        }
        while i < s.len()
            invariant
                2 <= s@.len(),
                1 <= i <= s@.len(),
                out.wf(),
                out.counts_spec() == template_pairs(s@, i as int),
            decreases s@.len() - i,
        {
            let a = s[i - 1];
            let b = s[i];
            if out.bump(a, b, 1).is_none() {
                return None;
            }
            i = i + 1;
        }
        Some(out)
    }

    /// How often each byte opens a pair: the letter tally the original
    /// question is asked about.
    pub fn first_char_counts(&self) -> (r: Option<Vec<u64>>)
        requires
            self.wf(),
        ensures
            r matches Some(v) ==> v@.len() == 256 && forall|a: int|
                0 <= a < 256 ==> #[trigger] v@[a] as int == char_total(self.counts_spec(), a, 256),
    {
        let mut occ: Vec<u64> = Vec::new();
        let mut a: usize = 0;
        while a < 256
            invariant
                self.wf(),
                0 <= a <= 256,
                occ@.len() == a,
                forall|x: int|
                    0 <= x < a ==> #[trigger] occ@[x] as int == char_total(
                        self.counts_spec(),
                        x,
                        256,
                    ),
            decreases 256 - a,
        {
            let mut total: u64 = 0;
            let mut b: usize = 0;
            while b < 256
                invariant
                    self.wf(),
                    0 <= a < 256,
                    0 <= b <= 256,
                    total as int == char_total(self.counts_spec(), a as int, b as int),
                decreases 256 - b,
            {
                proof {
                    assert(0 <= a * 256 + b < TABLE) by (nonlinear_arith)
                        requires
                            0 <= a < 256,
                            0 <= b < 256,
                    ;
                }
                let v = self.counts[a * 256 + b];
                total = match total.checked_add(v) {
                    None => {
                        return None;
                    },
                    Some(t) => t,
                };
                b = b + 1;
            }
            occ.push(total);
            a = a + 1;
        }
        Some(occ)
    }
}

/// The total count of pairs opened by byte `a`, over second bytes below
/// `upto`.
pub open spec fn char_total(t: Seq<int>, a: int, upto: int) -> int
    decreases upto,
{
    if upto <= 0 {
        0
    } else {
        char_total(t, a, upto - 1) + t[a * 256 + upto - 1]
    }
}

/// The spread the puzzle asks for: the most common first-of-pair tally
/// minus the least common nonzero one, plus one.
pub fn spread(occ: &Vec<u64>) -> (r: Option<u64>)
    requires
        occ@.len() == 256,
    ensures
        r matches Some(v) ==> exists|hi: int, lo: int|
            #![trigger occ@[hi], occ@[lo]]
            {
                &&& 0 <= hi < 256 && 0 <= lo < 256
                &&& occ@[hi] >= occ@[lo] && occ@[lo] > 0
                &&& (forall|j: int| 0 <= j < 256 ==> #[trigger] occ@[j] <= occ@[hi])
                &&& (forall|j: int| 0 <= j < 256 && occ@[j] > 0 ==> occ@[lo] <= #[trigger] occ@[j])
                &&& v as int == occ@[hi] - occ@[lo] + 1
            },
        r is None ==> forall|j: int| 0 <= j < 256 ==> #[trigger] occ@[j] == 0,
{
    let mut hi: u64 = 0;
    let mut lo: u64 = 0;
    let mut lo_set = false;
    let ghost mut hi_idx: int = 0;
    let ghost mut lo_idx: int = 0;
    let mut j: usize = 0;
    while j < 256
        invariant
            occ@.len() == 256,
            0 <= j <= 256,
            !lo_set ==> hi == 0 && forall|k: int| 0 <= k < j ==> #[trigger] occ@[k] == 0,
            lo_set ==> {
                &&& 0 <= hi_idx < j && occ@[hi_idx] == hi
                &&& 0 <= lo_idx < j && occ@[lo_idx] == lo && lo > 0
                &&& hi >= lo
                &&& (forall|k: int| 0 <= k < j ==> #[trigger] occ@[k] <= hi)
                &&& (forall|k: int| 0 <= k < j && occ@[k] > 0 ==> lo <= #[trigger] occ@[k])
            },
        decreases 256 - j,
    {
        let v = occ[j];
        if v > 0 {
            if !lo_set {
                lo = v;
                hi = v;
                lo_set = true;
                proof {
                    hi_idx = j as int;
                    lo_idx = j as int;
                }
            } else {
                if v > hi {
                    hi = v;
                    proof {
                        hi_idx = j as int;
                    }
                }
                if v < lo {
                    lo = v;
                    proof {
                        lo_idx = j as int;
                    }
                }
            }
        }
        j = j + 1;
    }
    if !lo_set {
        return None;
    }
    Some(hi - lo + 1)
}

} // verus!
