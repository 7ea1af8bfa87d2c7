//! Crab alignment: the fuel spent moving every crab to one position, under
//! linear and under triangular movement cost.

use vstd::prelude::*;

verus! {

use crate::sorting::leq_u64;
use crate::sorting::sort_u64;

/// The distance between two positions.
pub open spec fn dist(a: int, b: int) -> int {
    if a >= b {
        a - b
    } else {
        b - a
    }
}

/// The fuel to bring every crab in `s` to `t`, one unit per step.
pub open spec fn fuel_linear(s: Seq<u64>, t: int) -> int
    decreases s.len(),
{
    if s.len() == 0 {
        0
    } else {
        fuel_linear(s.drop_last(), t) + dist(s.last() as int, t)
    }
}

/// The chosen alignment target: the upper median of the sorted positions.
pub open spec fn median_of(s: Seq<u64>) -> int
    recommends
        s.len() >= 2,
{
    s.sort_by(leq_u64())[((s.len() + 1) / 2) as int] as int
}

proof fn lemma_fuel_linear_prefix(s: Seq<u64>, t: int, k: int)
    requires
        0 <= k <= s.len(),
    ensures
        fuel_linear(s.take(k), t) <= fuel_linear(s, t),
    decreases s.len(),
{
    if k == s.len() {
        assert(s.take(k) =~= s);
    } else {
        assert(s.drop_last().take(k) =~= s.take(k));
        lemma_fuel_linear_prefix(s.drop_last(), t, k);
    }
}

/// The fuel to align every crab at the median, with one unit of fuel per
/// step moved.
pub fn solve_part1(positions: &Vec<u64>) -> (r: u64)
    requires
        positions@.len() >= 2,
        fuel_linear(positions@.sort_by(leq_u64()), median_of(positions@)) <= u64::MAX,
    ensures
        r as int == fuel_linear(positions@.sort_by(leq_u64()), median_of(positions@)),
{
    let mut sorted: Vec<u64> = Vec::new();
    let mut i: usize = 0;
    while i < positions.len()
        invariant
            0 <= i <= positions@.len(),
            sorted@ == positions@.take(i as int),
        decreases positions@.len() - i,
    {
        proof {
            assert(positions@.take(i as int + 1) =~= positions@.take(i as int).push(
                positions@[i as int],
            ));
        }
        sorted.push(positions[i]);
        i = i + 1;
    }
    proof {
        assert(positions@.take(positions@.len() as int) =~= positions@);
    }
    sort_u64(&mut sorted);
    let ghost sm = positions@.sort_by(leq_u64());
    proof {
        positions@.lemma_sort_by_ensures(leq_u64());
        positions@.to_multiset_ensures();
        sm.to_multiset_ensures();
    }
    let m_idx = sorted.len() / 2 + sorted.len() % 2;
    assert(m_idx as int == (sm.len() + 1) / 2);
    let median = sorted[m_idx];
    let ghost t = median_of(positions@);
    let mut fuel: u64 = 0;
    let mut k: usize = 0;
    proof {
        assert(sm.take(0) =~= Seq::<u64>::empty());
    }
    while k < sorted.len()
        invariant
            sorted@ == sm,
            0 <= k <= sm.len(),
            median as int == t,
            fuel_linear(sm, t) <= u64::MAX,
            fuel as int == fuel_linear(sm.take(k as int), t),
        decreases sm.len() - k,
    {
        proof {
            assert(sm.take(k as int + 1).drop_last() =~= sm.take(k as int));
            assert(sm.take(k as int + 1).last() == sm[k as int]);
            lemma_fuel_linear_prefix(sm, t, k as int + 1);
        }
        let p = sorted[k];
        let d = if p >= median {
            p - median
        } else {
            median - p
        };
        fuel = fuel + d;
        k = k + 1;
    }
    proof {
        assert(sm.take(sm.len() as int) =~= sm);
    }
    fuel
}

/// The fuel for one crab moving `d` steps when each step costs one more
/// than the last.
pub open spec fn tri(d: int) -> int {
    d * (d + 1) / 2
}

/// The fuel to bring every crab in `s` to `t` at triangular cost.
pub open spec fn fuel_tri(s: Seq<u64>, t: int) -> int
    decreases s.len(),
{
    if s.len() == 0 {
        0
    } else {
        fuel_tri(s.drop_last(), t) + tri(dist(s.last() as int, t))
    }
}

/// The least triangular fuel over the targets `0 ..= t`.
pub open spec fn best_fuel(s: Seq<u64>, t: int) -> int
    decreases t,
{
    if t <= 0 {
        fuel_tri(s, 0)
    } else {
        let rest = best_fuel(s, t - 1);
        let here = fuel_tri(s, t);
        if here < rest {
            here
        } else {
            rest
        }
    }
}

/// The greatest position of the crabs.
pub open spec fn max_pos(s: Seq<u64>) -> int
    decreases s.len(),
{
    if s.len() <= 1 {
        s[0] as int
    } else {
        let rest = max_pos(s.drop_last());
        if s.last() as int > rest {
            s.last() as int
        } else {
            rest
        }
    }
}

proof fn lemma_tri_nonneg(d: int)
    requires
        d >= 0,
    ensures
        tri(d) >= 0,
{
    assert(d * (d + 1) >= 0) by (nonlinear_arith)
        requires
            d >= 0,
    ;
}

proof fn lemma_fuel_tri_prefix(s: Seq<u64>, t: int, k: int)
    requires
        0 <= k <= s.len(),
        t >= 0,
    ensures
        fuel_tri(s.take(k), t) <= fuel_tri(s, t),
    decreases s.len(),
{
    if k == s.len() {
        assert(s.take(k) =~= s);
    } else {
        assert(s.drop_last().take(k) =~= s.take(k));
        lemma_fuel_tri_prefix(s.drop_last(), t, k);
        lemma_tri_nonneg(dist(s.last() as int, t));
    }
}

/// The triangular fuel to bring every crab to target `t`.
fn fuel_at(positions: &Vec<u64>, t: u64) -> (r: u64)
    requires
        fuel_tri(positions@, t as int) <= u64::MAX,
    ensures
        r as int == fuel_tri(positions@, t as int),
{
    let ghost s = positions@;
    let mut fuel: u64 = 0;
    let mut k: usize = 0;
    proof {
        assert(s.take(0) =~= Seq::<u64>::empty());
    }
    while k < positions.len()
        invariant
            s == positions@,
            0 <= k <= s.len(),
            fuel_tri(s, t as int) <= u64::MAX,
            fuel as int == fuel_tri(s.take(k as int), t as int),
        decreases s.len() - k,
    {
        proof {
            assert(s.take(k as int + 1).drop_last() =~= s.take(k as int));
            assert(s.take(k as int + 1).last() == s[k as int]);
            lemma_fuel_tri_prefix(s, t as int, k as int + 1);
        }
        let p = positions[k];
        let d = if p >= t {
            p - t
        } else {
            t - p
        };
        let step = ((d as u128) * (d as u128 + 1) / 2) as u64;
        proof {
            assert((d as u128) * (d as u128 + 1) / 2 == tri(d as int)) by (nonlinear_arith);
            assert(tri(dist(s[k as int] as int, t as int)) == tri(d as int));
            lemma_tri_nonneg(dist(s[k as int] as int, t as int));
            lemma_fuel_tri_prefix(s, t as int, k as int);
            assert(fuel_tri(s.take(k as int + 1), t as int) <= u64::MAX);
        }
        fuel = fuel + step;
        k = k + 1;
    }
    proof {
        assert(s.take(s.len() as int) =~= s);
    }
    fuel
}

/// The least triangular fuel over every target up to the furthest crab.
pub fn solve_part2(positions: &Vec<u64>) -> (r: u64)
    requires
        positions@.len() >= 1,
        forall|t: int| 0 <= t <= max_pos(positions@) ==> #[trigger] fuel_tri(positions@, t)
            <= u64::MAX,
    ensures
        r as int == best_fuel(positions@, max_pos(positions@)),
{
    let ghost s = positions@;
    let mut max_p: u64 = positions[0];
    let mut k: usize = 1;
    proof {
        assert(s.take(1) =~= seq![s[0]]);
    }
    while k < positions.len()
        invariant
            s == positions@,
            1 <= k <= s.len(),
            max_p as int == max_pos(s.take(k as int)),
        decreases s.len() - k,
    {
        proof {
            assert(s.take(k as int + 1).drop_last() =~= s.take(k as int));
            assert(s.take(k as int + 1).last() == s[k as int]);
        }
        if positions[k] > max_p {
            max_p = positions[k];
        }
        k = k + 1;
    }
    proof {
        assert(s.take(s.len() as int) =~= s);
    }
    let mut best: u64 = fuel_at(positions, 0);
    let mut t: u64 = 0;
    while t < max_p
        invariant
            s == positions@,
            max_p as int == max_pos(s),
            0 <= t <= max_p,
            forall|u: int| 0 <= u <= max_pos(s) ==> #[trigger] fuel_tri(s, u) <= u64::MAX,
            best as int == best_fuel(s, t as int),
        decreases max_p - t,
    {
        let f = fuel_at(positions, t + 1);
        if f < best {
            best = f;
        }
        t = t + 1;
    }
    best
}

} // verus!
