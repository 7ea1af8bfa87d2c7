//! Lanternfish population growth: every fish spawns a new one each time its
//! timer runs out.

use vstd::prelude::*;

verus! {

/// A spawned fish first waits this many days.
pub const NEW_FISH_TIMER: u8 = 8;

/// A fish that has just spawned waits this many days until the next time.
pub const FISH_RESET_TIMER: u8 = 6;

/// How many timers one chunk of fish can hold.
pub const FISHY: usize = 409664;

/// One fish, counted by the days left until it spawns.
#[derive(Debug, Clone, Copy, PartialEq, Eq, Structural)]
pub struct LanternFish {
    timer: u64,
}

/// What one day does to one fish's timer.
pub open spec fn tick(t: u64) -> u64 {
    if t == 0 {
        FISH_RESET_TIMER as u64
    } else {
        (t - 1) as u64
    }
}

impl LanternFish {
    /// The days left until this fish spawns.
    pub closed spec fn timer_spec(&self) -> u64 {
        self.timer
    }

    /// A fish with the given timer.
    pub fn with_timer(timer: u64) -> (r: LanternFish)
        ensures
            r.timer_spec() == timer,
    {
        LanternFish { timer }
    }

    /// Live one day: count down, or spawn a new fish and reset.
    pub fn spawn(&mut self) -> (r: Option<LanternFish>)
        ensures
            final(self).timer_spec() == tick(old(self).timer_spec()),
            match r {
                Some(new_fish) => old(self).timer_spec() == 0 && new_fish.timer_spec()
                    == NEW_FISH_TIMER as u64,
                None => old(self).timer_spec() != 0,
            },
    {
        if self.timer == 0 {
            self.timer = FISH_RESET_TIMER as u64;
            Some(LanternFish::with_timer(NEW_FISH_TIMER as u64))
        } else {
            self.timer = self.timer - 1;
            None
        }
    }
}

/// A bounded scratch list of timers for fish spawned during one day.
#[derive(Debug)]
pub struct Spawns {
    timers: Vec<u8>,
}

impl Spawns {
    /// The timers collected so far.
    pub closed spec fn timers_spec(&self) -> Seq<u8> {
        self.timers@
    }

    /// The chunk never outgrows its bound.
    pub closed spec fn wf(&self) -> bool {
        self.timers@.len() <= FISHY
    }

    /// An empty chunk.
    pub fn new() -> (r: Spawns)
        ensures
            r.wf(),
            r.timers_spec() == Seq::<u8>::empty(),
    {
        Spawns { timers: Vec::new() }
    }

    /// Append one timer; fails, changing nothing, when the chunk is full.
    pub fn add(&mut self, timer: u8) -> (r: Option<()>)
        requires
            old(self).wf(),
        ensures
            final(self).wf(),
            match r {
                Some(u) => old(self).timers_spec().len() < FISHY && final(self).timers_spec()
                    == old(self).timers_spec().push(timer),
                None => old(self).timers_spec().len() == FISHY && final(self).timers_spec() == old(
                    self,
                ).timers_spec(),
            },
    {
        if self.is_full() {
            return None;
        }
        self.timers.push(timer);
        Some(())
    }

    /// Pour another chunk's timers into this one; whatever does not fit
    /// comes back as a fresh chunk.
    pub fn merge_with(&mut self, other: Spawns) -> (r: Option<Spawns>)
        requires
            old(self).wf(),
            other.wf(),
        ensures
            final(self).wf(),
            ({
                let fits = FISHY - old(self).timers_spec().len();
                let moved = if other.timers_spec().len() <= fits {
                    other.timers_spec().len() as int
                } else {
                    fits as int
                };
                &&& final(self).timers_spec() == old(self).timers_spec() + other.timers_spec().take(
                    moved,
                )
                &&& match r {
                    Some(rest) => rest.wf() && moved < other.timers_spec().len() && rest.timers_spec()
                        == other.timers_spec().skip(moved)
                    ,
                    None => moved == other.timers_spec().len(),
                }
            }),
    {
        let ghost fits = FISHY - old(self).timers_spec().len();
        let ghost moved: int = if other.timers_spec().len() <= fits {
            other.timers_spec().len() as int
        } else {
            fits as int
        };
        let mut rest = Spawns::new();
        let mut cur: usize = 0;
        while cur < other.timers.len()
            invariant
                old(self).wf(),
                other.wf(),
                self.wf(),
                rest.wf(),
                0 <= cur <= other.timers_spec().len(),
                fits == FISHY - old(self).timers_spec().len(),
                moved == if other.timers_spec().len() <= fits {
                    other.timers_spec().len() as int
                } else {
                    fits as int
                },
                cur <= moved ==> self.timers_spec() == old(self).timers_spec()
                    + other.timers_spec().take(cur as int),
                cur <= moved ==> rest.timers_spec() == Seq::<u8>::empty(),
                cur > moved ==> self.timers_spec() == old(self).timers_spec()
                    + other.timers_spec().take(moved),
                cur > moved ==> rest.timers_spec() == other.timers_spec().subrange(
                    moved,
                    cur as int,
                ),
            decreases other.timers_spec().len() - cur,
    {
            let t = other.timers[cur];
            if self.is_full() {
                proof {
                    assert(cur >= moved);
                    assert(other.timers_spec().subrange(moved, cur as int + 1)
                        =~= other.timers_spec().subrange(moved, cur as int).push(t));
                    if cur == moved {
                        assert(other.timers_spec().subrange(moved, moved) =~= Seq::<u8>::empty());
                    }
                }
                let added = rest.add(t);
                proof {
                    assert(added is Some);
                }
            } else {
                proof {
                    assert(cur < moved);
                    assert(other.timers_spec().take(cur as int + 1) =~= other.timers_spec().take(
                        cur as int,
                    ).push(t));
                }
                let added = self.add(t);
                proof {
                    assert(added is Some);
                }
            }
            cur = cur + 1;
        }
        proof {
            if moved == other.timers_spec().len() {
                assert(other.timers_spec().take(moved) =~= other.timers_spec());
            } else {
                assert(other.timers_spec().subrange(moved, other.timers_spec().len() as int)
                    =~= other.timers_spec().skip(moved));
            }
        }
        if rest.is_empty() {
            None
        } else {
            Some(rest)
        }
    }

    /// Is the chunk empty?
    pub fn is_empty(&self) -> (r: bool)
        ensures
            r == (self.timers_spec().len() == 0),
    {
        self.timers.len() == 0
    }

    /// Is the chunk full?
    pub fn is_full(&self) -> (r: bool)
        ensures
            r == (self.timers_spec().len() == FISHY),
    {
        self.timers.len() == FISHY
    }

    /// Turn the collected timers into a school of fish.
    pub fn into_fish(self) -> (r: BinaryLanternFish)
        requires
            self.wf(),
        ensures
            r.wf(),
            r.timers_spec() == self.timers_spec(),
    {
        BinaryLanternFish { timers: self.timers }
    }
}

/// A school of fish stored as one timer byte each, at most one chunk's
/// worth.
#[derive(Debug)]
pub struct BinaryLanternFish {
    timers: Vec<u8>,
}

impl BinaryLanternFish {
    /// The timers of the school, in order.
    pub closed spec fn timers_spec(&self) -> Seq<u8> {
        self.timers@
    }

    /// The school never outgrows one chunk.
    pub closed spec fn wf(&self) -> bool {
        self.timers@.len() <= FISHY
    }

    /// A school with the given timers.
    pub fn from(timers: &[u8]) -> (r: BinaryLanternFish)
        requires
            timers@.len() <= FISHY,
        ensures
            r.wf(),
            r.timers_spec() == timers@,
    {
        let mut v: Vec<u8> = Vec::new();
        let mut i: usize = 0;
        while i < timers.len()
            invariant
                0 <= i <= timers@.len(),
                v@ == timers@.take(i as int),
            decreases timers@.len() - i,
        {
            proof {
                assert(timers@.take(i as int + 1) =~= timers@.take(i as int).push(
                    timers@[i as int],
                ));
            }
            v.push(timers[i]);
            i = i + 1;
        }
        proof {
            assert(timers@.take(timers@.len() as int) =~= timers@);
        }
        BinaryLanternFish { timers: v }
    }

    /// How many fish the school holds.
    pub fn count(&self) -> (r: usize)
        ensures
            r == self.timers_spec().len(),
    {
        self.timers.len()
    }

    /// Live one day: every timer counts down or resets, and the school
    /// reports the timers of the fish spawned today.
    pub fn spawn(&mut self) -> (r: Option<Spawns>)
        requires
            old(self).wf(),
        ensures
            final(self).wf(),
            final(self).timers_spec() == old(self).timers_spec().map_values(|t: u8| tick_u8(t)),
            ({
                let zeros = count_zeros(old(self).timers_spec());
                match r {
                    Some(sp) => zeros > 0 && sp.wf() && sp.timers_spec() == Seq::new(
                        zeros as nat,
                        |i: int| NEW_FISH_TIMER,
                    ),
                    None => zeros == 0,
                }
            }),
    {
        let ghost orig = self.timers@;
        let mut spawns = Spawns::new();
        let mut i: usize = 0;
        proof {
            assert(orig.take(0).map_values(|t: u8| tick_u8(t)) =~= Seq::<u8>::empty());
        }
        while i < self.timers.len()
            invariant
                self.timers@.len() == orig.len() <= FISHY,
                0 <= i <= orig.len(),
                spawns.wf(),
                self.timers@.skip(i as int) == orig.skip(i as int),
                self.timers@.take(i as int) == orig.take(i as int).map_values(
                    |t: u8| tick_u8(t),
                ),
                spawns.timers_spec() == Seq::new(
                    count_zeros(orig.take(i as int)) as nat,
                    |j: int| NEW_FISH_TIMER,
                ),
            decreases orig.len() - i,
        {
            proof {
                assert(self.timers@.skip(i as int)[0] == self.timers@[i as int]);
                assert(orig.skip(i as int)[0] == orig[i as int]);
                assert(orig.take(i as int + 1).drop_last() =~= orig.take(i as int));
                assert(orig.take(i as int + 1).last() == orig[i as int]);
                lemma_count_zeros_bound(orig.take(i as int));
                lemma_count_zeros_bound(orig.take(i as int + 1));
            }
            let ghost pre = self.timers@;
            let t = self.timers[i];
            if t > 0 {
                self.timers.set(i, t - 1);
            } else {
                self.timers.set(i, FISH_RESET_TIMER);
                let added = spawns.add(NEW_FISH_TIMER);
                proof {
                    assert(added is Some);
                }
            }
            proof {
                assert forall|j: int| 0 <= j < orig.len() - i - 1 implies #[trigger] self.timers@.skip(
                    i as int + 1,
                )[j] == orig.skip(i as int + 1)[j] by {
                    assert(self.timers@[i as int + 1 + j] == pre[i as int + 1 + j]);
                    assert(pre.skip(i as int)[1 + j] == orig.skip(i as int)[1 + j]);
                }
                assert(self.timers@.skip(i as int + 1) =~= orig.skip(i as int + 1));
                assert forall|j: int| 0 <= j < i + 1 implies #[trigger] self.timers@.take(
                    i as int + 1,
                )[j] == orig.take(i as int + 1).map_values(|t: u8| tick_u8(t))[j] by {
                    if j < i {
                        assert(self.timers@[j] == pre[j]);
                        assert(pre.take(i as int)[j] == orig.take(i as int).map_values(
                            |t: u8| tick_u8(t),
                        )[j]);
                    }
                }
                assert(self.timers@.take(i as int + 1) =~= orig.take(i as int + 1).map_values(
                    |t: u8| tick_u8(t),
                ));
                assert(spawns.timers_spec() =~= Seq::new(
                    count_zeros(orig.take(i as int + 1)) as nat,
                    |j: int| NEW_FISH_TIMER,
                ));
            }
            i = i + 1;
        }
        proof {
            assert(orig.take(orig.len() as int) =~= orig);
            assert(self.timers@.take(orig.len() as int) =~= self.timers@);
            lemma_count_zeros_bound(orig);
        }
        if spawns.is_empty() {
            None
        } else {
            Some(spawns)
        }
    }
}

/// What one day does to one timer byte.
pub open spec fn tick_u8(t: u8) -> u8 {
    if t == 0 {
        FISH_RESET_TIMER
    } else {
        (t - 1) as u8
    }
}

/// How many timers have run out.
pub open spec fn count_zeros(s: Seq<u8>) -> int
    decreases s.len(),
{
    if s.len() == 0 {
        0
    } else {
        count_zeros(s.drop_last()) + if s.last() == 0 {
            1int
        } else {
            0int
        }
    }
}

proof fn lemma_count_zeros_bound(s: Seq<u8>)
    ensures
        0 <= count_zeros(s) <= s.len(),
    decreases s.len(),
{
    if s.len() > 0 {
        lemma_count_zeros_bound(s.drop_last());
    }
}

/// One day of growth for a school kept as individual fish.
pub open spec fn step_day(s: Seq<u64>) -> Seq<u64> {
    s.map_values(|t: u64| tick(t)) + Seq::new(count_zeros64(s) as nat, |i: int| NEW_FISH_TIMER as u64)
}

/// How many fish spawn today.
pub open spec fn count_zeros64(s: Seq<u64>) -> int
    decreases s.len(),
{
    if s.len() == 0 {
        0
    } else {
        count_zeros64(s.drop_last()) + if s.last() == 0 {
            1int
        } else {
            0int
        }
    }
}

/// The school after `days` whole days.
pub open spec fn grown(s: Seq<u64>, days: int) -> Seq<u64>
    decreases days,
{
    if days <= 0 {
        s
    } else {
        grown(step_day(s), days - 1)
    }
}

proof fn lemma_count_zeros64_bound(s: Seq<u64>)
    ensures
        0 <= count_zeros64(s) <= s.len(),
    decreases s.len(),
{
    if s.len() > 0 {
        lemma_count_zeros64_bound(s.drop_last());
    }
}

/// The timers of a school of fish.
pub open spec fn timers_of(s: Seq<LanternFish>) -> Seq<u64> {
    s.map_values(|f: LanternFish| f.timer_spec())
}

/// Live one day: every fish ages, and today's spawn joins the school.
pub fn run_day(fishes: &mut Vec<LanternFish>)
    ensures
        timers_of(final(fishes)@) == step_day(timers_of(old(fishes)@)),
{
    let ghost orig = timers_of(old(fishes)@);
    let mut news: Vec<LanternFish> = Vec::new();
    let mut i: usize = 0;
    proof {
        assert(orig.take(0).map_values(|t: u64| tick(t)) =~= Seq::<u64>::empty());
        assert(timers_of(news@) =~= Seq::<u64>::empty());
    }
    while i < fishes.len()
        invariant
            fishes@.len() == orig.len(),
            0 <= i <= orig.len(),
            timers_of(fishes@).skip(i as int) == orig.skip(i as int),
            timers_of(fishes@).take(i as int) == orig.take(i as int).map_values(|t: u64| tick(t)),
            timers_of(news@) == Seq::new(
                count_zeros64(orig.take(i as int)) as nat,
                |j: int| NEW_FISH_TIMER as u64,
            ),
        decreases orig.len() - i,
    {
        proof {
            assert(timers_of(fishes@)[i as int] == fishes@[i as int].timer_spec());
            assert(timers_of(fishes@).skip(i as int)[0] == timers_of(fishes@)[i as int]);
            assert(orig.take(i as int + 1).drop_last() =~= orig.take(i as int));
            assert(orig.take(i as int + 1).last() == orig[i as int]);
        }
        let ghost fishes_pre = fishes@;
        let ghost news_pre = news@;
        let mut fish = fishes[i];
        let spawned = fish.spawn();
        fishes.set(i, fish);
        match spawned {
            Some(new_fish) => {
                news.push(new_fish);
                proof {
                    assert(timers_of(news@) =~= timers_of(news_pre).push(new_fish.timer_spec()));
                }
            },
            None => {},
        }
        proof {
            lemma_count_zeros64_bound(orig.take(i as int));
            lemma_count_zeros64_bound(orig.take(i as int + 1));
            assert(timers_of(fishes@).skip(i as int + 1) =~= orig.skip(i as int + 1)) by {
                assert forall|j: int| 0 <= j < orig.len() - i - 1 implies timers_of(fishes@).skip(
                    i as int + 1,
                )[j] == #[trigger] orig.skip(i as int + 1)[j] by {
                    assert(fishes@[i as int + 1 + j] == fishes_pre[i as int + 1 + j]);
                    assert(timers_of(fishes_pre).skip(i as int)[1 + j] == orig.skip(i as int)[1
                        + j]);
                }
            }
            assert(timers_of(fishes@).take(i as int + 1) =~= orig.take(i as int + 1).map_values(
                |t: u64| tick(t),
            )) by {
                assert forall|j: int| 0 <= j < i + 1 implies #[trigger] timers_of(fishes@).take(
                    i as int + 1,
                )[j] == orig.take(i as int + 1).map_values(|t: u64| tick(t))[j] by {
                    if j < i {
                        assert(fishes@[j] == fishes_pre[j]);
                        assert(timers_of(fishes_pre).take(i as int)[j] == orig.take(
                            i as int,
                        ).map_values(|t: u64| tick(t))[j]);
                    }
                }
            }
            assert(timers_of(news@) =~= Seq::new(
                count_zeros64(orig.take(i as int + 1)) as nat,
                |j: int| NEW_FISH_TIMER as u64,
            ));
        }
        i = i + 1;
    }
    proof {
        assert(orig.take(orig.len() as int) =~= orig);
        assert(timers_of(fishes@).take(orig.len() as int) =~= timers_of(fishes@));
    }
    let mut k: usize = 0;
    let ghost mid = fishes@;
    let ghost newsm = news@;
    while k < news.len()
        invariant
            news@ == newsm,
            0 <= k <= newsm.len(),
            fishes@ == mid + newsm.take(k as int),
        decreases newsm.len() - k,
    {
        proof {
            assert(newsm.take(k as int + 1) =~= newsm.take(k as int).push(newsm[k as int]));
            assert(mid + newsm.take(k as int + 1) =~= (mid + newsm.take(k as int)).push(
                newsm[k as int],
            ));
        }
        fishes.push(news[k]);
        k = k + 1;
    }
    proof {
        assert(newsm.take(newsm.len() as int) =~= newsm);
        assert(timers_of(mid + newsm) =~= step_day(orig));
    }
}

/// The number of fish after the given number of days, starting from the
/// given timers.
pub fn solve_v1(timers: &Vec<u64>, days: usize) -> (r: usize)
    ensures
        r == grown(timers@, days as int).len(),
{
    let mut fishes: Vec<LanternFish> = Vec::new();
    let mut i: usize = 0;
    while i < timers.len()
        invariant
            0 <= i <= timers@.len(),
            timers_of(fishes@) == timers@.take(i as int),
        decreases timers@.len() - i,
    {
        proof {
            assert(timers@.take(i as int + 1) =~= timers@.take(i as int).push(timers@[i as int]));
        }
        let ghost pre = fishes@;
        fishes.push(LanternFish::with_timer(timers[i]));
        proof {
            assert(timers_of(fishes@) =~= timers_of(pre).push(timers@[i as int]));
        }
        i = i + 1;
    }
    proof {
        assert(timers@.take(timers@.len() as int) =~= timers@);
    }
    let mut d: usize = 0;
    while d < days
        invariant
            0 <= d <= days,
            timers_of(fishes@) == grown(timers@, d as int),
        decreases days - d,
    {
        proof {
            lemma_grown_unstep(timers@, d as int);
        }
        run_day(&mut fishes);
        d = d + 1;
    }
    proof {
        assert(timers_of(fishes@).len() == fishes@.len());
    }
    fishes.len()
}

/// Growing one more day steps the already grown school once at the end.
proof fn lemma_grown_unstep(s: Seq<u64>, d: int)
    requires
        0 <= d,
    ensures
        grown(s, d + 1) == step_day(grown(s, d)),
    decreases d,
{
    if d > 0 {
        lemma_grown_unstep(step_day(s), d - 1);
        assert(grown(s, d + 1) == grown(step_day(s), d));
        assert(grown(s, d) == grown(step_day(s), d - 1));
    } else {
        assert(grown(s, 1) == grown(step_day(s), 0));
        assert(grown(step_day(s), 0) == step_day(s));
        assert(grown(s, 0) == s);
    }
}
} // verus!
