//! Dumbo octopuses: energy levels on a grid, cascading flashes, and the
//! step at which every octopus flashes together.

use vstd::prelude::*;

verus! {

use crate::parse::is_digit;

/// One octopus: charging with an energy level, or already flashed this
/// step.
#[derive(Debug, Clone, Copy, PartialEq, Eq, Structural)]
pub enum Octopus {
    Ready(u32),
    Flashed,
}

impl Octopus {
    /// A charging octopus never holds more than nine units of energy.
    pub open spec fn wf(&self) -> bool {
        match *self {
            Octopus::Ready(x) => x <= 9,
            Octopus::Flashed => true,
        }
    }

    /// Has this octopus flashed this step?
    pub fn flashed(&self) -> (r: bool)
        ensures
            r == (*self is Flashed),
    {
        matches!(self, Octopus::Flashed)
    }

    /// Gain one unit of energy; at ten the octopus flashes.  Reports
    /// whether this very gain made it flash.
    pub fn increase(&mut self) -> (r: bool)
        requires
            old(self).wf(),
        ensures
            final(self).wf(),
            *final(self) == spec_increase(*old(self)),
            r == (*old(self) matches Octopus::Ready(x) && x == 9),
    {
        match *self {
            Octopus::Ready(x) => {
                if x == 9 {
                    *self = Octopus::Flashed;
                    true
                } else {
                    *self = Octopus::Ready(x + 1);
                    false
                }
            },
            Octopus::Flashed => false,
        }
    }

    /// Calm back down to zero energy after a flash.
    pub fn reset(&mut self)
        ensures
            *final(self) == (match *old(self) {
                Octopus::Flashed => Octopus::Ready(0),
                x => x,
            }),
    {
        match *self {
            Octopus::Flashed => {
                *self = Octopus::Ready(0);
            },
            _ => {},
        }
    }
}

/// What one unit of energy does to one octopus.
pub open spec fn spec_increase(o: Octopus) -> Octopus {
    match o {
        Octopus::Ready(x) => if x == 9 {
            Octopus::Flashed
        } else {
            Octopus::Ready((x + 1) as u32)
        },
        Octopus::Flashed => Octopus::Flashed,
    }
}

/// The grid of octopuses, stored row-major: row `x`, column `y` lives at
/// `x * columns + y`.
#[derive(Debug)]
pub struct Grid {
    octopuses: Vec<Octopus>,
    rows: usize,
    columns: usize,
}

/// How many octopuses of the cell list are still charging.
pub open spec fn count_ready(s: Seq<Octopus>) -> int
    decreases s.len(),
{
    if s.len() == 0 {
        0
    } else {
        count_ready(s.drop_last()) + if s.last() is Ready {
            1int
        } else {
            0int
        }
    }
}

/// How many octopuses of the cell list have flashed.
pub open spec fn count_flashed(s: Seq<Octopus>) -> int
    decreases s.len(),
{
    if s.len() == 0 {
        0
    } else {
        count_flashed(s.drop_last()) + if s.last() is Flashed {
            1int
        } else {
            0int
        }
    }
}

impl Grid {
    /// The cells of the grid, in storage order.
    pub closed spec fn cells_spec(&self) -> Seq<Octopus> {
        self.octopuses@
    }

    /// The number of rows.
    pub closed spec fn rows_spec(&self) -> int {
        self.rows as int
    }

    /// The number of columns.
    pub closed spec fn columns_spec(&self) -> int {
        self.columns as int
    }

    /// The cell vector covers exactly the grid and every octopus is well
    /// formed.
    pub open spec fn wf(&self) -> bool {
        &&& self.cells_spec().len() == self.rows_spec() * self.columns_spec()
        &&& self.rows_spec() * self.columns_spec() <= usize::MAX
        &&& forall|i: int| 0 <= i < self.cells_spec().len() ==> (#[trigger] self.cells_spec()[i]).wf()
    }

    /// How many cells the grid has.
    pub fn len(&self) -> (r: usize)
        ensures
            r == self.cells_spec().len(),
    {
        self.octopuses.len()
    }

    /// Calm every flashed octopus back down and count them.
    pub fn reset(&mut self) -> (r: usize)
        requires
            old(self).wf(),
        ensures
            final(self).wf(),
            final(self).rows_spec() == old(self).rows_spec(),
            final(self).columns_spec() == old(self).columns_spec(),
            r as int == count_flashed(old(self).cells_spec()),
            forall|i: int|
                0 <= i < final(self).cells_spec().len() ==> !((
                #[trigger] final(self).cells_spec()[i]) is Flashed),
    {
        let ghost orig = self.octopuses@;
        let mut total: usize = 0;
        let mut i: usize = 0;
        proof {
            assert(orig.take(0) =~= Seq::<Octopus>::empty());
        }
        while i < self.octopuses.len()
            invariant
                self.octopuses@.len() == orig.len(),
                self.rows_spec() == old(self).rows_spec(),
                self.columns_spec() == old(self).columns_spec(),
                orig == old(self).cells_spec(),
                0 <= i <= orig.len(),
                total <= i,
                total as int == count_flashed(orig.take(i as int)),
                forall|j: int| i <= j < orig.len() ==> #[trigger] self.octopuses@[j] == orig[j],
                forall|j: int|
                    0 <= j < i ==> #[trigger] self.octopuses@[j] == (match orig[j] {
                        Octopus::Flashed => Octopus::Ready(0),
                        x => x,
                    }),
                forall|j: int| 0 <= j < orig.len() ==> (#[trigger] orig[j]).wf(),
            decreases orig.len() - i,
        {
            proof {
                assert(orig.take(i as int + 1).drop_last() =~= orig.take(i as int));
                assert(orig.take(i as int + 1).last() == orig[i as int]);
            }
            let mut o = self.octopuses[i];
            if o.flashed() {
                total = total + 1;
            }
            o.reset();
            self.octopuses.set(i, o);
            i = i + 1;
        }
        proof {
            assert(orig.take(orig.len() as int) =~= orig);
        }
        total
    }
}

/// The heights denoted by one line of digits, as octopuses.
pub open spec fn spec_parse_octopuses(s: Seq<u8>) -> Option<Seq<Octopus>> {
    if forall|i: int| 0 <= i < s.len() ==> is_digit(#[trigger] s[i]) {
        Some(Seq::new(s.len(), |i: int| Octopus::Ready((s[i] - 0x30) as u32)))
    } else {
        None
    }
}

/// Parse one line of energy digits.
pub fn parse_line(s: &[u8]) -> (r: Option<Vec<Octopus>>)
    ensures
        match r {
            Some(v) => spec_parse_octopuses(s@) == Some(v@) && forall|i: int|
                0 <= i < v@.len() ==> (#[trigger] v@[i]).wf(),
            None => spec_parse_octopuses(s@) is None,
        },
{
    let mut out: Vec<Octopus> = Vec::new();
    let mut i: usize = 0;
    while i < s.len()
        invariant
            0 <= i <= s@.len(),
            out@.len() == i,
            forall|j: int| 0 <= j < i ==> is_digit(#[trigger] s@[j]),
            forall|j: int| 0 <= j < i ==> #[trigger] out@[j] == Octopus::Ready((s@[j] - 0x30) as u32),
            forall|j: int| 0 <= j < i ==> (#[trigger] out@[j]).wf(),
        decreases s@.len() - i,
    {
        let b = s[i];
        if b < 0x30 || b > 0x39 {
            return None;
        }
        out.push(Octopus::Ready((b - 0x30) as u32));
        i = i + 1;
    }
    proof {
        assert(out@ =~= Seq::new(s@.len(), |i: int| Octopus::Ready((s@[i] - 0x30) as u32)));
    }
    Some(out)
}

/// Parse the whole grid: one digit line per row, all the same width, at
/// least one cell.
pub fn parse_grid(lines: &Vec<Vec<u8>>) -> (r: Option<Grid>)
    ensures
        r matches Some(g) ==> {
            &&& g.wf()
            &&& g.rows_spec() == lines@.len()
            &&& g.rows_spec() > 0
            &&& g.columns_spec() > 0
        },
{
    if lines.len() == 0 {
        return None;
    }
    let columns = lines[0].len();
    if columns == 0 {
        return None;
    }
    let mut octopuses: Vec<Octopus> = Vec::new();
    let mut x: usize = 0;
    while x < lines.len()
        invariant
            0 < columns,
            0 <= x <= lines@.len(),
            octopuses@.len() == x * columns,
            x * columns <= usize::MAX,
            forall|j: int| 0 <= j < octopuses@.len() ==> (#[trigger] octopuses@[j]).wf(),
        decreases lines@.len() - x,
    {
        let row = match parse_line(lines[x].as_slice()) {
            None => {
                return None;
            },
            Some(v) => v,
        };
        if row.len() != columns {
            return None;
        }
        if octopuses.len() > usize::MAX - columns {
            return None;
        }
        let mut k: usize = 0;
        let ghost pre = octopuses@;
        while k < row.len()
            invariant
                row@.len() == columns,
                0 <= k <= columns,
                octopuses@ == pre + row@.take(k as int),
                pre.len() + columns <= usize::MAX,
                forall|j: int| 0 <= j < pre.len() ==> (#[trigger] pre[j]).wf(),
                forall|j: int| 0 <= j < row@.len() ==> (#[trigger] row@[j]).wf(),
            decreases row@.len() - k,
        {
            proof {
                assert(row@.take(k as int + 1) =~= row@.take(k as int).push(row@[k as int]));
                assert(pre + row@.take(k as int + 1) =~= (pre + row@.take(k as int)).push(
                    row@[k as int],
                ));
            }
            octopuses.push(row[k]);
            k = k + 1;
        }
        proof {
            assert(row@.take(columns as int) =~= row@);
            assert((x + 1) * columns == x * columns + columns) by (nonlinear_arith);
            assert forall|j: int| 0 <= j < octopuses@.len() implies (
            #[trigger] octopuses@[j]).wf() by {
                if j < pre.len() {
                    assert(octopuses@[j] == pre[j]);
                } else {
                    assert(octopuses@[j] == row@[j - pre.len()]);
                }
            }
        }
        x = x + 1;
    }
    let rows = lines.len();
    Some(Grid { octopuses, rows, columns })
}

impl Grid {
    /// Give one unit of energy to `(x, y)` and let any flashes cascade to
    /// the eight neighbours of each newly flashed octopus.
    ///
    /// Energy only grows and flashes only spread: no octopus calms down
    /// during a cascade, and the number of charging octopuses never rises.
    pub fn increase(&mut self, x: usize, y: usize)
        requires
            old(self).wf(),
            x < old(self).rows_spec(),
            y < old(self).columns_spec(),
        ensures
            final(self).wf(),
            final(self).rows_spec() == old(self).rows_spec(),
            final(self).columns_spec() == old(self).columns_spec(),
            count_ready(final(self).cells_spec()) <= count_ready(old(self).cells_spec()),
            forall|i: int|
                0 <= i < old(self).cells_spec().len() && (#[trigger] old(
                    self,
                ).cells_spec()[i]) is Flashed ==> final(self).cells_spec()[i] is Flashed,
    {
        let mut stack: Vec<(usize, usize)> = Vec::new();
        stack.push((x, y));
        let ghost orig = self.octopuses@;
        while stack.len() > 0
            invariant
                self.wf(),
                self.rows_spec() == old(self).rows_spec(),
                self.columns_spec() == old(self).columns_spec(),
                count_ready(self.cells_spec()) <= count_ready(old(self).cells_spec()),
                self.cells_spec().len() == orig.len(),
                forall|i: int|
                    0 <= i < orig.len() && (#[trigger] orig[i]) is Flashed ==> self.cells_spec()[i]
                        is Flashed,
                orig == old(self).cells_spec(),
                forall|k: int|
                    0 <= k < stack@.len() ==> (#[trigger] stack@[k]).0 < self.rows_spec()
                        && stack@[k].1 < self.columns_spec(),
            decreases count_ready(self.cells_spec()), stack@.len(),
        {
            let ghost pre_cells = self.octopuses@;
            let (cx, cy) = stack[stack.len() - 1];
            stack.pop();
            proof {
                lemma_cell_index(self.rows_spec(), self.columns_spec(), cx as int, cy as int);
            }
            let idx = cx * self.columns + cy;
            let mut o = self.octopuses[idx];
            let newly = o.increase();
            self.octopuses.set(idx, o);
            proof {
                lemma_count_ready_update(pre_cells, idx as int, o);
                assert forall|i: int|
                    0 <= i < orig.len() && (#[trigger] orig[i]) is Flashed implies self.cells_spec()[i]
                    is Flashed by {
                    if i != idx {
                        assert(self.cells_spec()[i] == pre_cells[i]);
                    } else {
                        assert(pre_cells[i] is Flashed);
                        assert(o == spec_increase(pre_cells[i]));
                    }
                }
            }
            if newly {
                proof {
                    assert(pre_cells[idx as int] is Ready);
                    assert(count_ready(self.cells_spec()) < count_ready(pre_cells));
                }
                let rows = self.rows;
                let columns = self.columns;
                // The eight neighbours, clipped at the edges.
                let mut moves: Vec<(bool, usize, bool, usize)> = Vec::new();
                moves.push((false, 1, false, 0));
                moves.push((true, 1, false, 0));
                moves.push((false, 0, false, 1));
                moves.push((false, 0, true, 1));
                moves.push((false, 1, false, 1));
                moves.push((false, 1, true, 1));
                moves.push((true, 1, false, 1));
                moves.push((true, 1, true, 1));
                let mut m: usize = 0;
                while m < moves.len()
                    invariant
                        rows == self.rows_spec(),
                        columns == self.columns_spec(),
                        cx < rows,
                        cy < columns,
                        forall|k: int|
                            0 <= k < stack@.len() ==> (#[trigger] stack@[k]).0 < rows
                                && stack@[k].1 < columns,
                    decreases moves@.len() - m,
                {
                    let (x_neg, dx, y_neg, dy) = moves[m];
                    let nx_opt = if x_neg {
                        cx.checked_sub(dx)
                    } else {
                        cx.checked_add(dx)
                    };
                    let ny_opt = if y_neg {
                        cy.checked_sub(dy)
                    } else {
                        cy.checked_add(dy)
                    };
                    match (nx_opt, ny_opt) {
                        (Some(nx), Some(ny)) => {
                            if nx < rows && ny < columns {
                                stack.push((nx, ny));
                            }
                        },
                        _ => {},
                    }
                    m = m + 1;
                }
            }
            proof {
                lemma_count_ready_bound(self.cells_spec());
            }
        }
    }

    /// One whole step: every octopus gains energy, flashes cascade, and the
    /// flashed octopuses calm down.  Returns how many flashed.
    pub fn run_step(&mut self) -> (r: usize)
        requires
            old(self).wf(),
        ensures
            final(self).wf(),
            final(self).rows_spec() == old(self).rows_spec(),
            final(self).columns_spec() == old(self).columns_spec(),
            final(self).cells_spec().len() == old(self).cells_spec().len(),
            r <= final(self).cells_spec().len(),
            forall|i: int|
                0 <= i < final(self).cells_spec().len() ==> !((
                #[trigger] final(self).cells_spec()[i]) is Flashed),
    {
        let rows = self.rows;
        let columns = self.columns;
        let mut i: usize = 0;
        while i < rows
            invariant
                self.wf(),
                rows == self.rows_spec(),
                columns == self.columns_spec(),
                self.rows_spec() == old(self).rows_spec(),
                self.columns_spec() == old(self).columns_spec(),
            decreases rows - i,
        {
            let mut j: usize = 0;
            while j < columns
                invariant
                    self.wf(),
                    rows == self.rows_spec(),
                    columns == self.columns_spec(),
                    self.rows_spec() == old(self).rows_spec(),
                    self.columns_spec() == old(self).columns_spec(),
                    i < rows,
                decreases columns - j,
            {
                self.increase(i, j);
                j = j + 1;
            }
            i = i + 1;
        }
        proof {
            lemma_count_flashed_bound(self.cells_spec());
        }
        self.reset()
    }
}

proof fn lemma_count_ready_bound(s: Seq<Octopus>)
    ensures
        0 <= count_ready(s) <= s.len(),
    decreases s.len(),
{
    if s.len() > 0 {
        lemma_count_ready_bound(s.drop_last());
    }
}

proof fn lemma_count_flashed_bound(s: Seq<Octopus>)
    ensures
        0 <= count_flashed(s) <= s.len(),
    decreases s.len(),
{
    if s.len() > 0 {
        lemma_count_flashed_bound(s.drop_last());
    }
}

proof fn lemma_cell_index(rows: int, columns: int, x: int, y: int)
    requires
        0 <= x < rows,
        0 <= y < columns,
    ensures
        0 <= x * columns + y < rows * columns,
{
    assert(0 <= x * columns + y < rows * columns) by (nonlinear_arith)
        requires
            0 <= x < rows,
            0 <= y < columns,
    ;
}

/// Updating one cell moves the ready count by at most that cell's change.
proof fn lemma_count_ready_update(s: Seq<Octopus>, i: int, o: Octopus)
    requires
        0 <= i < s.len(),
    ensures
        count_ready(s.update(i, o)) == count_ready(s) + (if o is Ready {
            1int
        } else {
            0int
        }) - (if s[i] is Ready {
            1int
        } else {
            0int
        }),
    decreases s.len(),
{
    if i == s.len() - 1 {
        assert(s.update(i, o).drop_last() =~= s.drop_last());
        assert(s.update(i, o).last() == o);
    } else {
        assert(s.update(i, o).drop_last() =~= s.drop_last().update(i, o));
        assert(s.update(i, o).last() == s.last());
        lemma_count_ready_update(s.drop_last(), i, o);
    }
}

} // verus!
