//! Smoke basins: heights on a grid, and the risk level of the low points.

use vstd::prelude::*;

verus! {

use crate::parse::is_digit;

/// A grid of heights, stored row-major: row `x`, column `y` lives at
/// `x * columns + y`.
#[derive(Debug)]
pub struct Heightmap {
    positions: Vec<u32>,
    rows: usize,
    columns: usize,
}

impl Heightmap {
    /// The number of rows.
    pub closed spec fn rows_spec(&self) -> int {
        self.rows as int
    }

    /// The number of columns.
    pub closed spec fn columns_spec(&self) -> int {
        self.columns as int
    }

    /// The height at row `x`, column `y`.
    pub closed spec fn height_at(&self, x: int, y: int) -> int {
        self.positions@[x * self.columns as int + y] as int
    }

    /// The cell vector covers exactly the grid, and every height is one
    /// decimal digit.
    pub closed spec fn wf(&self) -> bool {
        &&& self.positions@.len() == self.rows_spec() * self.columns_spec()
        &&& self.rows_spec() * self.columns_spec() <= usize::MAX
        &&& forall|i: int| 0 <= i < self.positions@.len() ==> #[trigger] self.positions@[i] <= 9
    }

    /// The height at row `x`, column `y`.
    pub fn position_at(&self, x: usize, y: usize) -> (r: u32)
        requires
            self.wf(),
            x < self.rows_spec(),
            y < self.columns_spec(),
        ensures
            r as int == self.height_at(x as int, y as int),
            r <= 9,
    {
        proof {
            lemma_cell(self.rows_spec(), self.columns_spec(), x as int, y as int);
        }
        self.positions[x * self.columns + y]
    }

    /// The number of rows.
    pub fn rows_len(&self) -> (r: usize)
        ensures
            r == self.rows_spec(),
    {
        self.rows
    }

    /// The number of columns.
    pub fn columns_len(&self) -> (r: usize)
        ensures
            r == self.columns_spec(),
    {
        self.columns
    }
}

proof fn lemma_cell(rows: int, columns: int, x: int, y: int)
    requires
        0 <= x < rows,
        0 <= y < columns,
    ensures
        0 <= x * columns + y < rows * columns,
{
    assert(0 <= x * columns + y < rows * columns) by (nonlinear_arith)
        requires
            0 <= x < rows,
            0 <= y < columns,
    ;
}

/// The heights denoted by one line of digits.
pub open spec fn spec_parse_heights(s: Seq<u8>) -> Option<Seq<u32>> {
    if forall|i: int| 0 <= i < s.len() ==> is_digit(#[trigger] s[i]) {
        Some(Seq::new(s.len(), |i: int| (s[i] - 0x30) as u32))
    } else {
        None
    }
}

/// Parse one line of digit heights.
pub fn parse_line(s: &[u8]) -> (r: Option<Vec<u32>>)
    ensures
        match r {
            Some(v) => spec_parse_heights(s@) == Some(v@) && forall|i: int|
                0 <= i < v@.len() ==> #[trigger] v@[i] <= 9,
            None => spec_parse_heights(s@) is None,
        },
{
    let mut out: Vec<u32> = Vec::new();
    let mut i: usize = 0;
    while i < s.len()
        invariant
            0 <= i <= s@.len(),
            out@.len() == i,
            forall|j: int| 0 <= j < i ==> is_digit(#[trigger] s@[j]),
            forall|j: int| 0 <= j < i ==> #[trigger] out@[j] == (s@[j] - 0x30) as u32,
            forall|j: int| 0 <= j < i ==> #[trigger] out@[j] <= 9,
        decreases s@.len() - i,
    {
        let b = s[i];
        if b < 0x30 || b > 0x39 {
            return None;
        }
        out.push((b - 0x30) as u32);
        i = i + 1;
    }
    proof {
        assert(out@ =~= Seq::new(s@.len(), |i: int| (s@[i] - 0x30) as u32));
    }
    Some(out)
}

/// Parse the whole map: one digit line per row, all the same width.
///
/// Fails on a non-digit byte and on rows of differing widths; a map must
/// have at least one row and one column.
pub fn parse_heightmap(lines: &Vec<Vec<u8>>) -> (r: Option<Heightmap>)
    ensures
        match r {
            Some(m) => {
                &&& m.wf()
                &&& m.rows_spec() == lines@.len()
                &&& m.rows_spec() > 0
                &&& m.columns_spec() > 0
                &&& forall|x: int, y: int|
                    0 <= x < m.rows_spec() && 0 <= y < m.columns_spec()
                        ==> #[trigger] m.height_at(x, y) == spec_parse_heights(
                        lines@[x]@,
                    )->0[y]
            },
            None => true,
        },
{
    if lines.len() == 0 {
        return None;
    }
    let mut positions: Vec<u32> = Vec::new();
    let columns = lines[0].len();
    if columns == 0 {
        return None;
    }
    let mut x: usize = 0;
    while x < lines.len()
        invariant
            0 < columns,
            0 <= x <= lines@.len(),
            positions@.len() == x * columns,
            x * columns <= usize::MAX,
            forall|j: int| 0 <= j < positions@.len() ==> #[trigger] positions@[j] <= 9,
            forall|a: int, y: int|
                0 <= a < x && 0 <= y < columns ==> #[trigger] positions@[a * columns + y]
                    == spec_parse_heights(lines@[a]@)->0[y],
        decreases lines@.len() - x,
    {
        let row = match parse_line(lines[x].as_slice()) {
            None => {
                return None;
            },
            Some(v) => v,
        };
        if row.len() != columns {
            return None;
        }
        if positions.len() > usize::MAX - columns {
            return None;
        }
        let ghost pre = positions@;
        let mut k: usize = 0;
        while k < row.len()
            invariant
                row@.len() == columns,
                0 <= k <= columns,
                positions@ == pre + row@.take(k as int),
                pre.len() == x * columns,
                pre.len() + columns <= usize::MAX,
            decreases row@.len() - k,
        {
            proof {
                assert(row@.take(k as int + 1) =~= row@.take(k as int).push(row@[k as int]));
                assert(pre + row@.take(k as int + 1) =~= (pre + row@.take(k as int)).push(
                    row@[k as int],
                ));
            }
            positions.push(row[k]);
            k = k + 1;
        }
        proof {
            assert(row@.take(columns as int) =~= row@);
            assert((x + 1) * columns == x * columns + columns) by (nonlinear_arith);
            assert forall|a: int, y: int|
                0 <= a < x + 1 && 0 <= y < columns implies #[trigger] (pre + row@)[a * columns + y]
                == spec_parse_heights(lines@[a]@)->0[y] by {
                lemma_cell(x as int + 1, columns as int, a, y);
                if a < x {
                    lemma_cell(x as int, columns as int, a, y);
                    assert((pre + row@)[a * columns + y] == pre[a * columns + y]);
                } else {
                    assert(a * columns == x * columns);
                    assert((pre + row@)[a * columns + y] == row@[y]);
                }
            }
        }
        x = x + 1;
    }
    let rows = lines.len();
    let m = Heightmap { positions, rows, columns };
    proof {
        assert(m.wf());
    }
    Some(m)
}

/// Is `(x, y)` lower than every orthogonal neighbour?
pub open spec fn spec_is_low(m: &Heightmap, x: int, y: int) -> bool {
    &&& (x == 0 || m.height_at(x - 1, y) > m.height_at(x, y))
    &&& (x + 1 == m.rows_spec() || m.height_at(x + 1, y) > m.height_at(x, y))
    &&& (y == 0 || m.height_at(x, y - 1) > m.height_at(x, y))
    &&& (y + 1 == m.columns_spec() || m.height_at(x, y + 1) > m.height_at(x, y))
}

impl Heightmap {
    /// Is `(x, y)` lower than every orthogonal neighbour?
    pub fn is_low(&self, x: usize, y: usize) -> (r: bool)
        requires
            self.wf(),
            x < self.rows_spec(),
            y < self.columns_spec(),
        ensures
            r == spec_is_low(self, x as int, y as int),
    {
        let h = self.position_at(x, y);
        if x > 0 && self.position_at(x - 1, y) <= h {
            return false;
        }
        if x + 1 < self.rows_len() && self.position_at(x + 1, y) <= h {
            return false;
        }
        if y > 0 && self.position_at(x, y - 1) <= h {
            return false;
        }
        if y + 1 < self.columns_len() && self.position_at(x, y + 1) <= h {
            return false;
        }
        true
    }
}

/// The risk of one row: each low point counts its height plus one.
pub open spec fn risk_in_row(m: &Heightmap, x: int, cols: int) -> int
    decreases cols,
{
    if cols <= 0 {
        0
    } else {
        risk_in_row(m, x, cols - 1) + if spec_is_low(m, x, cols - 1) {
            m.height_at(x, cols - 1) + 1
        } else {
            0int
        }
    }
}

/// The risk of the rows below `rows`.
pub open spec fn risk_upto(m: &Heightmap, rows: int, cols: int) -> int
    decreases rows,
{
    if rows <= 0 {
        0
    } else {
        risk_upto(m, rows - 1, cols) + risk_in_row(m, rows - 1, cols)
    }
}

/// The total risk level: the sum over all low points of their height plus
/// one.
pub fn risk_level(m: &Heightmap) -> (r: Option<u64>)
    requires
        m.wf(),
    ensures
        match r {
            Some(v) => v as int == risk_upto(m, m.rows_spec(), m.columns_spec()),
            None => risk_upto(m, m.rows_spec(), m.columns_spec()) > u64::MAX,
        },
{
    let rows = m.rows_len();
    let cols = m.columns_len();
    let mut total: u64 = 0;
    let mut x: usize = 0;
    proof {
        lemma_risk_nonneg(m, rows as int, cols as int);
    }
    while x < rows
        invariant
            m.wf(),
            rows == m.rows_spec(),
            cols == m.columns_spec(),
            0 <= x <= rows,
            total as int == risk_upto(m, x as int, cols as int),
        decreases rows - x,
    {
        let mut y: usize = 0;
        let mut row_risk: u64 = 0;
        while y < cols
            invariant
                m.wf(),
                rows == m.rows_spec(),
                cols == m.columns_spec(),
                0 <= x < rows,
                0 <= y <= cols,
                row_risk as int == risk_in_row(m, x as int, y as int),
            decreases cols - y,
        {
            if m.is_low(x, y) {
                let h = m.position_at(x, y);
                row_risk = match row_risk.checked_add(h as u64 + 1) {
                    None => {
                        proof {
                            lemma_risk_row_prefix(m, x as int, y as int + 1, cols as int);
                            lemma_risk_prefix(m, x as int + 1, rows as int, cols as int);
                            lemma_risk_nonneg(m, x as int, cols as int);
                        }
                        return None;
                    },
                    Some(t) => t,
                };
            }
            y = y + 1;
        }
        total = match total.checked_add(row_risk) {
            None => {
                proof {
                    lemma_risk_prefix(m, x as int + 1, rows as int, cols as int);
                    lemma_risk_nonneg(m, x as int, cols as int);
                }
                return None;
            },
            Some(t) => t,
        };
        x = x + 1;
    }
    Some(total)
}

proof fn lemma_risk_row_nonneg(m: &Heightmap, x: int, cols: int)
    ensures
        risk_in_row(m, x, cols) >= 0,
    decreases cols,
{
    if cols > 0 {
        lemma_risk_row_nonneg(m, x, cols - 1);
    }
}

proof fn lemma_risk_nonneg(m: &Heightmap, rows: int, cols: int)
    ensures
        risk_upto(m, rows, cols) >= 0,
    decreases rows,
{
    if rows > 0 {
        lemma_risk_nonneg(m, rows - 1, cols);
        lemma_risk_row_nonneg(m, rows - 1, cols);
    }
}

/// The risk of the first cells of a row never exceeds the whole row's.
proof fn lemma_risk_row_prefix(m: &Heightmap, x: int, k: int, cols: int)
    requires
        0 <= k <= cols,
        m.wf(),
        0 <= x < m.rows_spec(),
        cols <= m.columns_spec(),
    ensures
        risk_in_row(m, x, k) <= risk_in_row(m, x, cols),
    decreases cols,
{
    if k < cols {
        lemma_risk_row_prefix(m, x, k, cols - 1);
        if spec_is_low(m, x, cols - 1) {
            lemma_cell(m.rows_spec(), m.columns_spec(), x, cols - 1);
            assert(m.height_at(x, cols - 1) >= 0);
        }
    }
}

/// The risk of the first rows never exceeds the whole map's risk.
proof fn lemma_risk_prefix(m: &Heightmap, k: int, rows: int, cols: int)
    requires
        0 <= k <= rows,
    ensures
        risk_upto(m, k, cols) <= risk_upto(m, rows, cols),
    decreases rows,
{
    if k < rows {
        lemma_risk_prefix(m, k, rows - 1, cols);
        lemma_risk_row_nonneg(m, rows - 1, cols);
    }
}

} // verus!
