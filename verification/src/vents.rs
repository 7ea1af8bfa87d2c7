//! Hydrothermal vents: lines on a grid, counting the points where at least
//! two lines overlap.
//!
//! A vent line is written `x1,y1 -> x2,y2`; the parser here reads exactly
//! that shape.

use vstd::prelude::*;

verus! {

use crate::parse;
use crate::parse::spec_split;
use crate::parse::spec_parse_u64;

/// One grid point.
#[derive(Debug, Clone, Copy, PartialEq, Eq, Structural)]
pub struct Point {
    pub x: u64,
    pub y: u64,
}

/// One vent line from `start` to `end`.
#[derive(Debug, Clone, Copy, PartialEq, Eq, Structural)]
pub struct Line {
    pub start: Point,
    pub end: Point,
}

/// The bytes of the arrow between the two points.
pub open spec fn arrow_word() -> Seq<u8> {
    seq![0x2du8, 0x3e]
}

/// What one coordinate pair `x,y` denotes.
pub open spec fn spec_parse_point(s: Seq<u8>) -> Option<Point> {
    let parts = spec_split(s, 0x2c);
    if parts.len() != 2 {
        None
    } else {
        match (spec_parse_u64(parts[0]), spec_parse_u64(parts[1])) {
            (Some(x), Some(y)) => Some(Point { x: x as u64, y: y as u64 }),
            _ => None,
        }
    }
}

/// What one vent line `x1,y1 -> x2,y2` denotes.
pub open spec fn spec_parse_line(s: Seq<u8>) -> Option<Line> {
    let parts = spec_split(s, 0x20);
    if parts.len() != 3 || parts[1] != arrow_word() {
        None
    } else {
        match (spec_parse_point(parts[0]), spec_parse_point(parts[2])) {
            (Some(start), Some(end)) => Some(Line { start, end }),
            _ => None,
        }
    }
}

/// Parse one coordinate pair.
pub fn parse_point(s: &[u8]) -> (r: Option<Point>)
    ensures
        r == spec_parse_point(s@),
{
    let parts = parse::split_bytes(s, 0x2c);
    let ghost pm = spec_split(s@, 0x2c);
    if parts.len() != 2 {
        return None;
    }
    proof {
        assert(pm[0] == parts@.map_values(|v: Vec<u8>| v@)[0]);
        assert(pm[1] == parts@.map_values(|v: Vec<u8>| v@)[1]);
    }
    let x = match parse::parse_u64(parts[0].as_slice()) {
        None => {
            return None;
        },
        Some(v) => v,
    };
    let y = match parse::parse_u64(parts[1].as_slice()) {
        None => {
            return None;
        },
        Some(v) => v,
    };
    Some(Point { x, y })
}

/// Parse one vent line.
pub fn parse_line(s: &[u8]) -> (r: Option<Line>)
    ensures
        r == spec_parse_line(s@),
{
    let parts = parse::split_bytes(s, 0x20);
    let ghost pm = spec_split(s@, 0x20);
    if parts.len() != 3 {
        return None;
    }
    proof {
        assert(pm[0] == parts@.map_values(|v: Vec<u8>| v@)[0]);
        assert(pm[1] == parts@.map_values(|v: Vec<u8>| v@)[1]);
        assert(pm[2] == parts@.map_values(|v: Vec<u8>| v@)[2]);
    }
    let arrow = &parts[1];
    let is_arrow = arrow.len() == 2 && *arrow.get(0).unwrap() == 0x2d && *arrow.get(1).unwrap()
        == 0x3e;
    proof {
        assert(is_arrow == (arrow@ =~= arrow_word()));
    }
    if !is_arrow {
        return None;
    }
    let start = match parse_point(parts[0].as_slice()) {
        None => {
            return None;
        },
        Some(p) => p,
    };
    let end = match parse_point(parts[2].as_slice()) {
        None => {
            return None;
        },
        Some(p) => p,
    };
    Some(Line { start, end })
}

/// Is the line horizontal or vertical?
pub open spec fn is_straight(l: Line) -> bool {
    l.start.x == l.end.x || l.start.y == l.end.y
}

/// Is the line an exact diagonal?
pub open spec fn is_diagonal(l: Line) -> bool {
    !is_straight(l) && crate::crabs::dist(l.start.x as int, l.end.x as int) == crate::crabs::dist(
        l.start.y as int,
        l.end.y as int,
    )
}

/// Does the segment drawn for `l` cover the point `(x, y)`?  Straight lines
/// always draw; a diagonal draws only when `diag` is set, and a crooked line
/// draws nothing.
pub open spec fn on_line(l: Line, diag: bool, x: int, y: int) -> bool {
    let x1 = l.start.x as int;
    let y1 = l.start.y as int;
    let x2 = l.end.x as int;
    let y2 = l.end.y as int;
    if x1 == x2 {
        x == x1 && (if y1 <= y2 {
            y1 <= y <= y2
        } else {
            y2 <= y <= y1
        })
    } else if y1 == y2 {
        y == y1 && (if x1 <= x2 {
            x1 <= x <= x2
        } else {
            x2 <= x <= x1
        })
    } else if diag && is_diagonal(l) {
        let sx: int = if x2 >= x1 {
            1
        } else {
            -1
        };
        let sy: int = if y2 >= y1 {
            1
        } else {
            -1
        };
        let k = (x - x1) * sx;
        0 <= k <= crate::crabs::dist(x1, x2) && y == y1 + k * sy
    } else {
        false
    }
}

/// How many of the lines cover `(x, y)` when drawn.
pub open spec fn cover_count(lines: Seq<Line>, diag: bool, x: int, y: int) -> int
    decreases lines.len(),
{
    if lines.len() == 0 {
        0
    } else {
        cover_count(lines.drop_last(), diag, x, y) + if on_line(lines.last(), diag, x, y) {
            1int
        } else {
            0int
        }
    }
}

/// The grid of overlap counts, stored row-major: `(x, y)` lives at
/// `y * columns + x`.
#[derive(Debug)]
pub struct Diagram {
    points: Vec<u64>,
    rows: usize,
    columns: usize,
}

impl Diagram {
    /// The number of rows.
    pub closed spec fn rows_spec(&self) -> int {
        self.rows as int
    }

    /// The number of columns.
    pub closed spec fn columns_spec(&self) -> int {
        self.columns as int
    }

    /// The count at `(x, y)`.
    pub closed spec fn value_spec(&self, x: int, y: int) -> int {
        self.points@[y * self.columns as int + x] as int
    }

    /// The raw overlap counts, in storage order.
    pub closed spec fn counts_spec(&self) -> Seq<u64> {
        self.points@
    }

    /// The cell vector covers exactly the grid.
    pub closed spec fn wf(&self) -> bool {
        &&& self.points@.len() == self.rows_spec() * self.columns_spec()
        &&& self.rows_spec() * self.columns_spec() <= usize::MAX
    }

    /// A blank diagram of the given size.
    pub fn new(rows: usize, columns: usize) -> (r: Diagram)
        requires
            rows * columns <= usize::MAX,
        ensures
            r.wf(),
            r.rows_spec() == rows,
            r.columns_spec() == columns,
            forall|x: int, y: int|
                0 <= x < columns && 0 <= y < rows ==> #[trigger] r.value_spec(x, y) == 0,
    {
        proof {
            assert(0 <= rows * columns) by (nonlinear_arith);
        }
        let n = rows * columns;
        let points = vec![0u64; n];
        let d = Diagram { points, rows, columns };
        proof {
            assert forall|x: int, y: int| 0 <= x < columns && 0 <= y < rows implies #[trigger] d.value_spec(
                x,
                y,
            ) == 0 by {
                lemma_cell_in_range(rows as int, columns as int, x, y);
            }
        }
        d
    }

    /// The count at `(x, y)`.
    pub fn value(&self, x: usize, y: usize) -> (r: u64)
        requires
            self.wf(),
            x < self.columns_spec(),
            y < self.rows_spec(),
        ensures
            r as int == self.value_spec(x as int, y as int),
    {
        proof {
            lemma_cell_in_range(self.rows_spec(), self.columns_spec(), x as int, y as int);
        }
        self.points[self.index(x, y)]
    }

    /// The storage index of `(x, y)`.
    fn index(&self, x: usize, y: usize) -> (r: usize)
        requires
            self.wf(),
            x < self.columns_spec(),
            y < self.rows_spec(),
        ensures
            r == y * self.columns_spec() + x,
            r < self.points@.len(),
    {
        proof {
            lemma_cell_in_range(self.rows_spec(), self.columns_spec(), x as int, y as int);
        }
        y * self.columns + x
    }

    /// Add one to the count at `(x, y)`.
    fn incr(&mut self, x: usize, y: usize)
        requires
            old(self).wf(),
            x < old(self).columns_spec(),
            y < old(self).rows_spec(),
            old(self).value_spec(x as int, y as int) < u64::MAX,
        ensures
            final(self).wf(),
            final(self).rows_spec() == old(self).rows_spec(),
            final(self).columns_spec() == old(self).columns_spec(),
            final(self).value_spec(x as int, y as int) == old(self).value_spec(x as int, y as int)
                + 1,
            forall|a: int, b: int|
                0 <= a < old(self).columns_spec() && 0 <= b < old(self).rows_spec() && (a, b) != (
                x as int,
                y as int,
                ) ==> #[trigger] final(self).value_spec(a, b) == old(self).value_spec(a, b),
    {
        let idx = self.index(x, y);
        let v = self.points[idx];
        self.points.set(idx, v + 1);
        proof {
            assert forall|a: int, b: int|
                0 <= a < self.columns_spec() && 0 <= b < self.rows_spec() && (a, b) != (
                x as int,
                y as int,
                ) implies #[trigger] self.value_spec(a, b) == old(self).value_spec(a, b) by {
                lemma_cell_in_range(self.rows_spec(), self.columns_spec(), a, b);
                lemma_cell_injective(
                    self.rows_spec(),
                    self.columns_spec(),
                    a,
                    b,
                    x as int,
                    y as int,
                );
            }
        }
    }

    /// How many points at least two lines cover.
    pub fn count_overlaps(&self) -> (r: usize)
        requires
            self.wf(),
        ensures
            r as int == count_ge2(self.counts_spec()),
    {
        let mut count: usize = 0;
        let mut i: usize = 0;
        proof {
            assert(self.points@.take(0) =~= Seq::<u64>::empty());
        }
        while i < self.points.len()
            invariant
                0 <= i <= self.points@.len(),
                count <= i,
                count as int == count_ge2(self.points@.take(i as int)),
            decreases self.points@.len() - i,
        {
            proof {
                assert(self.points@.take(i as int + 1).drop_last() =~= self.points@.take(
                    i as int,
                ));
                assert(self.points@.take(i as int + 1).last() == self.points@[i as int]);
            }
            if self.points[i] >= 2 {
                count = count + 1;
            }
            i = i + 1;
        }
        proof {
            assert(self.points@.take(self.points@.len() as int) =~= self.points@);
        }
        count
    }
}

/// How many cells hold a count of two or more.
pub open spec fn count_ge2(s: Seq<u64>) -> int
    decreases s.len(),
{
    if s.len() == 0 {
        0
    } else {
        count_ge2(s.drop_last()) + if s.last() >= 2 {
            1int
        } else {
            0int
        }
    }
}

/// A cell of the grid has an index inside the cell vector.
proof fn lemma_cell_in_range(rows: int, columns: int, x: int, y: int)
    requires
        0 <= x < columns,
        0 <= y < rows,
    ensures
        0 <= y * columns + x < rows * columns,
{
    assert(0 <= y * columns + x < rows * columns) by (nonlinear_arith)
        requires
            0 <= x < columns,
            0 <= y < rows,
    ;
}

/// Distinct cells of the grid have distinct indices.
proof fn lemma_cell_injective(rows: int, columns: int, a: int, b: int, x: int, y: int)
    requires
        0 <= a < columns,
        0 <= b < rows,
        0 <= x < columns,
        0 <= y < rows,
        (a, b) != (x, y),
    ensures
        b * columns + a != y * columns + x,
{
    if b == y {
    } else {
        assert(b * columns + a != y * columns + x) by (nonlinear_arith)
            requires
                0 <= a < columns,
                0 <= x < columns,
                b != y,
        ;
    }
}

impl Diagram {
    /// Draw one vent line: add one to the count of every point the segment
    /// covers.  A diagonal draws only when `diag` is set; a crooked line
    /// draws nothing.
    pub fn apply(&mut self, line: &Line, diag: bool)
        requires
            old(self).wf(),
            line.start.x < old(self).columns_spec(),
            line.end.x < old(self).columns_spec(),
            line.start.y < old(self).rows_spec(),
            line.end.y < old(self).rows_spec(),
            forall|x: int, y: int|
                0 <= x < old(self).columns_spec() && 0 <= y < old(self).rows_spec() && on_line(
                    *line,
                    diag,
                    x,
                    y,
                ) ==> #[trigger] old(self).value_spec(x, y) < u64::MAX,
        ensures
            final(self).wf(),
            final(self).rows_spec() == old(self).rows_spec(),
            final(self).columns_spec() == old(self).columns_spec(),
            forall|x: int, y: int|
                0 <= x < old(self).columns_spec() && 0 <= y < old(self).rows_spec()
                    ==> #[trigger] final(self).value_spec(x, y) == old(self).value_spec(x, y) + (
                if on_line(*line, diag, x, y) {
                    1int
                } else {
                    0int
                }),
    {
        let x1 = line.start.x as usize;
        let y1 = line.start.y as usize;
        let x2 = line.end.x as usize;
        let y2 = line.end.y as usize;
        proof {
            assert(line.start.x == x1 && line.end.x == x2 && line.start.y == y1 && line.end.y
                == y2);
        }
        if x1 == x2 {
            let lo = if y1 <= y2 {
                y1
            } else {
                y2
            };
            let hi = if y1 <= y2 {
                y2
            } else {
                y1
            };
            let mut y = lo;
            while y <= hi
                invariant
                    self.wf(),
                    self.rows_spec() == old(self).rows_spec(),
                    self.columns_spec() == old(self).columns_spec(),
                    x1 == line.start.x && x2 == line.end.x && y1 == line.start.y && y2
                        == line.end.y,
                    x1 == x2,
                    x1 < self.columns_spec(),
                    lo == (if y1 <= y2 { y1 } else { y2 }),
                    hi == (if y1 <= y2 { y2 } else { y1 }),
                    hi < self.rows_spec(),
                    lo <= y <= hi + 1,
                    forall|a: int, b: int|
                        0 <= a < self.columns_spec() && 0 <= b < self.rows_spec()
                            ==> #[trigger] self.value_spec(a, b) == old(self).value_spec(a, b) + (
                        if on_line(*line, diag, a, b) && b < y {
                            1int
                        } else {
                            0int
                        }),
                    forall|a: int, b: int|
                        0 <= a < self.columns_spec() && 0 <= b < self.rows_spec() && on_line(
                            *line,
                            diag,
                            a,
                            b,
                        ) ==> #[trigger] old(self).value_spec(a, b) < u64::MAX,
                decreases hi + 1 - y,
            {
                proof {
                    assert(on_line(*line, diag, x1 as int, y as int));
                }
                self.incr(x1, y);
                y = y + 1;
            }
            proof {
                assert forall|a: int, b: int|
                    0 <= a < self.columns_spec() && 0 <= b < self.rows_spec() implies #[trigger] self.value_spec(
                    a,
                    b,
                ) == old(self).value_spec(a, b) + (if on_line(*line, diag, a, b) {
                    1int
                } else {
                    0int
                }) by {
                    if on_line(*line, diag, a, b) {
                        assert(b <= hi);
                    }
                }
            }
        } else if y1 == y2 {
            let lo = if x1 <= x2 {
                x1
            } else {
                x2
            };
            let hi = if x1 <= x2 {
                x2
            } else {
                x1
            };
            let mut x = lo;
            while x <= hi
                invariant
                    self.wf(),
                    self.rows_spec() == old(self).rows_spec(),
                    self.columns_spec() == old(self).columns_spec(),
                    x1 == line.start.x && x2 == line.end.x && y1 == line.start.y && y2
                        == line.end.y,
                    x1 != x2,
                    y1 == y2,
                    y1 < self.rows_spec(),
                    lo == (if x1 <= x2 { x1 } else { x2 }),
                    hi == (if x1 <= x2 { x2 } else { x1 }),
                    hi < self.columns_spec(),
                    lo <= x <= hi + 1,
                    forall|a: int, b: int|
                        0 <= a < self.columns_spec() && 0 <= b < self.rows_spec()
                            ==> #[trigger] self.value_spec(a, b) == old(self).value_spec(a, b) + (
                        if on_line(*line, diag, a, b) && a < x {
                            1int
                        } else {
                            0int
                        }),
                    forall|a: int, b: int|
                        0 <= a < self.columns_spec() && 0 <= b < self.rows_spec() && on_line(
                            *line,
                            diag,
                            a,
                            b,
                        ) ==> #[trigger] old(self).value_spec(a, b) < u64::MAX,
                decreases hi + 1 - x,
            {
                proof {
                    assert(on_line(*line, diag, x as int, y1 as int));
                }
                self.incr(x, y1);
                x = x + 1;
            }
            proof {
                assert forall|a: int, b: int|
                    0 <= a < self.columns_spec() && 0 <= b < self.rows_spec() implies #[trigger] self.value_spec(
                    a,
                    b,
                ) == old(self).value_spec(a, b) + (if on_line(*line, diag, a, b) {
                    1int
                } else {
                    0int
                }) by {
                    if on_line(*line, diag, a, b) {
                        assert(a <= hi);
                    }
                }
            }
        } else if diag {
            let straight_x = x1 == x2;
            let dx = if x1 <= x2 {
                x2 - x1
            } else {
                x1 - x2
            };
            let dy = if y1 <= y2 {
                y2 - y1
            } else {
                y1 - y2
            };
            if dx != dy {
                proof {
                    assert forall|a: int, b: int|
                        0 <= a < self.columns_spec() && 0 <= b < self.rows_spec() implies !on_line(
                        *line,
                        diag,
                        a,
                        b,
                    ) by {}
                }
                return ;
            }
            let ghost sx: int = if x2 >= x1 {
                1int
            } else {
                -1int
            };
            let ghost sy: int = if y2 >= y1 {
                1int
            } else {
                -1int
            };
            let mut k: usize = 0;
            while k <= dx
                invariant
                    self.wf(),
                    self.rows_spec() == old(self).rows_spec(),
                    self.columns_spec() == old(self).columns_spec(),
                    x1 == line.start.x && x2 == line.end.x && y1 == line.start.y && y2
                        == line.end.y,
                    x1 != x2,
                    y1 != y2,
                    is_diagonal(*line),
                    diag,
                    dx == crate::crabs::dist(x1 as int, x2 as int),
                    dx == crate::crabs::dist(y1 as int, y2 as int),
                    sx == (if x2 >= x1 { 1int } else { -1int }),
                    sy == (if y2 >= y1 { 1int } else { -1int }),
                    x1 < self.columns_spec() && x2 < self.columns_spec(),
                    y1 < self.rows_spec() && y2 < self.rows_spec(),
                    0 <= k <= dx + 1,
                    forall|a: int, b: int|
                        0 <= a < self.columns_spec() && 0 <= b < self.rows_spec()
                            ==> #[trigger] self.value_spec(a, b) == old(self).value_spec(a, b) + (
                        if on_line(*line, diag, a, b) && (a - x1) * sx < k {
                            1int
                        } else {
                            0int
                        }),
                    forall|a: int, b: int|
                        0 <= a < self.columns_spec() && 0 <= b < self.rows_spec() && on_line(
                            *line,
                            diag,
                            a,
                            b,
                        ) ==> #[trigger] old(self).value_spec(a, b) < u64::MAX,
                decreases dx + 1 - k,
            {
                let x = if x2 >= x1 {
                    x1 + k
                } else {
                    x1 - k
                };
                let y = if y2 >= y1 {
                    y1 + k
                } else {
                    y1 - k
                };
                proof {
                    assert((x as int - x1) * sx == k && y as int == y1 + ((x as int - x1) * sx)
                        * sy) by (nonlinear_arith)
                        requires
                            sx == (if x2 >= x1 { 1int } else { -1int }),
                            sy == (if y2 >= y1 { 1int } else { -1int }),
                            x as int == (if x2 >= x1 { x1 + k } else { x1 - k }),
                            y as int == (if y2 >= y1 { y1 + k } else { y1 - k }),
                    ;
                    assert(on_line(*line, diag, x as int, y as int));
                }
                self.incr(x, y);
                proof {
                    assert forall|a: int, b: int|
                        0 <= a < self.columns_spec() && 0 <= b < self.rows_spec() implies
                    #[trigger] self.value_spec(a, b) == old(self).value_spec(a, b) + (if on_line(
                        *line,
                        diag,
                        a,
                        b,
                    ) && (a - x1) * sx < k + 1 {
                        1int
                    } else {
                        0int
                    }) by {
                        if a == x as int && b == y as int {
                        } else if on_line(*line, diag, a, b) && (a - x1) * sx == k {
                            assert(a == x as int && b == y as int) by (nonlinear_arith)
                                requires
                                    sx == 1 || sx == -1,
                                    (a - x1) * sx == k,
                                    (x as int - x1) * sx == k,
                                    on_line(*line, diag, a, b) ==> b == y1 + ((a - x1) * sx) * sy,
                                    on_line(*line, diag, a, b),
                                    y as int == y1 + ((x as int - x1) * sx) * sy,
                            ;
                        }
                    }
                }
                k = k + 1;
            }
            proof {
                assert forall|a: int, b: int|
                    0 <= a < self.columns_spec() && 0 <= b < self.rows_spec() implies #[trigger] self.value_spec(
                    a,
                    b,
                ) == old(self).value_spec(a, b) + (if on_line(*line, diag, a, b) {
                    1int
                } else {
                    0int
                }) by {
                    if on_line(*line, diag, a, b) {
                        assert((a - x1) * sx <= dx);
                    }
                }
            }
        } else {
            proof {
                assert forall|a: int, b: int|
                    0 <= a < self.columns_spec() && 0 <= b < self.rows_spec() implies !on_line(
                    *line,
                    diag,
                    a,
                    b,
                ) by {}
            }
        }
    }
}

/// The greatest x coordinate any line touches.
pub open spec fn max_x(lines: Seq<Line>) -> int
    decreases lines.len(),
{
    if lines.len() == 0 {
        0
    } else {
        let rest = max_x(lines.drop_last());
        let a = lines.last().start.x as int;
        let b = lines.last().end.x as int;
        let m = if a >= b {
            a
        } else {
            b
        };
        if m >= rest {
            m
        } else {
            rest
        }
    }
}

/// The greatest y coordinate any line touches.
pub open spec fn max_y(lines: Seq<Line>) -> int
    decreases lines.len(),
{
    if lines.len() == 0 {
        0
    } else {
        let rest = max_y(lines.drop_last());
        let a = lines.last().start.y as int;
        let b = lines.last().end.y as int;
        let m = if a >= b {
            a
        } else {
            b
        };
        if m >= rest {
            m
        } else {
            rest
        }
    }
}

/// How many points of the row `y`, at x below `cols`, at least two lines
/// cover.
pub open spec fn overlaps_in_row(lines: Seq<Line>, diag: bool, y: int, cols: int) -> int
    decreases cols,
{
    if cols <= 0 {
        0
    } else {
        overlaps_in_row(lines, diag, y, cols - 1) + if cover_count(lines, diag, cols - 1, y) >= 2 {
            1int
        } else {
            0int
        }
    }
}

/// How many points with y below `rows` and x below `cols` at least two
/// lines cover.
pub open spec fn overlaps_upto(lines: Seq<Line>, diag: bool, rows: int, cols: int) -> int
    decreases rows,
{
    if rows <= 0 {
        0
    } else {
        overlaps_upto(lines, diag, rows - 1, cols) + overlaps_in_row(lines, diag, rows - 1, cols)
    }
}

proof fn lemma_cover_count_bound(lines: Seq<Line>, diag: bool, x: int, y: int)
    ensures
        0 <= cover_count(lines, diag, x, y) <= lines.len(),
    decreases lines.len(),
{
    if lines.len() > 0 {
        lemma_cover_count_bound(lines.drop_last(), diag, x, y);
    }
}

/// Draw every line on a fresh diagram sized to fit them all.
pub fn build_diagram(lines: &Vec<Line>, diag: bool) -> (r: Diagram)
    requires
        max_x(lines@) < usize::MAX,
        max_y(lines@) < usize::MAX,
        (max_x(lines@) + 1) * (max_y(lines@) + 1) <= usize::MAX,
    ensures
        r.wf(),
        r.columns_spec() == max_x(lines@) + 1,
        r.rows_spec() == max_y(lines@) + 1,
        forall|x: int, y: int|
            0 <= x < r.columns_spec() && 0 <= y < r.rows_spec() ==> #[trigger] r.value_spec(x, y)
                == cover_count(lines@, diag, x, y),
{
    let ghost lm = lines@;
    let mut mx: u64 = 0;
    let mut my: u64 = 0;
    let mut i: usize = 0;
    proof {
        assert(lm.take(0) =~= Seq::<Line>::empty());
    }
    while i < lines.len()
        invariant
            lm == lines@,
            0 <= i <= lm.len(),
            mx as int == max_x(lm.take(i as int)),
            my as int == max_y(lm.take(i as int)),
        decreases lm.len() - i,
    {
        proof {
            assert(lm.take(i as int + 1).drop_last() =~= lm.take(i as int));
            assert(lm.take(i as int + 1).last() == lm[i as int]);
        }
        let l = lines[i];
        let lx = if l.start.x >= l.end.x {
            l.start.x
        } else {
            l.end.x
        };
        let ly = if l.start.y >= l.end.y {
            l.start.y
        } else {
            l.end.y
        };
        if lx > mx {
            mx = lx;
        }
        if ly > my {
            my = ly;
        }
        i = i + 1;
    }
    proof {
        assert(lm.take(lm.len() as int) =~= lm);
        lemma_max_nonneg(lm);
    }
    let columns = (mx as usize) + 1;
    let rows = (my as usize) + 1;
    proof {
        assert(rows * columns <= usize::MAX) by (nonlinear_arith)
            requires
                columns == max_x(lm) + 1,
                rows == max_y(lm) + 1,
                (max_x(lm) + 1) * (max_y(lm) + 1) <= usize::MAX,
        ;
    }
    let mut d = Diagram::new(rows, columns);
    let mut i: usize = 0;
    proof {
        assert forall|x: int, y: int|
            0 <= x < d.columns_spec() && 0 <= y < d.rows_spec() implies #[trigger] d.value_spec(
            x,
            y,
        ) == cover_count(lm.take(0), diag, x, y) by {
            assert(lm.take(0) =~= Seq::<Line>::empty());
        }
    }
    while i < lines.len()
        invariant
            lm == lines@,
            0 <= i <= lm.len(),
            d.wf(),
            d.columns_spec() == max_x(lm) + 1,
            d.rows_spec() == max_y(lm) + 1,
            forall|x: int, y: int|
                0 <= x < d.columns_spec() && 0 <= y < d.rows_spec() ==> #[trigger] d.value_spec(
                    x,
                    y,
                ) == cover_count(lm.take(i as int), diag, x, y),
        decreases lm.len() - i,
    {
        proof {
            assert(lm.take(i as int + 1).drop_last() =~= lm.take(i as int));
            assert(lm.take(i as int + 1).last() == lm[i as int]);
            lemma_max_prefix(lm, i as int + 1);
            assert forall|x: int, y: int|
                0 <= x < d.columns_spec() && 0 <= y < d.rows_spec() && on_line(
                    lm[i as int],
                    diag,
                    x,
                    y,
                ) implies #[trigger] d.value_spec(x, y) < u64::MAX by {
                lemma_cover_count_bound(lm.take(i as int), diag, x, y);
            }
        }
        let l = lines[i];
        d.apply(&l, diag);
        i = i + 1;
    }
    proof {
        assert(lm.take(lm.len() as int) =~= lm);
    }
    d
}

proof fn lemma_max_nonneg(lines: Seq<Line>)
    ensures
        max_x(lines) >= 0,
        max_y(lines) >= 0,
    decreases lines.len(),
{
    if lines.len() > 0 {
        lemma_max_nonneg(lines.drop_last());
    }
}

/// Every endpoint of a prefix of the lines stays within the overall
/// bounding box.
proof fn lemma_max_prefix(lines: Seq<Line>, k: int)
    requires
        0 < k <= lines.len(),
    ensures
        lines[k - 1].start.x <= max_x(lines),
        lines[k - 1].end.x <= max_x(lines),
        lines[k - 1].start.y <= max_y(lines),
        lines[k - 1].end.y <= max_y(lines),
    decreases lines.len(),
{
    if k == lines.len() {
    } else {
        assert(lines.drop_last()[k - 1] == lines[k - 1]);
        lemma_max_prefix(lines.drop_last(), k);
    }
}

/// Count the points at least two lines cover, drawing diagonals only when
/// `diag` is set.
pub fn solve(lines: &Vec<Line>, diag: bool) -> (r: usize)
    requires
        max_x(lines@) < usize::MAX,
        max_y(lines@) < usize::MAX,
        (max_x(lines@) + 1) * (max_y(lines@) + 1) <= usize::MAX,
    ensures
        r as int == overlaps_upto(lines@, diag, max_y(lines@) + 1, max_x(lines@) + 1),
{
    let d = build_diagram(lines, diag);
    let ghost lm = lines@;
    let mut count: usize = 0;
    let mut y: usize = 0;
    let rows = d.rows_len();
    let cols = d.columns_len();
    while y < rows
        invariant
            d.wf(),
            rows == d.rows_spec(),
            cols == d.columns_spec(),
            d.columns_spec() == max_x(lm) + 1,
            d.rows_spec() == max_y(lm) + 1,
            lm == lines@,
            forall|a: int, b: int|
                0 <= a < d.columns_spec() && 0 <= b < d.rows_spec() ==> #[trigger] d.value_spec(
                    a,
                    b,
                ) == cover_count(lm, diag, a, b),
            0 <= y <= rows,
            count as int == overlaps_upto(lm, diag, y as int, cols as int),
            count <= y * cols,
        decreases rows - y,
    {
        let mut x: usize = 0;
        let mut row_count: usize = 0;
        while x < cols
            invariant
                d.wf(),
                rows == d.rows_spec(),
                cols == d.columns_spec(),
                lm == lines@,
                forall|a: int, b: int|
                    0 <= a < d.columns_spec() && 0 <= b < d.rows_spec()
                        ==> #[trigger] d.value_spec(a, b) == cover_count(lm, diag, a, b),
                0 <= y < rows,
                0 <= x <= cols,
                row_count as int == overlaps_in_row(lm, diag, y as int, x as int),
                row_count <= x,
            decreases cols - x,
        {
            if d.value(x, y) >= 2 {
                row_count = row_count + 1;
            }
            x = x + 1;
        }
        proof {
            assert(y * cols + cols == (y + 1) * cols) by (nonlinear_arith);
            assert((y + 1) * cols <= rows * cols) by (nonlinear_arith)
                requires
                    0 <= y < rows,
                    0 <= cols,
            ;
            assert(rows * cols <= usize::MAX);
        }
        count = count + row_count;
        y = y + 1;
    }
    count
}

impl Diagram {
    /// The number of rows.
    pub fn rows_len(&self) -> (r: usize)
        ensures
            r == self.rows_spec(),
    {
        self.rows
    }

    /// The number of columns.
    pub fn columns_len(&self) -> (r: usize)
        ensures
            r == self.columns_spec(),
    {
        self.columns
    }
}

} // verus!
