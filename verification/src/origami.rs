//! Transparent origami: dots on a grid, folded along horizontal and
//! vertical lines until a code appears.

use vstd::prelude::*;

verus! {

use crate::parse;
use crate::parse::spec_split;
use crate::parse::spec_parse_u64;

/// One fold instruction: the line to fold along.
#[derive(Debug, Clone, Copy, PartialEq, Eq, Structural)]
pub enum FoldInstruction {
    X(usize),
    Y(usize),
}

/// One cell of the paper.
#[derive(Debug, Clone, Copy, PartialEq, Eq, Structural)]
pub enum Point {
    Dot,
    Invisible,
}

/// The sheet of transparent paper, stored column-major: the cell `(x, y)`
/// lives at index `y + x * height`.
#[derive(Debug)]
pub struct Grid {
    pub points: Vec<Point>,
    pub width: usize,
    pub height: usize,
}

impl Grid {
    /// The cell vector covers exactly the grid.
    pub open spec fn wf(&self) -> bool {
        &&& self.points@.len() == self.width * self.height
        &&& self.width * self.height <= usize::MAX
    }

    /// Is there a dot at `(x, y)`?
    pub open spec fn dot_at(&self, x: int, y: int) -> bool {
        &&& 0 <= x < self.width
        &&& 0 <= y < self.height
        &&& self.points@[y + x * self.height] == Point::Dot
    }

    /// A blank sheet of the given size.
    pub fn with_capacity(width: usize, height: usize) -> (r: Grid)
        requires
            width * height <= usize::MAX,
        ensures
            r.wf(),
            r.width == width,
            r.height == height,
            forall|x: int, y: int| !r.dot_at(x, y),
    {
        proof {
            assert(0 <= width * height) by (nonlinear_arith);
        }
        let n = width * height;
        let points = vec![Point::Invisible; n];
        let g = Grid { points, width, height };
        proof {
            assert forall|x: int, y: int| !g.dot_at(x, y) by {
                if 0 <= x < width && 0 <= y < height {
                    assert(0 <= y + x * height < width * height) by (nonlinear_arith)
                        requires
                            0 <= x < width,
                            0 <= y < height,
                    ;
                }
            }
        }
        g
    }

    /// Put a dot at `(x, y)`.  Fails, changing nothing, when the cell index
    /// falls outside the sheet.
    pub fn add(&mut self, x: usize, y: usize) -> (r: Option<()>)
        requires
            y + x * old(self).height <= usize::MAX,
        ensures
            final(self).width == old(self).width,
            final(self).height == old(self).height,
            match r {
                Some(u) => {
                    &&& y + x * old(self).height < old(self).points@.len()
                    &&& final(self).points@ == old(self).points@.update(
                        y + x * old(self).height,
                        Point::Dot,
                    )
                },
                None => {
                    &&& y + x * old(self).height >= old(self).points@.len()
                    &&& final(self).points@ == old(self).points@
                },
            },
    {
        proof {
            assert(0 <= x * self.height) by (nonlinear_arith);
        }
        let index = y + x * self.height;
        if index < self.points.len() {
            self.points.set(index, Point::Dot);
            Some(())
        } else {
            None
        }
    }

    /// How many dots are visible.
    pub fn count_dots(&self) -> (r: usize)
        ensures
            r as int == count_dots_in(self.points@),
    {
        let mut count: usize = 0;
        let mut i: usize = 0;
        proof {
            assert(self.points@.take(0) =~= Seq::<Point>::empty());
        }
        while i < self.points.len()
            invariant
                0 <= i <= self.points@.len(),
                count as int == count_dots_in(self.points@.take(i as int)),
                count <= i,
            decreases self.points@.len() - i,
        {
            proof {
                assert(self.points@.take(i as int + 1).drop_last() =~= self.points@.take(i as int));
                assert(self.points@.take(i as int + 1).last() == self.points@[i as int]);
            }
            if matches!(self.points[i], Point::Dot) {
                count = count + 1;
            }
            i = i + 1;
        }
        proof {
            assert(self.points@.take(self.points@.len() as int) =~= self.points@);
        }
        count
    }
}

/// The number of dots in a cell sequence.
pub open spec fn count_dots_in(s: Seq<Point>) -> int
    decreases s.len(),
{
    if s.len() == 0 {
        0
    } else {
        count_dots_in(s.drop_last()) + if s.last() == Point::Dot {
            1int
        } else {
            0int
        }
    }
}

/// The size of the sheet after one fold.
pub open spec fn folded_size(g: &Grid, instruction: FoldInstruction) -> (int, int) {
    match instruction {
        FoldInstruction::X(fx) => (fx as int, g.height as int),
        FoldInstruction::Y(fy) => (g.width as int, fy as int),
    }
}

/// Whether the folded sheet shows a dot at `(x, y)`: the cell kept in place
/// or its mirror image across the fold line.
pub open spec fn folded_dot(g: &Grid, instruction: FoldInstruction, x: int, y: int) -> bool {
    match instruction {
        FoldInstruction::X(fx) => g.dot_at(x, y) || g.dot_at(2 * (fx as int) - x, y),
        FoldInstruction::Y(fy) => g.dot_at(x, y) || g.dot_at(x, 2 * (fy as int) - y),
    }
}

impl Grid {
    /// Fold the sheet along the given line.  The kept part keeps its dots
    /// and receives those of the folded-away part, mirrored.
    pub fn apply(self, instruction: FoldInstruction) -> (r: Grid)
        requires
            self.wf(),
            ({
                let (w, h) = folded_size(&self, instruction);
                w * h <= usize::MAX
            }),
        ensures
            r.wf(),
            r.width as int == folded_size(&self, instruction).0,
            r.height as int == folded_size(&self, instruction).1,
            forall|x: int, y: int|
                0 <= x < r.width && 0 <= y < r.height ==> (#[trigger] r.dot_at(x, y) == folded_dot(
                    &self,
                    instruction,
                    x,
                    y,
                )),
    {
        let (new_width, new_height) = match instruction {
            FoldInstruction::X(fx) => (fx, self.height),
            FoldInstruction::Y(fy) => (self.width, fy),
        };
        let mut folded = Grid::with_capacity(new_width, new_height);
        let mut x: usize = 0;
        while x < new_width
            invariant
                self.wf(),
                folded.wf(),
                folded.width == new_width,
                folded.height == new_height,
                (new_width as int, new_height as int) == folded_size(&self, instruction),
                0 <= x <= new_width,
                forall|a: int, b: int|
                    0 <= a < new_width && 0 <= b < new_height ==> (#[trigger] folded.dot_at(a, b)
                        == (a < x && folded_dot(&self, instruction, a, b))),
            decreases new_width - x,
        {
            let mut y: usize = 0;
            while y < new_height
                invariant
                    self.wf(),
                    folded.wf(),
                    folded.width == new_width,
                    folded.height == new_height,
                    (new_width as int, new_height as int) == folded_size(&self, instruction),
                    0 <= x < new_width,
                    0 <= y <= new_height,
                    forall|a: int, b: int|
                        0 <= a < new_width && 0 <= b < new_height ==> (#[trigger] folded.dot_at(
                            a,
                            b,
                        ) == ((a < x || (a == x && b < y)) && folded_dot(
                            &self,
                            instruction,
                            a,
                            b,
                        ))),
                decreases new_height - y,
            {
                let dot = match instruction {
                    FoldInstruction::X(fx) => {
                        let here = self.has_dot(x, y);
                        let mirror = 2 * (fx as u128) - (x as u128);
                        let mirrored = if mirror <= usize::MAX as u128 {
                            self.has_dot(mirror as usize, y)
                        } else {
                            proof {
                                assert(!self.dot_at(2 * (fx as int) - x, y as int));
                            }
                            false
                        };
                        proof {
                            assert(mirrored == self.dot_at(2 * (fx as int) - x, y as int));
                        }
                        here || mirrored
                    },
                    FoldInstruction::Y(fy) => {
                        let here = self.has_dot(x, y);
                        let mirror = 2 * (fy as u128) - (y as u128);
                        let mirrored = if mirror <= usize::MAX as u128 {
                            self.has_dot(x, mirror as usize)
                        } else {
                            proof {
                                assert(!self.dot_at(x as int, 2 * (fy as int) - y));
                            }
                            false
                        };
                        proof {
                            assert(mirrored == self.dot_at(x as int, 2 * (fy as int) - y));
                        }
                        here || mirrored
                    },
                };
                proof {
                    assert(dot == folded_dot(&self, instruction, x as int, y as int));
                }
                let ghost before = folded;
                if dot {
                    proof {
                        vstd::arithmetic::mul::lemma_mul_inequality(
                            x as int + 1,
                            new_width as int,
                            new_height as int,
                        );
                        assert(y + x * new_height < new_width * new_height) by (nonlinear_arith)
                            requires
                                0 <= x < new_width,
                                0 <= y < new_height,
                        ;
                    }
                    let added = folded.add(x, y);
                    proof {
                        assert(added is Some);
                    }
                } else {
                    proof {
                        assert(!folded_dot(&self, instruction, x as int, y as int));
                    }
                }
                proof {
                    assert forall|a: int, b: int|
                        0 <= a < new_width && 0 <= b < new_height implies (
                    #[trigger] folded.dot_at(a, b) == ((a < x || (a == x && b < y + 1))
                        && folded_dot(&self, instruction, a, b))) by {
                        assert(before.dot_at(a, b) == ((a < x || (a == x && b < y)) && folded_dot(
                            &self,
                            instruction,
                            a,
                            b,
                        )));
                        if a != x || b != y {
                            lemma_index_injective(
                                new_width as int,
                                new_height as int,
                                a,
                                b,
                                x as int,
                                y as int,
                            );
                            assert(0 <= b + a * (new_height as int) < (new_width as int) * (
                            new_height as int)) by (nonlinear_arith)
                                requires
                                    0 <= a < new_width,
                                    0 <= b < new_height,
                            ;
                            assert(folded.dot_at(a, b) == before.dot_at(a, b));
                        }
                    }
                }
                y = y + 1;
            }
            x = x + 1;
        }
        folded
    }

    /// Does the sheet show a dot at `(x, y)`?  Out-of-range coordinates show
    /// none.
    pub fn has_dot(&self, x: usize, y: usize) -> (r: bool)
        requires
            self.wf(),
        ensures
            r == self.dot_at(x as int, y as int),
    {
        if x >= self.width || y >= self.height {
            proof {
                assert(!self.dot_at(x as int, y as int));
            }
            return false;
        }
        proof {
            vstd::arithmetic::mul::lemma_mul_inequality(
                x as int + 1,
                self.width as int,
                self.height as int,
            );
            assert(y + x * self.height < self.width * self.height) by (nonlinear_arith)
                requires
                    0 <= x < self.width,
                    0 <= y < self.height,
            ;
        }
        let index = y + x * self.height;
        matches!(self.points[index], Point::Dot)
    }
}

/// Distinct cells of one sheet have distinct indices.
proof fn lemma_index_injective(w: int, h: int, a: int, b: int, x: int, y: int)
    requires
        0 <= a < w,
        0 <= b < h,
        0 <= x < w,
        0 <= y < h,
        (a, b) != (x, y),
    ensures
        b + a * h != y + x * h,
{
    if a == x {
    } else {
        assert(b + a * h != y + x * h) by (nonlinear_arith)
            requires
                0 <= b < h,
                0 <= y < h,
                a != x,
        ;
    }
}

/// The prefix `fold along ` of every instruction line.
pub open spec fn fold_prefix() -> Seq<u8> {
    seq![0x66u8, 0x6f, 0x6c, 0x64, 0x20, 0x61, 0x6c, 0x6f, 0x6e, 0x67, 0x20]
}

/// What one instruction line denotes: the axis letter and the fold
/// coordinate after `fold along `.
pub open spec fn spec_fold_instruction(s: Seq<u8>) -> Option<FoldInstruction> {
    if s.len() < 11 || s.take(11) != fold_prefix() {
        None
    } else {
        let parts = spec_split(s.skip(11), 0x3d);
        if parts.len() < 2 {
            None
        } else {
            let axis = parts[0];
            match spec_parse_u64(parts[1]) {
                None => None,
                Some(v) => if v > usize::MAX {
                    None
                } else if axis == seq![0x78u8] || axis == seq![0x58u8] {
                    Some(FoldInstruction::X(v as usize))
                } else if axis == seq![0x79u8] || axis == seq![0x59u8] {
                    Some(FoldInstruction::Y(v as usize))
                } else {
                    None
                },
            }
        }
    }
}

/// Parse one `fold along ...` line.
pub fn parse_fold_instruction(s: &[u8]) -> (r: Option<FoldInstruction>)
    ensures
        r == spec_fold_instruction(s@),
{
    if s.len() < 11 {
        return None;
    }
    let has_prefix = s[0] == 0x66 && s[1] == 0x6f && s[2] == 0x6c && s[3] == 0x64 && s[4] == 0x20
        && s[5] == 0x61 && s[6] == 0x6c && s[7] == 0x6f && s[8] == 0x6e && s[9] == 0x67 && s[10]
        == 0x20;
    proof {
        assert(has_prefix == (s@.take(11) =~= fold_prefix()));
    }
    if !has_prefix {
        return None;
    }
    let mut rest: Vec<u8> = Vec::new();
    let mut i: usize = 11;
    while i < s.len()
        invariant
            11 <= i <= s@.len(),
            rest@ == s@.skip(11).take(i - 11),
        decreases s@.len() - i,
    {
        proof {
            assert(s@.skip(11).take(i - 11 + 1) =~= s@.skip(11).take(i - 11).push(s@[i as int]));
        }
        rest.push(s[i]);
        i = i + 1;
    }
    proof {
        assert(rest@ =~= s@.skip(11));
    }
    let parts = parse::split_bytes(rest.as_slice(), 0x3d);
    let ghost pm = spec_split(s@.skip(11), 0x3d);
    if parts.len() < 2 {
        return None;
    }
    proof {
        assert(pm[0] == parts@.map_values(|v: Vec<u8>| v@)[0]);
        assert(pm[1] == parts@.map_values(|v: Vec<u8>| v@)[1]);
    }
    let axis = &parts[0];
    let v = match parse::parse_u64(parts[1].as_slice()) {
        None => {
            return None;
        },
        Some(v) => v,
    };
    if v > usize::MAX as u64 {
        return None;
    }
    let is_x = axis.len() == 1 && (*axis.get(0).unwrap() == 0x78 || *axis.get(0).unwrap() == 0x58);
    let is_y = axis.len() == 1 && (*axis.get(0).unwrap() == 0x79 || *axis.get(0).unwrap() == 0x59);
    proof {
        assert(is_x == (axis@ =~= seq![0x78u8] || axis@ =~= seq![0x58u8]));
        assert(is_y == (axis@ =~= seq![0x79u8] || axis@ =~= seq![0x59u8]));
    }
    if is_x {
        Some(FoldInstruction::X(v as usize))
    } else if is_y {
        Some(FoldInstruction::Y(v as usize))
    } else {
        None
    }
}


/// The index of the first empty line, or the line count if none is empty.
pub open spec fn first_blank(lines: Seq<Seq<u8>>) -> int
    decreases lines.len(),
{
    if lines.len() == 0 {
        0
    } else if lines[0].len() == 0 {
        0
    } else {
        1 + first_blank(lines.drop_first())
    }
}

proof fn lemma_first_blank(lines: Seq<Seq<u8>>)
    ensures
        0 <= first_blank(lines) <= lines.len(),
        forall|j: int| 0 <= j < first_blank(lines) ==> (#[trigger] lines[j]).len() != 0,
        first_blank(lines) < lines.len() ==> lines[first_blank(lines)].len() == 0,
    decreases lines.len(),
{
    if lines.len() > 0 && lines[0].len() != 0 {
        lemma_first_blank(lines.drop_first());
        assert forall|j: int| 0 <= j < first_blank(lines) implies (#[trigger] lines[j]).len() != 0
            by {
            if j > 0 {
                assert(lines.drop_first()[j - 1] == lines[j]);
            }
        }
        if first_blank(lines) < lines.len() {
            assert(lines.drop_first()[first_blank(lines.drop_first())]
                == lines[first_blank(lines)]);
        }
    }
}

/// What one coordinate line denotes: a pair `x,y`.
pub open spec fn spec_coord(s: Seq<u8>) -> Option<(int, int)> {
    match parse::spec_parse_u64_list(s, 0x2c) {
        None => None,
        Some(vs) => if vs.len() == 2 {
            Some((vs[0], vs[1]))
        } else {
            None
        },
    }
}

/// The coordinates denoted by a run of lines, if every one parses.
pub open spec fn spec_coords(lines: Seq<Seq<u8>>) -> Option<Seq<(int, int)>>
    decreases lines.len(),
{
    if lines.len() == 0 {
        Some(Seq::empty())
    } else {
        match spec_coords(lines.drop_last()) {
            None => None,
            Some(rest) => match spec_coord(lines.last()) {
                None => None,
                Some(c) => Some(rest.push(c)),
            },
        }
    }
}

/// The fold instructions denoted by a run of lines, empty lines skipped.
pub open spec fn spec_folds(lines: Seq<Seq<u8>>) -> Option<Seq<FoldInstruction>>
    decreases lines.len(),
{
    if lines.len() == 0 {
        Some(Seq::empty())
    } else {
        match spec_folds(lines.drop_last()) {
            None => None,
            Some(rest) => if lines.last().len() == 0 {
                Some(rest)
            } else {
                match spec_fold_instruction(lines.last()) {
                    None => None,
                    Some(f) => Some(rest.push(f)),
                }
            },
        }
    }
}

/// The greatest x coordinate of the dots.
pub open spec fn coords_max_x(cs: Seq<(int, int)>) -> int
    decreases cs.len(),
{
    if cs.len() == 0 {
        0
    } else {
        let rest = coords_max_x(cs.drop_last());
        if cs.last().0 >= rest {
            cs.last().0
        } else {
            rest
        }
    }
}

/// The greatest y coordinate of the dots.
pub open spec fn coords_max_y(cs: Seq<(int, int)>) -> int
    decreases cs.len(),
{
    if cs.len() == 0 {
        0
    } else {
        let rest = coords_max_y(cs.drop_last());
        if cs.last().1 >= rest {
            cs.last().1
        } else {
            rest
        }
    }
}

proof fn lemma_coords_max(cs: Seq<(int, int)>, k: int)
    requires
        0 <= k < cs.len(),
        forall|j: int| 0 <= j < cs.len() ==> (#[trigger] cs[j]).0 >= 0 && cs[j].1 >= 0,
    ensures
        coords_max_x(cs) >= 0,
        coords_max_y(cs) >= 0,
        cs[k].0 <= coords_max_x(cs),
        cs[k].1 <= coords_max_y(cs),
    decreases cs.len(),
{
    if k == cs.len() - 1 {
        if cs.len() > 1 {
            lemma_coords_max(cs.drop_last(), 0);
        }
    } else {
        assert(cs.drop_last()[k] == cs[k]);
        lemma_coords_max(cs.drop_last(), k);
    }
}

/// Parse a whole sheet: coordinate lines, a blank line, then fold
/// instructions.  The sheet is sized one past the furthest dot.
///
/// Fails when a coordinate or instruction line is malformed, and when the
/// sheet would not fit in memory.
pub fn parse_sheet(lines: &Vec<Vec<u8>>) -> (r: Option<(Grid, Vec<FoldInstruction>)>)
    ensures
        r matches Some((g, ins)) ==> {
            let lm = lines@.map_values(|l: Vec<u8>| l@);
            let blank = first_blank(lm);
            &&& spec_coords(lm.take(blank)) matches Some(cs) && {
                &&& g.wf()
                &&& g.width == coords_max_x(cs) + 1
                &&& g.height == coords_max_y(cs) + 1
                &&& forall|x: int, y: int| #[trigger] g.dot_at(x, y) <==> cs.contains((x, y))
            }
            &&& spec_folds(lm.skip(blank)) == Some(ins@)
        },
{
    let ghost lm = lines@.map_values(|l: Vec<u8>| l@);
    let mut coords: Vec<(u64, u64)> = Vec::new();
    let mut i: usize = 0;
    proof {
        lemma_first_blank(lm);
        assert(lm.take(0) =~= Seq::<Seq<u8>>::empty());
    }
    let ghost blank = first_blank(lm);
    while i < lines.len() && lines[i].len() != 0
        invariant
            lm == lines@.map_values(|l: Vec<u8>| l@),
            lm.len() == lines@.len(),
            blank == first_blank(lm),
            0 <= i <= blank,
            forall|j: int| 0 <= j < blank ==> (#[trigger] lm[j]).len() != 0,
            blank < lm.len() ==> lm[blank].len() == 0,
            blank <= lm.len(),
            spec_coords(lm.take(i as int)) matches Some(cs) && cs == coords@.map_values(
                |c: (u64, u64)| (c.0 as int, c.1 as int),
            ),
        decreases lines@.len() - i,
    {
        proof {
            assert(lm[i as int] == lines@.map_values(|l: Vec<u8>| l@)[i as int]);
            assert(lm.take(i as int + 1).drop_last() =~= lm.take(i as int));
            assert(lm.take(i as int + 1).last() == lm[i as int]);
            assert(i < blank) by {
                if i >= blank {
                    assert(lm[blank].len() == 0);
                }
            }
        }
        let parts = match parse::parse_u64_list(lines[i].as_slice(), 0x2c) {
            None => {
                return None;
            },
            Some(v) => v,
        };
        if parts.len() != 2 {
            return None;
        }
        let ghost pre = coords@;
        coords.push((parts[0], parts[1]));
        proof {
            assert(parts@.map_values(|x: u64| x as int)[0] == parts@[0] as int);
            assert(parts@.map_values(|x: u64| x as int)[1] == parts@[1] as int);
            assert(coords@.map_values(|c: (u64, u64)| (c.0 as int, c.1 as int)) =~= pre.map_values(
                |c: (u64, u64)| (c.0 as int, c.1 as int),
            ).push((parts@[0] as int, parts@[1] as int)));
            assert(spec_coord(lm[i as int]) == Some((parts@[0] as int, parts@[1] as int)));
        }
        i = i + 1;
    }
    proof {
        assert(i == blank) by {
            if i < blank {
                assert(lm[i as int].len() != 0);
            }
        }
        assert(lm.take(blank) =~= lm.take(i as int));
    }
    let ghost cs = spec_coords(lm.take(blank))->0;
    let mut instructions: Vec<FoldInstruction> = Vec::new();
    let mut k: usize = i;
    proof {
        assert(lm.skip(blank).take(0) =~= Seq::<Seq<u8>>::empty());
    }
    while k < lines.len()
        invariant
            lm == lines@.map_values(|l: Vec<u8>| l@),
            lm.len() == lines@.len(),
            blank == first_blank(lm),
            0 <= blank <= k <= lm.len(),
            spec_folds(lm.skip(blank).take(k - blank)) == Some(instructions@),
        decreases lines@.len() - k,
    {
        proof {
            assert(lm[k as int] == lines@.map_values(|l: Vec<u8>| l@)[k as int]);
            assert(lm.skip(blank).take(k - blank + 1).drop_last() =~= lm.skip(blank).take(
                k - blank,
            ));
            assert(lm.skip(blank).take(k - blank + 1).last() == lm[k as int]);
        }
        if lines[k].len() != 0 {
            match parse_fold_instruction(lines[k].as_slice()) {
                None => {
                    return None;
                },
                Some(f) => {
                    instructions.push(f);
                },
            }
        }
        k = k + 1;
    }
    proof {
        assert(lm.skip(blank).take(lm.len() - blank) =~= lm.skip(blank));
    }
    let mut max_x: u64 = 0;
    let mut max_y: u64 = 0;
    let mut t: usize = 0;
    proof {
        assert(coords@.map_values(|c: (u64, u64)| (c.0 as int, c.1 as int)).take(0)
            =~= Seq::<(int, int)>::empty());
    }
    while t < coords.len()
        invariant
            0 <= t <= coords@.len(),
            cs == coords@.map_values(|c: (u64, u64)| (c.0 as int, c.1 as int)),
            max_x as int == coords_max_x(cs.take(t as int)),
            max_y as int == coords_max_y(cs.take(t as int)),
        decreases coords@.len() - t,
    {
        proof {
            assert(cs.take(t as int + 1).drop_last() =~= cs.take(t as int));
            assert(cs.take(t as int + 1).last() == cs[t as int]);
        }
        if coords[t].0 > max_x {
            max_x = coords[t].0;
        }
        if coords[t].1 > max_y {
            max_y = coords[t].1;
        }
        t = t + 1;
    }
    proof {
        assert(cs.take(cs.len() as int) =~= cs);
    }
    if max_x >= usize::MAX as u64 || max_y >= usize::MAX as u64 {
        return None;
    }
    let width = max_x as usize + 1;
    let height = max_y as usize + 1;
    let prod = match width.checked_mul(height) {
        None => {
            return None;
        },
        Some(p) => p,
    };
    let mut grid = Grid::with_capacity(width, height);
    let mut d: usize = 0;
    while d < coords.len()
        invariant
            0 <= d <= coords@.len(),
            cs == coords@.map_values(|c: (u64, u64)| (c.0 as int, c.1 as int)),
            grid.wf(),
            grid.width == width,
            grid.height == height,
            width == coords_max_x(cs) + 1,
            height == coords_max_y(cs) + 1,
            forall|x: int, y: int| #[trigger] grid.dot_at(x, y) <==> cs.take(d as int).contains(
                (x, y),
            ),
        decreases coords@.len() - d,
    {
        proof {
            assert(cs[d as int] == (coords@[d as int].0 as int, coords@[d as int].1 as int));
            assert forall|j: int| 0 <= j < cs.len() implies (#[trigger] cs[j]).0 >= 0 && cs[j].1
                >= 0 by {
                assert(cs[j] == (coords@[j].0 as int, coords@[j].1 as int));
            }
            lemma_coords_max(cs, d as int);
        }
        let (cx, cy) = coords[d];
        let x = cx as usize;
        let y = cy as usize;
        proof {
            assert(0 <= y + x * height) by (nonlinear_arith)
                requires
                    0 <= x && 0 <= y && 0 <= height,
            ;
            assert(y + x * height < width * height) by (nonlinear_arith)
                requires
                    0 <= x < width,
                    0 <= y < height,
            ;
        }
        let ghost before = grid;
        let added = grid.add(x, y);
        proof {
            assert(added is Some);
            assert(cs.take(d as int + 1) =~= cs.take(d as int).push(cs[d as int]));
            assert forall|a: int, b: int| #[trigger] grid.dot_at(a, b) <==> cs.take(
                d as int + 1,
            ).contains((a, b)) by {
                if 0 <= a < width && 0 <= b < height {
                    if a != x as int || b != y as int {
                        lemma_index_injective(
                            width as int,
                            height as int,
                            a,
                            b,
                            x as int,
                            y as int,
                        );
                        assert(0 <= b + a * (height as int) < (width as int) * (height as int))
                            by (nonlinear_arith)
                            requires
                                0 <= a < width,
                                0 <= b < height,
                        ;
                        assert(grid.dot_at(a, b) == before.dot_at(a, b));
                    } else {
                        assert(grid.dot_at(a, b));
                        assert(cs.take(d as int + 1).last() == (a, b));
                    }
                } else {
                    assert(!grid.dot_at(a, b));
                    if cs.take(d as int + 1).contains((a, b)) {
                        let j = choose|j: int|
                            0 <= j < d + 1 && #[trigger] cs.take(d as int + 1)[j] == (a, b);
                        assert(cs[j] == (a, b));
                        lemma_coords_max(cs, j);
                    }
                }
            }
        }
        d = d + 1;
    }
    proof {
        assert(cs.take(cs.len() as int) =~= cs);
    }
    Some((grid, instructions))
}

/// One rendered row of the sheet: a `#` per dot, a `.` per blank cell, and
/// a newline.
pub open spec fn render_row(g: &Grid, y: int) -> Seq<u8> {
    Seq::new(g.width as nat, |x: int| if g.dot_at(x, y) {
        0x23u8
    } else {
        0x2eu8
    }).push(0x0a)
}

/// The rows of the sheet rendered top to bottom, up to row `rows`.
pub open spec fn render_upto(g: &Grid, rows: int) -> Seq<u8>
    decreases rows,
{
    if rows <= 0 {
        Seq::empty()
    } else {
        render_upto(g, rows - 1) + render_row(g, rows - 1)
    }
}

impl Grid {
    /// Render the sheet as text, one line per row.
    pub fn render(&self) -> (r: Vec<u8>)
        requires
            self.wf(),
        ensures
            r@ == render_upto(self, self.height as int),
    {
        let mut out: Vec<u8> = Vec::new();
        let mut y: usize = 0;
        proof {
            assert(out@ =~= render_upto(self, 0));
        }
        while y < self.height
            invariant
                self.wf(),
                0 <= y <= self.height,
                out@ == render_upto(self, y as int),
            decreases self.height - y,
        {
            let ghost pre = out@;
            let mut x: usize = 0;
            while x < self.width
                invariant
                    self.wf(),
                    0 <= y < self.height,
                    0 <= x <= self.width,
                    out@ == pre + Seq::new(x as nat, |i: int| if self.dot_at(i, y as int) {
                        0x23u8
                    } else {
                        0x2eu8
                    }),
                decreases self.width - x,
            {
                let dot = self.has_dot(x, y);
                let b: u8 = if dot {
                    0x23
                } else {
                    0x2e
                };
                out.push(b);
                proof {
                    assert(out@ =~= pre + Seq::new(x as nat + 1, |i: int| if self.dot_at(
                        i,
                        y as int,
                    ) {
                        0x23u8
                    } else {
                        0x2eu8
                    }));
                }
                x = x + 1;
            }
            out.push(0x0a);
            proof {
                assert(out@ =~= render_upto(self, y as int + 1));
            }
            y = y + 1;
        }
        out
    }
}

} // verus!
