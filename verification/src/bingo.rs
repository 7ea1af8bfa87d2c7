//! Bingo against a giant squid: boards mark drawn numbers, and a fully
//! marked row or column wins with a score.

use vstd::prelude::*;

verus! {

use crate::parse;
use crate::parse::spec_split;
use crate::parse::spec_parse_u64;

/// One board cell: a number, marked or not.
#[derive(Debug, Clone, Copy, PartialEq, Eq, Structural)]
pub enum Cell {
    Marked(u32),
    Unmarked(u32),
}

impl Cell {
    /// The number on the cell.
    pub fn value(&self) -> (r: u32)
        ensures
            r == spec_cell_value(*self),
    {
        match self {
            Cell::Marked(v) => *v,
            Cell::Unmarked(v) => *v,
        }
    }

    /// Has the cell been marked?
    pub fn is_marked(&self) -> (r: bool)
        ensures
            r == (*self is Marked),
    {
        matches!(self, Cell::Marked(_))
    }

    /// Mark the cell; reports whether it was unmarked before.
    pub fn mark(&mut self) -> (r: bool)
        ensures
            *final(self) == Cell::Marked(spec_cell_value(*old(self))),
            r == (*old(self) is Unmarked),
    {
        match *self {
            Cell::Unmarked(v) => {
                *self = Cell::Marked(v);
                true
            },
            Cell::Marked(v) => false,
        }
    }
}

/// The number on a cell.
pub open spec fn spec_cell_value(c: Cell) -> u32 {
    match c {
        Cell::Marked(v) => v,
        Cell::Unmarked(v) => v,
    }
}

/// The index of the first cell carrying the number `n`, or a negative value
/// if none does.
pub open spec fn first_with_value(cells: Seq<Cell>, n: u32) -> int
    decreases cells.len(),
{
    if cells.len() == 0 {
        -1
    } else if spec_cell_value(cells[0]) == n {
        0
    } else {
        let r = first_with_value(cells.drop_first(), n);
        if r < 0 {
            -1
        } else {
            r + 1
        }
    }
}

proof fn lemma_first_with_value(cells: Seq<Cell>, n: u32)
    ensures
        first_with_value(cells, n) < 0 ==> forall|j: int|
            0 <= j < cells.len() ==> spec_cell_value(#[trigger] cells[j]) != n,
        first_with_value(cells, n) >= 0 ==> {
            &&& first_with_value(cells, n) < cells.len()
            &&& spec_cell_value(cells[first_with_value(cells, n)]) == n
            &&& forall|j: int|
                0 <= j < first_with_value(cells, n) ==> spec_cell_value(#[trigger] cells[j]) != n
        },
    decreases cells.len(),
{
    if cells.len() > 0 && spec_cell_value(cells[0]) != n {
        lemma_first_with_value(cells.drop_first(), n);
        let r = first_with_value(cells.drop_first(), n);
        if r < 0 {
            assert forall|j: int| 0 <= j < cells.len() implies spec_cell_value(
                #[trigger] cells[j],
            ) != n by {
                if j > 0 {
                    assert(cells.drop_first()[j - 1] == cells[j]);
                }
            }
        } else {
            assert(cells[r + 1] == cells.drop_first()[r]);
            assert forall|j: int| 0 <= j < r + 1 implies spec_cell_value(#[trigger] cells[j]) != n
                by {
                if j > 0 {
                    assert(cells.drop_first()[j - 1] == cells[j]);
                }
            }
        }
    }
}

/// The cells with the first occurrence of `n` marked, if there is one.
pub open spec fn spec_mark_first(cells: Seq<Cell>, n: u32) -> Seq<Cell> {
    let i = first_with_value(cells, n);
    if 0 <= i < cells.len() {
        cells.update(i, Cell::Marked(n))
    } else {
        cells
    }
}

/// Is the line `{ k * rows + line | k < rows }` fully marked?
pub open spec fn spec_row_marked(cells: Seq<Cell>, rows: int, line: int) -> bool {
    forall|k: int| 0 <= k < rows ==> (#[trigger] cells[k * rows + line]) is Marked
}

/// Is the block `{ line * rows + k | k < rows }` fully marked?
pub open spec fn spec_col_marked(cells: Seq<Cell>, rows: int, line: int) -> bool {
    forall|k: int| 0 <= k < rows ==> (#[trigger] cells[line * rows + k]) is Marked
}

/// Has the board won: some row or column fully marked?
pub open spec fn spec_won(cells: Seq<Cell>, rows: int) -> bool {
    (exists|r: int| 0 <= r < rows && spec_row_marked(cells, rows, r)) || (exists|c: int|
        0 <= c < rows && spec_col_marked(cells, rows, c))
}

/// The sum of the unmarked numbers.
pub open spec fn spec_score(cells: Seq<Cell>) -> int
    decreases cells.len(),
{
    if cells.len() == 0 {
        0
    } else {
        spec_score(cells.drop_last()) + match cells.last() {
            Cell::Unmarked(v) => v as int,
            Cell::Marked(v) => 0,
        }
    }
}

proof fn lemma_score_bound(cells: Seq<Cell>)
    ensures
        0 <= spec_score(cells) <= cells.len() * (u32::MAX as int),
    decreases cells.len(),
{
    if cells.len() == 0 {
    } else {
        lemma_score_bound(cells.drop_last());
        assert((cells.len() - 1) * (u32::MAX as int) + u32::MAX == cells.len() * (
        u32::MAX as int)) by (nonlinear_arith);
    }
}

/// A square bingo board.
#[derive(Debug)]
pub struct Board {
    cells: Vec<Cell>,
    rows: usize,
}

/// A board that has won, remembering only its score.
#[derive(Debug)]
pub struct WinBoard {
    score: u64,
}

impl WinBoard {
    /// The sum of the unmarked numbers at the moment the board won.
    pub fn score(&self) -> (r: u64)
        ensures
            r == self.score_spec(),
    {
        self.score
    }

    /// The score the winning board ended with.
    pub closed spec fn score_spec(&self) -> u64 {
        self.score
    }
}

/// The board after drawing `n`, or its final score if the draw made it win.
pub enum Drawn {
    Again(Board),
    Won(WinBoard),
}

impl Board {
    /// The cells of the board, in storage order.
    pub closed spec fn cells_spec(&self) -> Seq<Cell> {
        self.cells@
    }

    /// The side length of the board.
    pub closed spec fn rows_spec(&self) -> int {
        self.rows as int
    }

    /// A square board small enough for its score to fit in 64 bits.
    pub open spec fn wf(&self) -> bool {
        &&& self.cells_spec().len() == self.rows_spec() * self.rows_spec()
        &&& self.rows_spec() <= 0xffff
    }

    /// Check whether every cell of one row line is marked.
    fn row_all_marked(&self, line: usize) -> (r: bool)
        requires
            self.wf(),
            line < self.rows_spec(),
        ensures
            r == spec_row_marked(self.cells_spec(), self.rows_spec(), line as int),
    {
        let mut k: usize = 0;
        while k < self.rows
            invariant
                self.wf(),
                line < self.rows_spec(),
                0 <= k <= self.rows_spec(),
                forall|j: int| 0 <= j < k ==> (#[trigger] self.cells_spec()[j * self.rows_spec()
                    + line]) is Marked,
            decreases self.rows_spec() - k,
        {
            proof {
                assert(0 <= k * self.rows_spec() + line < self.rows_spec() * self.rows_spec())
                    by (nonlinear_arith)
                    requires
                        0 <= k < self.rows_spec(),
                        0 <= line < self.rows_spec(),
                ;
                assert(k * self.rows_spec() + line <= usize::MAX) by (nonlinear_arith)
                    requires
                        0 <= k < self.rows_spec(),
                        0 <= line < self.rows_spec(),
                        self.rows_spec() <= 0xffff,
                ;
            }
            if !self.cells[k * self.rows + line].is_marked() {
                return false;
            }
            k = k + 1;
        }
        true
    }

    /// Check whether every cell of one column block is marked.
    fn col_all_marked(&self, line: usize) -> (r: bool)
        requires
            self.wf(),
            line < self.rows_spec(),
        ensures
            r == spec_col_marked(self.cells_spec(), self.rows_spec(), line as int),
    {
        let mut k: usize = 0;
        while k < self.rows
            invariant
                self.wf(),
                line < self.rows_spec(),
                0 <= k <= self.rows_spec(),
                forall|j: int| 0 <= j < k ==> (#[trigger] self.cells_spec()[line * self.rows_spec()
                    + j]) is Marked,
            decreases self.rows_spec() - k,
        {
            proof {
                assert(0 <= line * self.rows_spec() + k < self.rows_spec() * self.rows_spec())
                    by (nonlinear_arith)
                    requires
                        0 <= k < self.rows_spec(),
                        0 <= line < self.rows_spec(),
                ;
                assert(line * self.rows_spec() + k <= usize::MAX) by (nonlinear_arith)
                    requires
                        0 <= k < self.rows_spec(),
                        0 <= line < self.rows_spec(),
                        self.rows_spec() <= 0xffff,
                ;
            }
            if !self.cells[self.rows * line + k].is_marked() {
                proof {
                    assert(self.rows_spec() * line == line * self.rows_spec())
                        by (nonlinear_arith);
                }
                return false;
            }
            k = k + 1;
        }
        true
    }

    /// Draw the number `n`: mark its first occurrence, then report a win
    /// with the board's score, or the board itself to play again.
    pub fn draw(self, n: u32) -> (r: Drawn)
        requires
            self.wf(),
        ensures
            ({
                let marked = spec_mark_first(self.cells_spec(), n);
                match r {
                    Drawn::Won(w) => spec_won(marked, self.rows_spec()) && w.score_spec() as int
                        == spec_score(marked),
                    Drawn::Again(b) => !spec_won(marked, self.rows_spec()) && b.wf()
                        && b.cells_spec() == marked && b.rows_spec() == self.rows_spec(),
                }
            }),
    {
        let mut board = self;
        let ghost orig = board.cells@;
        let ghost rows0 = board.rows_spec();
        proof {
            lemma_first_with_value(orig, n);
        }
        let mut i: usize = 0;
        let mut found = false;
        while i < board.cells.len() && !found
            invariant
                board.wf(),
                board.rows_spec() == rows0,
                0 <= i <= orig.len(),
                !found ==> board.cells@ == orig && forall|j: int|
                    0 <= j < i ==> spec_cell_value(#[trigger] orig[j]) != n,
                found ==> board.cells@ == spec_mark_first(orig, n),
            decreases orig.len() - i + (if found { 0int } else { 1int }),
        {
            if board.cells[i].value() == n {
                proof {
                    assert(first_with_value(orig, n) == i) by {
                        lemma_first_with_value_at(orig, n, i as int);
                    }
                }
                let mut cell = board.cells[i];
                cell.mark();
                board.cells.set(i, cell);
                found = true;
            } else {
                i = i + 1;
            }
        }
        proof {
            if !found {
                assert(board.cells@ =~= spec_mark_first(orig, n));
            }
        }
        let marked = board;
        let ghost mcells = marked.cells@;
        let rows = marked.rows;
        let mut won = false;
        let mut r: usize = 0;
        while r < rows && !won
            invariant
                marked.wf(),
                rows == marked.rows_spec(),
                mcells == marked.cells_spec(),
                0 <= r <= rows,
                !won ==> forall|j: int|
                    0 <= j < r ==> !spec_row_marked(mcells, rows as int, j),
                won ==> spec_won(mcells, rows as int),
            decreases rows - r + (if won { 0int } else { 1int }),
        {
            if marked.row_all_marked(r) {
                won = true;
            } else {
                r = r + 1;
            }
        }
        if !won {
            let mut c: usize = 0;
            while c < rows && !won
                invariant
                    marked.wf(),
                    rows == marked.rows_spec(),
                    mcells == marked.cells_spec(),
                    0 <= c <= rows,
                    forall|j: int| 0 <= j < rows ==> !spec_row_marked(mcells, rows as int, j),
                    !won ==> forall|j: int|
                        0 <= j < c ==> !spec_col_marked(mcells, rows as int, j),
                    won ==> spec_won(mcells, rows as int),
                decreases rows - c + (if won { 0int } else { 1int }),
            {
                if marked.col_all_marked(c) {
                    won = true;
                } else {
                    c = c + 1;
                }
            }
        }
        if won {
            let score = marked.sum_unmarked();
            Drawn::Won(WinBoard { score })
        } else {
            proof {
                assert(!spec_won(mcells, rows as int));
            }
            Drawn::Again(marked)
        }
    }

    /// The sum of the unmarked numbers on the board.
    pub fn sum_unmarked(&self) -> (r: u64)
        requires
            self.wf(),
        ensures
            r as int == spec_score(self.cells_spec()),
    {
        let ghost cells = self.cells@;
        proof {
            assert(self.rows_spec() * self.rows_spec() <= 0xffff * 0xffff) by (nonlinear_arith)
                requires
                    0 <= self.rows_spec() <= 0xffff,
            ;
            lemma_score_bound(cells);
            assert(cells.len() * (u32::MAX as int) <= 0xffff * 0xffff * (u32::MAX as int))
                by (nonlinear_arith)
                requires
                    cells.len() <= 0xffff * 0xffff,
            ;
        }
        let mut total: u64 = 0;
        let mut i: usize = 0;
        proof {
            assert(cells.take(0) =~= Seq::<Cell>::empty());
        }
        while i < self.cells.len()
            invariant
                cells == self.cells@,
                cells.len() <= 0xffff * 0xffff,
                0 <= i <= cells.len(),
                total as int == spec_score(cells.take(i as int)),
            decreases cells.len() - i,
        {
            proof {
                assert(cells.take(i as int + 1).drop_last() =~= cells.take(i as int));
                assert(cells.take(i as int + 1).last() == cells[i as int]);
                lemma_score_bound(cells.take(i as int));
                assert(cells.take(i as int).len() * (u32::MAX as int) + u32::MAX < u64::MAX)
                    by (nonlinear_arith)
                    requires
                        0 <= cells.take(i as int).len() <= 0xffff * 0xffff,
                ;
            }
            match self.cells[i] {
                Cell::Unmarked(v) => {
                    total = total + (v as u64);
                },
                Cell::Marked(v) => {},
            }
            i = i + 1;
        }
        proof {
            assert(cells.take(cells.len() as int) =~= cells);
        }
        total
    }
}

/// The first index carrying `n` is wherever `n` stands with no earlier
/// occurrence.
proof fn lemma_first_with_value_at(cells: Seq<Cell>, n: u32, k: int)
    requires
        0 <= k < cells.len(),
        spec_cell_value(cells[k]) == n,
        forall|j: int| 0 <= j < k ==> spec_cell_value(#[trigger] cells[j]) != n,
    ensures
        first_with_value(cells, n) == k,
    decreases cells.len(),
{
    if k > 0 {
        assert forall|j: int| 0 <= j < k - 1 implies spec_cell_value(
            #[trigger] cells.drop_first()[j],
        ) != n by {
            assert(cells.drop_first()[j] == cells[j + 1]);
        }
        lemma_first_with_value_at(cells.drop_first(), n, k - 1);
    }
}

/// What one row of digits denotes: every space-separated piece read as a
/// 32-bit number, empty pieces skipped.
pub open spec fn spec_parse_row(s: Seq<u8>) -> Option<Seq<Cell>> {
    let parts = spec_split(s, 0x20).filter(|p: Seq<u8>| p.len() > 0);
    if forall|i: int|
        0 <= i < parts.len() ==> ((#[trigger] spec_parse_u64(parts[i])) matches Some(v) && v
            <= u32::MAX) {
        Some(Seq::new(parts.len(), |i: int| Cell::Unmarked(spec_parse_u64(parts[i])->0 as u32)))
    } else {
        None
    }
}

/// Parse one board row: space-separated numbers become unmarked cells.
pub fn parse_row(s: &[u8]) -> (r: Option<Vec<Cell>>)
    ensures
        match r {
            Some(v) => spec_parse_row(s@) == Some(v@),
            None => spec_parse_row(s@) is None,
        },
{
    let parts = parse::split_bytes(s, 0x20);
    let ghost pm = spec_split(s@, 0x20);
    let ghost fm = pm.filter(|p: Seq<u8>| p.len() > 0);
    let mut cells: Vec<Cell> = Vec::new();
    let mut i: usize = 0;
    proof {
        assert(pm.take(0) =~= Seq::<Seq<u8>>::empty());
        reveal(Seq::filter);
        assert(pm.take(0).filter(|p: Seq<u8>| p.len() > 0) =~= Seq::<Seq<u8>>::empty());
    }
    while i < parts.len()
        invariant
            pm == spec_split(s@, 0x20),
            pm == parts@.map_values(|v: Vec<u8>| v@),
            pm.len() == parts@.len(),
            fm == pm.filter(|p: Seq<u8>| p.len() > 0),
            0 <= i <= parts@.len(),
            cells@.len() == pm.take(i as int).filter(|p: Seq<u8>| p.len() > 0).len(),
            forall|j: int|
                0 <= j < pm.take(i as int).filter(|p: Seq<u8>| p.len() > 0).len() ==> ((
                spec_parse_u64(
                    pm.take(i as int).filter(|p: Seq<u8>| p.len() > 0)[j],
                )) matches Some(v) && v <= u32::MAX && #[trigger] cells@[j] == Cell::Unmarked(
                    spec_parse_u64(pm.take(i as int).filter(|p: Seq<u8>| p.len() > 0)[j])->0
                        as u32,
                )),
        decreases parts@.len() - i,
    {
        proof {
            reveal(Seq::filter);
            assert(pm.take(i as int + 1).drop_last() =~= pm.take(i as int));
            assert(pm.take(i as int + 1).last() == pm[i as int]);
            assert(pm[i as int] == parts@.map_values(|v: Vec<u8>| v@)[i as int]);
        }
        if parts[i].len() > 0 {
            let v = match parse::parse_u64(parts[i].as_slice()) {
                None => {
                    proof {
                        lemma_filter_member(pm, |p: Seq<u8>| p.len() > 0, i as int);
                        let j = choose|j: int|
                            0 <= j < fm.len() && fm[j] == pm[i as int];
                        assert(spec_parse_u64(fm[j]) is None);
                    }
                    return None;
                },
                Some(v) => v,
            };
            if v > u32::MAX as u64 {
                proof {
                    lemma_filter_member(pm, |p: Seq<u8>| p.len() > 0, i as int);
                    let j = choose|j: int| 0 <= j < fm.len() && fm[j] == pm[i as int];
                    assert(spec_parse_u64(fm[j])->0 > u32::MAX);
                }
                return None;
            }
            cells.push(Cell::Unmarked(v as u32));
        }
        i = i + 1;
    }
    proof {
        assert(pm.take(pm.len() as int) =~= pm);
        assert forall|j: int| 0 <= j < fm.len() implies ((#[trigger] spec_parse_u64(fm[j]))
            matches Some(v) && v <= u32::MAX) by {
            assert(cells@[j] == Cell::Unmarked(spec_parse_u64(fm[j])->0 as u32));
        }
        if forall|j: int|
            0 <= j < fm.len() ==> ((#[trigger] spec_parse_u64(fm[j])) matches Some(v) && v
                <= u32::MAX) {
            assert(cells@ =~= Seq::new(
                fm.len(),
                |j: int| Cell::Unmarked(spec_parse_u64(fm[j])->0 as u32),
            ));
        }
    }
    Some(cells)
}

/// Assemble a board from its cells in storage order.
///
/// Fails when the cell count is not the square of `rows` or the board is
/// too large for its score to fit in 64 bits.
pub fn board_from_cells(cells: Vec<Cell>, rows: usize) -> (r: Option<Board>)
    ensures
        match r {
            Some(b) => {
                &&& rows <= 0xffff
                &&& cells@.len() == rows * rows
                &&& b.wf()
                &&& b.cells_spec() == cells@
                &&& b.rows_spec() == rows
            },
            None => rows > 0xffff || cells@.len() != rows * rows,
        },
{
    if rows > 0xffff {
        return None;
    }
    proof {
        assert(rows * rows <= 0xffff * 0xffff) by (nonlinear_arith)
            requires
                0 <= rows <= 0xffff,
        ;
    }
    if cells.len() != rows * rows {
        return None;
    }
    Some(Board { cells, rows })
}


/// One board's model: its cells and side length.
pub struct BoardModel {
    pub cells: Seq<Cell>,
    pub rows: int,
}

/// One draw applied to a list of boards: every board marks the number, the
/// winners leave with their score times the draw, and the rest stay.
pub open spec fn spec_round(boards: Seq<BoardModel>, n: u32) -> (Seq<BoardModel>, Seq<int>)
    decreases boards.len(),
{
    if boards.len() == 0 {
        (Seq::empty(), Seq::empty())
    } else {
        let (rest, scores) = spec_round(boards.drop_first(), n);
        let b = boards.first();
        let marked = spec_mark_first(b.cells, n);
        if spec_won(marked, b.rows) {
            (rest, seq![spec_score(marked) * n] + scores)
        } else {
            (seq![BoardModel { cells: marked, rows: b.rows }] + rest, scores)
        }
    }
}

/// The winning scores, in order, of playing every draw over the boards.
pub open spec fn spec_play(boards: Seq<BoardModel>, draws: Seq<u32>) -> Seq<int>
    decreases draws.len(),
{
    if draws.len() == 0 {
        Seq::empty()
    } else {
        let (rest, scores) = spec_round(boards, draws.first());
        scores + spec_play(rest, draws.drop_first())
    }
}

/// The models of a list of boards.
pub open spec fn boards_model(boards: Seq<Board>) -> Seq<BoardModel>
    decreases boards.len(),
{
    if boards.len() == 0 {
        Seq::empty()
    } else {
        seq![
            BoardModel { cells: boards.first().cells_spec(), rows: boards.first().rows_spec() },
        ] + boards_model(boards.drop_first())
    }
}

proof fn lemma_boards_model_push(boards: Seq<Board>, b: Board)
    ensures
        boards_model(boards.push(b)) == boards_model(boards) + seq![
            BoardModel { cells: b.cells_spec(), rows: b.rows_spec() },
        ],
    decreases boards.len(),
{
    if boards.len() == 0 {
        assert(boards.push(b).drop_first() =~= Seq::<Board>::empty());
        assert(boards_model(Seq::<Board>::empty()) =~= Seq::<BoardModel>::empty());
        assert(boards_model(boards.push(b)) =~= boards_model(boards) + seq![
            BoardModel { cells: b.cells_spec(), rows: b.rows_spec() },
        ]);
    } else {
        lemma_boards_model_push(boards.drop_first(), b);
        assert(boards.push(b).drop_first() =~= boards.drop_first().push(b));
        assert(boards_model(boards.push(b)) =~= boards_model(boards) + seq![
            BoardModel { cells: b.cells_spec(), rows: b.rows_spec() },
        ]);
    }
}

/// Every model in a board list is well formed.
pub open spec fn boards_wf(boards: Seq<Board>) -> bool {
    forall|i: int| 0 <= i < boards.len() ==> (#[trigger] boards[i]).wf()
}

/// Play every board through the drawn numbers; each board that wins leaves
/// the game with its score times the draw that won it, in draw order and,
/// within one draw, in board order.
#[verifier::loop_isolation(false)]
pub fn play(game: &Vec<u32>, boards: Vec<Board>) -> (r: Option<Vec<u64>>)
    requires
        boards_wf(boards@),
    ensures
        match r {
            Some(v) => v@.map_values(|x: u64| x as int) == spec_play(
                boards_model(boards@),
                game@,
            ),
            None => exists|i: int|
                0 <= i < spec_play(boards_model(boards@), game@).len() && #[trigger] spec_play(
                    boards_model(boards@),
                    game@,
                )[i] > u64::MAX,
        },
{
    let ghost orig_model = boards_model(boards@);
    let mut boards = boards;
    let mut scores: Vec<u64> = Vec::new();
    let mut g: usize = 0;
    proof {
        assert(game@.skip(0) =~= game@);
        assert(scores@.map_values(|x: u64| x as int) + spec_play(
            boards_model(boards@),
            game@.skip(0),
        ) =~= spec_play(orig_model, game@));
    }
    while g < game.len()
        invariant
            boards_wf(boards@),
            0 <= g <= game@.len(),
            spec_play(orig_model, game@) == scores@.map_values(|x: u64| x as int) + spec_play(
                boards_model(boards@),
                game@.skip(g as int),
            ),
        decreases game@.len() - g,
    {
        let draw = game[g];
        proof {
            assert(game@.skip(g as int).first() == game@[g as int]);
            assert(game@.skip(g as int).drop_first() =~= game@.skip(g as int + 1));
        }
        let ghost pre_model = boards_model(boards@);
        let ghost sc_full = spec_round(pre_model, draw).1;
        let mut remaining: Vec<Board> = Vec::new();
        let mut new_scores: Vec<u64> = Vec::new();
        proof {
            lemma_boards_model_len(boards@);
        }
        while boards.len() > 0
            invariant
                boards_wf(boards@),
                boards_wf(remaining@),
                0 <= g < game@.len(),
                draw == game@[g as int],
                sc_full == spec_round(pre_model, draw).1,
                spec_play(orig_model, game@) == scores@.map_values(|x: u64| x as int)
                    + spec_play(pre_model, game@.skip(g as int)),
                ({
                    let (rest, sc) = spec_round(boards_model(boards@), draw);
                    &&& boards_model(remaining@) + rest == spec_round(pre_model, draw).0
                    &&& new_scores@.map_values(|x: u64| x as int) + sc == sc_full
                }),
            decreases boards@.len(),
        {
            let ghost cur_model = boards_model(boards@);
            proof {
                lemma_boards_model_len(boards@);
                lemma_boards_model_index(boards@, 0);
                assert(cur_model.first() == (BoardModel {
                    cells: boards@[0].cells_spec(),
                    rows: boards@[0].rows_spec(),
                }));
                assert(boards@.remove(0) =~= boards@.drop_first());
                assert forall|j: int| 0 <= j < boards@.drop_first().len() implies (
                #[trigger] boards@.drop_first()[j]).wf() by {
                    assert(boards@.drop_first()[j] == boards@[j + 1]);
                }
                lemma_boards_model_drop_first(boards@);
            }
            let board = boards.remove(0);
            let ghost bm = BoardModel { cells: board.cells_spec(), rows: board.rows_spec() };
            let ghost marked = spec_mark_first(bm.cells, draw);
            match board.draw(draw) {
                Drawn::Again(b) => {
                    let ghost pre_rem = remaining@;
                    proof {
                        lemma_boards_model_push(pre_rem, b);
                    }
                    remaining.push(b);
                    proof {
                        let (rest, sc) = spec_round(boards_model(boards@), draw);
                        assert((boards_model(pre_rem) + seq![
                            BoardModel { cells: b.cells_spec(), rows: b.rows_spec() },
                        ]) + rest =~= boards_model(pre_rem) + (seq![
                            BoardModel { cells: b.cells_spec(), rows: b.rows_spec() },
                        ] + rest));
                        assert(spec_round(cur_model, draw).0 =~= seq![
                            BoardModel { cells: b.cells_spec(), rows: b.rows_spec() },
                        ] + spec_round(boards_model(boards@), draw).0);
                    }
                },
                Drawn::Won(w) => {
                    let ghost sc_pre = new_scores@;
                    let ghost product = spec_score(marked) * draw;
                    proof {
                        assert(spec_round(cur_model, draw).1 =~= seq![product] + spec_round(
                            boards_model(boards@),
                            draw,
                        ).1);
                        assert(sc_full[sc_pre.len() as int] == product);
                        lemma_score_times_draw(marked, draw, w.score_spec());
                    }
                    let total = match w.score().checked_mul(draw as u64) {
                        None => {
                            proof {
                                let idx = scores@.len() + sc_pre.len();
                                assert(game@.skip(g as int).first() == game@[g as int]);
                                assert(game@.skip(g as int).drop_first() =~= game@.skip(
                                    g as int + 1,
                                ));
                                assert(spec_play(pre_model, game@.skip(g as int)) == sc_full
                                    + spec_play(
                                    spec_round(pre_model, draw).0,
                                    game@.skip(g as int + 1),
                                ));
                                assert(spec_round(cur_model, draw).1.first() == product);
                                assert(sc_pre.len() < sc_full.len());
                                assert(spec_play(pre_model, game@.skip(g as int))[sc_pre.len() as int]
                                    == product);
                                assert(spec_play(orig_model, game@)[idx as int] == product);
                                assert(product > u64::MAX);
                            }
                            return None;
                        },
                        Some(t) => t,
                    };
                    new_scores.push(total);
                    proof {
                        let (rest, sc) = spec_round(boards_model(boards@), draw);
                        assert(new_scores@.map_values(|x: u64| x as int) =~= sc_pre.map_values(
                            |x: u64| x as int,
                        ).push(total as int));
                        assert((sc_pre.map_values(|x: u64| x as int).push(total as int)) + sc
                            =~= sc_pre.map_values(|x: u64| x as int) + (seq![product] + sc));
                    }
                },
            }
        }
        proof {
            assert(boards_model(boards@) =~= Seq::<BoardModel>::empty());
            let (rest0, sc0) = spec_round(boards_model(boards@), draw);
            assert(boards_model(remaining@) + rest0 =~= boards_model(remaining@));
            assert(new_scores@.map_values(|x: u64| x as int) + sc0 =~= new_scores@.map_values(
                |x: u64| x as int,
            ));
        }
        let ghost scores_pre = scores@;
        let mut k: usize = 0;
        let ghost new_len = new_scores@.len();
        while k < new_scores.len()
            invariant
                new_scores@.len() == new_len,
                0 <= k <= new_len,
                scores@ == scores_pre + new_scores@.take(k as int),
            decreases new_len - k,
        {
            proof {
                assert(new_scores@.take(k as int + 1) =~= new_scores@.take(k as int).push(
                    new_scores@[k as int],
                ));
                assert(scores_pre + new_scores@.take(k as int + 1) =~= (scores_pre
                    + new_scores@.take(k as int)).push(new_scores@[k as int]));
            }
            scores.push(new_scores[k]);
            k = k + 1;
        }
        boards = remaining;
        proof {
            assert(new_scores@.take(new_len as int) =~= new_scores@);
            assert(scores@.map_values(|x: u64| x as int) =~= scores_pre.map_values(
                |x: u64| x as int,
            ) + new_scores@.map_values(|x: u64| x as int));
            assert((scores_pre.map_values(|x: u64| x as int) + new_scores@.map_values(
                |x: u64| x as int,
            )) + spec_play(boards_model(boards@), game@.skip(g as int + 1))
                =~= scores_pre.map_values(|x: u64| x as int) + (new_scores@.map_values(
                |x: u64| x as int,
            ) + spec_play(boards_model(boards@), game@.skip(g as int + 1))));
        }
        g = g + 1;
    }
    proof {
        assert(game@.skip(game@.len() as int) =~= Seq::<u32>::empty());
        assert(scores@.map_values(|x: u64| x as int) + Seq::<int>::empty()
            =~= scores@.map_values(|x: u64| x as int));
    }
    Some(scores)
}

/// Dropping the first board drops the first model.
proof fn lemma_boards_model_drop_first(boards: Seq<Board>)
    requires
        boards.len() > 0,
    ensures
        boards_model(boards.drop_first()) == boards_model(boards).drop_first(),
{
    assert(boards_model(boards).drop_first() =~= boards_model(boards.drop_first()));
}

/// The winning score times the draw, as the exec code computes it.
proof fn lemma_score_times_draw(marked: Seq<Cell>, draw: u32, score: u64)
    requires
        score as int == spec_score(marked),
    ensures
        score as int * draw as int == spec_score(marked) * draw,
{
}

proof fn lemma_boards_model_len(boards: Seq<Board>)
    ensures
        boards_model(boards).len() == boards.len(),
    decreases boards.len(),
{
    if boards.len() > 0 {
        lemma_boards_model_len(boards.drop_first());
    }
}

proof fn lemma_boards_model_index(boards: Seq<Board>, i: int)
    requires
        0 <= i < boards.len(),
    ensures
        boards_model(boards).len() == boards.len(),
        boards_model(boards)[i] == (BoardModel {
            cells: boards[i].cells_spec(),
            rows: boards[i].rows_spec(),
        }),
    decreases boards.len(),
{
    lemma_boards_model_len(boards);
    if i > 0 {
        lemma_boards_model_index(boards.drop_first(), i - 1);
    }
}

/// A kept element of a filtered prefix is an element of the whole filtered
/// sequence.
proof fn lemma_filter_member(pm: Seq<Seq<u8>>, pred: spec_fn(Seq<u8>) -> bool, i: int)
    requires
        0 <= i < pm.len(),
        pred(pm[i]),
    ensures
        pm.filter(pred).contains(pm[i]),
{
    pm.filter_lemma(pred);
}

} // verus!
