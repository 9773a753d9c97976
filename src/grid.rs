//! A fixed-size rectangle of cells with unique start and finish markers.
use vstd::prelude::*;

use crate::cell::{Cell, CellKind};
use crate::error::PathError;
use crate::heuristic::{abs_diff, max_of};

verus! {

/// Two cells touch: they differ, and by at most one in each coordinate.
pub open spec fn adjacent(ax: int, ay: int, bx: int, by: int) -> bool {
    max_of(abs_diff(ax, bx), abs_diff(ay, by)) == 1
}

/// `p` comes before `q` when reading the grid row by row.
pub open spec fn row_major_before(p: (u32, u32), q: (u32, u32)) -> bool {
    p.1 < q.1 || (p.1 == q.1 && p.0 < q.0)
}

/// How many of the values `v - 1`, `v`, `v + 1` lie in `0..n`, for `v` in `0..n`.
pub open spec fn span(v: int, n: int) -> int {
    (if v > 0 { 1int } else { 0int }) + 1 + (if v + 1 < n { 1int } else { 0int })
}

/// Number of in-grid neighbours of a cell.
pub open spec fn neighbor_count(x: int, y: int, cols: int, rows: int) -> int {
    span(x, cols) * span(y, rows) - 1
}

/// Kind that a cell other than the edited one has after an edit that wrote `kind`:
/// writing a marker turns the cell that held it before back into open ground.
pub open spec fn kind_after_edit(before: CellKind, kind: CellKind) -> CellKind {
    if (kind == CellKind::Start || kind == CellKind::Finish) && before == kind {
        CellKind::Normal
    } else {
        before
    }
}

/// Marker position after an edit of `(x, y)` that wrote `kind`, for marker kind `m`:
/// only writing the marker itself moves it.
pub open spec fn marker_after_edit(
    before: Option<(u32, u32)>,
    m: CellKind,
    x: u32,
    y: u32,
    kind: CellKind,
) -> Option<(u32, u32)> {
    if kind == m {
        Some((x, y))
    } else {
        before
    }
}

/// One for a true condition, zero for a false one.
spec fn ind(b: bool) -> int {
    if b { 1 } else { 0 }
}

/// The neighbour count is the number of the eight offsets that stay in the grid.
proof fn lemma_neighbor_count(x: int, y: int, cols: int, rows: int)
    requires
        0 <= x < cols,
        0 <= y < rows,
    ensures
        neighbor_count(x, y, cols, rows) == ind(x > 0 && y > 0) + ind(y > 0) + ind(x + 1 < cols
            && y > 0) + ind(x > 0) + ind(x + 1 < cols) + ind(x > 0 && y + 1 < rows) + ind(y + 1
            < rows) + ind(x + 1 < cols && y + 1 < rows),
{
    if x > 0 {
        if x + 1 < cols {
            assert(span(x, cols) == 3);
        } else {
            assert(span(x, cols) == 2);
        }
    } else {
        if x + 1 < cols {
            assert(span(x, cols) == 2);
        } else {
            assert(span(x, cols) == 1);
        }
    }
    if y > 0 {
        if y + 1 < rows {
            assert(span(y, rows) == 3);
        } else {
            assert(span(y, rows) == 2);
        }
    } else {
        if y + 1 < rows {
            assert(span(y, rows) == 2);
        } else {
            assert(span(y, rows) == 1);
        }
    }
}

/// Row-by-row positions of in-grid cells lie in `0..rows * cols`.
proof fn lemma_index_in_range(cols: int, rows: int, x: int, y: int)
    requires
        0 <= x < cols,
        0 <= y < rows,
    ensures
        0 <= y * cols + x < rows * cols,
{
    assert(0 <= y * cols) by (nonlinear_arith)
        requires
            0 <= y,
            0 <= cols,
    ;
    assert(y * cols + x < rows * cols) by (nonlinear_arith)
        requires
            0 <= x < cols,
            0 <= y < rows,
    ;
}

/// Distinct in-grid cells have distinct row-by-row positions.
proof fn lemma_index_unique(cols: int, x: int, y: int, a: int, b: int)
    requires
        0 <= x < cols,
        0 <= a < cols,
        0 <= y,
        0 <= b,
        y * cols + x == b * cols + a,
    ensures
        x == a,
        y == b,
{
    if y < b {
        assert(y * cols + cols <= b * cols) by (nonlinear_arith)
            requires
                y < b,
                0 <= cols,
        ;
    } else if b < y {
        assert(b * cols + cols <= y * cols) by (nonlinear_arith)
            requires
                b < y,
                0 <= cols,
        ;
    }
}

/// A rectangle of `rows × cols` cells, row `y` and column `x` counted from zero.
pub struct Grid {
    kinds: Vec<CellKind>,
    row_count: u32,
    col_count: u32,
    start_cell: Option<(u32, u32)>,
    finish_cell: Option<(u32, u32)>,
}

impl Grid {
    pub closed spec fn rows(&self) -> int {
        self.row_count as int
    }

    pub closed spec fn cols(&self) -> int {
        self.col_count as int
    }

    /// Kind of the cell in column `x`, row `y`.
    pub closed spec fn kind_at(&self, x: int, y: int) -> CellKind {
        self.kinds@[y * self.col_count + x]
    }

    pub closed spec fn start_marker(&self) -> Option<(u32, u32)> {
        self.start_cell
    }

    pub closed spec fn finish_marker(&self) -> Option<(u32, u32)> {
        self.finish_cell
    }

    pub closed spec fn storage_ok(&self) -> bool {
        self.kinds@.len() == self.row_count * self.col_count
    }

    pub open spec fn in_bounds(&self, x: int, y: int) -> bool {
        0 <= x < self.cols() && 0 <= y < self.rows()
    }

    /// Marker `m` is recorded at `at`, which lies in the grid; no other cell holds
    /// kind `m`. The recorded cell may since have been given another kind.
    pub open spec fn marker_ok(&self, m: CellKind, at: Option<(u32, u32)>) -> bool {
        &&& at matches Some(p) ==> self.in_bounds(p.0 as int, p.1 as int)
        &&& forall|x: u32, y: u32|
            #![trigger self.kind_at(x as int, y as int)]
            self.in_bounds(x as int, y as int) && self.kind_at(x as int, y as int) == m ==> at
                == Some((x, y))
    }

    pub open spec fn wf(&self) -> bool {
        &&& self.rows() >= 1
        &&& self.cols() >= 1
        &&& self.storage_ok()
        &&& self.marker_ok(CellKind::Start, self.start_marker())
        &&& self.marker_ok(CellKind::Finish, self.finish_marker())
    }

    /// What an edit of `(x, y)` writing `kind` leaves in `after`, from `self`.
    pub open spec fn edited(&self, after: &Grid, x: u32, y: u32, kind: CellKind) -> bool {
        &&& after.rows() == self.rows()
        &&& after.cols() == self.cols()
        &&& after.kind_at(x as int, y as int) == kind
        &&& forall|a: u32, b: u32|
            #![trigger after.kind_at(a as int, b as int)]
            self.in_bounds(a as int, b as int) && (a != x || b != y) ==> after.kind_at(
                a as int,
                b as int,
            ) == kind_after_edit(self.kind_at(a as int, b as int), kind)
        &&& after.start_marker() == marker_after_edit(
            self.start_marker(),
            CellKind::Start,
            x,
            y,
            kind,
        )
        &&& after.finish_marker() == marker_after_edit(
            self.finish_marker(),
            CellKind::Finish,
            x,
            y,
            kind,
        )
    }

    /// What every edit of `(x, y)` to `kind` promises: out of range it fails and
    /// changes nothing, in range it succeeds.
    pub open spec fn edit_post(
        &self,
        after: &Grid,
        x: u32,
        y: u32,
        kind: CellKind,
        r: Result<(), PathError>,
    ) -> bool {
        &&& after.wf()
        &&& !self.in_bounds(x as int, y as int) ==> r == Err::<(), PathError>(
            PathError::OutOfBounds,
        ) && after == self
        &&& self.in_bounds(x as int, y as int) ==> r is Ok && self.edited(after, x, y, kind)
    }

    /// A grid of `r` rows and `c` columns, all open ground, with no markers.
    pub fn new(r: u32, c: u32) -> (res: Result<Grid, PathError>)
        ensures
            r == 0 || c == 0 <==> res == Err::<Grid, PathError>(PathError::InvalidDimension),
            res is Ok <==> r >= 1 && c >= 1,
            res matches Ok(g) ==> {
                &&& g.wf()
                &&& g.rows() == r
                &&& g.cols() == c
                &&& g.start_marker() is None
                &&& g.finish_marker() is None
                &&& forall|x: int, y: int|
                    #![trigger g.kind_at(x, y)]
                    g.in_bounds(x, y) ==> g.kind_at(x, y) == CellKind::Normal
            },
    {
        if r == 0 || c == 0 {
            return Err(PathError::InvalidDimension);
        }
        let mut kinds: Vec<CellKind> = Vec::new();
        let mut i: u32 = 0;
        while i < r
            invariant
                0 <= i <= r,
                kinds@.len() == i * c,
                forall|k: int| 0 <= k < kinds@.len() ==> kinds@[k] == CellKind::Normal,
            decreases r - i,
        {
            let mut j: u32 = 0;
            while j < c
                invariant
                    0 <= i < r,
                    0 <= j <= c,
                    kinds@.len() == i * c + j,
                    forall|k: int| 0 <= k < kinds@.len() ==> kinds@[k] == CellKind::Normal,
                decreases c - j,
            {
                kinds.push(CellKind::Normal);
                j = j + 1;
            }
            assert((i + 1) * c == i * c + c) by (nonlinear_arith);
            i = i + 1;
        }
        let g = Grid { kinds, row_count: r, col_count: c, start_cell: None, finish_cell: None };
        assert forall|x: u32, y: u32| #![trigger g.kind_at(x as int, y as int)]
            g.in_bounds(x as int, y as int) implies g.kind_at(x as int, y as int)
            == CellKind::Normal by {
            lemma_index_in_range(c as int, r as int, x as int, y as int);
        }
        assert forall|x: int, y: int| #![trigger g.kind_at(x, y)]
            g.in_bounds(x, y) implies g.kind_at(x, y) == CellKind::Normal by {
            lemma_index_in_range(c as int, r as int, x, y);
        }
        Ok(g)
    }

    /// Number of rows.
    pub fn row_count(&self) -> (r: u32)
        ensures
            r == self.rows(),
    {
        self.row_count
    }

    /// Number of columns.
    pub fn col_count(&self) -> (r: u32)
        ensures
            r == self.cols(),
    {
        self.col_count
    }

    /// The start marker's position, if one is set.
    pub fn start_cell(&self) -> (r: Option<(u32, u32)>)
        ensures
            r == self.start_marker(),
    {
        self.start_cell
    }

    /// The finish marker's position, if one is set.
    pub fn finish_cell(&self) -> (r: Option<(u32, u32)>)
        ensures
            r == self.finish_marker(),
    {
        self.finish_cell
    }

    fn check_cell(&self, x: u32, y: u32) -> (r: Result<(), PathError>)
        ensures
            r is Ok <==> self.in_bounds(x as int, y as int),
            r is Err ==> r == Err::<(), PathError>(PathError::OutOfBounds),
    {
        if y >= self.row_count {
            return Err(PathError::OutOfBounds);
        }
        if x >= self.col_count {
            return Err(PathError::OutOfBounds);
        }
        Ok(())
    }

    pub(crate) fn index(&self, x: u32, y: u32) -> (i: usize)
        requires
            self.storage_ok(),
            self.in_bounds(x as int, y as int),
        ensures
            i == self.slot(x as int, y as int),
            i < self.rows() * self.cols(),
    {
        let n = self.kinds.len();
        proof {
            lemma_index_in_range(self.cols(), self.rows(), x as int, y as int);
            assert(0 <= y * self.cols() <= y * self.cols() + x);
            assert(y * self.cols() + x < n);
        }
        (y as usize) * (self.col_count as usize) + (x as usize)
    }

    /// Kind of an in-range cell.
    pub(crate) fn kind(&self, x: u32, y: u32) -> (k: CellKind)
        requires
            self.wf(),
            self.in_bounds(x as int, y as int),
        ensures
            k == self.kind_at(x as int, y as int),
    {
        let i = self.index(x, y);
        proof {
            lemma_index_in_range(self.cols(), self.rows(), x as int, y as int);
        }
        self.kinds[i]
    }

    /// Position of the cell `(x, y)` in row-by-row order.
    pub open spec fn slot(&self, x: int, y: int) -> int {
        y * self.cols() + x
    }

    /// Distinct in-grid cells have distinct positions in `0..rows * cols`.
    pub proof fn lemma_slots(&self)
        requires
            self.wf(),
        ensures
            forall|x: int, y: int|
                #![trigger self.slot(x, y)]
                self.in_bounds(x, y) ==> 0 <= self.slot(x, y) < self.rows() * self.cols(),
            forall|x: int, y: int, a: int, b: int|
                #![trigger self.slot(x, y), self.slot(a, b)]
                self.in_bounds(x, y) && self.in_bounds(a, b) && self.slot(x, y) == self.slot(a, b)
                    ==> x == a && y == b,
    {
        assert forall|x: int, y: int|
            #![trigger self.slot(x, y)]
            self.in_bounds(x, y) implies 0 <= self.slot(x, y) < self.rows() * self.cols() by {
            lemma_index_in_range(self.cols(), self.rows(), x, y);
        }
        assert forall|x: int, y: int, a: int, b: int|
            #![trigger self.slot(x, y), self.slot(a, b)]
            self.in_bounds(x, y) && self.in_bounds(a, b) && self.slot(x, y) == self.slot(a, b)
                implies x == a && y == b by {
            lemma_index_unique(self.cols(), x, y, a, b);
        }
    }

    /// Number of cells.
    pub(crate) fn cell_count(&self) -> (n: usize)
        requires
            self.wf(),
        ensures
            n == self.rows() * self.cols(),
    {
        self.kinds.len()
    }

    /// Storage after an edit of `(x, y)` writing `kind`.
    spec fn edited_kinds(&self, x: u32, y: u32, kind: CellKind) -> Seq<CellKind> {
        let k1 = if kind == CellKind::Start && self.start_cell is Some && self.kind_at(
            (self.start_cell->0).0 as int,
            (self.start_cell->0).1 as int,
        ) == CellKind::Start {
            self.kinds@.update(self.slot((self.start_cell->0).0 as int, (self.start_cell->0).1 as int), CellKind::Normal)
        } else {
            self.kinds@
        };
        let k2 = if kind == CellKind::Finish && self.finish_cell is Some && self.kind_at(
            (self.finish_cell->0).0 as int,
            (self.finish_cell->0).1 as int,
        ) == CellKind::Finish {
            k1.update(self.slot((self.finish_cell->0).0 as int, (self.finish_cell->0).1 as int), CellKind::Normal)
        } else {
            k1
        };
        k2.update(self.slot(x as int, y as int), kind)
    }

    proof fn lemma_edit(&self, after: Grid, x: u32, y: u32, kind: CellKind)
        requires
            self.wf(),
            self.in_bounds(x as int, y as int),
            after.row_count == self.row_count,
            after.col_count == self.col_count,
            after.kinds@ == self.edited_kinds(x, y, kind),
            after.start_cell == marker_after_edit(self.start_cell, CellKind::Start, x, y, kind),
            after.finish_cell == marker_after_edit(self.finish_cell, CellKind::Finish, x, y, kind),
        ensures
            self.edited(&after, x, y, kind),
            after.wf(),
    {
        let c = self.cols();
        lemma_index_in_range(c, self.rows(), x as int, y as int);
        if let Some(p) = self.start_cell {
            lemma_index_in_range(c, self.rows(), p.0 as int, p.1 as int);
        }
        if let Some(p) = self.finish_cell {
            lemma_index_in_range(c, self.rows(), p.0 as int, p.1 as int);
        }
        assert forall|a: u32, b: u32|
            #![trigger after.kind_at(a as int, b as int)]
            self.in_bounds(a as int, b as int) && (a != x || b != y) implies after.kind_at(
            a as int,
            b as int,
        ) == kind_after_edit(self.kind_at(a as int, b as int), kind) by {
            lemma_index_in_range(c, self.rows(), a as int, b as int);
            if b * c + a == y * c + x {
                lemma_index_unique(c, a as int, b as int, x as int, y as int);
            }
            if let Some(p) = self.start_cell {
                if b * c + a == p.1 * c + p.0 {
                    lemma_index_unique(c, a as int, b as int, p.0 as int, p.1 as int);
                }
            }
            if let Some(p) = self.finish_cell {
                if b * c + a == p.1 * c + p.0 {
                    lemma_index_unique(c, a as int, b as int, p.0 as int, p.1 as int);
                }
            }
        }
        assert(after.kinds@.len() == self.kinds@.len());
        assert(self.edited(&after, x, y, kind));
    }

    /// Writes `kind` into the cell in column `x`, row `y`. Writing a marker moves
    /// it: the cell that held it before, if it still does, becomes open ground.
    /// Writing any other kind leaves both recorded markers where they are.
    pub fn set_cell(&mut self, x: u32, y: u32, kind: CellKind) -> (r: Result<(), PathError>)
        requires
            old(self).wf(),
        ensures
            old(self).edit_post(final(self), x, y, kind, r),
    {
        let ghost before = *self;
        match self.check_cell(x, y) {
            Err(e) => {
                return Err(e);
            },
            Ok(()) => {},
        }
        let i = self.index(x, y);
        proof {
            lemma_index_in_range(self.cols(), self.rows(), x as int, y as int);
        }
        if kind == CellKind::Start {
            match self.start_cell {
                Some(p) => {
                    let j = self.index(p.0, p.1);
                    if self.kinds[j] == CellKind::Start {
                        self.kinds[j] = CellKind::Normal;
                    }
                },
                None => {},
            }
            self.start_cell = Some((x, y));
        }
        if kind == CellKind::Finish {
            match self.finish_cell {
                Some(p) => {
                    let j = self.index(p.0, p.1);
                    if self.kinds[j] == CellKind::Finish {
                        self.kinds[j] = CellKind::Normal;
                    }
                },
                None => {},
            }
            self.finish_cell = Some((x, y));
        }
        self.kinds[i] = kind;
        proof {
            assert(self.kinds@ == before.edited_kinds(x, y, kind));
            before.lemma_edit(*self, x, y, kind);
        }
        Ok(())
    }

    /// Makes the cell in column `x`, row `y` impassable.
    pub fn block(&mut self, x: u32, y: u32) -> (r: Result<(), PathError>)
        requires
            old(self).wf(),
        ensures
            old(self).edit_post(final(self), x, y, CellKind::Blocked, r),
    {
        self.set_cell(x, y, CellKind::Blocked)
    }

    /// Puts the start marker on the cell in column `x`, row `y`.
    pub fn set_start(&mut self, x: u32, y: u32) -> (r: Result<(), PathError>)
        requires
            old(self).wf(),
        ensures
            old(self).edit_post(final(self), x, y, CellKind::Start, r),
    {
        self.set_cell(x, y, CellKind::Start)
    }

    /// Puts the finish marker on the cell in column `x`, row `y`.
    pub fn set_finish(&mut self, x: u32, y: u32) -> (r: Result<(), PathError>)
        requires
            old(self).wf(),
        ensures
            old(self).edit_post(final(self), x, y, CellKind::Finish, r),
    {
        self.set_cell(x, y, CellKind::Finish)
    }

    /// The cell in column `x`, row `y`.
    pub fn get_cell(&self, x: u32, y: u32) -> (r: Result<Cell, PathError>)
        requires
            self.wf(),
        ensures
            self.in_bounds(x as int, y as int) ==> r == Ok::<Cell, PathError>(
                Cell { y, x, passable: self.kind_at(x as int, y as int) },
            ),
            !self.in_bounds(x as int, y as int) ==> r == Err::<Cell, PathError>(
                PathError::OutOfBounds,
            ),
    {
        match self.check_cell(x, y) {
            Ok(()) => Ok(Cell { y, x, passable: self.kind(x, y) }),
            Err(e) => Err(e),
        }
    }

    /// `s` lists, row by row and once each, exactly the in-grid cells adjacent to `(x, y)`.
    pub open spec fn is_neighbor_list(&self, x: u32, y: u32, s: Seq<(u32, u32)>) -> bool {
        &&& forall|k: int|
            0 <= k < s.len() ==> self.in_bounds(s[k].0 as int, s[k].1 as int) && adjacent(
                x as int,
                y as int,
                s[k].0 as int,
                s[k].1 as int,
            )
        &&& forall|a: u32, b: u32|
            self.in_bounds(a as int, b as int) && adjacent(x as int, y as int, a as int, b as int)
                ==> s.contains((a, b))
        &&& forall|i: int, j: int| 0 <= i < j < s.len() ==> row_major_before(s[i], s[j])
        &&& s.len() == neighbor_count(x as int, y as int, self.cols(), self.rows())
    }

    fn push_if_inside(&self, out: &mut Vec<(u32, u32)>, x: u32, y: u32, dx: i64, dy: i64)
        requires
            self.wf(),
            self.in_bounds(x as int, y as int),
            -1 <= dx <= 1,
            -1 <= dy <= 1,
        ensures
            final(out)@ == if self.in_bounds(x + dx, y + dy) {
                old(out)@.push(((x + dx) as u32, (y + dy) as u32))
            } else {
                old(out)@
            },
    {
        let nx: i64 = x as i64 + dx;
        let ny: i64 = y as i64 + dy;
        if 0 <= nx && nx < self.col_count as i64 && 0 <= ny && ny < self.row_count as i64 {
            out.push((nx as u32, ny as u32));
        }
    }

    /// The in-grid cells around `(x, y)`, read row by row. Each of the eight offsets
    /// is checked against the grid's edges before it is used.
    pub fn neighbors(&self, x: u32, y: u32) -> (r: Vec<(u32, u32)>)
        requires
            self.wf(),
            self.in_bounds(x as int, y as int),
        ensures
            self.is_neighbor_list(x, y, r@),
    {
        let mut out: Vec<(u32, u32)> = Vec::new();
        self.push_if_inside(&mut out, x, y, -1, -1);
        let ghost n0 = out@.len();
        self.push_if_inside(&mut out, x, y, 0, -1);
        let ghost n1 = out@.len();
        self.push_if_inside(&mut out, x, y, 1, -1);
        let ghost n2 = out@.len();
        self.push_if_inside(&mut out, x, y, -1, 0);
        let ghost n3 = out@.len();
        self.push_if_inside(&mut out, x, y, 1, 0);
        let ghost n4 = out@.len();
        self.push_if_inside(&mut out, x, y, -1, 1);
        let ghost n5 = out@.len();
        self.push_if_inside(&mut out, x, y, 0, 1);
        let ghost n6 = out@.len();
        self.push_if_inside(&mut out, x, y, 1, 1);
        let ghost n7 = out@.len();
        proof {
            let xi = x as int;
            let yi = y as int;
            if self.in_bounds(xi + -1, yi + -1) {
                assert(out@[n0 - 1] == ((xi + -1) as u32, (yi + -1) as u32));
            }
            if self.in_bounds(xi + 0, yi + -1) {
                assert(out@[n1 - 1] == ((xi + 0) as u32, (yi + -1) as u32));
            }
            if self.in_bounds(xi + 1, yi + -1) {
                assert(out@[n2 - 1] == ((xi + 1) as u32, (yi + -1) as u32));
            }
            if self.in_bounds(xi + -1, yi + 0) {
                assert(out@[n3 - 1] == ((xi + -1) as u32, (yi + 0) as u32));
            }
            if self.in_bounds(xi + 1, yi + 0) {
                assert(out@[n4 - 1] == ((xi + 1) as u32, (yi + 0) as u32));
            }
            if self.in_bounds(xi + -1, yi + 1) {
                assert(out@[n5 - 1] == ((xi + -1) as u32, (yi + 1) as u32));
            }
            if self.in_bounds(xi + 0, yi + 1) {
                assert(out@[n6 - 1] == ((xi + 0) as u32, (yi + 1) as u32));
            }
            if self.in_bounds(xi + 1, yi + 1) {
                assert(out@[n7 - 1] == ((xi + 1) as u32, (yi + 1) as u32));
            }
            assert forall|a: u32, b: u32|
                self.in_bounds(a as int, b as int) && adjacent(xi, yi, a as int, b as int)
                    implies out@.contains((a, b)) by {
                if a as int == xi + -1 && b as int == yi + -1 {
                    assert(out@[n0 - 1] == (a, b));
                }
                if a as int == xi + 0 && b as int == yi + -1 {
                    assert(out@[n1 - 1] == (a, b));
                }
                if a as int == xi + 1 && b as int == yi + -1 {
                    assert(out@[n2 - 1] == (a, b));
                }
                if a as int == xi + -1 && b as int == yi + 0 {
                    assert(out@[n3 - 1] == (a, b));
                }
                if a as int == xi + 1 && b as int == yi + 0 {
                    assert(out@[n4 - 1] == (a, b));
                }
                if a as int == xi + -1 && b as int == yi + 1 {
                    assert(out@[n5 - 1] == (a, b));
                }
                if a as int == xi + 0 && b as int == yi + 1 {
                    assert(out@[n6 - 1] == (a, b));
                }
                if a as int == xi + 1 && b as int == yi + 1 {
                    assert(out@[n7 - 1] == (a, b));
                }
            }
            lemma_neighbor_count(xi, yi, self.cols(), self.rows());
        }
        out
    }

    /// The in-grid cells around `cell`, read row by row.
    pub fn get_adjacent(&self, cell: &Cell) -> (r: Vec<Cell>)
        requires
            self.wf(),
            self.in_bounds(cell.x as int, cell.y as int),
        ensures
            self.is_neighbor_list(cell.x, cell.y, r@.map_values(|c: Cell| (c.x, c.y))),
            forall|k: int|
                0 <= k < r@.len() ==> r@[k].passable == self.kind_at(r@[k].x as int, r@[k].y as int),
    {
        let around = self.neighbors(cell.x, cell.y);
        let mut out: Vec<Cell> = Vec::new();
        let mut k: usize = 0;
        while k < around.len()
            invariant
                self.wf(),
                self.is_neighbor_list(cell.x, cell.y, around@),
                0 <= k <= around@.len(),
                out@.map_values(|c: Cell| (c.x, c.y)) == around@.subrange(0, k as int),
                forall|i: int|
                    0 <= i < out@.len() ==> out@[i].passable == self.kind_at(
                        out@[i].x as int,
                        out@[i].y as int,
                    ),
            decreases around@.len() - k,
        {
            let p = around[k];
            let kind = self.kind(p.0, p.1);
            out.push(Cell { y: p.1, x: p.0, passable: kind });
            proof {
                assert(around@.subrange(0, k + 1) == around@.subrange(0, k as int).push(p));
                assert(out@.map_values(|c: Cell| (c.x, c.y)) == around@.subrange(0, k as int).push(p));
            }
            k = k + 1;
        }
        proof {
            assert(around@.subrange(0, around@.len() as int) == around@);
        }
        out
    }
}

/// Every cell of a grid at least two cells wide and two cells high has between
/// three neighbours (in a corner) and eight (inside).
pub proof fn neighbor_count_bounds(grid: &Grid, x: u32, y: u32)
    requires
        grid.wf(),
        grid.in_bounds(x as int, y as int),
        grid.rows() >= 2,
        grid.cols() >= 2,
    ensures
        3 <= neighbor_count(x as int, y as int, grid.cols(), grid.rows()) <= 8,
{
    let sx = span(x as int, grid.cols());
    let sy = span(y as int, grid.rows());
    assert(2 <= sx <= 3 && 2 <= sy <= 3);
    assert(4 <= sx * sy <= 9) by (nonlinear_arith)
        requires
            2 <= sx <= 3,
            2 <= sy <= 3,
    ;
}

} // verus!
