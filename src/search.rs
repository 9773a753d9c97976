//! Best-first (A*) search for a route between two cells of a grid.
use vstd::prelude::*;
use vstd::set_lib::{lemma_int_range, lemma_len_subset, set_int_range};

use crate::cell::{cost_of, passable, CellKind};
use crate::error::PathError;
use crate::grid::{adjacent, row_major_before, Grid};
use crate::heuristic::{chebyshev, chebyshev_distance};

verus! {

/// A cell can begin or end a route: it lies in the grid and is not blocked.
pub open spec fn endpoint_ok(grid: &Grid, p: (u32, u32)) -> bool {
    grid.in_bounds(p.0 as int, p.1 as int) && passable(grid.kind_at(p.0 as int, p.1 as int))
}

/// `p` is a route from `s` to `f`: it begins at `s`, ends at `f`, enters no blocked
/// or outside cell, visits no cell twice, and each step moves to one of the eight
/// surrounding cells.
pub open spec fn is_path(grid: &Grid, p: Seq<(u32, u32)>, s: (u32, u32), f: (u32, u32)) -> bool {
    &&& p.len() >= 1
    &&& p[0] == s
    &&& p.last() == f
    &&& forall|k: int| 0 <= k < p.len() ==> #[trigger] endpoint_ok(grid, p[k])
    &&& forall|i: int, j: int| 0 <= i < j < p.len() ==> p[i] != p[j]
    &&& forall|k: int|
        0 <= k < p.len() - 1 ==> #[trigger] adjacent(
            p[k].0 as int,
            p[k].1 as int,
            p[k + 1].0 as int,
            p[k + 1].1 as int,
        )
}

pub open spec fn path_exists(grid: &Grid, s: (u32, u32), f: (u32, u32)) -> bool {
    exists|p: Seq<(u32, u32)>| is_path(grid, p, s, f)
}

/// Sum of the costs of the cells that a route steps onto (all but the first).
pub open spec fn path_cost(grid: &Grid, p: Seq<(u32, u32)>) -> int
    decreases p.len(),
{
    if p.len() <= 1 {
        0
    } else {
        path_cost(grid, p.drop_last()) + match cost_of(grid.kind_at(p.last().0 as int, p.last().1 as int)) {
            Some(c) => c as int,
            None => 0,
        }
    }
}

/// Where a cell stands in the search.
#[derive(Clone, Copy, PartialEq, Eq, Structural)]
enum Mark {
    Unseen,
    Open,
    Closed,
}

spec fn mark_at(grid: &Grid, mark: Seq<Mark>, x: int, y: int) -> Mark {
    mark[grid.slot(x, y)]
}

spec fn g_at(grid: &Grid, g: Seq<u128>, x: int, y: int) -> int {
    g[grid.slot(x, y)] as int
}

spec fn from_at(grid: &Grid, came: Seq<(u32, u32)>, x: int, y: int) -> (u32, u32) {
    came[grid.slot(x, y)]
}

spec fn step_cost(grid: &Grid, x: int, y: int) -> int {
    match cost_of(grid.kind_at(x, y)) {
        Some(c) => c as int,
        None => 0,
    }
}

/// Every in-grid passable neighbour of `(x, y)` has been seen.
spec fn expanded(grid: &Grid, mark: Seq<Mark>, x: int, y: int) -> bool {
    forall|c: u32, d: u32|
        grid.in_bounds(c as int, d as int) && adjacent(x, y, c as int, d as int) && passable(
            grid.kind_at(c as int, d as int),
        ) ==> #[trigger] mark_at(grid, mark, c as int, d as int) != Mark::Unseen
}

/// Every in-grid passable neighbour of `(x, y)` that is not closed costs at most
/// the cost of `(x, y)` plus the cost of entering it.
spec fn relaxed(grid: &Grid, mark: Seq<Mark>, g: Seq<u128>, x: int, y: int) -> bool {
    forall|c: u32, d: u32|
        grid.in_bounds(c as int, d as int) && adjacent(x, y, c as int, d as int) && passable(
            grid.kind_at(c as int, d as int),
        ) && #[trigger] mark_at(grid, mark, c as int, d as int) != Mark::Closed ==> g_at(
            grid,
            g,
            c as int,
            d as int,
        ) <= g_at(grid, g, x, y) + step_cost(grid, c as int, d as int)
}

/// No route from `s` to `(x, y)` costs less than the recorded cost of `(x, y)`.
spec fn cheapest(grid: &Grid, g: Seq<u128>, s: (u32, u32), x: u32, y: u32) -> bool {
    forall|q: Seq<(u32, u32)>|
        #[trigger] is_path(grid, q, s, (x, y)) ==> g_at(grid, g, x as int, y as int) <= path_cost(
            grid,
            q,
        )
}

/// A seen cell other than the start was reached from a closed neighbour, whose cost
/// so far plus the cost of entering the cell is the cell's cost so far.
spec fn well_linked(
    grid: &Grid,
    mark: Seq<Mark>,
    g: Seq<u128>,
    came: Seq<(u32, u32)>,
    s: (u32, u32),
    x: u32,
    y: u32,
) -> bool {
    let p = from_at(grid, came, x as int, y as int);
    &&& passable(grid.kind_at(x as int, y as int))
    &&& (x, y) != s ==> {
        &&& grid.in_bounds(p.0 as int, p.1 as int)
        &&& adjacent(p.0 as int, p.1 as int, x as int, y as int)
        &&& mark_at(grid, mark, p.0 as int, p.1 as int) == Mark::Closed
        &&& g_at(grid, g, x as int, y as int) == g_at(grid, g, p.0 as int, p.1 as int) + step_cost(
            grid,
            x as int,
            y as int,
        )
    }
}

/// What holds of the search state between expansions; `busy` is the cell being
/// expanded, which may still miss some neighbours.
#[verifier::opaque]
spec fn search_inv(
    grid: &Grid,
    mark: Seq<Mark>,
    g: Seq<u128>,
    came: Seq<(u32, u32)>,
    s: (u32, u32),
    f: (u32, u32),
    closed: Set<int>,
    busy: Option<(u32, u32)>,
) -> bool {
    let n = grid.rows() * grid.cols();
    &&& grid.wf()
    &&& mark.len() == n
    &&& g.len() == n
    &&& came.len() == n
    &&& endpoint_ok(grid, s)
    &&& endpoint_ok(grid, f)
    &&& s != f
    &&& mark_at(grid, mark, s.0 as int, s.1 as int) != Mark::Unseen
    &&& g_at(grid, g, s.0 as int, s.1 as int) == 0
    &&& mark_at(grid, mark, f.0 as int, f.1 as int) != Mark::Closed
    &&& closed == Set::new(|i: int| 0 <= i < n && mark[i] == Mark::Closed)
    &&& closed.finite()
    &&& closed.len() <= n
    &&& forall|i: int| 0 <= i < n ==> #[trigger] g[i] <= 6 * closed.len()
    &&& forall|x: u32, y: u32|
        grid.in_bounds(x as int, y as int) && #[trigger] mark_at(grid, mark, x as int, y as int)
            != Mark::Unseen ==> well_linked(grid, mark, g, came, s, x, y)
    &&& forall|x: u32, y: u32|
        grid.in_bounds(x as int, y as int) && #[trigger] mark_at(grid, mark, x as int, y as int)
            == Mark::Closed && busy != Some((x, y)) ==> expanded(grid, mark, x as int, y as int)
            && relaxed(grid, mark, g, x as int, y as int)
    &&& forall|x: u32, y: u32|
        grid.in_bounds(x as int, y as int) && #[trigger] mark_at(grid, mark, x as int, y as int)
            == Mark::Closed ==> cheapest(grid, g, s, x, y)
}

/// The plain facts that the search state carries: sizes, bounds and endpoints.
proof fn lemma_inv_basics(
    grid: &Grid,
    mark: Seq<Mark>,
    g: Seq<u128>,
    came: Seq<(u32, u32)>,
    s: (u32, u32),
    f: (u32, u32),
    closed: Set<int>,
    busy: Option<(u32, u32)>,
)
    requires
        search_inv(grid, mark, g, came, s, f, closed, busy),
    ensures
        grid.wf(),
        mark.len() == grid.rows() * grid.cols(),
        g.len() == grid.rows() * grid.cols(),
        came.len() == grid.rows() * grid.cols(),
        closed.len() <= grid.rows() * grid.cols(),
        forall|i: int| 0 <= i < g.len() ==> #[trigger] g[i] <= 6 * (grid.rows() * grid.cols()),
        forall|i: int| 0 <= i < g.len() ==> #[trigger] g[i] <= 6 * closed.len(),
        mark_at(grid, mark, f.0 as int, f.1 as int) != Mark::Closed,
        endpoint_ok(grid, s),
        endpoint_ok(grid, f),
{
    reveal(search_inv);
    assert forall|i: int| 0 <= i < g.len() implies #[trigger] g[i] <= 6 * (grid.rows() * grid.cols()) by {
        assert(g[i] <= 6 * closed.len());
    }
}

/// A seen cell other than the start was entered, at a positive cost, from a closed
/// passable neighbour.
#[verifier::rlimit(40)]
proof fn lemma_link(
    grid: &Grid,
    mark: Seq<Mark>,
    g: Seq<u128>,
    came: Seq<(u32, u32)>,
    s: (u32, u32),
    f: (u32, u32),
    closed: Set<int>,
    cur: (u32, u32),
)
    requires
        search_inv(grid, mark, g, came, s, f, closed, None),
        grid.in_bounds(cur.0 as int, cur.1 as int),
        mark_at(grid, mark, cur.0 as int, cur.1 as int) != Mark::Unseen,
    ensures
        well_linked(grid, mark, g, came, s, cur.0, cur.1),
        cur != s ==> {
            let p = from_at(grid, came, cur.0 as int, cur.1 as int);
            &&& mark_at(grid, mark, p.0 as int, p.1 as int) == Mark::Closed
            &&& passable(grid.kind_at(p.0 as int, p.1 as int))
            &&& step_cost(grid, cur.0 as int, cur.1 as int) >= 1
        },
{
    reveal(search_inv);
    if cur != s {
        let p = from_at(grid, came, cur.0 as int, cur.1 as int);
        assert(well_linked(grid, mark, g, came, s, p.0, p.1));
    }
}

/// Once the cell being expanded has all its passable neighbours seen, the search
/// state holds with no cell pending.
proof fn lemma_done_expanding(
    grid: &Grid,
    mark: Seq<Mark>,
    g: Seq<u128>,
    came: Seq<(u32, u32)>,
    s: (u32, u32),
    f: (u32, u32),
    closed: Set<int>,
    cur: (u32, u32),
)
    requires
        search_inv(grid, mark, g, came, s, f, closed, Some(cur)),
        expanded(grid, mark, cur.0 as int, cur.1 as int),
        relaxed(grid, mark, g, cur.0 as int, cur.1 as int),
    ensures
        search_inv(grid, mark, g, came, s, f, closed, None),
{
    reveal(search_inv);
}

/// Once no cell is open, every cell on a route from the start is closed.
proof fn lemma_route_closed(
    grid: &Grid,
    mark: Seq<Mark>,
    g: Seq<u128>,
    came: Seq<(u32, u32)>,
    s: (u32, u32),
    f: (u32, u32),
    closed: Set<int>,
    p: Seq<(u32, u32)>,
    k: int,
)
    requires
        search_inv(grid, mark, g, came, s, f, closed, None),
        forall|x: u32, y: u32|
            grid.in_bounds(x as int, y as int) ==> #[trigger] mark_at(grid, mark, x as int, y as int)
                != Mark::Open,
        is_path(grid, p, s, f),
        0 <= k < p.len(),
    ensures
        mark_at(grid, mark, p[k].0 as int, p[k].1 as int) == Mark::Closed,
    decreases k,
{
    reveal(search_inv);
    assert(endpoint_ok(grid, p[k]));
    if k > 0 {
        lemma_route_closed(grid, mark, g, came, s, f, closed, p, k - 1);
        let q = p[k - 1];
        assert(endpoint_ok(grid, p[k - 1]));
        assert(adjacent(
            p[k - 1].0 as int,
            p[k - 1].1 as int,
            p[(k - 1) + 1].0 as int,
            p[(k - 1) + 1].1 as int,
        ));
        assert(mark_at(grid, mark, q.0 as int, q.1 as int) == Mark::Closed);
        assert(expanded(grid, mark, q.0 as int, q.1 as int));
        assert(mark_at(grid, mark, p[k].0 as int, p[k].1 as int) != Mark::Unseen);
    }
}

/// Once no cell is open, the finish cannot be reached: the closed cells hold the
/// start, hold every passable neighbour of each of them, and do not hold the finish.
proof fn lemma_exhausted(
    grid: &Grid,
    mark: Seq<Mark>,
    g: Seq<u128>,
    came: Seq<(u32, u32)>,
    s: (u32, u32),
    f: (u32, u32),
    closed: Set<int>,
)
    requires
        search_inv(grid, mark, g, came, s, f, closed, None),
        forall|x: u32, y: u32|
            grid.in_bounds(x as int, y as int) ==> #[trigger] mark_at(grid, mark, x as int, y as int)
                != Mark::Open,
    ensures
        !path_exists(grid, s, f),
{
    reveal(search_inv);
    if path_exists(grid, s, f) {
        let p = choose|p: Seq<(u32, u32)>| is_path(grid, p, s, f);
        lemma_route_closed(grid, mark, g, came, s, f, closed, p, p.len() - 1);
    }
}

/// Estimated total cost of a route through `(x, y)`: cost so far, in thousandths,
/// plus the Chebyshev distance to `f`. Every step costs at least one, so this
/// never exceeds the cost of any route through `(x, y)` to `f`.
spec fn estimate(grid: &Grid, g: Seq<u128>, f: (u32, u32), x: int, y: int) -> int {
    g_at(grid, g, x, y) + chebyshev(x, y, f.0 as int, f.1 as int)
}

/// `p` is expanded no later than `q`: a smaller estimate, then a smaller Chebyshev
/// distance to `f`, then the earlier cell row by row.
spec fn picked_first(grid: &Grid, g: Seq<u128>, f: (u32, u32), p: (u32, u32), q: (u32, u32)) -> bool {
    let ep = estimate(grid, g, f, p.0 as int, p.1 as int);
    let eq = estimate(grid, g, f, q.0 as int, q.1 as int);
    let hp = chebyshev(p.0 as int, p.1 as int, f.0 as int, f.1 as int);
    let hq = chebyshev(q.0 as int, q.1 as int, f.0 as int, f.1 as int);
    ep < eq || (ep == eq && (hp < hq || (hp == hq && (p == q || row_major_before(p, q)))))
}

/// An open cell, the one with the least estimated total cost: cost so far plus
/// Chebyshev distance to `f`, ties going to the smaller distance, then to the cell
/// read first row by row. `None` when no cell is open.
fn pick_open(grid: &Grid, mark: &Vec<Mark>, g: &Vec<u128>, f: (u32, u32)) -> (r: Option<(u32, u32)>)
    requires
        grid.wf(),
        mark@.len() == grid.rows() * grid.cols(),
        g@.len() == grid.rows() * grid.cols(),
        forall|i: int| 0 <= i < g@.len() ==> #[trigger] g@[i] <= 6 * (grid.rows() * grid.cols()),
    ensures
        r matches Some(p) ==> grid.in_bounds(p.0 as int, p.1 as int) && mark_at(
            grid,
            mark@,
            p.0 as int,
            p.1 as int,
        ) == Mark::Open,
        r is None ==> forall|x: u32, y: u32|
            grid.in_bounds(x as int, y as int) ==> #[trigger] mark_at(grid, mark@, x as int, y as int)
                != Mark::Open,
        r matches Some(p) ==> forall|x: u32, y: u32|
            grid.in_bounds(x as int, y as int) && #[trigger] mark_at(grid, mark@, x as int, y as int)
                == Mark::Open ==> picked_first(grid, g@, f, p, (x, y)),
{
    let rows = grid.row_count();
    let cols = grid.col_count();
    let n = grid.cell_count();
    let mut best: Option<(u32, u32)> = None;
    let mut best_f: u128 = 0;
    let mut best_h: u128 = 0;
    let mut y: u32 = 0;
    while y < rows
        invariant
            grid.wf(),
            rows == grid.rows(),
            cols == grid.cols(),
            n == grid.rows() * grid.cols(),
            mark@.len() == n,
            g@.len() == n,
            forall|i: int| 0 <= i < g@.len() ==> #[trigger] g@[i] <= 6 * (grid.rows() * grid.cols()),
            0 <= y <= rows,
            best matches Some(p) ==> grid.in_bounds(p.0 as int, p.1 as int) && mark_at(
                grid,
                mark@,
                p.0 as int,
                p.1 as int,
            ) == Mark::Open,
            best is None ==> forall|a: u32, b: u32|
                grid.in_bounds(a as int, b as int) && b < y ==> #[trigger] mark_at(
                    grid,
                    mark@,
                    a as int,
                    b as int,
                ) != Mark::Open,
            best matches Some(p) ==> {
                &&& p.1 < y
                &&& best_f == estimate(grid, g@, f, p.0 as int, p.1 as int)
                &&& best_h == chebyshev(p.0 as int, p.1 as int, f.0 as int, f.1 as int)
                &&& forall|a: u32, b: u32|
                    grid.in_bounds(a as int, b as int) && b < y && #[trigger] mark_at(
                        grid,
                        mark@,
                        a as int,
                        b as int,
                    ) == Mark::Open ==> picked_first(grid, g@, f, p, (a, b))
            },
        decreases rows - y,
    {
        let mut x: u32 = 0;
        while x < cols
            invariant
                grid.wf(),
                rows == grid.rows(),
                cols == grid.cols(),
                n == grid.rows() * grid.cols(),
                mark@.len() == n,
                g@.len() == n,
                forall|i: int| 0 <= i < g@.len() ==> #[trigger] g@[i] <= 6 * (grid.rows() * grid.cols()),
                0 <= y < rows,
                0 <= x <= cols,
                best matches Some(p) ==> grid.in_bounds(p.0 as int, p.1 as int) && mark_at(
                    grid,
                    mark@,
                    p.0 as int,
                    p.1 as int,
                ) == Mark::Open,
                best is None ==> forall|a: u32, b: u32|
                    grid.in_bounds(a as int, b as int) && (b < y || (b == y && a < x))
                        ==> #[trigger] mark_at(grid, mark@, a as int, b as int) != Mark::Open,
                best matches Some(p) ==> {
                    &&& (p.1 < y || (p.1 == y && p.0 < x))
                    &&& best_f == estimate(grid, g@, f, p.0 as int, p.1 as int)
                    &&& best_h == chebyshev(p.0 as int, p.1 as int, f.0 as int, f.1 as int)
                    &&& forall|a: u32, b: u32|
                        grid.in_bounds(a as int, b as int) && (b < y || (b == y && a < x))
                            && #[trigger] mark_at(grid, mark@, a as int, b as int) == Mark::Open
                            ==> picked_first(grid, g@, f, p, (a, b))
                },
            decreases cols - x,
        {
            let i = grid.index(x, y);
            if mark[i] == Mark::Open {
                let h = chebyshev_distance((x, y), f) as u128;
                proof {
                    let gi = g@[i as int] as int;
                    let cells = grid.rows() * grid.cols();
                    assert(gi <= 6 * cells);
                    assert(cells <= usize::MAX);
                    assert(gi * 1000 <= 6000 * 0xffff_ffff_ffff_ffffint) by (nonlinear_arith)
                        requires
                            gi <= 6 * cells,
                            cells <= 0xffff_ffff_ffff_ffffint,
                    ;
                }
                let fx = g[i] + h;
                let better = match best {
                    None => true,
                    Some(_) => fx < best_f || (fx == best_f && h < best_h),
                };
                if better {
                    best = Some((x, y));
                    best_f = fx;
                    best_h = h;
                }
            }
            x = x + 1;
        }
        y = y + 1;
    }
    best
}

/// Follows the predecessors back from `f` to `s` and returns the cells in route order.
fn reconstruct(
    grid: &Grid,
    mark: &Vec<Mark>,
    g: &Vec<u128>,
    came: &Vec<(u32, u32)>,
    s: (u32, u32),
    f: (u32, u32),
    Ghost(closed): Ghost<Set<int>>,
) -> (r: Vec<(u32, u32)>)
    requires
        search_inv(grid, mark@, g@, came@, s, f, closed, None),
        mark_at(grid, mark@, f.0 as int, f.1 as int) == Mark::Open,
    ensures
        is_path(grid, r@, s, f),
        path_cost(grid, r@) == g_at(grid, g@, f.0 as int, f.1 as int),
{
    proof {
        lemma_inv_basics(grid, mark@, g@, came@, s, f, closed, None);
    }
    let mut rev: Vec<(u32, u32)> = Vec::new();
    rev.push(f);
    let mut cur = f;
    while !(cur.0 == s.0 && cur.1 == s.1)
        invariant
            search_inv(grid, mark@, g@, came@, s, f, closed, None),
            grid.in_bounds(cur.0 as int, cur.1 as int),
            mark_at(grid, mark@, cur.0 as int, cur.1 as int) != Mark::Unseen,
            rev@.len() >= 1,
            rev@[0] == f,
            rev@.last() == cur,
            forall|k: int| 0 <= k < rev@.len() ==> #[trigger] endpoint_ok(grid, rev@[k]),
            forall|i: int|
                0 <= i < rev@.len() - 1 ==> g_at(grid, g@, rev@[i].0 as int, rev@[i].1 as int)
                    == g_at(grid, g@, rev@[i + 1].0 as int, rev@[i + 1].1 as int) + step_cost(
                    grid,
                    rev@[i].0 as int,
                    rev@[i].1 as int,
                ),
            forall|i: int, j: int|
                0 <= i < j < rev@.len() ==> g_at(grid, g@, rev@[j].0 as int, rev@[j].1 as int)
                    < g_at(grid, g@, rev@[i].0 as int, rev@[i].1 as int),
            forall|k: int|
                0 <= k < rev@.len() - 1 ==> #[trigger] adjacent(
                    rev@[k + 1].0 as int,
                    rev@[k + 1].1 as int,
                    rev@[k].0 as int,
                    rev@[k].1 as int,
                ),
        decreases g_at(grid, g@, cur.0 as int, cur.1 as int),
    {
        proof {
            lemma_inv_basics(grid, mark@, g@, came@, s, f, closed, None);
            grid.lemma_slots();
        }
        let ci = grid.index(cur.0, cur.1);
        let p = came[ci];
        proof {
            lemma_link(grid, mark@, g@, came@, s, f, closed, cur);
        }
        rev.push(p);
        cur = p;
    }
    proof {
        lemma_closed_facts(grid, mark@, g@, came@, s, f, closed, s);
    }
    let mut out: Vec<(u32, u32)> = Vec::new();
    let mut k: usize = rev.len();
    while k > 0
        invariant
            0 <= k <= rev@.len(),
            out@.len() == rev@.len() - k,
            forall|j: int| 0 <= j < out@.len() ==> out@[j] == rev@[rev@.len() - 1 - j],
            forall|i: int|
                0 <= i < rev@.len() - 1 ==> g_at(grid, g@, rev@[i].0 as int, rev@[i].1 as int)
                    == g_at(grid, g@, rev@[i + 1].0 as int, rev@[i + 1].1 as int) + step_cost(
                    grid,
                    rev@[i].0 as int,
                    rev@[i].1 as int,
                ),
            g_at(grid, g@, rev@[rev@.len() - 1].0 as int, rev@[rev@.len() - 1].1 as int) == 0,
            out@.len() > 0 ==> path_cost(grid, out@) == g_at(
                grid,
                g@,
                rev@[k as int].0 as int,
                rev@[k as int].1 as int,
            ),
        decreases k,
    {
        let ghost before = out@;
        k = k - 1;
        out.push(rev[k]);
        proof {
            let kk = k as int;
            if before.len() > 0 {
                assert(out@.drop_last() =~= before);
                assert(out@.last() == rev@[kk]);
                assert(path_cost(grid, out@) == path_cost(grid, before) + step_cost(
                    grid,
                    rev@[kk].0 as int,
                    rev@[kk].1 as int,
                ));
                assert(g_at(grid, g@, rev@[kk].0 as int, rev@[kk].1 as int) == g_at(
                    grid,
                    g@,
                    rev@[kk + 1].0 as int,
                    rev@[kk + 1].1 as int,
                ) + step_cost(grid, rev@[kk].0 as int, rev@[kk].1 as int));
            } else {
                assert(kk == rev@.len() - 1);
                assert(path_cost(grid, out@) == 0);
            }
        }
    }
    proof {
        let len = rev@.len() as int;
        assert forall|i: int, j: int| 0 <= i < j < out@.len() implies out@[i] != out@[j] by {
            assert(g_at(grid, g@, rev@[len - 1 - i].0 as int, rev@[len - 1 - i].1 as int) < g_at(
                grid,
                g@,
                rev@[len - 1 - j].0 as int,
                rev@[len - 1 - j].1 as int,
            ));
        }
        assert forall|j: int| 0 <= j < out@.len() implies #[trigger] endpoint_ok(grid, out@[j]) by {
            assert(endpoint_ok(grid, rev@[len - 1 - j]));
        }
        assert forall|j: int| 0 <= j < out@.len() - 1 implies #[trigger] adjacent(
            out@[j].0 as int,
            out@[j].1 as int,
            out@[j + 1].0 as int,
            out@[j + 1].1 as int,
        ) by {
            let m = len - 2 - j;
            assert(adjacent(
                rev@[m + 1].0 as int,
                rev@[m + 1].1 as int,
                rev@[m].0 as int,
                rev@[m].1 as int,
            ));
        }
    }
    out
}

/// The first `k` cells of a route form a route to its `k`-th cell.
proof fn lemma_prefix(grid: &Grid, q: Seq<(u32, u32)>, s: (u32, u32), f: (u32, u32), k: int)
    requires
        is_path(grid, q, s, f),
        1 <= k <= q.len(),
    ensures
        is_path(grid, q.take(k), s, q[k - 1]),
{
    let t = q.take(k);
    assert forall|i: int| 0 <= i < t.len() implies #[trigger] endpoint_ok(grid, t[i]) by {
        assert(endpoint_ok(grid, q[i]));
    }
    assert forall|i: int, j: int| 0 <= i < j < t.len() implies t[i] != t[j] by {
        assert(q[i] != q[j]);
    }
    assert forall|i: int| 0 <= i < t.len() - 1 implies #[trigger] adjacent(
        t[i].0 as int,
        t[i].1 as int,
        t[i + 1].0 as int,
        t[i + 1].1 as int,
    ) by {
        assert(adjacent(q[i].0 as int, q[i].1 as int, q[i + 1].0 as int, q[i + 1].1 as int));
    }
}

proof fn lemma_cost_step(grid: &Grid, q: Seq<(u32, u32)>, k: int)
    requires
        1 <= k < q.len(),
    ensures
        path_cost(grid, q.take(k + 1)) == path_cost(grid, q.take(k)) + step_cost(
            grid,
            q[k].0 as int,
            q[k].1 as int,
        ),
{
    assert(q.take(k + 1).drop_last() =~= q.take(k));
}

/// The part of a route from its `j`-th to its `k`-th cell costs at least the
/// Chebyshev distance between them.
proof fn lemma_cost_covers(
    grid: &Grid,
    q: Seq<(u32, u32)>,
    s: (u32, u32),
    f: (u32, u32),
    j: int,
    k: int,
)
    requires
        is_path(grid, q, s, f),
        0 <= j <= k < q.len(),
    ensures
        path_cost(grid, q.take(k + 1)) - path_cost(grid, q.take(j + 1)) >= chebyshev(
            q[j].0 as int,
            q[j].1 as int,
            q[k].0 as int,
            q[k].1 as int,
        ),
    decreases k - j,
{
    if k > j {
        lemma_cost_covers(grid, q, s, f, j, k - 1);
        lemma_cost_step(grid, q, k);
        assert(adjacent(
            q[k - 1].0 as int,
            q[k - 1].1 as int,
            q[(k - 1) + 1].0 as int,
            q[(k - 1) + 1].1 as int,
        ));
        assert(endpoint_ok(grid, q[k]));
    }
}

/// The first cell of `q`, from position `i` on, that is not closed.
proof fn lemma_first_unclosed(grid: &Grid, mark: Seq<Mark>, q: Seq<(u32, u32)>, i: int) -> (j: int)
    requires
        0 <= i < q.len(),
        mark_at(grid, mark, q[q.len() - 1].0 as int, q[q.len() - 1].1 as int) != Mark::Closed,
        forall|k: int|
            0 <= k < i ==> #[trigger] mark_at(grid, mark, q[k].0 as int, q[k].1 as int)
                == Mark::Closed,
    ensures
        i <= j < q.len(),
        mark_at(grid, mark, q[j].0 as int, q[j].1 as int) != Mark::Closed,
        forall|k: int|
            0 <= k < j ==> #[trigger] mark_at(grid, mark, q[k].0 as int, q[k].1 as int)
                == Mark::Closed,
    decreases q.len() - i,
{
    if mark_at(grid, mark, q[i].0 as int, q[i].1 as int) != Mark::Closed {
        i
    } else {
        lemma_first_unclosed(grid, mark, q, i + 1)
    }
}

/// What the search state says of a closed cell and of the start.
proof fn lemma_closed_facts(
    grid: &Grid,
    mark: Seq<Mark>,
    g: Seq<u128>,
    came: Seq<(u32, u32)>,
    s: (u32, u32),
    f: (u32, u32),
    closed: Set<int>,
    v: (u32, u32),
)
    requires
        search_inv(grid, mark, g, came, s, f, closed, None),
    ensures
        mark_at(grid, mark, s.0 as int, s.1 as int) != Mark::Unseen,
        g_at(grid, g, s.0 as int, s.1 as int) == 0,
        grid.in_bounds(v.0 as int, v.1 as int) && mark_at(grid, mark, v.0 as int, v.1 as int)
            == Mark::Closed ==> expanded(grid, mark, v.0 as int, v.1 as int) && relaxed(
            grid,
            mark,
            g,
            v.0 as int,
            v.1 as int,
        ) && cheapest(grid, g, s, v.0, v.1),
{
    reveal(search_inv);
}

/// No route to the open cell `u` with the least estimate costs less than its
/// recorded cost: the route leaves the closed cells at some open cell whose
/// estimate is no smaller, and the Chebyshev distance never exceeds the cost of
/// what remains.
#[verifier::rlimit(40)]
proof fn lemma_route_not_cheaper(
    grid: &Grid,
    mark: Seq<Mark>,
    g: Seq<u128>,
    came: Seq<(u32, u32)>,
    s: (u32, u32),
    f: (u32, u32),
    closed: Set<int>,
    u: (u32, u32),
    q: Seq<(u32, u32)>,
)
    requires
        search_inv(grid, mark, g, came, s, f, closed, None),
        grid.in_bounds(u.0 as int, u.1 as int),
        mark_at(grid, mark, u.0 as int, u.1 as int) == Mark::Open,
        forall|x: u32, y: u32|
            grid.in_bounds(x as int, y as int) && #[trigger] mark_at(grid, mark, x as int, y as int)
                == Mark::Open ==> picked_first(grid, g, f, u, (x, y)),
        is_path(grid, q, s, (u.0, u.1)),
    ensures
        g_at(grid, g, u.0 as int, u.1 as int) <= path_cost(grid, q),
{
    let n = q.len() as int;
    let j = lemma_first_unclosed(grid, mark, q, 0);
    lemma_cost_covers(grid, q, s, (u.0, u.1), j, n - 1);
    assert(q.take(n) =~= q);
    let w = q[j];
    assert(endpoint_ok(grid, q[j]));
    if j == 0 {
        lemma_closed_facts(grid, mark, g, came, s, f, closed, s);
        assert(mark_at(grid, mark, w.0 as int, w.1 as int) == Mark::Open);
    } else {
        let v = q[j - 1];
        lemma_closed_facts(grid, mark, g, came, s, f, closed, v);
        assert(endpoint_ok(grid, q[j - 1]));
        assert(adjacent(
            q[j - 1].0 as int,
            q[j - 1].1 as int,
            q[(j - 1) + 1].0 as int,
            q[(j - 1) + 1].1 as int,
        ));
        assert(mark_at(grid, mark, v.0 as int, v.1 as int) == Mark::Closed);
        assert(mark_at(grid, mark, w.0 as int, w.1 as int) == Mark::Open);
        lemma_prefix(grid, q, s, (u.0, u.1), j);
        assert(is_path(grid, q.take(j), s, (v.0, v.1)));
        lemma_cost_step(grid, q, j);
    }
    assert(picked_first(grid, g, f, u, (w.0, w.1)));
}

/// The open cell with the least estimate is reached at the least cost.
proof fn lemma_pick_optimal(
    grid: &Grid,
    mark: Seq<Mark>,
    g: Seq<u128>,
    came: Seq<(u32, u32)>,
    s: (u32, u32),
    f: (u32, u32),
    closed: Set<int>,
    u: (u32, u32),
)
    requires
        search_inv(grid, mark, g, came, s, f, closed, None),
        grid.in_bounds(u.0 as int, u.1 as int),
        mark_at(grid, mark, u.0 as int, u.1 as int) == Mark::Open,
        forall|x: u32, y: u32|
            grid.in_bounds(x as int, y as int) && #[trigger] mark_at(grid, mark, x as int, y as int)
                == Mark::Open ==> picked_first(grid, g, f, u, (x, y)),
    ensures
        cheapest(grid, g, s, u.0, u.1),
{
    assert forall|q: Seq<(u32, u32)>| #[trigger] is_path(grid, q, s, (u.0, u.1)) implies g_at(
        grid,
        g,
        u.0 as int,
        u.1 as int,
    ) <= path_cost(grid, q) by {
        lemma_route_not_cheaper(grid, mark, g, came, s, f, closed, u, q);
    }
}

/// Closing an open cell other than the finish keeps the search state sound, the
/// closed cell itself still to be expanded.
#[verifier::rlimit(40)]
proof fn lemma_close(
    grid: &Grid,
    mark: Seq<Mark>,
    g: Seq<u128>,
    came: Seq<(u32, u32)>,
    s: (u32, u32),
    f: (u32, u32),
    closed: Set<int>,
    cur: (u32, u32),
)
    requires
        search_inv(grid, mark, g, came, s, f, closed, None),
        grid.in_bounds(cur.0 as int, cur.1 as int),
        mark_at(grid, mark, cur.0 as int, cur.1 as int) == Mark::Open,
        cur != f,
        cheapest(grid, g, s, cur.0, cur.1),
    ensures
        search_inv(
            grid,
            mark.update(grid.slot(cur.0 as int, cur.1 as int), Mark::Closed),
            g,
            came,
            s,
            f,
            closed.insert(grid.slot(cur.0 as int, cur.1 as int)),
            Some(cur),
        ),
        closed.insert(grid.slot(cur.0 as int, cur.1 as int)).len() == closed.len() + 1,
{
    reveal(search_inv);
    grid.lemma_slots();
    let n = grid.rows() * grid.cols();
    let ci = grid.slot(cur.0 as int, cur.1 as int);
    let m2 = mark.update(ci, Mark::Closed);
    let c2 = closed.insert(ci);
    assert(!closed.contains(ci));
    assert(c2 =~= Set::new(|i: int| 0 <= i < n && m2[i] == Mark::Closed));
    lemma_int_range(0, n);
    assert(c2.subset_of(set_int_range(0, n)));
    lemma_len_subset(c2, set_int_range(0, n));
    assert forall|x: u32, y: u32|
        grid.in_bounds(x as int, y as int) && #[trigger] mark_at(grid, m2, x as int, y as int)
            != Mark::Unseen implies well_linked(grid, m2, g, came, s, x, y) by {
        assert(mark_at(grid, mark, x as int, y as int) != Mark::Unseen);
        assert(well_linked(grid, mark, g, came, s, x, y));
    }
    assert forall|x: u32, y: u32|
        grid.in_bounds(x as int, y as int) && #[trigger] mark_at(grid, m2, x as int, y as int)
            == Mark::Closed && Some(cur) != Some((x, y)) implies expanded(
        grid,
        m2,
        x as int,
        y as int,
    ) && relaxed(grid, m2, g, x as int, y as int) by {
        assert(mark_at(grid, mark, x as int, y as int) == Mark::Closed);
        assert(expanded(grid, mark, x as int, y as int));
        assert(relaxed(grid, mark, g, x as int, y as int));
        assert forall|c: u32, d: u32|
            grid.in_bounds(c as int, d as int) && adjacent(x as int, y as int, c as int, d as int)
                && passable(grid.kind_at(c as int, d as int)) && #[trigger] mark_at(
                grid,
                m2,
                c as int,
                d as int,
            ) != Mark::Closed implies g_at(grid, g, c as int, d as int) <= g_at(
            grid,
            g,
            x as int,
            y as int,
        ) + step_cost(grid, c as int, d as int) by {
            assert(mark_at(grid, mark, c as int, d as int) != Mark::Closed);
            assert(mark_at(grid, mark, c as int, d as int) != Mark::Unseen);
        }
        assert forall|c: u32, d: u32|
            grid.in_bounds(c as int, d as int) && adjacent(x as int, y as int, c as int, d as int)
                && passable(grid.kind_at(c as int, d as int)) implies #[trigger] mark_at(
            grid,
            m2,
            c as int,
            d as int,
        ) != Mark::Unseen by {
            assert(mark_at(grid, mark, c as int, d as int) != Mark::Unseen);
        }
    }
    assert forall|x: u32, y: u32|
        grid.in_bounds(x as int, y as int) && #[trigger] mark_at(grid, m2, x as int, y as int)
            == Mark::Closed implies cheapest(grid, g, s, x, y) by {
        if (x, y) != cur {
            assert(mark_at(grid, mark, x as int, y as int) == Mark::Closed);
        }
    }
}

/// Recording a cheaper way into a neighbour `p` of the cell being expanded keeps
/// the search state sound.
#[verifier::rlimit(40)]
proof fn lemma_relax(
    grid: &Grid,
    mark: Seq<Mark>,
    g: Seq<u128>,
    came: Seq<(u32, u32)>,
    s: (u32, u32),
    f: (u32, u32),
    closed: Set<int>,
    cur: (u32, u32),
    p: (u32, u32),
    t: u128,
)
    requires
        search_inv(grid, mark, g, came, s, f, closed, Some(cur)),
        grid.in_bounds(cur.0 as int, cur.1 as int),
        mark_at(grid, mark, cur.0 as int, cur.1 as int) == Mark::Closed,
        grid.in_bounds(p.0 as int, p.1 as int),
        adjacent(cur.0 as int, cur.1 as int, p.0 as int, p.1 as int),
        passable(grid.kind_at(p.0 as int, p.1 as int)),
        mark_at(grid, mark, p.0 as int, p.1 as int) != Mark::Closed,
        t == g_at(grid, g, cur.0 as int, cur.1 as int) + step_cost(grid, p.0 as int, p.1 as int),
        t <= 6 * closed.len(),
        mark_at(grid, mark, p.0 as int, p.1 as int) == Mark::Unseen || t < g_at(
            grid,
            g,
            p.0 as int,
            p.1 as int,
        ),
    ensures
        search_inv(
            grid,
            mark.update(grid.slot(p.0 as int, p.1 as int), Mark::Open),
            g.update(grid.slot(p.0 as int, p.1 as int), t),
            came.update(grid.slot(p.0 as int, p.1 as int), cur),
            s,
            f,
            closed,
            Some(cur),
        ),
{
    reveal(search_inv);
    grid.lemma_slots();
    let n = grid.rows() * grid.cols();
    let pi = grid.slot(p.0 as int, p.1 as int);
    let m2 = mark.update(pi, Mark::Open);
    let g2 = g.update(pi, t);
    let c2 = came.update(pi, cur);
    assert(closed =~= Set::new(|i: int| 0 <= i < n && m2[i] == Mark::Closed));
    assert forall|i: int| 0 <= i < n implies #[trigger] g2[i] <= 6 * closed.len() by {
        if i != pi {
            assert(g[i] <= 6 * closed.len());
        }
    }
    assert forall|x: u32, y: u32|
        grid.in_bounds(x as int, y as int) && #[trigger] mark_at(grid, m2, x as int, y as int)
            != Mark::Unseen implies well_linked(grid, m2, g2, c2, s, x, y) by {
        if (x, y) != p {
            assert(mark_at(grid, mark, x as int, y as int) != Mark::Unseen);
            assert(well_linked(grid, mark, g, came, s, x, y));
            let q = from_at(grid, came, x as int, y as int);
            if (x, y) != s {
                assert(mark_at(grid, mark, q.0 as int, q.1 as int) == Mark::Closed);
            }
        }
    }
    assert forall|x: u32, y: u32|
        grid.in_bounds(x as int, y as int) && #[trigger] mark_at(grid, m2, x as int, y as int)
            == Mark::Closed && Some(cur) != Some((x, y)) implies expanded(
        grid,
        m2,
        x as int,
        y as int,
    ) && relaxed(grid, m2, g2, x as int, y as int) by {
        assert(mark_at(grid, mark, x as int, y as int) == Mark::Closed);
        assert(expanded(grid, mark, x as int, y as int));
        assert(relaxed(grid, mark, g, x as int, y as int));
        assert forall|c: u32, d: u32|
            grid.in_bounds(c as int, d as int) && adjacent(x as int, y as int, c as int, d as int)
                && passable(grid.kind_at(c as int, d as int)) && #[trigger] mark_at(
                grid,
                m2,
                c as int,
                d as int,
            ) != Mark::Closed implies g_at(grid, g2, c as int, d as int) <= g_at(
            grid,
            g2,
            x as int,
            y as int,
        ) + step_cost(grid, c as int, d as int) by {
            assert(mark_at(grid, mark, c as int, d as int) != Mark::Closed);
            assert(mark_at(grid, mark, c as int, d as int) != Mark::Unseen);
            assert(g_at(grid, g2, x as int, y as int) == g_at(grid, g, x as int, y as int));
        }
        assert forall|c: u32, d: u32|
            grid.in_bounds(c as int, d as int) && adjacent(x as int, y as int, c as int, d as int)
                && passable(grid.kind_at(c as int, d as int)) implies #[trigger] mark_at(
            grid,
            m2,
            c as int,
            d as int,
        ) != Mark::Unseen by {
            assert(mark_at(grid, mark, c as int, d as int) != Mark::Unseen);
        }
    }
    assert forall|x: u32, y: u32|
        grid.in_bounds(x as int, y as int) && #[trigger] mark_at(grid, m2, x as int, y as int)
            == Mark::Closed implies cheapest(grid, g2, s, x, y) by {
        assert(mark_at(grid, mark, x as int, y as int) == Mark::Closed);
        assert(cheapest(grid, g, s, x, y));
        assert(g_at(grid, g2, x as int, y as int) == g_at(grid, g, x as int, y as int));
    }
}

/// Expands the closed cell `cur`: every passable neighbour that is not closed is
/// opened, or given `cur` as predecessor when that makes it cheaper.
fn expand(
    grid: &Grid,
    mark: &mut Vec<Mark>,
    g: &mut Vec<u128>,
    came: &mut Vec<(u32, u32)>,
    start: (u32, u32),
    finish: (u32, u32),
    Ghost(closed): Ghost<Set<int>>,
    cur: (u32, u32),
    ci: usize,
)
    requires
        search_inv(grid, old(mark)@, old(g)@, old(came)@, start, finish, closed, Some(cur)),
        grid.in_bounds(cur.0 as int, cur.1 as int),
        ci == grid.slot(cur.0 as int, cur.1 as int),
        mark_at(grid, old(mark)@, cur.0 as int, cur.1 as int) == Mark::Closed,
        old(g)@[ci as int] + 6 <= 6 * closed.len(),
    ensures
        search_inv(grid, final(mark)@, final(g)@, final(came)@, start, finish, closed, None),
{
    proof {
        lemma_inv_basics(grid, mark@, g@, came@, start, finish, closed, Some(cur));
        grid.lemma_slots();
    }
    let cells = grid.cell_count();
    let gc = g[ci];
    let around = grid.neighbors(cur.0, cur.1);
    let mut k: usize = 0;
    while k < around.len()
        invariant
            search_inv(grid, mark@, g@, came@, start, finish, closed, Some(cur)),
            grid.in_bounds(cur.0 as int, cur.1 as int),
            ci == grid.slot(cur.0 as int, cur.1 as int),
            mark_at(grid, mark@, cur.0 as int, cur.1 as int) == Mark::Closed,
            g@[ci as int] == gc,
            gc + 6 <= 6 * closed.len(),
            closed.len() <= cells,
            grid.is_neighbor_list(cur.0, cur.1, around@),
            0 <= k <= around@.len(),
            forall|j: int|
                0 <= j < k && passable(grid.kind_at(around@[j].0 as int, around@[j].1 as int))
                    ==> #[trigger] mark_at(grid, mark@, around@[j].0 as int, around@[j].1 as int)
                    != Mark::Unseen,
            forall|j: int|
                0 <= j < k && passable(grid.kind_at(around@[j].0 as int, around@[j].1 as int))
                    && #[trigger] mark_at(grid, mark@, around@[j].0 as int, around@[j].1 as int)
                    != Mark::Closed ==> g_at(grid, g@, around@[j].0 as int, around@[j].1 as int)
                    <= gc + step_cost(grid, around@[j].0 as int, around@[j].1 as int),
        decreases around@.len() - k,
    {
        proof {
            lemma_inv_basics(grid, mark@, g@, came@, start, finish, closed, Some(cur));
            grid.lemma_slots();
        }
        let ghost old_mark = mark@;
        let ghost old_g = g@;
        let p = around[k];
        let kind = grid.kind(p.0, p.1);
        match kind.movement_cost() {
            None => {},
            Some(c) => {
                let pi = grid.index(p.0, p.1);
                if mark[pi] != Mark::Closed {
                    let t: u128 = gc + c as u128;
                    if mark[pi] == Mark::Unseen || t < g[pi] {
                        proof {
                            lemma_relax(grid, mark@, g@, came@, start, finish, closed, cur, p, t);
                        }
                        mark.set(pi, Mark::Open);
                        g.set(pi, t);
                        came.set(pi, cur);
                    }
                }
            },
        }
        proof {
            assert(passable(grid.kind_at(p.0 as int, p.1 as int)) ==> mark_at(
                grid,
                mark@,
                p.0 as int,
                p.1 as int,
            ) != Mark::Unseen);
            assert forall|j: int|
                0 <= j < k + 1 && passable(grid.kind_at(around@[j].0 as int, around@[j].1 as int))
                    implies #[trigger] mark_at(grid, mark@, around@[j].0 as int, around@[j].1 as int)
                    != Mark::Unseen by {
                if j < k {
                    assert(mark_at(grid, old_mark, around@[j].0 as int, around@[j].1 as int)
                        != Mark::Unseen);
                }
            }
            assert(passable(grid.kind_at(p.0 as int, p.1 as int)) && mark_at(
                grid,
                mark@,
                p.0 as int,
                p.1 as int,
            ) != Mark::Closed ==> g_at(grid, g@, p.0 as int, p.1 as int) <= gc + step_cost(
                grid,
                p.0 as int,
                p.1 as int,
            ));
            assert forall|j: int|
                0 <= j < k + 1 && passable(grid.kind_at(around@[j].0 as int, around@[j].1 as int))
                    && #[trigger] mark_at(grid, mark@, around@[j].0 as int, around@[j].1 as int)
                    != Mark::Closed implies g_at(grid, g@, around@[j].0 as int, around@[j].1 as int)
                    <= gc + step_cost(grid, around@[j].0 as int, around@[j].1 as int) by {
                if j < k {
                    assert(mark_at(grid, old_mark, around@[j].0 as int, around@[j].1 as int)
                        != Mark::Unseen);
                    assert(mark_at(grid, old_mark, around@[j].0 as int, around@[j].1 as int)
                        != Mark::Closed);
                    assert(g_at(grid, old_g, around@[j].0 as int, around@[j].1 as int) <= gc
                        + step_cost(grid, around@[j].0 as int, around@[j].1 as int));
                }
            }
        }
        k = k + 1;
    }
    proof {
        assert forall|c: u32, d: u32|
            grid.in_bounds(c as int, d as int) && adjacent(cur.0 as int, cur.1 as int, c as int, d as int)
                && passable(grid.kind_at(c as int, d as int)) implies #[trigger] mark_at(
            grid,
            mark@,
            c as int,
            d as int,
        ) != Mark::Unseen by {
            assert(around@.contains((c, d)));
            let j = choose|j: int| 0 <= j < around@.len() && around@[j] == (c, d);
            assert(mark_at(grid, mark@, around@[j].0 as int, around@[j].1 as int) != Mark::Unseen);
        }
        assert forall|c: u32, d: u32|
            grid.in_bounds(c as int, d as int) && adjacent(cur.0 as int, cur.1 as int, c as int, d as int)
                && passable(grid.kind_at(c as int, d as int)) && #[trigger] mark_at(
                grid,
                mark@,
                c as int,
                d as int,
            ) != Mark::Closed implies g_at(grid, g@, c as int, d as int) <= g_at(
            grid,
            g@,
            cur.0 as int,
            cur.1 as int,
        ) + step_cost(grid, c as int, d as int) by {
            assert(around@.contains((c, d)));
            let j = choose|j: int| 0 <= j < around@.len() && around@[j] == (c, d);
            assert(mark_at(grid, mark@, around@[j].0 as int, around@[j].1 as int) != Mark::Closed);
        }
        assert(expanded(grid, mark@, cur.0 as int, cur.1 as int));
        lemma_done_expanding(grid, mark@, g@, came@, start, finish, closed, cur);
    }
}

/// What a search from `s` to `f` returns: `UnreachableEndpoint` when either end is
/// blocked or outside the grid; otherwise a route of least cost when one exists,
/// `NoPathExists` exactly when none does; the one-cell route when `s` and `f` coincide.
pub open spec fn route_result(
    grid: &Grid,
    s: (u32, u32),
    f: (u32, u32),
    r: Result<Vec<(u32, u32)>, PathError>,
) -> bool {
    &&& !(endpoint_ok(grid, s) && endpoint_ok(grid, f)) ==> (r matches Err(e) && e
        == PathError::UnreachableEndpoint)
    &&& endpoint_ok(grid, s) && endpoint_ok(grid, f) ==> match r {
        Ok(p) => is_path(grid, p@, s, f) && forall|q: Seq<(u32, u32)>|
            #[trigger] is_path(grid, q, s, f) ==> path_cost(grid, p@) <= path_cost(grid, q),
        Err(e) => e == PathError::NoPathExists && !path_exists(grid, s, f),
    }
    &&& endpoint_ok(grid, s) && s == f ==> (r matches Ok(p) && p@ == seq![s])
}

fn endpoint_usable(grid: &Grid, p: (u32, u32)) -> (r: bool)
    requires
        grid.wf(),
    ensures
        r == endpoint_ok(grid, p),
{
    match grid.get_cell(p.0, p.1) {
        Ok(cell) => match cell.get_penalty() {
            Some(_) => true,
            None => false,
        },
        Err(_) => false,
    }
}

/// Searches `grid` for a route from `start` to `finish`, expanding open cells in
/// order of cost so far plus Chebyshev distance to `finish`. The grid is only read.
pub fn find_path(grid: &Grid, start: (u32, u32), finish: (u32, u32)) -> (r: Result<
    Vec<(u32, u32)>,
    PathError,
>)
    requires
        grid.wf(),
    ensures
        route_result(grid, start, finish, r),
{
    if !endpoint_usable(grid, start) || !endpoint_usable(grid, finish) {
        return Err(PathError::UnreachableEndpoint);
    }
    if start.0 == finish.0 && start.1 == finish.1 {
        let mut only: Vec<(u32, u32)> = Vec::new();
        only.push(start);
        return Ok(only);
    }
    let n = grid.cell_count();
    let mut mark: Vec<Mark> = Vec::new();
    let mut g: Vec<u128> = Vec::new();
    let mut came: Vec<(u32, u32)> = Vec::new();
    let mut i: usize = 0;
    while i < n
        invariant
            0 <= i <= n,
            mark@.len() == i,
            g@.len() == i,
            came@.len() == i,
            forall|j: int| 0 <= j < i ==> mark@[j] == Mark::Unseen && g@[j] == 0,
        decreases n - i,
    {
        mark.push(Mark::Unseen);
        g.push(0);
        came.push(start);
        i = i + 1;
    }
    let si = grid.index(start.0, start.1);
    mark.set(si, Mark::Open);
    let ghost mut closed: Set<int> = Set::empty();
    proof {
        reveal(search_inv);
        grid.lemma_slots();
        assert(closed =~= Set::new(|j: int| 0 <= j < n && mark@[j] == Mark::Closed));
        assert(mark_at(grid, mark@, finish.0 as int, finish.1 as int) != Mark::Closed);
        assert forall|x: u32, y: u32|
            grid.in_bounds(x as int, y as int) && #[trigger] mark_at(grid, mark@, x as int, y as int)
                != Mark::Unseen implies well_linked(grid, mark@, g@, came@, start, x, y) by {
            assert(grid.slot(x as int, y as int) == si);
        }
    }
    loop
        invariant
            search_inv(grid, mark@, g@, came@, start, finish, closed, None),
            n == grid.rows() * grid.cols(),
            endpoint_ok(grid, start),
            endpoint_ok(grid, finish),
            start != finish,
            closed.len() <= n,
        decreases n - closed.len(),
    {
        proof {
            lemma_inv_basics(grid, mark@, g@, came@, start, finish, closed, None);
        }
        match pick_open(grid, &mark, &g, finish) {
            None => {
                proof {
                    lemma_exhausted(grid, mark@, g@, came@, start, finish, closed);
                }
                return Err(PathError::NoPathExists);
            },
            Some(cur) => {
                proof {
                    lemma_pick_optimal(grid, mark@, g@, came@, start, finish, closed, cur);
                }
                if cur.0 == finish.0 && cur.1 == finish.1 {
                    return Ok(reconstruct(grid, &mark, &g, &came, start, finish, Ghost(closed)));
                }
                let ci = grid.index(cur.0, cur.1);
                proof {
                    lemma_close(grid, mark@, g@, came@, start, finish, closed, cur);
                }
                mark.set(ci, Mark::Closed);
                proof {
                    closed = closed.insert(ci as int);
                }
                expand(grid, &mut mark, &mut g, &mut came, start, finish, Ghost(closed), cur, ci);
                proof {
                    lemma_inv_basics(grid, mark@, g@, came@, start, finish, closed, None);
                }
            },
        }
    }
}

/// Searches for a route from the grid's start marker to its finish marker;
/// `MissingMarker` when either is not set.
pub fn calculate_route(grid: &Grid) -> (r: Result<Vec<(u32, u32)>, PathError>)
    requires
        grid.wf(),
    ensures
        grid.start_marker() is None || grid.finish_marker() is None <==> (r matches Err(e) && e
            == PathError::MissingMarker),
        grid.start_marker() matches Some(s) ==> grid.finish_marker() matches Some(f)
            ==> route_result(grid, s, f, r),
{
    match (grid.start_cell(), grid.finish_cell()) {
        (Some(s), Some(f)) => find_path(grid, s, f),
        _ => Err(PathError::MissingMarker),
    }
}

/// A finish whose every in-grid neighbour is blocked cannot be reached from any
/// other cell, so a search for it ends in `NoPathExists`.
pub proof fn walled_finish_has_no_route(grid: &Grid, s: (u32, u32), f: (u32, u32))
    requires
        grid.wf(),
        s != f,
        forall|a: u32, b: u32|
            grid.in_bounds(a as int, b as int) && adjacent(f.0 as int, f.1 as int, a as int, b as int)
                ==> grid.kind_at(a as int, b as int) == CellKind::Blocked,
    ensures
        !path_exists(grid, s, f),
        forall|r: Result<Vec<(u32, u32)>, PathError>|
            route_result(grid, s, f, r) && endpoint_ok(grid, s) && endpoint_ok(grid, f) ==> (
            r matches Err(e) && e == PathError::NoPathExists),
{
    if path_exists(grid, s, f) {
        let p = choose|p: Seq<(u32, u32)>| is_path(grid, p, s, f);
        let k = p.len() - 2;
        assert(endpoint_ok(grid, p[k]));
        assert(adjacent(p[k].0 as int, p[k].1 as int, p[k + 1].0 as int, p[k + 1].1 as int));
    }
}

/// A search whose start is its finish returns that one cell, at cost zero.
pub proof fn same_endpoints_route(grid: &Grid, s: (u32, u32), r: Result<Vec<(u32, u32)>, PathError>)
    requires
        grid.wf(),
        endpoint_ok(grid, s),
        route_result(grid, s, s, r),
    ensures
        r matches Ok(p) && p@ == seq![s] && path_cost(grid, p@) == 0,
{
}

/// A route takes at least as many steps as the Chebyshev distance between its ends.
pub proof fn route_steps_at_least_chebyshev(
    grid: &Grid,
    p: Seq<(u32, u32)>,
    s: (u32, u32),
    f: (u32, u32),
)
    requires
        is_path(grid, p, s, f),
    ensures
        p.len() - 1 >= chebyshev(s.0 as int, s.1 as int, f.0 as int, f.1 as int),
    decreases p.len(),
{
    if p.len() > 1 {
        let q = p.drop_last();
        let m = p[p.len() - 2];
        assert forall|k: int| 0 <= k < q.len() implies #[trigger] endpoint_ok(grid, q[k]) by {
            assert(endpoint_ok(grid, p[k]));
        }
        assert forall|k: int| 0 <= k < q.len() - 1 implies #[trigger] adjacent(
            q[k].0 as int,
            q[k].1 as int,
            q[k + 1].0 as int,
            q[k + 1].1 as int,
        ) by {
            assert(adjacent(p[k].0 as int, p[k].1 as int, p[k + 1].0 as int, p[k + 1].1 as int));
        }
        assert forall|i: int, j: int| 0 <= i < j < q.len() implies q[i] != q[j] by {
            assert(p[i] != p[j]);
        }
        route_steps_at_least_chebyshev(grid, q, s, m);
        let k = p.len() - 2;
        assert(adjacent(p[k].0 as int, p[k].1 as int, p[k + 1].0 as int, p[k + 1].1 as int));
    }
}

/// Along a route the cost so far grows by at least one with every step.
pub proof fn route_cost_grows(grid: &Grid, p: Seq<(u32, u32)>, s: (u32, u32), f: (u32, u32), k: int)
    requires
        is_path(grid, p, s, f),
        1 <= k < p.len(),
    ensures
        path_cost(grid, p.take(k + 1)) >= path_cost(grid, p.take(k)) + 1,
{
    assert(p.take(k + 1).drop_last() =~= p.take(k));
    assert(endpoint_ok(grid, p[k]));
}

} // verus!
