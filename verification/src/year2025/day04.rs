//! Paper rolls on a grid: a roll is reachable when fewer than four of its
//! eight neighbors are rolls, and reachable rolls are removed in rounds
//! until none is left to take.

use crate::text::spec_lines;
use crate::util::grid::Grid;
use crate::util::point::Point;
use crate::util::point::direction;
use crate::util::point::spec_direction;
use vstd::prelude::*;
use vstd::string::StringSliceAdditionalSpecFns;

verus! {

/// 1 when the `d`-th neighbor of `(x, y)` is on the grid and holds a roll.
pub open spec fn nbr_ind(g: Grid<u8>, x: int, y: int, d: int) -> int {
    let o = spec_direction(d);
    if g.spec_in_bounds(x + o.0, y + o.1) && g.cell(x + o.0, y + o.1) == 64 {
        1
    } else {
        0
    }
}

/// The number of roll neighbors of `(x, y)` among directions `d` through 7.
pub open spec fn nbr_cnt(g: Grid<u8>, x: int, y: int, d: int) -> int
    decreases 8 - d,
{
    if d >= 8 {
        0
    } else {
        nbr_ind(g, x, y, d) + nbr_cnt(g, x, y, d + 1)
    }
}

/// The cell holds a roll that can be taken: fewer than four roll neighbors.
pub open spec fn takeable(g: Grid<u8>, x: int, y: int) -> bool {
    g.cell(x, y) == 64 && nbr_cnt(g, x, y, 0) < 4
}

/// Takeable rolls in row `y`, columns 0 through `x`.
pub open spec fn takeable_in_row(g: Grid<u8>, x: int, y: int) -> int
    decreases x + 1,
{
    if x < 0 {
        0
    } else {
        takeable_in_row(g, x - 1, y) + (if takeable(g, x, y) {
            1int
        } else {
            0int
        })
    }
}

/// Takeable rolls in rows 0 through `y`.
pub open spec fn takeable_upto(g: Grid<u8>, y: int) -> int
    decreases y + 1,
{
    if y < 0 {
        0
    } else {
        takeable_upto(g, y - 1) + takeable_in_row(g, g.width - 1, y)
    }
}

proof fn lemma_row_bounds(g: Grid<u8>, x: int, y: int)
    ensures
        0 <= takeable_in_row(g, x, y) <= (if x < 0 {
            0int
        } else {
            x + 1
        }),
    decreases x + 1,
{
    if x >= 0 {
        lemma_row_bounds(g, x - 1, y);
    }
}

proof fn lemma_upto_bounds(g: Grid<u8>, y: int)
    requires
        0 <= g.width,
    ensures
        0 <= takeable_upto(g, y) <= (if y < 0 {
            0int
        } else {
            (y + 1) * g.width
        }),
    decreases y + 1,
{
    if y >= 0 {
        lemma_upto_bounds(g, y - 1);
        lemma_row_bounds(g, g.width - 1, y);
        assert(y * g.width + g.width == (y + 1) * g.width) by (nonlinear_arith);
    }
}

/// Builds the roll grid from the input lines.
pub fn parse(input: &str) -> (g: Grid<u8>)
    ensures
        g.wf(),
        ({
            let ls = spec_lines(input.spec_bytes());
            ls.len() > 0 && ls.len() <= i32::MAX && ls.len() * ls[0].len() <= i32::MAX && (forall|
                i: int,
            | 0 <= i < ls.len() ==> #[trigger] ls[i].len() == ls[0].len()) ==> {
                &&& g.width == ls[0].len()
                &&& g.height == ls.len()
                &&& forall|x: int, y: int| g.spec_in_bounds(x, y) ==> g.cell(x, y) == ls[y][x]
            }
        }),
{
    Grid::parse(input)
}

/// Counts the roll neighbors of `p` (directions `d` through 7).
fn count_roll_neighbors(grid: &Grid<u8>, p: Point) -> (r: u32)
    requires
        grid.wf(),
        grid.spec_in_bounds(p.x as int, p.y as int),
    ensures
        r == nbr_cnt(*grid, p.x as int, p.y as int, 0),
{
    let mut cnt: u32 = 0;
    let mut d: usize = 0;
    while d < 8
        invariant
            grid.wf(),
            grid.spec_in_bounds(p.x as int, p.y as int),
            d <= 8,
            cnt <= d,
            cnt + nbr_cnt(*grid, p.x as int, p.y as int, d as int) == nbr_cnt(
                *grid,
                p.x as int,
                p.y as int,
                0,
            ),
        decreases 8 - d,
    {
        let o = direction(d);
        let np = Point { x: p.x + o.x, y: p.y + o.y };
        match grid.get(np) {
            Some(c) => {
                if c == 64 {
                    cnt = cnt + 1;
                }
            },
            None => {},
        }
        d = d + 1;
    }
    cnt
}

/// The number of rolls that can be taken from the grid as it stands.
pub fn part_1(grid: &Grid<u8>) -> (r: u32)
    requires
        grid.wf(),
    ensures
        r == takeable_upto(*grid, grid.height - 1),
{
    let mut cnt: u32 = 0;
    let mut y: i32 = 0;
    while y < grid.height
        invariant
            grid.wf(),
            0 <= y <= grid.height,
            cnt == takeable_upto(*grid, y - 1),
            cnt <= (y as int) * grid.width,
        decreases grid.height - y,
    {
        let mut x: i32 = 0;
        while x < grid.width
            invariant
                grid.wf(),
                0 <= y < grid.height,
                0 <= x <= grid.width,
                cnt == takeable_upto(*grid, y - 1) + takeable_in_row(*grid, x - 1, y as int),
                cnt <= (y as int) * grid.width + x,
            decreases grid.width - x,
        {
            proof {
                lemma_row_bounds(*grid, x - 1, y as int);
                lemma_upto_bounds(*grid, y as int - 1);
                assert((y as int) * grid.width + x + 1 <= grid.width * grid.height)
                    by (nonlinear_arith)
                    requires
                        0 <= y < grid.height && 0 <= x < grid.width,
                ;
            }
            let p = Point { x, y };
            let c = grid.at(x, y);
            if c == 64 {
                let nb = count_roll_neighbors(grid, p);
                if nb < 4 {
                    cnt = cnt + 1;
                }
            }
            x = x + 1;
        }
        proof {
            lemma_upto_bounds(*grid, y as int);
        }
        y = y + 1;
    }
    cnt
}

/// The rolls on the grid.
pub open spec fn roll_cnt(s: Seq<u8>) -> int
    decreases s.len(),
{
    if s.len() == 0 {
        0
    } else {
        roll_cnt(s.drop_last()) + (if s.last() == 64 {
            1int
        } else {
            0int
        })
    }
}

proof fn lemma_roll_cnt_mark(s: Seq<u8>, i: int)
    requires
        0 <= i < s.len(),
    ensures
        roll_cnt(s.update(i, 88)) <= roll_cnt(s),
        s[i] == 64 ==> roll_cnt(s.update(i, 88)) < roll_cnt(s),
    decreases s.len(),
{
    let t = s.update(i, 88);
    if i == s.len() - 1 {
        assert(t.drop_last() =~= s.drop_last());
    } else {
        assert(t.drop_last() =~= s.drop_last().update(i, 88));
        assert(s.drop_last()[i] == s[i]);
        lemma_roll_cnt_mark(s.drop_last(), i);
        assert(t.last() == s.last());
    }
}

proof fn lemma_roll_cnt_nonneg(s: Seq<u8>)
    ensures
        0 <= roll_cnt(s) <= s.len(),
    decreases s.len(),
{
    if s.len() > 0 {
        lemma_roll_cnt_nonneg(s.drop_last());
    }
}

/// The positions of the rolls that can be taken, in row-major order.
fn collect_takeable(grid: &Grid<u8>) -> (r: Vec<Point>)
    requires
        grid.wf(),
    ensures
        forall|m: int|
            0 <= m < r@.len() ==> grid.spec_in_bounds(
                (#[trigger] r@[m]).x as int,
                r@[m].y as int,
            ) && takeable(*grid, r@[m].x as int, r@[m].y as int),
        forall|a: int, b: int|
            0 <= a < b < r@.len() ==> (#[trigger] r@[a]).y * grid.width + r@[a].x < (
            #[trigger] r@[b]).y * grid.width + r@[b].x,
{
    let mut out: Vec<Point> = Vec::new();
    let mut y: i32 = 0;
    while y < grid.height
        invariant
            grid.wf(),
            0 <= y <= grid.height,
            forall|m: int|
                0 <= m < out@.len() ==> grid.spec_in_bounds(
                    (#[trigger] out@[m]).x as int,
                    out@[m].y as int,
                ) && takeable(*grid, out@[m].x as int, out@[m].y as int),
            forall|a: int, b: int|
                0 <= a < b < out@.len() ==> (#[trigger] out@[a]).y * grid.width + out@[a].x < (
                #[trigger] out@[b]).y * grid.width + out@[b].x,
            forall|m: int|
                0 <= m < out@.len() ==> (#[trigger] out@[m]).y * grid.width + out@[m].x < (
                y as int) * grid.width,
        decreases grid.height - y,
    {
        let mut x: i32 = 0;
        while x < grid.width
            invariant
                grid.wf(),
                0 <= y < grid.height,
                0 <= x <= grid.width,
                forall|m: int|
                    0 <= m < out@.len() ==> grid.spec_in_bounds(
                        (#[trigger] out@[m]).x as int,
                        out@[m].y as int,
                    ) && takeable(*grid, out@[m].x as int, out@[m].y as int),
                forall|a: int, b: int|
                    0 <= a < b < out@.len() ==> (#[trigger] out@[a]).y * grid.width + out@[a].x < (
                    #[trigger] out@[b]).y * grid.width + out@[b].x,
                forall|m: int|
                    0 <= m < out@.len() ==> (#[trigger] out@[m]).y * grid.width + out@[m].x < (
                    y as int) * grid.width + x,
            decreases grid.width - x,
        {
            let p = Point { x, y };
            let c = grid.at(x, y);
            if c == 64 {
                let nb = count_roll_neighbors(grid, p);
                if nb < 4 {
                    out.push(p);
                }
            }
            x = x + 1;
        }
        proof {
            assert((y as int) * grid.width + grid.width == (y as int + 1) * grid.width)
                by (nonlinear_arith);
        }
        y = y + 1;
    }
    out
}

/// Takes reachable rolls in rounds until a round takes nothing, and counts
/// how many were taken. Never more rolls than the grid held at the start.
pub fn part_2(grid: Grid<u8>) -> (r: u64)
    requires
        grid.wf(),
    ensures
        r <= roll_cnt(grid.data@),
{
    let mut grid = grid;
    let ghost gstart = grid;
    let mut total: u64 = 0;
    proof {
        lemma_roll_cnt_nonneg(gstart.data@);
    }
    loop
        invariant
            grid.wf(),
            grid.width == gstart.width,
            grid.height == gstart.height,
            total + roll_cnt(grid.data@) <= roll_cnt(gstart.data@),
            0 <= roll_cnt(grid.data@),
            roll_cnt(gstart.data@) <= gstart.data@.len(),
        decreases roll_cnt(grid.data@),
    {
        let pts = collect_takeable(&grid);
        if pts.len() == 0 {
            break ;
        }
        let mut k: usize = 0;
        let ghost gin = grid;
        while k < pts.len()
            invariant
                grid.wf(),
                grid.width == gin.width,
                grid.height == gin.height,
                k <= pts@.len(),
                forall|m: int|
                    0 <= m < pts@.len() ==> gin.spec_in_bounds(
                        (#[trigger] pts@[m]).x as int,
                        pts@[m].y as int,
                    ),
                forall|a: int, b: int|
                    0 <= a < b < pts@.len() ==> (#[trigger] pts@[a]).y * gin.width + pts@[a].x < (
                    #[trigger] pts@[b]).y * gin.width + pts@[b].x,
                forall|m: int|
                    k <= m < pts@.len() ==> grid.cell(
                        (#[trigger] pts@[m]).x as int,
                        pts@[m].y as int,
                    ) == 64,
                roll_cnt(grid.data@) + k <= roll_cnt(gin.data@),
                0 <= roll_cnt(grid.data@),
            decreases pts@.len() - k,
        {
            let p = pts[k];
            let ghost gmid = grid;
            proof {
                grid.lemma_index_in_range(p.x as int, p.y as int);
                lemma_roll_cnt_mark(grid.data@, p.y * grid.width + p.x);
                lemma_roll_cnt_nonneg(grid.data@.update(p.y * grid.width + p.x, 88));
            }
            grid.set(p, 88);
            proof {
                assert forall|m: int|
                    k + 1 <= m < pts@.len() implies grid.cell(
                    (#[trigger] pts@[m]).x as int,
                    pts@[m].y as int,
                ) == 64 by {
                    assert(pts@[k as int].y * gin.width + pts@[k as int].x < pts@[m].y * gin.width
                        + pts@[m].x);
                    assert(pts@[m].x != p.x || pts@[m].y != p.y) by (nonlinear_arith)
                        requires
                            pts@[k as int].y * gin.width + pts@[k as int].x < pts@[m].y * gin.width
                                + pts@[m].x && p == pts@[k as int],
                    ;
                }
            }
            k = k + 1;
        }
        proof {
            lemma_roll_cnt_nonneg(gin.data@);
        }
        if total <= u64::MAX - (pts.len() as u64) {
            total = total + (pts.len() as u64);
        }
    }
    total
}

} // verus!
