//! The largest fully covered rectangle spanned by two corners of a cyclic
//! chain of rooms.
//!
//! A non-empty sequence of integer corner points describes rooms: point `i`
//! and point `(i + 1) mod n` are opposite corners of room `i`. The search
//! runs in five strict phases: coordinates are compressed onto a dense grid
//! with one sentinel margin on each side, each room is rasterized onto a
//! classification grid, the outside is flood-filled from the margin, a 2-D
//! prefix-sum index is built over the "not outside" indicator, and finally
//! every pair of corners is checked for full coverage in constant time.

use crate::text::is_signed_seq;
use crate::text::lines_of;
use crate::text::parse_i64;
use crate::text::signed_val;
use crate::text::spec_lines;
use crate::text::spec_split;
use crate::text::split_on;
use crate::util::grid::Grid;
use crate::util::point::Point;
use itertools::Itertools;
use vstd::prelude::*;
use std::collections::VecDeque;
use vstd::string::StringSliceAdditionalSpecFns;

verus! {

/// What a cell of the classification grid is known to be. `Unknown` is the
/// initial state; the filler moves cells to `Interior`, the flood fill moves
/// cells to `Exterior`, and both of those are terminal.
#[derive(Clone, Copy, Debug, PartialEq, Eq, Structural)]
pub enum CellState {
    Unknown,
    Interior,
    Exterior,
}

// ------------------------- coordinate compression -------------------------

/// Strictly increasing.
pub open spec fn sorted_strict(s: Seq<i32>) -> bool {
    forall|i: int, j: int| 0 <= i < j < s.len() ==> s[i] < s[j]
}

/// `axis` is the compressed coordinate array for the raw values `vals`: it
/// is strictly sorted and holds exactly the raw values plus the two
/// sentinels.
pub open spec fn is_axis(vals: Seq<i32>, axis: Seq<i32>) -> bool {
    &&& sorted_strict(axis)
    &&& forall|v: i32|
        #[trigger] axis.contains(v) <==> (vals.contains(v) || v == i32::MIN || v == i32::MAX)
}

/// A strictly sorted sequence is determined by the set of its values.
pub proof fn lemma_axis_unique(a: Seq<i32>, b: Seq<i32>)
    requires
        sorted_strict(a),
        sorted_strict(b),
        forall|v: i32| #[trigger] a.contains(v) <==> b.contains(v),
    ensures
        a =~= b,
    decreases a.len(),
{
    if a.len() == 0 {
        if b.len() > 0 {
            assert(b.contains(b[0]));
            assert(a.contains(b[0]));
            assert(false);
        }
        assert(a =~= b);
    } else {
        assert(a.contains(a[0]));
        assert(b.contains(a[0]));
        if b.len() == 0 {
            assert(!b.contains(a[0]));
        }
        let i = choose|i: int| 0 <= i < b.len() && b[i] == a[0];
        assert(b[0] <= b[i]) by {
            if i > 0 {
                assert(b[0] < b[i]);
            }
        }
        assert(b.contains(b[0]));
        assert(a.contains(b[0]));
        let j = choose|j: int| 0 <= j < a.len() && a[j] == b[0];
        assert(a[0] <= a[j]) by {
            if j > 0 {
                assert(a[0] < a[j]);
            }
        }
        assert(a[0] == b[0]);
        let at = a.skip(1);
        let bt = b.skip(1);
        assert forall|v: i32| #[trigger] at.contains(v) <==> bt.contains(v) by {
            if at.contains(v) {
                let k = choose|k: int| 0 <= k < at.len() && at[k] == v;
                assert(a[k + 1] == v);
                assert(a[0] < v);
                assert(a.contains(v));
                assert(b.contains(v));
                let m = choose|m: int| 0 <= m < b.len() && b[m] == v;
                assert(m != 0);
                assert(bt[m - 1] == v);
                assert(bt.contains(v));
            }
            if bt.contains(v) {
                let k = choose|k: int| 0 <= k < bt.len() && bt[k] == v;
                assert(b[k + 1] == v);
                assert(b[0] < v);
                assert(b.contains(v));
                assert(a.contains(v));
                let m = choose|m: int| 0 <= m < a.len() && a[m] == v;
                assert(m != 0);
                assert(at[m - 1] == v);
                assert(at.contains(v));
            }
        }
        lemma_axis_unique(at, bt);
        assert(at =~= bt);
        assert(a.len() == b.len());
        assert forall|idx: int| 0 <= idx < a.len() implies a[idx] == b[idx] by {
            if idx > 0 {
                assert(a[idx] == at[idx - 1]);
                assert(b[idx] == bt[idx - 1]);
                assert(at[idx - 1] == bt[idx - 1]);
            }
        }
        assert(a =~= b);
    }
}

/// In a strictly sorted sequence an element has only one position.
pub proof fn lemma_sorted_index_unique(a: Seq<i32>, i: int, j: int)
    requires
        sorted_strict(a),
        0 <= i < a.len(),
        0 <= j < a.len(),
        a[i] == a[j],
    ensures
        i == j,
{
}

/// Inserts `x` into the strictly sorted `out`, keeping it strictly sorted;
/// a value already present is left alone.
fn insert_unique(out: &mut Vec<i32>, x: i32)
    requires
        sorted_strict(old(out)@),
    ensures
        sorted_strict(final(out)@),
        forall|v: i32|
            #[trigger] final(out)@.contains(v) <==> (old(out)@.contains(v) || v == x),
        old(out)@.len() <= final(out)@.len() <= old(out)@.len() + 1,
{
    let mut i: usize = 0;
    while i < out.len() && out[i] < x
        invariant
            sorted_strict(out@),
            i <= out@.len(),
            forall|j: int| 0 <= j < i ==> out@[j] < x,
        decreases out@.len() - i,
    {
        i = i + 1;
    }
    if i < out.len() && out[i] == x {
        proof {
            assert(out@.contains(x));
        }
        return ;
    }
    let ghost prev = out@;
    out.insert(i, x);
    proof {
        assert(out@ =~= prev.take(i as int).push(x) + prev.skip(i as int));
        assert forall|p: int, q: int| 0 <= p < q < out@.len() implies out@[p] < out@[q] by {
            if p < i && q == i {
                assert(out@[p] == prev[p]);
            } else if p == i && q > i {
                assert(out@[q] == prev[q - 1]);
                assert(prev[i as int] != x);
                assert(x <= prev[i as int]);
                assert(prev[i as int] <= prev[q - 1]);
            } else if p < i && q > i {
                assert(out@[p] == prev[p] && out@[q] == prev[q - 1]);
            } else if p > i && q > i {
                assert(out@[p] == prev[p - 1] && out@[q] == prev[q - 1]);
            } else {
                assert(out@[p] == prev[p] && out@[q] == prev[q]);
            }
        }
        assert forall|v: i32| #[trigger] out@.contains(v) implies (prev.contains(v) || v == x) by {
            let k = choose|k: int| 0 <= k < out@.len() && out@[k] == v;
            if k < i {
                assert(prev[k] == v);
            } else if k > i {
                assert(prev[k - 1] == v);
            }
        }
        assert forall|v: i32| prev.contains(v) || v == x implies #[trigger] out@.contains(v) by {
            if v == x {
                assert(out@[i as int] == x);
            } else {
                let k = choose|k: int| 0 <= k < prev.len() && prev[k] == v;
                if k < i {
                    assert(out@[k] == v);
                } else {
                    assert(out@[k + 1] == v);
                }
            }
        }
    }
}

/// The compressed coordinate array for `vals`: its distinct values in
/// increasing order, between a minimum and a maximum sentinel.
pub fn compress_axis(vals: &Vec<i32>) -> (axis: Vec<i32>)
    ensures
        is_axis(vals@, axis@),
        2 <= axis@.len() <= vals@.len() + 2,
        axis@[0] == i32::MIN,
        axis@[axis@.len() - 1] == i32::MAX,
{
    let mut axis: Vec<i32> = Vec::new();
    axis.push(i32::MIN);
    proof {
        assert(axis@ =~= seq![i32::MIN]);
        assert forall|v: i32| #[trigger] axis@.contains(v) <==> v == i32::MIN by {
            if v == i32::MIN {
                assert(axis@[0] == i32::MIN);
            }
        }
    }
    insert_unique(&mut axis, i32::MAX);
    proof {
        assert(axis@.contains(i32::MIN));
        assert(axis@.contains(i32::MAX));
        let a = choose|a: int| 0 <= a < axis@.len() && axis@[a] == i32::MIN;
        let b = choose|b: int| 0 <= b < axis@.len() && axis@[b] == i32::MAX;
        assert(a != b);
    }
    let mut k: usize = 0;
    while k < vals.len()
        invariant
            sorted_strict(axis@),
            k <= vals@.len(),
            2 <= axis@.len() <= k + 2,
            forall|v: i32|
                #[trigger] axis@.contains(v) <==> (vals@.take(k as int).contains(v) || v
                    == i32::MIN || v == i32::MAX),
        decreases vals@.len() - k,
    {
        let ghost prevk = k as int;
        let ghost aprev = axis@;
        insert_unique(&mut axis, vals[k]);
        k = k + 1;
        proof {
            assert(forall|v: i32|
                #[trigger] axis@.contains(v) <==> (aprev.contains(v) || v == vals@[prevk]));
            assert(vals@.take(prevk + 1) =~= vals@.take(prevk).push(vals@[prevk]));
            assert forall|v: i32|
                vals@.take(prevk + 1).contains(v) implies (vals@.take(prevk).contains(v) || v
                == vals@[prevk]) by {
                let m = choose|m: int| 0 <= m < prevk + 1 && #[trigger] vals@.take(prevk + 1)[m]
                    == v;
                if m < prevk {
                    assert(vals@.take(prevk)[m] == v);
                }
            }
            assert forall|v: i32|
                vals@.take(prevk).contains(v) || v == vals@[prevk] implies vals@.take(
                prevk + 1,
            ).contains(v) by {
                if v == vals@[prevk] {
                    assert(vals@.take(prevk + 1)[prevk] == v);
                } else {
                    let m = choose|m: int| 0 <= m < prevk && #[trigger] vals@.take(prevk)[m] == v;
                    assert(vals@.take(prevk + 1)[m] == v);
                }
            }
            assert(vals@.take(k as int) == vals@.take(prevk + 1));
            assert forall|v: i32|
                #[trigger] axis@.contains(v) <==> (vals@.take(k as int).contains(v) || v
                    == i32::MIN || v == i32::MAX) by {
                assert(axis@.contains(v) <==> (aprev.contains(v) || v == vals@[prevk]));
                assert(aprev.contains(v) <==> (vals@.take(prevk).contains(v) || v == i32::MIN || v
                    == i32::MAX));
                assert(vals@.take(prevk + 1).contains(v) <==> (vals@.take(prevk).contains(v) || v
                    == vals@[prevk]));
            }
        }
    }
    proof {
        assert(vals@.take(vals@.len() as int) =~= vals@);
        assert(axis@.contains(i32::MIN));
        assert(axis@.contains(i32::MAX));
        let a = choose|a: int| 0 <= a < axis@.len() && axis@[a] == i32::MIN;
        if a > 0 {
            assert(axis@[0] < axis@[a]);
        }
        let b = choose|b: int| 0 <= b < axis@.len() && axis@[b] == i32::MAX;
        if b < axis@.len() - 1 {
            assert(axis@[b] < axis@[axis@.len() - 1]);
        }
    }
    axis
}

/// The position of `v` on the axis.
pub fn index_of(axis: &Vec<i32>, v: i32) -> (r: usize)
    requires
        axis@.contains(v),
    ensures
        r < axis@.len(),
        axis@[r as int] == v,
{
    let mut i: usize = 0;
    while i < axis.len()
        invariant
            i <= axis@.len(),
            axis@.contains(v),
            forall|j: int| 0 <= j < i ==> axis@[j] != v,
        decreases axis@.len() - i,
    {
        if axis[i] == v {
            return i;
        }
        i = i + 1;
    }
    proof {
        let k = choose|k: int| 0 <= k < axis@.len() && axis@[k] == v;
        assert(false);
    }
    0
}

// ------------------------------ room filling ------------------------------

/// An axis-aligned rectangle of grid cells, bounds inclusive.
#[derive(Clone, Copy, Debug, PartialEq, Eq, Structural)]
pub struct Rect {
    pub x1: i32,
    pub y1: i32,
    pub x2: i32,
    pub y2: i32,
}

/// Whether cell `(x, y)` lies in `r`.
pub open spec fn rect_covers(r: Rect, x: int, y: int) -> bool {
    r.x1 <= x <= r.x2 && r.y1 <= y <= r.y2
}

/// Whether some rectangle of `rs` covers cell `(x, y)`.
pub open spec fn covered(rs: Seq<Rect>, x: int, y: int) -> bool {
    exists|k: int| 0 <= k < rs.len() && rect_covers(#[trigger] rs[k], x, y)
}

/// `r` is a well-formed rectangle on a `w` x `h` grid.
pub open spec fn rect_in_grid(r: Rect, w: int, h: int) -> bool {
    0 <= r.x1 <= r.x2 < w && 0 <= r.y1 <= r.y2 < h
}

/// How a grid looks after rasterizing the rectangles `rs` onto `g0`: every
/// covered cell is `Interior`, every other cell is untouched.
pub open spec fn fill_result(g0: Grid<CellState>, g: Grid<CellState>, rs: Seq<Rect>) -> bool {
    &&& g.wf()
    &&& g.width == g0.width
    &&& g.height == g0.height
    &&& forall|x: int, y: int|
        g0.spec_in_bounds(x, y) ==> g.cell(x, y) == (if covered(rs, x, y) {
            CellState::Interior
        } else {
            g0.cell(x, y)
        })
}

/// Marks every cell of `r` as `Interior`.
#[verifier::loop_isolation(false)]
fn fill_rect(grid: &mut Grid<CellState>, r: Rect)
    requires
        old(grid).wf(),
        rect_in_grid(r, old(grid).width as int, old(grid).height as int),
    ensures
        final(grid).wf(),
        final(grid).width == old(grid).width,
        final(grid).height == old(grid).height,
        forall|x: int, y: int|
            old(grid).spec_in_bounds(x, y) ==> final(grid).cell(x, y) == (if rect_covers(r, x, y) {
                CellState::Interior
            } else {
                old(grid).cell(x, y)
            }),
{
    let ghost g0 = *grid;
    let mut x: i32 = r.x1;
    while x <= r.x2
        invariant
            grid.wf(),
            g0.wf(),
            grid.width == g0.width,
            grid.height == g0.height,
            rect_in_grid(r, g0.width as int, g0.height as int),
            r.x1 <= x <= r.x2 + 1,
            forall|xx: int, yy: int|
                g0.spec_in_bounds(xx, yy) ==> grid.cell(xx, yy) == (if (rect_covers(r, xx, yy)
                    && xx < x) {
                    CellState::Interior
                } else {
                    g0.cell(xx, yy)
                }),
        decreases r.x2 + 1 - x,
    {
        let mut y: i32 = r.y1;
        while y <= r.y2
            invariant
                grid.wf(),
                g0.wf(),
                grid.width == g0.width,
                grid.height == g0.height,
                rect_in_grid(r, g0.width as int, g0.height as int),
                r.x1 <= x <= r.x2,
                r.y1 <= y <= r.y2 + 1,
                forall|xx: int, yy: int|
                    g0.spec_in_bounds(xx, yy) ==> grid.cell(xx, yy) == (if (rect_covers(r, xx, yy)
                        && (xx < x || (xx == x && yy < y))) {
                        CellState::Interior
                    } else {
                        g0.cell(xx, yy)
                    }),
            decreases r.y2 + 1 - y,
        {
            let ghost gmid = *grid;
            grid.set(Point { x, y }, CellState::Interior);
            proof {
                assert forall|xx: int, yy: int|
                    g0.spec_in_bounds(xx, yy) implies grid.cell(xx, yy) == (if (rect_covers(
                    r,
                    xx,
                    yy,
                ) && (xx < x || (xx == x && yy < y + 1))) {
                    CellState::Interior
                } else {
                    g0.cell(xx, yy)
                }) by {
                    if xx == x && yy == y {
                        assert(grid.cell(xx, yy) == CellState::Interior);
                    } else {
                        assert(grid.cell(xx, yy) == gmid.cell(xx, yy));
                        assert(gmid.cell(xx, yy) == (if (rect_covers(r, xx, yy) && (xx < x || (xx
                            == x && yy < y))) {
                            CellState::Interior
                        } else {
                            g0.cell(xx, yy)
                        }));
                    }
                }
            }
            y = y + 1;
        }
        x = x + 1;
    }
}

/// Rasterizes every rectangle of `rects` onto the grid.
pub fn fill_rooms(grid: &mut Grid<CellState>, rects: &Vec<Rect>)
    requires
        old(grid).wf(),
        forall|k: int|
            0 <= k < rects@.len() ==> rect_in_grid(
                #[trigger] rects@[k],
                old(grid).width as int,
                old(grid).height as int,
            ),
    ensures
        fill_result(*old(grid), *final(grid), rects@),
{
    let mut k: usize = 0;
    while k < rects.len()
        invariant
            grid.wf(),
            grid.width == old(grid).width,
            grid.height == old(grid).height,
            k <= rects@.len(),
            forall|j: int|
                0 <= j < rects@.len() ==> rect_in_grid(
                    #[trigger] rects@[j],
                    grid.width as int,
                    grid.height as int,
                ),
            forall|x: int, y: int|
                old(grid).spec_in_bounds(x, y) ==> grid.cell(x, y) == (if covered(
                    rects@.take(k as int),
                    x,
                    y,
                ) {
                    CellState::Interior
                } else {
                    old(grid).cell(x, y)
                }),
        decreases rects@.len() - k,
    {
        let ghost gprev = *grid;
        let ghost kk = k as int;
        fill_rect(grid, rects[k]);
        k = k + 1;
        proof {
            assert forall|x: int, y: int| old(grid).spec_in_bounds(x, y) implies grid.cell(x, y)
                == (if covered(rects@.take(kk + 1), x, y) {
                CellState::Interior
            } else {
                old(grid).cell(x, y)
            }) by {
                if covered(rects@.take(kk + 1), x, y) {
                    let m = choose|m: int|
                        0 <= m < kk + 1 && rect_covers(#[trigger] rects@.take(kk + 1)[m], x, y);
                    if m == kk {
                        assert(rect_covers(rects@[kk], x, y));
                    } else {
                        assert(rects@.take(kk)[m] == rects@.take(kk + 1)[m]);
                        assert(covered(rects@.take(kk), x, y));
                    }
                } else {
                    assert(!rect_covers(rects@[kk], x, y)) by {
                        assert(rects@.take(kk + 1)[kk] == rects@[kk]);
                    }
                    assert(!covered(rects@.take(kk), x, y)) by {
                        if covered(rects@.take(kk), x, y) {
                            let m = choose|m: int|
                                0 <= m < kk && rect_covers(#[trigger] rects@.take(kk)[m], x, y);
                            assert(rects@.take(kk + 1)[m] == rects@.take(kk)[m]);
                        }
                    }
                }
            }
        }
    }
    proof {
        assert(rects@.take(rects@.len() as int) =~= rects@);
    }
}

/// Rasterizing is idempotent: filling the same rectangles onto an already
/// filled grid changes nothing.
pub proof fn lemma_fill_idempotent(
    g0: Grid<CellState>,
    g1: Grid<CellState>,
    g2: Grid<CellState>,
    rs: Seq<Rect>,
)
    requires
        fill_result(g0, g1, rs),
        fill_result(g1, g2, rs),
    ensures
        g2.width == g1.width,
        g2.height == g1.height,
        forall|x: int, y: int| g1.spec_in_bounds(x, y) ==> g2.cell(x, y) == g1.cell(x, y),
{
}

/// Rasterizing does not depend on the order of the rectangles: two lists
/// with the same members fill a grid identically.
pub proof fn lemma_fill_order_independent(
    g0: Grid<CellState>,
    ga: Grid<CellState>,
    gb: Grid<CellState>,
    rs_a: Seq<Rect>,
    rs_b: Seq<Rect>,
)
    requires
        fill_result(g0, ga, rs_a),
        fill_result(g0, gb, rs_b),
        forall|r: Rect| #[trigger] rs_a.contains(r) <==> rs_b.contains(r),
    ensures
        ga.width == gb.width,
        ga.height == gb.height,
        forall|x: int, y: int| g0.spec_in_bounds(x, y) ==> ga.cell(x, y) == gb.cell(x, y),
{
    assert forall|x: int, y: int| g0.spec_in_bounds(x, y) implies ga.cell(x, y) == gb.cell(
        x,
        y,
    ) by {
        if covered(rs_a, x, y) {
            let k = choose|k: int| 0 <= k < rs_a.len() && rect_covers(#[trigger] rs_a[k], x, y);
            assert(rs_a.contains(rs_a[k]));
            assert(rs_b.contains(rs_a[k]));
            let m = choose|m: int| 0 <= m < rs_b.len() && rs_b[m] == rs_a[k];
            assert(covered(rs_b, x, y));
        }
        if covered(rs_b, x, y) {
            let k = choose|k: int| 0 <= k < rs_b.len() && rect_covers(#[trigger] rs_b[k], x, y);
            assert(rs_b.contains(rs_b[k]));
            assert(rs_a.contains(rs_b[k]));
            let m = choose|m: int| 0 <= m < rs_a.len() && rs_a[m] == rs_b[k];
            assert(covered(rs_a, x, y));
        }
    }
}

// ----------------------------- exterior reach -----------------------------

/// Two cells share an edge.
pub open spec fn adj(a: (int, int), b: (int, int)) -> bool {
    ||| (a.0 == b.0 && a.1 + 1 == b.1)
    ||| (a.0 == b.0 && b.1 + 1 == a.1)
    ||| (a.1 == b.1 && a.0 + 1 == b.0)
    ||| (a.1 == b.1 && b.0 + 1 == a.0)
}

/// `p` is a 4-connected path running through `open_cells`.
#[verifier::opaque]
pub open spec fn path_ok(p: Seq<(int, int)>, open_cells: Set<(int, int)>) -> bool {
    &&& p.len() > 0
    &&& forall|i: int| 0 <= i < p.len() ==> open_cells.contains(#[trigger] p[i])
    &&& forall|i: int| 0 < i < p.len() ==> adj(p[i - 1], #[trigger] p[i])
}

/// The cell `c` can be reached from the margin seed `(0, 0)` through
/// `open_cells`.
#[verifier::opaque]
pub open spec fn reach(open_cells: Set<(int, int)>, c: (int, int)) -> bool {
    exists|p: Seq<(int, int)>|
        path_ok(p, open_cells) && p[0] == (0int, 0int) && p.last() == c
}

/// The cells a flood fill may pass through: on the grid and not `Interior`.
pub open spec fn grid_open(g: Grid<CellState>) -> Set<(int, int)> {
    Set::new(
        |c: (int, int)| g.spec_in_bounds(c.0, c.1) && g.cell(c.0, c.1) != CellState::Interior,
    )
}

/// The seed reaches `(x, y)` on the grid through non-`Interior` cells.
pub open spec fn grid_reach(g: Grid<CellState>, x: int, y: int) -> bool {
    reach(grid_open(g), (x, y))
}

/// An open seed reaches itself.
pub proof fn lemma_reach_base(open_cells: Set<(int, int)>)
    requires
        open_cells.contains((0int, 0int)),
    ensures
        reach(open_cells, (0int, 0int)),
{
    reveal(path_ok);
    reveal(reach);
    let p = seq![(0int, 0int)];
    assert(p[0] == (0int, 0int));
    assert(p.last() == (0int, 0int));
    assert(path_ok(p, open_cells));
}

/// Reach extends over an edge to an open neighbor.
pub proof fn lemma_reach_step(open_cells: Set<(int, int)>, c: (int, int), d: (int, int))
    requires
        reach(open_cells, c),
        adj(c, d),
        open_cells.contains(d),
    ensures
        reach(open_cells, d),
{
    reveal(path_ok);
    reveal(reach);
    let p = choose|p: Seq<(int, int)>|
        path_ok(p, open_cells) && p[0] == (0int, 0int) && p.last() == c;
    let q = p.push(d);
    assert forall|i: int| 0 < i < q.len() implies adj(q[i - 1], #[trigger] q[i]) by {
        if i < p.len() {
            assert(q[i - 1] == p[i - 1] && q[i] == p[i]);
        } else {
            assert(q[i - 1] == p.last() && q[i] == d);
        }
    }
    assert(path_ok(q, open_cells));
    assert(q[0] == (0int, 0int) && q.last() == d);
}

/// The number of cells that are not `Exterior`.
pub open spec fn cne(s: Seq<CellState>) -> nat
    decreases s.len(),
{
    if s.len() == 0 {
        0
    } else {
        cne(s.drop_last()) + (if s.last() != CellState::Exterior {
            1nat
        } else {
            0nat
        })
    }
}

/// Marking a cell `Exterior` lowers the count of the rest.
proof fn lemma_cne_update(s: Seq<CellState>, i: int)
    requires
        0 <= i < s.len(),
        s[i] != CellState::Exterior,
    ensures
        cne(s.update(i, CellState::Exterior)) < cne(s),
    decreases s.len(),
{
    let t = s.update(i, CellState::Exterior);
    if i == s.len() - 1 {
        assert(t.drop_last() =~= s.drop_last());
        assert(t.last() == CellState::Exterior);
    } else {
        assert(t.drop_last() =~= s.drop_last().update(i, CellState::Exterior));
        assert(s.drop_last()[i] == s[i]);
        lemma_cne_update(s.drop_last(), i);
        assert(t.last() == s.last());
    }
}

/// Whether some queue entry is the cell `(x, y)`.
pub open spec fn in_queue(q: Seq<Point>, x: int, y: int) -> bool {
    exists|k: int| 0 <= k < q.len() && (#[trigger] q[k]).x == x && q[k].y == y
}

/// Every open in-bounds neighbor of `(x, y)` is already `Exterior` in `g`.
pub open spec fn nbr_done(g0: Grid<CellState>, g: Grid<CellState>, x: int, y: int) -> bool {
    forall|nx: int, ny: int|
        g0.spec_in_bounds(nx, ny) && adj((x, y), (nx, ny)) && g0.cell(nx, ny)
            != CellState::Interior ==> #[trigger] g.cell(nx, ny) == CellState::Exterior
}

/// Visits one neighbor cell during the flood fill: a cell still `Unknown` is
/// reclassified `Exterior` and queued; any other cell is left alone.
fn visit(
    grid: &mut Grid<CellState>,
    queue: &mut VecDeque<Point>,
    np: Point,
    Ghost(g0): Ghost<Grid<CellState>>,
    Ghost(pc): Ghost<(int, int)>,
)
    requires
        old(grid).wf(),
        g0.wf(),
        old(grid).width == g0.width,
        old(grid).height == g0.height,
        g0.spec_in_bounds(np.x as int, np.y as int),
        adj(pc, (np.x as int, np.y as int)),
        reach(grid_open(g0), pc),
        forall|x: int, y: int|
            g0.spec_in_bounds(x, y) ==> (#[trigger] old(grid).cell(x, y) == CellState::Exterior
                || old(grid).cell(x, y) == g0.cell(x, y)),
    ensures
        final(grid).wf(),
        final(grid).width == g0.width,
        final(grid).height == g0.height,
        old(grid).cell(np.x as int, np.y as int) == CellState::Unknown ==> {
            &&& final(grid).cell(np.x as int, np.y as int) == CellState::Exterior
            &&& final(queue)@ == old(queue)@.push(np)
            &&& cne(final(grid).data@) < cne(old(grid).data@)
            &&& reach(grid_open(g0), (np.x as int, np.y as int))
        },
        old(grid).cell(np.x as int, np.y as int) != CellState::Unknown ==> {
            &&& *final(grid) == *old(grid)
            &&& final(queue)@ == old(queue)@
        },
        forall|x: int, y: int|
            g0.spec_in_bounds(x, y) && (x != np.x || y != np.y) ==> #[trigger] final(grid).cell(
                x,
                y,
            ) == old(grid).cell(x, y),
        forall|x: int, y: int|
            g0.spec_in_bounds(x, y) && old(grid).cell(x, y) == CellState::Exterior
                ==> #[trigger] final(grid).cell(x, y) == CellState::Exterior,
        forall|x: int, y: int|
            in_queue(old(queue)@, x, y) ==> in_queue(final(queue)@, x, y),
        forall|x: int, y: int|
            g0.spec_in_bounds(x, y) && #[trigger] final(grid).cell(x, y) == CellState::Exterior
                ==> (old(grid).cell(x, y) == CellState::Exterior || in_queue(
                final(queue)@,
                x,
                y,
            )),
{
    let c = grid.at(np.x, np.y);
    if c == CellState::Unknown {
        proof {
            assert(g0.cell(np.x as int, np.y as int) == CellState::Unknown);
            assert(grid_open(g0).contains((np.x as int, np.y as int)));
            lemma_reach_step(grid_open(g0), pc, (np.x as int, np.y as int));
            grid.lemma_index_in_range(np.x as int, np.y as int);
            assert(grid.data@[np.y * grid.width + np.x] == grid.cell(np.x as int, np.y as int));
            lemma_cne_update(grid.data@, np.y * grid.width + np.x);
        }
        let ghost qmid = queue@;
        grid.set(np, CellState::Exterior);
        queue.push_back(np);
        proof {
            assert(queue@[queue@.len() - 1] == np);
            assert(in_queue(queue@, np.x as int, np.y as int));
            assert forall|x: int, y: int| in_queue(qmid, x, y) implies in_queue(
                queue@,
                x,
                y,
            ) by {
                let k = choose|k: int|
                    0 <= k < qmid.len() && (#[trigger] qmid[k]).x == x && qmid[k].y == y;
                assert(queue@[k] == qmid[k]);
            }
        }
    }
}

/// How the grid looks after the exterior flood fill ran on `g0`: a cell is
/// `Exterior` exactly when the margin seed reaches it through non-`Interior`
/// cells; every other cell is untouched.
pub open spec fn flood_result(g0: Grid<CellState>, g: Grid<CellState>) -> bool {
    &&& g.wf()
    &&& g.width == g0.width
    &&& g.height == g0.height
    &&& forall|x: int, y: int|
        g0.spec_in_bounds(x, y) ==> g.cell(x, y) == (if grid_reach(g0, x, y) {
            CellState::Exterior
        } else {
            g0.cell(x, y)
        })
}

/// A cell on a path from an `Exterior` seed in a neighbor-closed grid is
/// itself `Exterior`.
proof fn lemma_path_marked(
    g0: Grid<CellState>,
    g: Grid<CellState>,
    p: Seq<(int, int)>,
    i: int,
)
    requires
        g0.wf(),
        g.wf(),
        g.width == g0.width,
        g.height == g0.height,
        path_ok(p, grid_open(g0)),
        p[0] == (0int, 0int),
        g.cell(0, 0) == CellState::Exterior,
        forall|x: int, y: int|
            g0.spec_in_bounds(x, y) && #[trigger] g.cell(x, y) == CellState::Exterior ==> nbr_done(
                g0,
                g,
                x,
                y,
            ),
        0 <= i < p.len(),
    ensures
        g.cell(p[i].0, p[i].1) == CellState::Exterior,
    decreases i,
{
    reveal(path_ok);
    if i == 0 {
    } else {
        lemma_path_marked(g0, g, p, i - 1);
        assert(grid_open(g0).contains(p[i - 1]));
        assert(grid_open(g0).contains(p[i]));
        assert(adj(p[i - 1], p[i]));
        assert(g0.spec_in_bounds(p[i - 1].0, p[i - 1].1));
        assert(nbr_done(g0, g, p[i - 1].0, p[i - 1].1));
    }
}

/// Breadth-first exterior flood fill from the margin seed `(0, 0)`. The seed
/// must still be `Unknown` and no cell may be `Exterior` yet.
#[verifier::rlimit(100)]
pub fn flood_fill(grid: &mut Grid<CellState>)
    requires
        old(grid).wf(),
        1 <= old(grid).width,
        1 <= old(grid).height,
        old(grid).cell(0, 0) == CellState::Unknown,
        forall|x: int, y: int|
            old(grid).spec_in_bounds(x, y) ==> #[trigger] old(grid).cell(x, y)
                != CellState::Exterior,
    ensures
        flood_result(*old(grid), *final(grid)),
{
    let ghost g0 = *grid;
    let mut queue: VecDeque<Point> = VecDeque::new();
    grid.set(Point { x: 0, y: 0 }, CellState::Exterior);
    queue.push_back(Point { x: 0, y: 0 });
    proof {
        assert(grid_open(g0).contains((0int, 0int)));
        lemma_reach_base(grid_open(g0));
        assert(in_queue(queue@, 0, 0)) by {
            assert(queue@[0].x == 0 && queue@[0].y == 0);
        }
    }
    while queue.len() > 0
        invariant
            grid.wf(),
            g0.wf(),
            grid.width == g0.width,
            grid.height == g0.height,
            1 <= g0.width,
            1 <= g0.height,
            g0.cell(0, 0) == CellState::Unknown,
            forall|x: int, y: int|
                g0.spec_in_bounds(x, y) ==> #[trigger] g0.cell(x, y) != CellState::Exterior,
            grid.cell(0, 0) == CellState::Exterior,
            forall|x: int, y: int|
                g0.spec_in_bounds(x, y) ==> (#[trigger] grid.cell(x, y) == CellState::Exterior
                    || grid.cell(x, y) == g0.cell(x, y)),
            forall|x: int, y: int|
                g0.spec_in_bounds(x, y) && #[trigger] grid.cell(x, y) == CellState::Exterior
                    ==> grid_reach(g0, x, y),
            forall|k: int|
                0 <= k < queue@.len() ==> g0.spec_in_bounds(
                    (#[trigger] queue@[k]).x as int,
                    queue@[k].y as int,
                ) && grid.cell(queue@[k].x as int, queue@[k].y as int) == CellState::Exterior,
            forall|x: int, y: int|
                g0.spec_in_bounds(x, y) && #[trigger] grid.cell(x, y) == CellState::Exterior
                    && !in_queue(queue@, x, y) ==> nbr_done(g0, *grid, x, y),
        decreases cne(grid.data@), queue@.len(),
    {
        let ghost qhead = queue@;
        let ghost ghead = *grid;
        let p = queue.pop_front().unwrap();
        let ghost pc = (p.x as int, p.y as int);
        proof {
            assert(qhead[0] == p);
            assert(grid_reach(g0, pc.0, pc.1));
        }
        if p.x > 0 {
            visit(grid, &mut queue, Point { x: p.x - 1, y: p.y }, Ghost(g0), Ghost(pc));
        }
        if p.x + 1 < grid.width {
            visit(grid, &mut queue, Point { x: p.x + 1, y: p.y }, Ghost(g0), Ghost(pc));
        }
        if p.y > 0 {
            visit(grid, &mut queue, Point { x: p.x, y: p.y - 1 }, Ghost(g0), Ghost(pc));
        }
        if p.y + 1 < grid.height {
            visit(grid, &mut queue, Point { x: p.x, y: p.y + 1 }, Ghost(g0), Ghost(pc));
        }
        proof {
            // the popped cell now has every open neighbor marked
            assert(nbr_done(g0, *grid, pc.0, pc.1)) by {
                assert forall|nx: int, ny: int|
                    g0.spec_in_bounds(nx, ny) && adj((pc.0, pc.1), (nx, ny)) && g0.cell(nx, ny)
                        != CellState::Interior implies #[trigger] grid.cell(nx, ny)
                    == CellState::Exterior by {
                    assert(grid.cell(nx, ny) == CellState::Exterior || grid.cell(nx, ny)
                        == g0.cell(nx, ny));
                }
            }
            // cells that sat behind the head keep a queue entry
            assert forall|x: int, y: int|
                in_queue(qhead, x, y) && (x != pc.0 || y != pc.1) implies in_queue(
                queue@,
                x,
                y,
            ) by {
                let k = choose|k: int|
                    0 <= k < qhead.len() && (#[trigger] qhead[k]).x == x && qhead[k].y == y;
                assert(k != 0);
                assert(in_queue(queue@, x, y)) by {
                    assert(queue@[k - 1] == qhead[k]);
                }
            }
            assert forall|x: int, y: int|
                g0.spec_in_bounds(x, y) && #[trigger] grid.cell(x, y) == CellState::Exterior
                    && !in_queue(queue@, x, y) implies nbr_done(g0, *grid, x, y) by {
                if x == pc.0 && y == pc.1 {
                    assert(nbr_done(g0, *grid, x, y));
                } else if ghead.cell(x, y) == CellState::Exterior {
                    if in_queue(qhead, x, y) {
                        assert(in_queue(queue@, x, y));
                    } else {
                        assert(nbr_done(g0, ghead, x, y));
                        assert forall|nx: int, ny: int|
                            g0.spec_in_bounds(nx, ny) && adj((x, y), (nx, ny)) && g0.cell(nx, ny)
                                != CellState::Interior implies #[trigger] grid.cell(nx, ny)
                            == CellState::Exterior by {
                            assert(ghead.cell(nx, ny) == CellState::Exterior);
                        }
                        assert(nbr_done(g0, *grid, x, y));
                    }
                } else {
                    assert(in_queue(queue@, x, y));
                }
            }
        }
    }
    proof {
        assert forall|x: int, y: int| g0.spec_in_bounds(x, y) implies grid.cell(x, y) == (
        if grid_reach(g0, x, y) {
            CellState::Exterior
        } else {
            g0.cell(x, y)
        }) by {
            if grid_reach(g0, x, y) {
                reveal(reach);
                reveal(path_ok);
                let p = choose|p: Seq<(int, int)>|
                    path_ok(p, grid_open(g0)) && p[0] == (0int, 0int) && p.last() == (x, y);
                lemma_path_marked(g0, *grid, p, p.len() - 1);
            } else {
                assert(grid.cell(x, y) != CellState::Exterior);
            }
        }
    }
}


// ------------------------------ prefix sums -------------------------------

/// 1 when the cell counts toward coverage (it is not `Exterior`), else 0.
pub open spec fn ind(g: Grid<CellState>, x: int, y: int) -> int {
    if g.cell(x, y) != CellState::Exterior {
        1
    } else {
        0
    }
}

/// Non-exterior cells in row `y`, columns 1 through `x`.
pub open spec fn row_cnt(g: Grid<CellState>, x: int, y: int) -> int
    decreases x,
{
    if x < 1 {
        0
    } else {
        row_cnt(g, x - 1, y) + ind(g, x, y)
    }
}

/// Non-exterior cells in columns 1 through `x` of rows 1 through `y`.
pub open spec fn psum(g: Grid<CellState>, x: int, y: int) -> int
    decreases y,
{
    if y < 1 {
        0
    } else {
        psum(g, x, y - 1) + row_cnt(g, x, y)
    }
}

proof fn lemma_row_cnt_bounds(g: Grid<CellState>, x: int, y: int)
    ensures
        0 <= row_cnt(g, x, y),
        row_cnt(g, x, y) <= (if x < 1 {
            0int
        } else {
            x
        }),
    decreases x,
{
    if x >= 1 {
        lemma_row_cnt_bounds(g, x - 1, y);
    }
}

proof fn lemma_psum_bounds(g: Grid<CellState>, x: int, y: int)
    ensures
        0 <= psum(g, x, y),
        psum(g, x, y) <= (if x < 1 || y < 1 {
            0int
        } else {
            x * y
        }),
    decreases y,
{
    if y >= 1 {
        lemma_psum_bounds(g, x, y - 1);
        lemma_row_cnt_bounds(g, x, y);
        if x >= 1 {
            assert(x * (y - 1) + x == x * y) by (nonlinear_arith);
        }
    }
}

/// The 2-D prefix-sum index over the classification grid: entry `(x, y)`
/// holds the number of non-exterior cells in the block from `(1, 1)` to
/// `(x, y)`; row 0 and column 0 are a zero baseline.
pub fn prefix_sums(grid: &Grid<CellState>) -> (ps: Grid<i64>)
    requires
        grid.wf(),
        1 <= grid.width,
        1 <= grid.height,
    ensures
        ps.wf(),
        ps.width == grid.width,
        ps.height == grid.height,
        forall|x: int, y: int|
            ps.spec_in_bounds(x, y) ==> #[trigger] ps.cell(x, y) == psum(*grid, x, y),
{
    let mut ps: Grid<i64> = Grid::new(grid.width, grid.height, 0i64);
    proof {
        assert forall|x: int, y: int|
            ps.spec_in_bounds(x, y) && (x == 0 || y == 0) implies #[trigger] ps.cell(x, y) == psum(
            *grid,
            x,
            y,
        ) by {
            lemma_psum_bounds(*grid, x, y);
        }
    }
    let mut y: i32 = 1;
    while y < grid.height
        invariant
            grid.wf(),
            ps.wf(),
            ps.width == grid.width,
            ps.height == grid.height,
            1 <= grid.width,
            1 <= grid.height,
            1 <= y <= grid.height,
            forall|xx: int, yy: int|
                ps.spec_in_bounds(xx, yy) && (yy < y || xx == 0) ==> #[trigger] ps.cell(xx, yy)
                    == psum(*grid, xx, yy),
        decreases grid.height - y,
    {
        let mut x: i32 = 1;
        while x < grid.width
            invariant
                grid.wf(),
                ps.wf(),
                ps.width == grid.width,
                ps.height == grid.height,
                1 <= grid.width,
                1 <= grid.height,
                1 <= y < grid.height,
                1 <= x <= grid.width,
                forall|xx: int, yy: int|
                    ps.spec_in_bounds(xx, yy) && (yy < y || xx == 0 || (yy == y && xx < x))
                        ==> #[trigger] ps.cell(xx, yy) == psum(*grid, xx, yy),
            decreases grid.width - x,
        {
            let a = ps.at(x - 1, y);
            let b = ps.at(x, y - 1);
            let c = ps.at(x - 1, y - 1);
            let cell = grid.at(x, y);
            let iv: i64 = if cell != CellState::Exterior {
                1
            } else {
                0
            };
            proof {
                lemma_psum_bounds(*grid, x - 1, y as int);
                lemma_psum_bounds(*grid, x as int, y - 1);
                lemma_psum_bounds(*grid, x - 1, y - 1);
                lemma_psum_bounds(*grid, x as int, y as int);
                assert((x as int) * (y as int) <= grid.width * grid.height) by (nonlinear_arith)
                    requires
                        0 <= x < grid.width && 0 <= y < grid.height,
                ;
                assert((x - 1) * (y as int) <= x * (y as int) && (x as int) * (y - 1) <= x * (
                y as int) && (x - 1) * (y - 1) <= x * (y as int)) by (nonlinear_arith)
                    requires
                        1 <= x && 1 <= y,
                ;
            }
            let v: i64 = iv + a + b - c;
            proof {
                assert(v == psum(*grid, x as int, y as int));
            }
            ps.set(Point { x, y }, v);
            x = x + 1;
        }
        y = y + 1;
    }
    ps
}

// ------------------------------ range queries -----------------------------

/// Non-exterior cells in the inclusive rectangle, summed row by row.
pub open spec fn rect_cnt(g: Grid<CellState>, x1: int, y1: int, x2: int, y2: int) -> int
    decreases y2 - y1 + 1,
{
    if y2 < y1 {
        0
    } else {
        rect_cnt(g, x1, y1, x2, y2 - 1) + (row_cnt(g, x2, y2) - row_cnt(g, x1 - 1, y2))
    }
}

proof fn lemma_rect_cnt_psum(g: Grid<CellState>, x1: int, y1: int, x2: int, y2: int)
    requires
        1 <= x1,
        1 <= y1,
        x1 - 1 <= x2,
        y1 - 1 <= y2,
    ensures
        rect_cnt(g, x1, y1, x2, y2) == psum(g, x2, y2) - psum(g, x1 - 1, y2) - psum(g, x2, y1 - 1)
            + psum(g, x1 - 1, y1 - 1),
    decreases y2 - y1 + 1,
{
    if y2 >= y1 {
        lemma_rect_cnt_psum(g, x1, y1, x2, y2 - 1);
    }
}

/// The constant-time coverage query: the number of non-exterior cells in
/// the inclusive rectangle from `(x1, y1)` to `(x2, y2)`, read off the
/// prefix-sum index by inclusion-exclusion.
pub fn count(
    ps: &Grid<i64>,
    Ghost(g): Ghost<Grid<CellState>>,
    x1: i32,
    y1: i32,
    x2: i32,
    y2: i32,
) -> (r: i64)
    requires
        ps.wf(),
        g.wf(),
        ps.width == g.width,
        ps.height == g.height,
        forall|x: int, y: int|
            ps.spec_in_bounds(x, y) ==> #[trigger] ps.cell(x, y) == psum(g, x, y),
        1 <= x1 <= x2,
        x2 < ps.width,
        1 <= y1 <= y2,
        y2 < ps.height,
    ensures
        r == rect_cnt(g, x1 as int, y1 as int, x2 as int, y2 as int),
{
    let a = ps.at(x2, y2);
    let b = ps.at(x1 - 1, y2);
    let c = ps.at(x2, y1 - 1);
    let d = ps.at(x1 - 1, y1 - 1);
    proof {
        lemma_psum_bounds(g, x2 as int, y2 as int);
        lemma_psum_bounds(g, x1 - 1, y2 as int);
        lemma_psum_bounds(g, x2 as int, y1 - 1);
        lemma_psum_bounds(g, x1 - 1, y1 - 1);
        assert((x2 as int) * (y2 as int) <= g.width * g.height) by (nonlinear_arith)
            requires
                0 <= x2 < g.width && 0 <= y2 < g.height,
        ;
        assert((x1 - 1) * (y2 as int) <= x2 * (y2 as int) && (x2 as int) * (y1 - 1) <= x2 * (
        y2 as int) && (x1 - 1) * (y1 - 1) <= x2 * (y2 as int)) by (nonlinear_arith)
            requires
                1 <= x1 <= x2 && 1 <= y1 <= y2,
        ;
        lemma_rect_cnt_psum(g, x1 as int, y1 as int, x2 as int, y2 as int);
    }
    a - b - c + d
}

/// Non-exterior cells in row `y`, columns `x1` through `x2`, one by one.
pub open spec fn row_range_cnt(g: Grid<CellState>, x1: int, x2: int, y: int) -> int
    decreases x2 - x1 + 1,
{
    if x2 < x1 {
        0
    } else {
        row_range_cnt(g, x1, x2 - 1, y) + ind(g, x2, y)
    }
}

/// Non-exterior cells in the inclusive rectangle, counted cell by cell.
pub open spec fn recount(g: Grid<CellState>, x1: int, y1: int, x2: int, y2: int) -> int
    decreases y2 - y1 + 1,
{
    if y2 < y1 {
        0
    } else {
        recount(g, x1, y1, x2, y2 - 1) + row_range_cnt(g, x1, x2, y2)
    }
}

proof fn lemma_row_range(g: Grid<CellState>, x1: int, x2: int, y: int)
    requires
        1 <= x1,
        x1 - 1 <= x2,
    ensures
        row_range_cnt(g, x1, x2, y) == row_cnt(g, x2, y) - row_cnt(g, x1 - 1, y),
    decreases x2 - x1 + 1,
{
    if x2 >= x1 {
        lemma_row_range(g, x1, x2 - 1, y);
    }
}

/// The prefix-sum range query agrees with a direct cell-by-cell recount
/// over the same inclusive rectangle.
pub proof fn lemma_count_matches_recount(g: Grid<CellState>, x1: int, y1: int, x2: int, y2: int)
    requires
        1 <= x1,
        1 <= y1,
        x1 - 1 <= x2,
        y1 - 1 <= y2,
    ensures
        rect_cnt(g, x1, y1, x2, y2) == recount(g, x1, y1, x2, y2),
    decreases y2 - y1 + 1,
{
    if y2 >= y1 {
        lemma_count_matches_recount(g, x1, y1, x2, y2 - 1);
        lemma_row_range(g, x1, x2, y2);
    }
}

proof fn lemma_row_full(g: Grid<CellState>, x1: int, x2: int, y: int)
    requires
        x1 - 1 <= x2,
    ensures
        row_range_cnt(g, x1, x2, y) <= x2 - x1 + 1,
        (row_range_cnt(g, x1, x2, y) == x2 - x1 + 1) <==> (forall|x: int|
            x1 <= x <= x2 ==> #[trigger] g.cell(x, y) != CellState::Exterior),
    decreases x2 - x1 + 1,
{
    if x2 < x1 {
    } else {
        lemma_row_full(g, x1, x2 - 1, y);
        if row_range_cnt(g, x1, x2, y) == x2 - x1 + 1 {
            assert(forall|x: int| x1 <= x <= x2 - 1 ==> #[trigger] g.cell(x, y)
                != CellState::Exterior);
            assert(ind(g, x2, y) == 1);
        }
        if forall|x: int| x1 <= x <= x2 ==> #[trigger] g.cell(x, y) != CellState::Exterior {
            assert(row_range_cnt(g, x1, x2 - 1, y) == x2 - 1 - x1 + 1);
            assert(g.cell(x2, y) != CellState::Exterior);
        }
    }
}

/// Full coverage is exact: the cell-by-cell count of an inclusive rectangle
/// never exceeds its area, and reaches the area exactly when every cell in
/// it is non-exterior.
pub proof fn lemma_full_cover(g: Grid<CellState>, x1: int, y1: int, x2: int, y2: int)
    requires
        x1 - 1 <= x2,
        y1 - 1 <= y2,
    ensures
        recount(g, x1, y1, x2, y2) <= (x2 - x1 + 1) * (y2 - y1 + 1),
        (recount(g, x1, y1, x2, y2) == (x2 - x1 + 1) * (y2 - y1 + 1)) <==> (forall|x: int, y: int|
            x1 <= x <= x2 && y1 <= y <= y2 ==> #[trigger] g.cell(x, y) != CellState::Exterior),
    decreases y2 - y1 + 1,
{
    let w = x2 - x1 + 1;
    if y2 < y1 {
        assert(w * (y2 - y1 + 1) == 0) by (nonlinear_arith)
            requires
                y2 - y1 + 1 == 0,
        ;
    } else {
        lemma_full_cover(g, x1, y1, x2, y2 - 1);
        lemma_row_full(g, x1, x2, y2);
        assert(w * (y2 - y1 + 1) == w * (y2 - 1 - y1 + 1) + w) by (nonlinear_arith);
        if recount(g, x1, y1, x2, y2) == w * (y2 - y1 + 1) {
            assert(recount(g, x1, y1, x2, y2 - 1) == w * (y2 - 1 - y1 + 1) && row_range_cnt(
                g,
                x1,
                x2,
                y2,
            ) == w);
            assert forall|x: int, y: int|
                x1 <= x <= x2 && y1 <= y <= y2 implies #[trigger] g.cell(x, y)
                != CellState::Exterior by {
                if y < y2 {
                    assert((recount(g, x1, y1, x2, y2 - 1) == (x2 - x1 + 1) * (y2 - 1 - y1 + 1))
                        <==> (forall|xa: int, ya: int|
                        x1 <= xa <= x2 && y1 <= ya <= y2 - 1 ==> #[trigger] g.cell(xa, ya)
                            != CellState::Exterior));
                }
            }
        }
        if forall|x: int, y: int|
            x1 <= x <= x2 && y1 <= y <= y2 ==> #[trigger] g.cell(x, y) != CellState::Exterior {
            assert(forall|x: int, y: int|
                x1 <= x <= x2 && y1 <= y <= y2 - 1 ==> #[trigger] g.cell(x, y)
                    != CellState::Exterior);
            assert(recount(g, x1, y1, x2, y2 - 1) == w * (y2 - 1 - y1 + 1));
            assert(forall|x: int| x1 <= x <= x2 ==> #[trigger] g.cell(x, y2)
                != CellState::Exterior);
            assert(row_range_cnt(g, x1, x2, y2) == w);
        }
    }
}


// ----------------------------- the spec model ----------------------------

/// The x values of a point sequence.
pub open spec fn xs_of(points: Seq<Point>) -> Seq<i32> {
    points.map_values(|p: Point| p.x)
}

/// The y values of a point sequence.
pub open spec fn ys_of(points: Seq<Point>) -> Seq<i32> {
    points.map_values(|p: Point| p.y)
}

/// The canonical compressed axis of a value sequence. There is exactly one
/// sequence satisfying `is_axis` (see `lemma_axis_unique`).
pub open spec fn axis_of(vals: Seq<i32>) -> Seq<i32> {
    choose|a: Seq<i32>| is_axis(vals, a)
}

/// The position of `v` on `axis`; on a strictly sorted axis it is unique.
pub open spec fn idx_in(axis: Seq<i32>, v: i32) -> int {
    choose|i: int| 0 <= i < axis.len() && axis[i] == v
}

/// Every coordinate lies strictly between the two sentinel values.
pub open spec fn points_in_range(points: Seq<Point>) -> bool {
    forall|k: int|
        0 <= k < points.len() ==> i32::MIN < (#[trigger] points[k]).x < i32::MAX && i32::MIN
            < points[k].y < i32::MAX
}

/// Room `k` (between point `k` and its cyclic successor) covers the
/// compressed cell `(x, y)`.
pub open spec fn room_covers(points: Seq<Point>, k: int, x: int, y: int) -> bool {
    let k2 = if k + 1 < points.len() {
        k + 1
    } else {
        0
    };
    let xs = axis_of(xs_of(points));
    let ys = axis_of(ys_of(points));
    let ax = idx_in(xs, points[k].x);
    let bx = idx_in(xs, points[k2].x);
    let ay = idx_in(ys, points[k].y);
    let by = idx_in(ys, points[k2].y);
    vstd::math::min(ax, bx) <= x <= vstd::math::max(ax, bx) && vstd::math::min(ay, by) <= y
        <= vstd::math::max(ay, by)
}

/// The compressed cell `(x, y)` belongs to some room.
pub open spec fn model_filled(points: Seq<Point>, x: int, y: int) -> bool {
    exists|k: int| 0 <= k < points.len() && room_covers(points, k, x, y)
}

/// The compressed cells a flood fill may pass through: on the compressed
/// grid and belonging to no room.
pub open spec fn model_open(points: Seq<Point>) -> Set<(int, int)> {
    Set::new(
        |c: (int, int)|
            0 <= c.0 < axis_of(xs_of(points)).len() && 0 <= c.1 < axis_of(ys_of(points)).len()
                && !model_filled(points, c.0, c.1),
    )
}

/// The compressed cell `(x, y)` lies outside the rooms: the sentinel margin
/// seed reaches it through cells belonging to no room.
pub open spec fn outside(points: Seq<Point>, x: int, y: int) -> bool {
    reach(model_open(points), (x, y))
}

/// The pair of corner points `i` and `j` spans a fully covered rectangle:
/// no compressed cell between them lies outside the rooms.
pub open spec fn pair_covered(points: Seq<Point>, i: int, j: int) -> bool {
    let xs = axis_of(xs_of(points));
    let ys = axis_of(ys_of(points));
    let x1 = vstd::math::min(idx_in(xs, points[i].x), idx_in(xs, points[j].x));
    let x2 = vstd::math::max(idx_in(xs, points[i].x), idx_in(xs, points[j].x));
    let y1 = vstd::math::min(idx_in(ys, points[i].y), idx_in(ys, points[j].y));
    let y2 = vstd::math::max(idx_in(ys, points[i].y), idx_in(ys, points[j].y));
    forall|x: int, y: int| x1 <= x <= x2 && y1 <= y <= y2 ==> !#[trigger] outside(points, x, y)
}

/// The area in raw coordinates of the rectangle spanned by two corners,
/// bounds inclusive.
pub open spec fn spec_area(p: Point, q: Point) -> int {
    ((vstd::math::abs(p.x - q.x) + 1) * (vstd::math::abs(p.y - q.y) + 1)) as int
}

/// A cell no path may enter is not reached.
proof fn lemma_reach_open(open_cells: Set<(int, int)>, c: (int, int))
    requires
        reach(open_cells, c),
    ensures
        open_cells.contains(c),
{
    reveal(reach);
    reveal(path_ok);
    let p = choose|p: Seq<(int, int)>|
        path_ok(p, open_cells) && p[0] == (0int, 0int) && p.last() == c;
    assert(open_cells.contains(p[p.len() - 1]));
}

// ------------------------------- the parser -------------------------------

/// The line spells two comma-separated signed numbers that fit an `i32`.
pub open spec fn point_line_ok(l: Seq<u8>) -> bool {
    let fs = spec_split(l, 44);
    fs.len() == 2 && is_signed_seq(fs[0]) && is_signed_seq(fs[1]) && i32::MIN <= signed_val(fs[0])
        <= i32::MAX && i32::MIN <= signed_val(fs[1]) <= i32::MAX
}

/// The point a well-formed line spells.
pub open spec fn point_of_line(l: Seq<u8>) -> Point {
    let fs = spec_split(l, 44);
    Point { x: signed_val(fs[0]) as i32, y: signed_val(fs[1]) as i32 }
}

/// Reads one corner point per line, written as `x,y`. A malformed line is
/// skipped; on input whose lines are all well-formed the result is exactly
/// the spelled point sequence.
pub fn parse(input: &str) -> (r: Vec<Point>)
    ensures
        ({
            let ls = spec_lines(input.spec_bytes());
            (forall|i: int| 0 <= i < ls.len() ==> point_line_ok(#[trigger] ls[i])) ==> {
                &&& r@.len() == ls.len()
                &&& forall|i: int| 0 <= i < ls.len() ==> r@[i] == point_of_line(#[trigger] ls[i])
            }
        }),
{
    let ghost ls = spec_lines(input.spec_bytes());
    let lines = lines_of(input);
    let mut out: Vec<Point> = Vec::new();
    let mut k: usize = 0;
    while k < lines.len()
        invariant
            lines@.map_values(|l: Vec<u8>| l@) =~= ls,
            k <= lines@.len(),
            (forall|i: int| 0 <= i < k ==> point_line_ok(#[trigger] ls[i])) ==> {
                &&& out@.len() == k
                &&& forall|i: int| 0 <= i < k ==> out@[i] == point_of_line(#[trigger] ls[i])
            },
        decreases lines@.len() - k,
    {
        let fields = split_on(lines[k].as_slice(), 44);
        proof {
            assert(lines@[k as int]@ == ls[k as int]);
            assert(fields@.map_values(|l: Vec<u8>| l@) =~= spec_split(ls[k as int], 44));
        }
        if fields.len() == 2 {
            let fx = parse_i64(fields[0].as_slice());
            let fy = parse_i64(fields[1].as_slice());
            match (fx, fy) {
                (Some(xv), Some(yv)) => {
                    if i32::MIN as i64 <= xv && xv <= i32::MAX as i64 && i32::MIN as i64 <= yv
                        && yv <= i32::MAX as i64 {
                        out.push(Point { x: xv as i32, y: yv as i32 });
                    }
                },
                _ => {},
            }
        }
        k = k + 1;
    }
    out
}

// ------------------------- largest pairwise spans -------------------------

/// The inclusive-bounds area of the rectangle two corners span. The bound
/// in the precondition is a machine limit: the product must fit in `u64`.
pub fn area(p1: &Point, p2: &Point) -> (r: u64)
    requires
        spec_area(*p1, *p2) <= u64::MAX,
    ensures
        r == spec_area(*p1, *p2),
{
    let dx: i64 = (p1.x as i64) - (p2.x as i64);
    let dx: i64 = if dx < 0 {
        -dx
    } else {
        dx
    };
    let dy: i64 = (p1.y as i64) - (p2.y as i64);
    let dy: i64 = if dy < 0 {
        -dy
    } else {
        dy
    };
    let xd: u64 = (dx as u64) + 1;
    let yd: u64 = (dy as u64) + 1;
    proof {
        assert(xd * yd == spec_area(*p1, *p2)) by (nonlinear_arith)
            requires
                xd == vstd::math::abs(p1.x - p2.x) + 1 && yd == vstd::math::abs(p1.y - p2.y) + 1
                    && spec_area(*p1, *p2) == (vstd::math::abs(p1.x - p2.x) + 1) * (vstd::math::abs(
                    p1.y - p2.y,
                ) + 1),
        ;
    }
    xd * yd
}

/// Every unordered pair of corner points, each once.
///
/// Relies on `itertools::Itertools::tuple_combinations`, which yields the
/// 2-element combinations of the iterator: one tuple for every pair of
/// positions `i < j`, and nothing else.
#[verifier::external_body]
fn point_pairs(coords: &Vec<Point>) -> (r: Vec<(Point, Point)>)
    ensures
        r@.len() == coords@.len() * (coords@.len() - 1) / 2,
        forall|i: int, j: int|
            #![trigger coords@[i], coords@[j]]
            0 <= i < j < coords@.len() ==> r@.contains((coords@[i], coords@[j])),
        forall|k: int|
            0 <= k < r@.len() ==> exists|i: int, j: int|
                0 <= i < j < coords@.len() && #[trigger] r@[k] == (coords@[i], coords@[j]),
{
    coords.iter().tuple_combinations().map(|(a, b): (&Point, &Point)| (*a, *b)).collect()
}

/// The largest area spanned by any pair of distinct corner points, with no
/// coverage check. The area bound is a machine limit: every pairwise area
/// must fit in `u64`.
#[verifier::loop_isolation(false)]
#[verifier::rlimit(100)]
pub fn part_1(coords: &Vec<Point>) -> (r: u64)
    requires
        2 <= coords@.len(),
        forall|i: int, j: int|
            0 <= i < coords@.len() && 0 <= j < coords@.len() ==> #[trigger] spec_area(
                coords@[i],
                coords@[j],
            ) <= u64::MAX,
    ensures
        forall|i: int, j: int|
            0 <= i < j < coords@.len() ==> #[trigger] spec_area(coords@[i], coords@[j]) <= r,
        exists|i: int, j: int|
            0 <= i < j < coords@.len() && #[trigger] spec_area(coords@[i], coords@[j]) == r,
{
    let pairs = point_pairs(coords);
    proof {
        assert(coords@.len() * (coords@.len() - 1) / 2 >= 1) by (nonlinear_arith)
            requires
                coords@.len() >= 2,
        ;
    }
    let mut best: u64 = 0;
    let mut k: usize = 0;
    while k < pairs.len()
        invariant
            k <= pairs@.len(),
            forall|m: int| 0 <= m < k ==> spec_area((#[trigger] pairs@[m]).0, pairs@[m].1) <= best,
            k > 0 ==> exists|m: int|
                0 <= m < k && spec_area((#[trigger] pairs@[m]).0, pairs@[m].1) == best,
            k == 0 ==> best == 0,
        decreases pairs@.len() - k,
    {
        let pa = pairs[k].0;
        let pb = pairs[k].1;
        proof {
            let (i, j) = choose|i: int, j: int|
                0 <= i < j < coords@.len() && #[trigger] pairs@[k as int] == (
                coords@[i],
                coords@[j],
                );
            assert(spec_area(pa, pb) <= u64::MAX);
        }
        let a = area(&pa, &pb);
        if a > best || k == 0 {
            best = a;
        }
        k = k + 1;
    }
    proof {
        let m = choose|m: int|
            0 <= m < pairs@.len() && spec_area((#[trigger] pairs@[m]).0, pairs@[m].1) == best;
        let (i, j) = choose|i: int, j: int|
            0 <= i < j < coords@.len() && #[trigger] pairs@[m] == (coords@[i], coords@[j]);
        assert(spec_area(coords@[i], coords@[j]) == best);
        assert forall|i2: int, j2: int|
            0 <= i2 < j2 < coords@.len() implies #[trigger] spec_area(coords@[i2], coords@[j2])
            <= best by {
            assert(pairs@.contains((coords@[i2], coords@[j2])));
            let m2 = choose|m2: int|
                0 <= m2 < pairs@.len() && pairs@[m2] == (coords@[i2], coords@[j2]);
            assert(spec_area(pairs@[m2].0, pairs@[m2].1) <= best);
        }
    }
    best
}


/// The largest area spanned by a fully covered pair of corner points. The
/// corners describe the cyclic room chain; a pair counts only when every
/// compressed cell between its two corners belongs to the covered region.
/// The size bounds are machine limits: the compressed grid must fit in the
/// index type and every pairwise area in `u64`.
#[verifier::loop_isolation(false)]
#[verifier::rlimit(100)]
pub fn part_2(coords: &Vec<Point>) -> (r: u64)
    requires
        1 <= coords@.len(),
        (coords@.len() + 2) * (coords@.len() + 2) <= i32::MAX,
        points_in_range(coords@),
        forall|i: int, j: int|
            0 <= i < coords@.len() && 0 <= j < coords@.len() ==> #[trigger] spec_area(
                coords@[i],
                coords@[j],
            ) <= u64::MAX,
    ensures
        forall|i: int, j: int|
            0 <= i < j < coords@.len() && pair_covered(coords@, i, j) ==> #[trigger] spec_area(
                coords@[i],
                coords@[j],
            ) <= r,
        r != 0 ==> exists|i: int, j: int|
            0 <= i < j < coords@.len() && pair_covered(coords@, i, j) && #[trigger] spec_area(
                coords@[i],
                coords@[j],
            ) == r,
        r == 0 ==> forall|i: int, j: int|
            0 <= i < j < coords@.len() ==> !#[trigger] pair_covered(coords@, i, j),
{
    let n: usize = coords.len();
    let ghost pts = coords@;

    // phase 1: coordinate compression with sentinel margins
    let mut x_vals: Vec<i32> = Vec::new();
    let mut y_vals: Vec<i32> = Vec::new();
    let mut k: usize = 0;
    while k < n
        invariant
            k <= n,
            x_vals@.len() == k,
            y_vals@.len() == k,
            forall|m: int| 0 <= m < k ==> x_vals@[m] == (#[trigger] pts[m]).x,
            forall|m: int| 0 <= m < k ==> y_vals@[m] == (#[trigger] pts[m]).y,
        decreases n - k,
    {
        x_vals.push(coords[k].x);
        y_vals.push(coords[k].y);
        k = k + 1;
    }
    proof {
        assert(x_vals@ =~= xs_of(pts));
        assert(y_vals@ =~= ys_of(pts));
    }
    let xs = compress_axis(&x_vals);
    let ys = compress_axis(&y_vals);
    let ghost gxs = axis_of(xs_of(pts));
    let ghost gys = axis_of(ys_of(pts));
    proof {
        assert(is_axis(xs_of(pts), gxs)) by {
            assert(is_axis(xs_of(pts), xs@));
        }
        lemma_axis_unique(xs@, gxs);
        assert(xs@ == gxs);
        assert(is_axis(ys_of(pts), gys)) by {
            assert(is_axis(ys_of(pts), ys@));
        }
        lemma_axis_unique(ys@, gys);
        assert(ys@ == gys);
    }
    proof {
        assert(pts.len() + 2 <= (pts.len() + 2) * (pts.len() + 2)) by (nonlinear_arith)
            requires
                pts.len() >= 0,
        ;
    }
    let w: i32 = xs.len() as i32;
    let h: i32 = ys.len() as i32;
    proof {
        assert(w * h <= i32::MAX) by (nonlinear_arith)
            requires
                0 < w <= coords@.len() + 2 && 0 < h <= coords@.len() + 2 && (coords@.len() + 2) * (
                coords@.len() + 2) <= i32::MAX,
        ;
    }

    // phase 2: map each corner onto the compressed grid
    let mut shrunk: Vec<Point> = Vec::new();
    let mut k: usize = 0;
    while k < n
        invariant
            k <= n,
            shrunk@.len() == k,
            forall|m: int|
                0 <= m < k ==> (#[trigger] shrunk@[m]).x == idx_in(gxs, pts[m].x)
                    && shrunk@[m].y == idx_in(gys, pts[m].y) && 1 <= shrunk@[m].x <= w - 2 && 1
                    <= shrunk@[m].y <= h - 2,
        decreases n - k,
    {
        let vx = coords[k].x;
        let vy = coords[k].y;
        proof {
            assert(xs_of(pts)[k as int] == vx);
            assert(xs_of(pts).contains(vx));
            assert(xs@.contains(vx));
            assert(ys_of(pts)[k as int] == vy);
            assert(ys_of(pts).contains(vy));
            assert(ys@.contains(vy));
        }
        let ix = index_of(&xs, vx);
        let iy = index_of(&ys, vy);
        proof {
            let c = idx_in(gxs, vx);
            assert(0 <= c < gxs.len() && gxs[c] == vx);
            lemma_sorted_index_unique(gxs, ix as int, c);
            if ix == 0 {
                assert(vx == i32::MIN);
            }
            if ix == xs@.len() - 1 {
                assert(vx == i32::MAX);
            }
            let d = idx_in(gys, vy);
            assert(0 <= d < gys.len() && gys[d] == vy);
            lemma_sorted_index_unique(gys, iy as int, d);
            if iy == 0 {
                assert(vy == i32::MIN);
            }
            if iy == ys@.len() - 1 {
                assert(vy == i32::MAX);
            }
        }
        shrunk.push(Point { x: ix as i32, y: iy as i32 });
        k = k + 1;
    }

    // phase 3: rasterize each room onto the classification grid
    let mut rects: Vec<Rect> = Vec::new();
    let mut k: usize = 0;
    while k < n
        invariant
            k <= n,
            rects@.len() == k,
            forall|m: int|
                0 <= m < k ==> rect_in_grid(#[trigger] rects@[m], w as int, h as int) && 1
                    <= rects@[m].x1 && rects@[m].x2 <= w - 2 && 1 <= rects@[m].y1 && rects@[m].y2
                    <= h - 2,
            forall|m: int, x: int, y: int|
                #![trigger rect_covers(rects@[m], x, y)]
                0 <= m < k ==> (rect_covers(rects@[m], x, y) <==> room_covers(pts, m, x, y)),
        decreases n - k,
    {
        let p1 = shrunk[k];
        let k2: usize = if k + 1 < n {
            k + 1
        } else {
            0
        };
        let p2 = shrunk[k2];
        let x1 = if p1.x <= p2.x {
            p1.x
        } else {
            p2.x
        };
        let x2 = if p1.x <= p2.x {
            p2.x
        } else {
            p1.x
        };
        let y1 = if p1.y <= p2.y {
            p1.y
        } else {
            p2.y
        };
        let y2 = if p1.y <= p2.y {
            p2.y
        } else {
            p1.y
        };
        let rect = Rect { x1, y1, x2, y2 };
        rects.push(rect);
        k = k + 1;
    }
    let mut grid: Grid<CellState> = Grid::new(w, h, CellState::Unknown);
    let ghost gempty = grid;
    fill_rooms(&mut grid, &rects);
    let ghost g1 = grid;
    proof {
        assert forall|x: int, y: int| #[trigger] covered(rects@, x, y) implies model_filled(
            pts,
            x,
            y,
        ) by {
            let m = choose|m: int| 0 <= m < rects@.len() && rect_covers(#[trigger] rects@[m], x, y);
            assert(room_covers(pts, m, x, y));
        }
        assert forall|x: int, y: int| #[trigger] model_filled(pts, x, y) implies covered(
            rects@,
            x,
            y,
        ) by {
            let m = choose|m: int| 0 <= m < pts.len() && #[trigger] room_covers(pts, m, x, y);
            assert(rect_covers(rects@[m], x, y));
        }
        // the sentinel margin is never filled, so the flood-fill seed is open
        assert(!covered(rects@, 0, 0));
        assert(g1.cell(0, 0) == CellState::Unknown);
        assert forall|x: int, y: int| g1.spec_in_bounds(x, y) implies #[trigger] g1.cell(x, y)
            != CellState::Exterior by {
        }
        assert(grid_open(g1) =~= model_open(pts)) by {
            assert forall|c: (int, int)|
                grid_open(g1).contains(c) implies model_open(pts).contains(c) by {
                assert(g1.cell(c.0, c.1) != CellState::Interior);
                assert(!covered(rects@, c.0, c.1));
            }
            assert forall|c: (int, int)|
                model_open(pts).contains(c) implies grid_open(g1).contains(c) by {
                assert(!model_filled(pts, c.0, c.1));
            }
        }
    }

    // phase 4: flood the exterior in from the margin seed
    flood_fill(&mut grid);
    let ghost g2 = grid;
    proof {
        assert forall|x: int, y: int| g2.spec_in_bounds(x, y) implies (#[trigger] g2.cell(x, y)
            != CellState::Exterior <==> !outside(pts, x, y)) by {
            assert(grid_reach(g1, x, y) == outside(pts, x, y));
        }
    }

    // phase 5: build the index and check every pair of corners
    let ps = prefix_sums(&grid);
    let mut best: u64 = 0;
    let mut i: usize = 0;
    while i < n
        invariant
            i <= n,
            forall|ii: int, jj: int|
                0 <= ii < jj < n && ii < i && pair_covered(pts, ii, jj) ==> #[trigger] spec_area(
                    pts[ii],
                    pts[jj],
                ) <= best,
            best != 0 ==> exists|ii: int, jj: int|
                0 <= ii < jj < n && pair_covered(pts, ii, jj) && #[trigger] spec_area(
                    pts[ii],
                    pts[jj],
                ) == best,
            best == 0 ==> forall|ii: int, jj: int|
                0 <= ii < jj < n && ii < i ==> !#[trigger] pair_covered(pts, ii, jj),
        decreases n - i,
    {
        let mut j: usize = i + 1;
        while j < n
            invariant
                i < j <= n,
                forall|ii: int, jj: int|
                    0 <= ii < jj < n && (ii < i || (ii == i && jj < j)) && pair_covered(
                        pts,
                        ii,
                        jj,
                    ) ==> #[trigger] spec_area(pts[ii], pts[jj]) <= best,
                best != 0 ==> exists|ii: int, jj: int|
                    0 <= ii < jj < n && pair_covered(pts, ii, jj) && #[trigger] spec_area(
                        pts[ii],
                        pts[jj],
                    ) == best,
                best == 0 ==> forall|ii: int, jj: int|
                    0 <= ii < jj < n && (ii < i || (ii == i && jj < j)) ==> !#[trigger] pair_covered(
                        pts,
                        ii,
                        jj,
                    ),
            decreases n - j,
        {
            let pi = shrunk[i];
            let pj = shrunk[j];
            let x1 = if pi.x <= pj.x {
                pi.x
            } else {
                pj.x
            };
            let x2 = if pi.x <= pj.x {
                pj.x
            } else {
                pi.x
            };
            let y1 = if pi.y <= pj.y {
                pi.y
            } else {
                pj.y
            };
            let y2 = if pi.y <= pj.y {
                pj.y
            } else {
                pi.y
            };
            proof {
                assert(((x2 - x1 + 1) as i64) * ((y2 - y1 + 1) as i64) <= 0x4000000000000000i64)
                    by (nonlinear_arith)
                    requires
                        1 <= (x2 - x1 + 1) as i64 <= 0x80000000i64 && 1 <= (y2 - y1 + 1) as i64
                            <= 0x80000000i64,
                ;
            }
            let expected: i64 = ((x2 - x1 + 1) as i64) * ((y2 - y1 + 1) as i64);
            let actual: i64 = count(&ps, Ghost(g2), x1, y1, x2, y2);
            proof {
                lemma_count_matches_recount(g2, x1 as int, y1 as int, x2 as int, y2 as int);
                lemma_full_cover(g2, x1 as int, y1 as int, x2 as int, y2 as int);
                assert((recount(g2, x1 as int, y1 as int, x2 as int, y2 as int) == (x2 - x1 + 1) * (
                y2 - y1 + 1)) <==> (forall|x: int, y: int|
                    x1 <= x <= x2 && y1 <= y <= y2 ==> !#[trigger] outside(pts, x, y))) by {
                    if forall|x: int, y: int|
                        x1 <= x <= x2 && y1 <= y <= y2 ==> #[trigger] g2.cell(x, y)
                            != CellState::Exterior {
                        assert forall|x: int, y: int|
                            x1 <= x <= x2 && y1 <= y <= y2 implies !#[trigger] outside(
                            pts,
                            x,
                            y,
                        ) by {
                            assert(g2.cell(x, y) != CellState::Exterior);
                        }
                    }
                    if forall|x: int, y: int|
                        x1 <= x <= x2 && y1 <= y <= y2 ==> !#[trigger] outside(pts, x, y) {
                        assert forall|x: int, y: int|
                            x1 <= x <= x2 && y1 <= y <= y2 implies #[trigger] g2.cell(x, y)
                            != CellState::Exterior by {
                            assert(!outside(pts, x, y));
                        }
                    }
                }
                assert((expected == actual) <==> pair_covered(pts, i as int, j as int)) by {
                    assert(x1 as int == vstd::math::min(
                        idx_in(gxs, pts[i as int].x),
                        idx_in(gxs, pts[j as int].x),
                    ));
                    assert(x2 as int == vstd::math::max(
                        idx_in(gxs, pts[i as int].x),
                        idx_in(gxs, pts[j as int].x),
                    ));
                    assert(y1 as int == vstd::math::min(
                        idx_in(gys, pts[i as int].y),
                        idx_in(gys, pts[j as int].y),
                    ));
                    assert(y2 as int == vstd::math::max(
                        idx_in(gys, pts[i as int].y),
                        idx_in(gys, pts[j as int].y),
                    ));
                }
            }
            if expected == actual {
                let a = area(&coords[i], &coords[j]);
                proof {
                    assert(spec_area(pts[i as int], pts[j as int]) >= 1) by (nonlinear_arith)
                        requires
                            spec_area(pts[i as int], pts[j as int]) == (vstd::math::abs(
                                pts[i as int].x - pts[j as int].x,
                            ) + 1) * (vstd::math::abs(pts[i as int].y - pts[j as int].y) + 1),
                    ;
                }
                if a > best {
                    best = a;
                }
            }
            j = j + 1;
        }
        i = i + 1;
    }
    best
}

// --------------------------------- laws ----------------------------------

/// Flood-fill completeness: once the fill has run, the margin seed and
/// every cell it reaches through a 4-connected path of non-`Interior`
/// cells is `Exterior`; no reachable cell stays `Unknown`.
pub proof fn lemma_flood_completeness(g0: Grid<CellState>, g: Grid<CellState>, x: int, y: int)
    requires
        flood_result(g0, g),
        g0.spec_in_bounds(x, y),
        grid_reach(g0, x, y),
    ensures
        g.cell(x, y) == CellState::Exterior,
{
}

/// Flood-fill soundness: the fill marks nothing else, so a cell the seed
/// cannot reach keeps its prior state.
pub proof fn lemma_flood_soundness(g0: Grid<CellState>, g: Grid<CellState>, x: int, y: int)
    requires
        flood_result(g0, g),
        g0.spec_in_bounds(x, y),
        !grid_reach(g0, x, y),
    ensures
        g.cell(x, y) == g0.cell(x, y),
{
}

/// Every room is itself a covered pair: the rectangle spanned by two
/// cyclically adjacent corners is exactly that room, so no cell in it can
/// lie outside. With exactly two points this is the whole search space.
pub proof fn lemma_room_pair_covered(points: Seq<Point>, i: int, j: int)
    requires
        1 <= points.len(),
        0 <= i < j < points.len(),
        j == i + 1 || (i == 0 && j == points.len() - 1),
    ensures
        pair_covered(points, i, j),
{
    let k = if j == i + 1 {
        i
    } else {
        j
    };
    let xs = axis_of(xs_of(points));
    let ys = axis_of(ys_of(points));
    let x1 = vstd::math::min(idx_in(xs, points[i].x), idx_in(xs, points[j].x));
    let x2 = vstd::math::max(idx_in(xs, points[i].x), idx_in(xs, points[j].x));
    let y1 = vstd::math::min(idx_in(ys, points[i].y), idx_in(ys, points[j].y));
    let y2 = vstd::math::max(idx_in(ys, points[i].y), idx_in(ys, points[j].y));
    assert forall|x: int, y: int|
        x1 <= x <= x2 && y1 <= y <= y2 implies !#[trigger] outside(points, x, y) by {
        assert(room_covers(points, k, x, y));
        assert(model_filled(points, x, y));
        if outside(points, x, y) {
            lemma_reach_open(model_open(points), (x, y));
        }
    }
}

/// Rejection: a candidate pair whose spanned rectangle holds even one
/// outside cell is not covered, and the cell-by-cell count of such a
/// rectangle falls short of its area (see `lemma_gap_fails_coverage`).
pub proof fn lemma_gap_pair_rejected(points: Seq<Point>, i: int, j: int, x: int, y: int)
    requires
        0 <= i < points.len(),
        0 <= j < points.len(),
        vstd::math::min(
            idx_in(axis_of(xs_of(points)), points[i].x),
            idx_in(axis_of(xs_of(points)), points[j].x),
        ) <= x <= vstd::math::max(
            idx_in(axis_of(xs_of(points)), points[i].x),
            idx_in(axis_of(xs_of(points)), points[j].x),
        ),
        vstd::math::min(
            idx_in(axis_of(ys_of(points)), points[i].y),
            idx_in(axis_of(ys_of(points)), points[j].y),
        ) <= y <= vstd::math::max(
            idx_in(axis_of(ys_of(points)), points[i].y),
            idx_in(axis_of(ys_of(points)), points[j].y),
        ),
        outside(points, x, y),
    ensures
        !pair_covered(points, i, j),
{
}

/// An exterior cell inside a rectangle makes its cell-by-cell coverage
/// count fall strictly short of the rectangle's area.
pub proof fn lemma_gap_fails_coverage(
    g: Grid<CellState>,
    x1: int,
    y1: int,
    x2: int,
    y2: int,
    x: int,
    y: int,
)
    requires
        x1 <= x <= x2,
        y1 <= y <= y2,
        g.cell(x, y) == CellState::Exterior,
    ensures
        recount(g, x1, y1, x2, y2) < (x2 - x1 + 1) * (y2 - y1 + 1),
{
    lemma_full_cover(g, x1, y1, x2, y2);
}


} // verus!
