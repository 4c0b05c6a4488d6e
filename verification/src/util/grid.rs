//! A rectangular grid stored row-major in a flat vector, with bounds-checked
//! access by [`Point`].

use crate::text::spec_lines;
use crate::text::lines_of;
use crate::util::point::Point;
use vstd::prelude::*;
use vstd::string::StringSliceAdditionalSpecFns;

verus! {

/// A `width` x `height` grid of cells, stored row by row.
#[derive(Clone, Debug, PartialEq, Eq)]
pub struct Grid<T> {
    pub height: i32,
    pub width: i32,
    pub data: Vec<T>,
}

impl<T> Grid<T> {
    /// The dimensions are consistent with the storage.
    pub open spec fn wf(&self) -> bool {
        0 <= self.width && 0 <= self.height && self.data@.len() == self.width * self.height
            && self.data@.len() <= i32::MAX
    }

    /// Whether `(x, y)` lies on the grid.
    pub open spec fn spec_in_bounds(&self, x: int, y: int) -> bool {
        0 <= x < self.width && 0 <= y < self.height
    }

    /// The cell at `(x, y)`.
    pub open spec fn cell(&self, x: int, y: int) -> T {
        self.data@[y * self.width + x]
    }

    /// The flat index of `(x, y)` lies within the storage.
    pub proof fn lemma_index_in_range(&self, x: int, y: int)
        requires
            self.wf(),
            self.spec_in_bounds(x, y),
        ensures
            0 <= y * self.width + x < self.data@.len(),
    {
        assert(y * self.width + x < self.width * self.height && 0 <= y * self.width + x)
            by (nonlinear_arith)
            requires
                0 <= x < self.width && 0 <= y < self.height,
        ;
    }

    /// Whether `point` lies on the grid.
    pub fn in_bounds(&self, point: Point) -> (r: bool)
        ensures
            r == self.spec_in_bounds(point.x as int, point.y as int),
    {
        0 <= point.x && point.x < self.width && 0 <= point.y && point.y < self.height
    }
}

impl<T: Copy> Grid<T> {
    /// A `width` x `height` grid with every cell set to `value`.
    pub fn new(width: i32, height: i32, value: T) -> (g: Grid<T>)
        requires
            0 <= width,
            0 <= height,
            width * height <= i32::MAX,
        ensures
            g.wf(),
            g.width == width,
            g.height == height,
            forall|x: int, y: int| g.spec_in_bounds(x, y) ==> g.cell(x, y) == value,
    {
        proof {
            assert(0 <= (width as int) * (height as int)) by (nonlinear_arith)
                requires
                    0 <= width && 0 <= height,
            ;
        }
        let total: usize = (width as usize) * (height as usize);
        let mut data: Vec<T> = Vec::new();
        let mut i: usize = 0;
        while i < total
            invariant
                i <= total,
                data@.len() == i,
                forall|j: int| 0 <= j < i ==> data@[j] == value,
            decreases total - i,
        {
            data.push(value);
            i = i + 1;
        }
        let g = Grid { height, width, data };
        proof {
            assert forall|x: int, y: int| g.spec_in_bounds(x, y) implies g.cell(x, y)
                == value by {
                g.lemma_index_in_range(x, y);
            }
        }
        g
    }

    /// The cell at `point`, or `None` when it lies off the grid.
    pub fn get(&self, point: Point) -> (r: Option<T>)
        requires
            self.wf(),
        ensures
            r == if self.spec_in_bounds(point.x as int, point.y as int) {
                Some(self.cell(point.x as int, point.y as int))
            } else {
                None::<T>
            },
    {
        if point.x >= self.width || point.y >= self.height || point.x < 0 || point.y < 0 {
            return None;
        }
        proof {
            self.lemma_index_in_range(point.x as int, point.y as int);
        }
        let idx: usize = (point.y as usize) * (self.width as usize) + (point.x as usize);
        Some(self.data[idx])
    }

    /// The cell at `(x, y)`, which must lie on the grid.
    pub fn at(&self, x: i32, y: i32) -> (r: T)
        requires
            self.wf(),
            self.spec_in_bounds(x as int, y as int),
        ensures
            r == self.cell(x as int, y as int),
    {
        proof {
            self.lemma_index_in_range(x as int, y as int);
        }
        let idx: usize = (y as usize) * (self.width as usize) + (x as usize);
        self.data[idx]
    }

    /// Writes `value` at `point`, which must lie on the grid.
    pub fn set(&mut self, point: Point, value: T)
        requires
            old(self).wf(),
            old(self).spec_in_bounds(point.x as int, point.y as int),
        ensures
            final(self).wf(),
            final(self).width == old(self).width,
            final(self).height == old(self).height,
            final(self).cell(point.x as int, point.y as int) == value,
            forall|x: int, y: int|
                old(self).spec_in_bounds(x, y) && (x != point.x || y != point.y)
                    ==> final(self).cell(x, y) == old(self).cell(x, y),
            final(self).data@ == old(self).data@.update(
                point.y * old(self).width + point.x,
                value,
            ),
    {
        proof {
            self.lemma_index_in_range(point.x as int, point.y as int);
        }
        let idx: usize = (point.y as usize) * (self.width as usize) + (point.x as usize);
        self.data.set(idx, value);
        proof {
            assert forall|x: int, y: int|
                self.spec_in_bounds(x, y) && (x != point.x || y != point.y) implies self.cell(x, y)
                == old(self).cell(x, y) by {
                self.lemma_index_in_range(x, y);
                assert(y * self.width + x != point.y * self.width + point.x) by (nonlinear_arith)
                    requires
                        0 <= x < self.width && 0 <= y < self.height && 0 <= point.x < self.width
                            && 0 <= point.y < self.height && (x != point.x || y != point.y),
                ;
            }
        }
    }

    /// Writes `value` at `point` if it lies on the grid; reports whether it
    /// did. This is the bounds-checked, fallible write access.
    pub fn get_mut(&mut self, point: Point, value: T) -> (r: bool)
        requires
            old(self).wf(),
        ensures
            r == old(self).spec_in_bounds(point.x as int, point.y as int),
            final(self).wf(),
            final(self).width == old(self).width,
            final(self).height == old(self).height,
            r ==> final(self).cell(point.x as int, point.y as int) == value,
            forall|x: int, y: int|
                old(self).spec_in_bounds(x, y) && (x != point.x || y != point.y)
                    ==> final(self).cell(x, y) == old(self).cell(x, y),
            !r ==> *final(self) == *old(self),
    {
        if point.x >= self.width || point.y >= self.height || point.x < 0 || point.y < 0 {
            return false;
        }
        self.set(point, value);
        true
    }
}

impl Grid<u8> {
    /// Builds a grid from the lines of `input`. Rows are taken as long as
    /// each line is exactly as wide as the first; the consistent prefix of
    /// the input becomes the grid.
    pub fn parse(input: &str) -> (g: Grid<u8>)
        ensures
            g.wf(),
            ({
                let ls = spec_lines(input.spec_bytes());
                ls.len() > 0 && ls.len() <= i32::MAX && ls.len() * ls[0].len() <= i32::MAX && (forall|i: int|
                    0 <= i < ls.len() ==> #[trigger] ls[i].len() == ls[0].len()) ==> {
                    &&& g.width == ls[0].len()
                    &&& g.height == ls.len()
                    &&& forall|x: int, y: int|
                        g.spec_in_bounds(x, y) ==> g.cell(x, y) == ls[y][x]
                }
            }),
    {
        let lines = lines_of(input);
        let ghost ls = spec_lines(input.spec_bytes());
        if lines.len() == 0 {
            let e: Vec<u8> = Vec::new();
            let g = Grid { height: 0i32, width: 0i32, data: e };
            assert(g.wf());
            return g;
        }
        let width: usize = lines[0].len();
        if width > (i32::MAX as usize) || lines.len() > (i32::MAX as usize) {
            proof {
                assert(ls.len() * ls[0].len() >= 1 * ls[0].len()) by (nonlinear_arith)
                    requires
                        ls.len() >= 1 && ls[0].len() >= 0,
                ;
            }
            let e: Vec<u8> = Vec::new();
            let g = Grid { height: 0i32, width: 0i32, data: e };
            assert(g.wf());
            return g;
        }
        let mut data: Vec<u8> = Vec::new();
        let mut y: usize = 0;
        while y < lines.len() && lines[y].len() == width && data.len() + width <= (i32::MAX
            as usize)
            invariant
                lines@.map_values(|l: Vec<u8>| l@) =~= ls,
                y <= lines@.len(),
                0 < lines@.len() <= i32::MAX,
                width == ls[0].len() <= i32::MAX,
                data@.len() == y * width,
                data@.len() <= i32::MAX,
                forall|i: int| 0 <= i < y ==> ls[i].len() == width,
                forall|yy: int, x: int|
                    0 <= yy < y && 0 <= x < width ==> data@[yy * width + x] == ls[yy][x],
            decreases lines@.len() - y,
        {
            let row = &lines[y];
            let mut x: usize = 0;
            while x < width
                invariant
                    lines@.map_values(|l: Vec<u8>| l@) =~= ls,
                    y < lines@.len(),
                    width == ls[0].len() <= i32::MAX,
                    row@ == ls[y as int],
                    row@.len() == width,
                    x <= width,
                    data@.len() == y * width + x,
                    y * width + width <= i32::MAX,
                    forall|i: int| 0 <= i < y ==> ls[i].len() == width,
                    forall|yy: int, xx: int|
                        0 <= yy < y && 0 <= xx < width ==> data@[yy * width + xx] == ls[yy][xx],
                    forall|xx: int| 0 <= xx < x ==> data@[y * width + xx] == ls[y as int][xx],
                decreases width - x,
            {
                data.push(row[x]);
                x = x + 1;
                proof {
                    assert forall|yy: int, xx: int|
                        0 <= yy < y && 0 <= xx < width implies data@[yy * width + xx]
                        == ls[yy][xx] by {
                        assert(yy * width + xx < y * width) by (nonlinear_arith)
                            requires
                                0 <= yy < y && 0 <= xx < width,
                        ;
                    }
                }
            }
            proof {
                assert((y + 1) * width == y * width + width) by (nonlinear_arith);
            }
            y = y + 1;
        }
        let g = Grid { height: y as i32, width: width as i32, data };
        proof {
            assert(g.data@.len() == (y as int) * (width as int));
            assert((width as int) * (y as int) == (y as int) * (width as int)) by (nonlinear_arith);
            assert forall|x: int, yy: int| g.spec_in_bounds(x, yy) implies g.cell(x, yy) == ls[yy][x]
                by {
                assert(g.cell(x, yy) == g.data@[yy * width + x]);
            }
            if ls.len() > 0 && ls.len() <= i32::MAX && ls.len() * ls[0].len() <= i32::MAX && (forall|i: int|
                0 <= i < ls.len() ==> #[trigger] ls[i].len() == ls[0].len()) {
                if y < ls.len() {
                    assert(ls[y as int] == lines@[y as int]@);
                    assert(ls[y as int].len() == width);
                    assert((y + 1) * width <= ls.len() * width) by (nonlinear_arith)
                        requires
                            y + 1 <= ls.len() && 0 <= width,
                    ;
                    assert((y + 1) * width == y * width + width) by (nonlinear_arith);
                    assert(false);
                }
            }
        }
        g
    }

    /// A grid of the same dimensions with every cell set to `symbol`.
    pub fn copy_maze_with(&self, symbol: u8) -> (g: Grid<u8>)
        requires
            self.wf(),
        ensures
            g.wf(),
            g.width == self.width,
            g.height == self.height,
            forall|x: int, y: int| g.spec_in_bounds(x, y) ==> g.cell(x, y) == symbol,
    {
        Grid::new(self.width, self.height, symbol)
    }

    /// The first cell holding `element` in row-major order, or `None`.
    pub fn find(&self, element: u8) -> (r: Option<Point>)
        requires
            self.wf(),
        ensures
            match r {
                Some(p) => self.spec_in_bounds(p.x as int, p.y as int) && self.cell(
                    p.x as int,
                    p.y as int,
                ) == element && forall|i: int|
                    0 <= i < p.y * self.width + p.x ==> self.data@[i] != element,
                None => forall|i: int| 0 <= i < self.data@.len() ==> self.data@[i] != element,
            },
    {
        let mut i: usize = 0;
        while i < self.data.len()
            invariant
                self.wf(),
                i <= self.data@.len(),
                forall|j: int| 0 <= j < i ==> self.data@[j] != element,
            decreases self.data@.len() - i,
        {
            if self.data[i] == element {
                if self.width == 0 {
                    proof {
                        assert(self.data@.len() == 0) by (nonlinear_arith)
                            requires
                                self.data@.len() == self.width * self.height && self.width == 0,
                        ;
                    }
                }
                let x = (i as i32) % self.width;
                let yy = (i as i32) / self.width;
                proof {
                    assert(yy * self.width + x == i && 0 <= x < self.width && 0 <= yy
                        < self.height) by (nonlinear_arith)
                        requires
                            x == (i as i32) % self.width && yy == (i as i32) / self.width && 0
                                < self.width && 0 <= (i as i32) && i < self.data@.len()
                                && self.data@.len() == self.width * self.height && i <= i32::MAX,
                    ;
                }
                return Some(Point { x, y: yy });
            }
            i = i + 1;
        }
        None
    }

    /// Every position holding `element`, in row-major order.
    pub fn find_all(&self, element: u8) -> (r: Vec<Point>)
        requires
            self.wf(),
        ensures
            forall|k: int|
                0 <= k < r@.len() ==> self.spec_in_bounds(r@[k].x as int, r@[k].y as int)
                    && self.cell(r@[k].x as int, r@[k].y as int) == element,
            forall|x: int, y: int|
                self.spec_in_bounds(x, y) && self.cell(x, y) == element ==> r@.contains(
                    Point { x: x as i32, y: y as i32 },
                ),
    {
        let mut out: Vec<Point> = Vec::new();
        if self.width == 0 || self.height == 0 {
            proof {
                assert(self.data@.len() == 0) by (nonlinear_arith)
                    requires
                        self.data@.len() == self.width * self.height && (self.width == 0
                            || self.height == 0) && 0 <= self.width && 0 <= self.height,
                ;
            }
            return out;
        }
        let mut y: i32 = 0;
        while y < self.height
            invariant
                self.wf(),
                0 < self.width,
                0 <= y <= self.height,
                forall|k: int|
                    0 <= k < out@.len() ==> self.spec_in_bounds(out@[k].x as int, out@[k].y as int)
                        && self.cell(out@[k].x as int, out@[k].y as int) == element,
                forall|xx: int, yy: int|
                    0 <= yy < y && 0 <= xx < self.width && self.cell(xx, yy) == element
                        ==> out@.contains(Point { x: xx as i32, y: yy as i32 }),
            decreases self.height - y,
        {
            let mut x: i32 = 0;
            while x < self.width
                invariant
                    self.wf(),
                    0 < self.width,
                    0 <= y < self.height,
                    0 <= x <= self.width,
                    forall|k: int|
                        0 <= k < out@.len() ==> self.spec_in_bounds(
                            out@[k].x as int,
                            out@[k].y as int,
                        ) && self.cell(out@[k].x as int, out@[k].y as int) == element,
                    forall|xx: int, yy: int|
                        0 <= yy < y && 0 <= xx < self.width && self.cell(xx, yy) == element
                            ==> out@.contains(Point { x: xx as i32, y: yy as i32 }),
                    forall|xx: int|
                        0 <= xx < x && self.cell(xx, y as int) == element ==> out@.contains(
                            Point { x: xx as i32, y },
                        ),
                decreases self.width - x,
            {
                let p = Point { x, y };
                proof {
                    self.lemma_index_in_range(x as int, y as int);
                }
                let idx: usize = (y as usize) * (self.width as usize) + (x as usize);
                let ghost prev = out@;
                if self.data[idx] == element {
                    out.push(p);
                    proof {
                        assert(forall|k: int| 0 <= k < prev.len() ==> out@[k] == prev[k]);
                        assert(out@.contains(p)) by {
                            assert(out@[out@.len() - 1] == p);
                        }
                        assert forall|xx: int, yy: int|
                            0 <= yy < y && 0 <= xx < self.width && self.cell(xx, yy)
                                == element implies out@.contains(
                            Point { x: xx as i32, y: yy as i32 },
                        ) by {
                            assert(prev.contains(Point { x: xx as i32, y: yy as i32 }));
                            let k = choose|k: int|
                                0 <= k < prev.len() && prev[k] == (Point {
                                    x: xx as i32,
                                    y: yy as i32,
                                });
                            assert(out@[k] == prev[k]);
                        }
                        assert forall|xx: int|
                            0 <= xx <= x && self.cell(xx, y as int) == element implies out@.contains(
                            Point { x: xx as i32, y },
                        ) by {
                            if xx < x {
                                assert(prev.contains(Point { x: xx as i32, y }));
                                let k = choose|k: int|
                                    0 <= k < prev.len() && prev[k] == (Point { x: xx as i32, y });
                                assert(out@[k] == prev[k]);
                            }
                        }
                    }
                }
                x = x + 1;
            }
            y = y + 1;
        }
        out
    }
}

} // verus!
