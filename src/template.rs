//! Label grids and their decomposition into one rectangle per label.
use vstd::prelude::*;
use crate::geo::GridRect;

verus! {

/// A `width` by `height` grid of node ids, stored row by row.
#[derive(Clone, Debug)]
pub struct Template {
    pub width: usize,
    pub height: usize,
    pub cells: Vec<usize>,
}

/// A cell whose label breaks the one-rectangle-per-label rule.
#[derive(Clone, Copy, Debug, PartialEq, Eq, Structural)]
pub struct ShapeError {
    pub x: usize,
    pub y: usize,
    /// The label whose rectangle was being checked.
    pub expected: usize,
    /// The label found at `(x, y)`.
    pub found: usize,
}

/// Whether cell `(x, y)` lies in `r`.
pub open spec fn contains(r: GridRect, x: int, y: int) -> bool {
    r.x <= x < r.x + r.width && r.y <= y < r.y + r.height
}

/// Whether `(x1, y1)` comes before `(x2, y2)` in row-major order.
pub open spec fn before(x1: int, y1: int, x2: int, y2: int) -> bool {
    y1 < y2 || (y1 == y2 && x1 < x2)
}

/// Whether some entry of `s` has label `label`.
pub open spec fn has_label(s: Seq<(usize, GridRect)>, label: usize) -> bool {
    exists|k: int| 0 <= k < s.len() && s[k].0 == label
}

/// Whether the rectangles of `s` are pairwise disjoint and together cover
/// every cell of `t`.
#[verifier::opaque]
pub open spec fn tiles(t: Template, s: Seq<(usize, GridRect)>) -> bool {
    &&& forall|k1: int, k2: int, x: int, y: int|
        0 <= k1 < s.len() && 0 <= k2 < s.len() && k1 != k2 ==> !(#[trigger] contains(
            s[k1].1,
            x,
            y,
        ) && #[trigger] contains(s[k2].1, x, y))
    &&& forall|x: int, y: int|
        t.in_grid(x, y) ==> exists|k: int| 0 <= k < s.len() && #[trigger] contains(s[k].1, x, y)
}

pub(crate) proof fn lemma_index(w: int, h: int, x: int, y: int)
    requires
        0 <= x < w,
        0 <= y < h,
    ensures
        0 <= y * w + x < w * h,
{
    assert(0 <= y * w + x < w * h) by (nonlinear_arith)
        requires
            0 <= x < w,
            0 <= y < h,
    ;
}

pub(crate) proof fn lemma_index_injective(w: int, x1: int, y1: int, x2: int, y2: int)
    requires
        0 <= x1 < w,
        0 <= x2 < w,
        0 <= y1,
        0 <= y2,
        y1 * w + x1 == y2 * w + x2,
    ensures
        x1 == x2 && y1 == y2,
{
    if y1 < y2 {
        assert(y1 * w + w <= y2 * w) by (nonlinear_arith)
            requires
                y1 < y2,
                0 <= w,
        ;
    } else if y2 < y1 {
        assert(y2 * w + w <= y1 * w) by (nonlinear_arith)
            requires
                y2 < y1,
                0 <= w,
        ;
    }
}

impl Template {
    /// The grid has at least one row and one column, and one label per cell.
    pub open spec fn wf(&self) -> bool {
        &&& self.width >= 1
        &&& self.height >= 1
        &&& self.cells@.len() == self.width * self.height
    }

    pub open spec fn in_grid(&self, x: int, y: int) -> bool {
        0 <= x < self.width && 0 <= y < self.height
    }

    /// The label of cell `(x, y)`.
    pub open spec fn at(&self, x: int, y: int) -> usize {
        self.cells@[y * self.width + x]
    }

    /// The cells labelled `label` are exactly those of `r`, a non-empty
    /// rectangle inside the grid.
    pub open spec fn is_region(&self, label: usize, r: GridRect) -> bool {
        &&& r.width >= 1
        &&& r.height >= 1
        &&& r.x + r.width <= self.width
        &&& r.y + r.height <= self.height
        &&& forall|x: int, y: int|
            self.in_grid(x, y) ==> (#[trigger] self.at(x, y) == label <==> contains(r, x, y))
    }

    /// The rectangle that the cells of `label` form, where they form one.
    pub open spec fn region(&self, label: usize) -> GridRect {
        choose|r: GridRect| self.is_region(label, r)
    }

    /// The entry's label is that of its rectangle's top-left cell, which
    /// lies in the grid.
    pub open spec fn labels_corner(&self, e: (usize, GridRect)) -> bool {
        self.in_grid(e.1.x as int, e.1.y as int) && e.0 == self.at(e.1.x as int, e.1.y as int)
    }

    /// The cells of `label` form exactly one rectangle.
    pub open spec fn label_ok(&self, label: usize) -> bool {
        self.is_region(label, self.region(label))
    }

    /// Every label of the grid forms exactly one rectangle.
    pub open spec fn shape_ok(&self) -> bool {
        forall|x: int, y: int|
            self.in_grid(x, y) ==> self.is_region(
                #[trigger] self.at(x, y),
                self.region(self.at(x, y)),
            )
    }

    /// No cell before `(x, y)` carries the label of `(x, y)`.
    pub open spec fn first_at(&self, x: int, y: int) -> bool {
        forall|a: int, b: int|
            self.in_grid(a, b) && before(a, b, x, y) ==> #[trigger] self.at(a, b) != self.at(x, y)
    }

    /// How many cells, counting from `i`, the run of the label of `(x, y)`
    /// extends to the right within row `y`.
    pub open spec fn run_right_from(&self, x: int, y: int, i: int) -> int
        decreases self.width - x - i,
    {
        if x + i < self.width && self.at(x + i, y) == self.at(x, y) {
            self.run_right_from(x, y, i + 1)
        } else {
            i
        }
    }

    /// How many cells, counting from `i`, the run of the label of `(x, y)`
    /// extends downwards.
    pub open spec fn run_down_from(&self, x: int, y: int, i: int) -> int
        decreases self.height - y - i,
    {
        if y + i < self.height && self.at(x, y + i) == self.at(x, y) {
            self.run_down_from(x, y, i + 1)
        } else {
            i
        }
    }

    /// The rectangle grown from `(x, y)`: as wide as the run of its label to
    /// the right, as high as the run downwards.
    pub open spec fn block(&self, x: int, y: int) -> GridRect {
        GridRect {
            x: x as usize,
            y: y as usize,
            width: self.run_right_from(x, y, 1) as usize,
            height: self.run_down_from(x, y, 1) as usize,
        }
    }

    /// Every cell of the block grown from `(x, y)` carries its label.
    pub open spec fn block_ok(&self, x: int, y: int) -> bool {
        forall|a: int, b: int| contains(self.block(x, y), a, b) ==> #[trigger] self.at(a, b) == self.at(x, y)
    }

    /// `p` is the first cell of `r`, in row-major order, not labelled `label`.
    pub open spec fn first_bad_at(&self, r: GridRect, label: usize, p: (int, int)) -> bool {
        &&& contains(r, p.0, p.1)
        &&& self.at(p.0, p.1) != label
        &&& forall|a: int, b: int|
            contains(r, a, b) && before(a, b, p.0, p.1) ==> #[trigger] self.at(a, b) == label
    }

    pub open spec fn first_bad(&self, r: GridRect, label: usize) -> (int, int) {
        choose|p: (int, int)| self.first_bad_at(r, label, p)
    }

    /// `(x, y)` lies in the block of some cell before it that is the first of
    /// its label.
    pub open spec fn covered_before(&self, x: int, y: int) -> bool {
        exists|a: int, b: int|
            self.in_grid(a, b) && before(a, b, x, y) && self.first_at(a, b) && #[trigger] contains(
                self.block(a, b),
                x,
                y,
            )
    }

    /// The row-major scan stops at `(x, y)`: a cell outside every earlier
    /// block whose label was met before, or the first cell of a label whose
    /// block holds another label.
    pub open spec fn fails_at(&self, x: int, y: int) -> bool {
        &&& self.in_grid(x, y)
        &&& ((!self.covered_before(x, y) && !self.first_at(x, y)) || (self.first_at(x, y)
            && !self.block_ok(x, y)))
    }

    /// `p` is the first cell, in row-major order, where the scan stops.
    pub open spec fn first_fail_at(&self, p: (int, int)) -> bool {
        &&& self.fails_at(p.0, p.1)
        &&& forall|a: int, b: int| self.in_grid(a, b) && before(a, b, p.0, p.1) ==> !#[trigger] self.fails_at(a, b)
    }

    /// The error of the scan: at the cell where it stops, or, where that
    /// cell's block holds another label, at the first such cell of the block.
    pub open spec fn scan_error(&self) -> ShapeError {
        let p = choose|p: (int, int)| self.first_fail_at(p);
        let label = self.at(p.0, p.1);
        if self.first_at(p.0, p.1) {
            let q = self.first_bad(self.block(p.0, p.1), label);
            ShapeError { x: q.0 as usize, y: q.1 as usize, expected: label, found: self.at(q.0, q.1) }
        } else {
            ShapeError { x: p.0 as usize, y: p.1 as usize, expected: label, found: label }
        }
    }

    /// The entries of the first `x` cells of row `y`: one for each cell that
    /// is the first of its label, with that label's region.
    pub open spec fn row_entries(&self, y: int, x: int) -> Seq<(usize, GridRect)>
        decreases x,
    {
        if x <= 0 {
            Seq::empty()
        } else {
            let prefix = self.row_entries(y, x - 1);
            if self.first_at(x - 1, y) {
                prefix.push((self.at(x - 1, y), self.region(self.at(x - 1, y))))
            } else {
                prefix
            }
        }
    }

    /// The entries of the first `y` rows.
    pub open spec fn rows_before(&self, y: int) -> Seq<(usize, GridRect)>
        decreases y,
    {
        if y <= 0 {
            Seq::empty()
        } else {
            self.rows_before(y - 1) + self.row_entries(y - 1, self.width as int)
        }
    }

    /// The entries of all cells before `(x, y)`.
    pub open spec fn entries_before(&self, x: int, y: int) -> Seq<(usize, GridRect)> {
        self.rows_before(y) + self.row_entries(y, x)
    }

    /// One entry per distinct label, with its rectangle, in row-major order
    /// of the rectangles' top-left cells.
    pub open spec fn decomposition(&self) -> Seq<(usize, GridRect)> {
        self.rows_before(self.height as int)
    }
}

impl Template {
    fn label_at(&self, x: usize, y: usize) -> (r: usize)
        requires
            self.wf(),
            x < self.width,
            y < self.height,
        ensures
            r == self.at(x as int, y as int),
    {
        proof {
            lemma_index(self.width as int, self.height as int, x as int, y as int);
        }
        let n = self.cells.len();
        assert(y * self.width + x < n);
        self.cells[y * self.width + x]
    }

    /// How far the run of `label` starting at `(x, y)` extends to the right,
    /// never past the end of row `y`.
    fn run_right(&self, x: usize, y: usize, label: usize) -> (w: usize)
        requires
            self.wf(),
            x < self.width,
            y < self.height,
            self.at(x as int, y as int) == label,
        ensures
            1 <= w,
            x + w <= self.width,
            forall|i: int| 0 <= i < w ==> #[trigger] self.at(x + i, y as int) == label,
            x + w == self.width || self.at(x + w, y as int) != label,
            w == self.run_right_from(x as int, y as int, 1),
    {
        let mut w: usize = 1;
        while x + w < self.width && self.label_at(x + w, y) == label
            invariant
                self.wf(),
                x < self.width,
                y < self.height,
                1 <= w,
                x + w <= self.width,
                self.at(x as int, y as int) == label,
                forall|i: int| 0 <= i < w ==> #[trigger] self.at(x + i, y as int) == label,
                self.run_right_from(x as int, y as int, 1) == self.run_right_from(x as int, y as int, w as int),
            decreases self.width - x - w,
        {
            assert(self.run_right_from(x as int, y as int, w as int) == self.run_right_from(
                x as int,
                y as int,
                w + 1,
            ));
            w += 1;
        }
        w
    }

    /// How far the run of `label` starting at `(x, y)` extends downwards.
    fn run_down(&self, x: usize, y: usize, label: usize) -> (h: usize)
        requires
            self.wf(),
            x < self.width,
            y < self.height,
            self.at(x as int, y as int) == label,
        ensures
            1 <= h,
            y + h <= self.height,
            forall|i: int| 0 <= i < h ==> #[trigger] self.at(x as int, y + i) == label,
            y + h == self.height || self.at(x as int, y + h) != label,
            h == self.run_down_from(x as int, y as int, 1),
    {
        let mut h: usize = 1;
        while y + h < self.height && self.label_at(x, y + h) == label
            invariant
                self.wf(),
                x < self.width,
                y < self.height,
                1 <= h,
                y + h <= self.height,
                self.at(x as int, y as int) == label,
                forall|i: int| 0 <= i < h ==> #[trigger] self.at(x as int, y + i) == label,
                self.run_down_from(x as int, y as int, 1) == self.run_down_from(x as int, y as int, h as int),
            decreases self.height - y - h,
        {
            assert(self.run_down_from(x as int, y as int, h as int) == self.run_down_from(
                x as int,
                y as int,
                h + 1,
            ));
            h += 1;
        }
        h
    }

    /// Checks that every cell of `r` carries `label`.
    fn check_block(&self, r: GridRect, label: usize) -> (res: Result<(), ShapeError>)
        requires
            self.wf(),
            r.x + r.width <= self.width,
            r.y + r.height <= self.height,
        ensures
            res is Ok <==> (forall|a: int, b: int| contains(r, a, b) ==> #[trigger] self.at(a, b) == label),
            res matches Err(e) ==> {
                &&& contains(r, e.x as int, e.y as int)
                &&& e.found == self.at(e.x as int, e.y as int)
                &&& e.found != label
                &&& e.expected == label
                &&& self.first_bad_at(r, label, (e.x as int, e.y as int))
            },
    {
        let mut dy: usize = 0;
        while dy < r.height
            invariant
                self.wf(),
                r.x + r.width <= self.width,
                r.y + r.height <= self.height,
                dy <= r.height,
                forall|a: int, b: int|
                    r.x <= a < r.x + r.width && r.y <= b < r.y + dy ==> #[trigger] self.at(a, b) == label,
            decreases r.height - dy,
        {
            let mut dx: usize = 0;
            while dx < r.width
                invariant
                    self.wf(),
                    r.x + r.width <= self.width,
                    r.y + r.height <= self.height,
                    dy < r.height,
                    dx <= r.width,
                    forall|a: int, b: int|
                        r.x <= a < r.x + r.width && r.y <= b < r.y + dy ==> #[trigger] self.at(a, b) == label,
                    forall|a: int| r.x <= a < r.x + dx ==> #[trigger] self.at(a, r.y + dy) == label,
                decreases r.width - dx,
            {
                let found = self.label_at(r.x + dx, r.y + dy);
                if found != label {
                    let e = ShapeError { x: r.x + dx, y: r.y + dy, expected: label, found };
                    assert(contains(r, e.x as int, e.y as int) && self.at(e.x as int, e.y as int) != label);
                    assert forall|a: int, b: int|
                        contains(r, a, b) && before(a, b, e.x as int, e.y as int) implies #[trigger] self.at(
                        a,
                        b,
                    ) == label by {
                        if b < r.y + dy {
                        } else {
                            assert(b == r.y + dy);
                        }
                    }
                    return Err(e);
                }
                dx += 1;
            }
            dy += 1;
        }
        Ok(())
    }
}

/// Marks every cell of `r` in a row-major mask of a `w` by `h` grid.
fn mark_block(visited: &mut Vec<bool>, w: usize, h: usize, r: GridRect)
    requires
        old(visited)@.len() == w * h,
        r.x + r.width <= w,
        r.y + r.height <= h,
    ensures
        final(visited)@.len() == w * h,
        forall|a: int, b: int|
            0 <= a < w && 0 <= b < h ==> #[trigger] final(visited)@[b * w + a] == (old(
                visited,
            )@[b * w + a] || contains(r, a, b)),
{
    let ghost start = visited@;
    let mut dy: usize = 0;
    while dy < r.height
        invariant
            visited@.len() == w * h,
            start.len() == w * h,
            r.x + r.width <= w,
            r.y + r.height <= h,
            dy <= r.height,
            forall|a: int, b: int|
                0 <= a < w && 0 <= b < h ==> #[trigger] visited@[b * w + a] == (start[b * w + a] || (
                r.x <= a < r.x + r.width && r.y <= b < r.y + dy)),
        decreases r.height - dy,
    {
        let mut dx: usize = 0;
        while dx < r.width
            invariant
                visited@.len() == w * h,
                start.len() == w * h,
                r.x + r.width <= w,
                r.y + r.height <= h,
                dy < r.height,
                dx <= r.width,
                forall|a: int, b: int|
                    0 <= a < w && 0 <= b < h ==> #[trigger] visited@[b * w + a] == (start[b * w + a]
                        || (r.x <= a < r.x + r.width && r.y <= b < r.y + dy) || (b == r.y + dy
                        && r.x <= a < r.x + dx)),
            decreases r.width - dx,
        {
            let cx = r.x + dx;
            let cy = r.y + dy;
            proof {
                lemma_index(w as int, h as int, cx as int, cy as int);
            }
            let ghost before_set = visited@;
            let n = visited.len();
            assert(cy * w + cx < n);
            visited[cy * w + cx] = true;
            proof {
                assert forall|a: int, b: int| 0 <= a < w && 0 <= b < h implies #[trigger] visited@[b
                    * w + a] == (start[b * w + a] || (r.x <= a < r.x + r.width && r.y <= b < r.y
                    + dy) || (b == r.y + dy && r.x <= a < r.x + dx + 1)) by {
                    lemma_index(w as int, h as int, a, b);
                    if b * w + a == cy * w + cx {
                        lemma_index_injective(w as int, a, b, cx as int, cy as int);
                    }
                    assert(before_set[b * w + a] == (start[b * w + a] || (r.x <= a < r.x + r.width
                        && r.y <= b < r.y + dy) || (b == r.y + dy && r.x <= a < r.x + dx)));
                }
            }
            dx += 1;
        }
        dy += 1;
    }
}

fn find_label(s: &Vec<(usize, GridRect)>, label: usize) -> (r: bool)
    ensures
        r == has_label(s@, label),
{
    let mut k: usize = 0;
    while k < s.len()
        invariant
            k <= s@.len(),
            forall|j: int| 0 <= j < k ==> (#[trigger] s@[j]).0 != label,
        decreases s@.len() - k,
    {
        if s[k].0 == label {
            return true;
        }
        k += 1;
    }
    false
}

impl Template {
    /// What holds of the scan's state when it reaches cell `(x, y)`.
    spec fn scan_inv(&self, visited: Seq<bool>, out: Seq<(usize, GridRect)>, x: int, y: int) -> bool {
        &&& visited.len() == self.width * self.height
        &&& forall|k: int|
            0 <= k < out.len() ==> {
                &&& (#[trigger] out[k]).1.width >= 1
                &&& out[k].1.height >= 1
                &&& out[k].1.x + out[k].1.width <= self.width
                &&& out[k].1.y + out[k].1.height <= self.height
                &&& before(out[k].1.x as int, out[k].1.y as int, x, y)
            }
        &&& forall|k: int, a: int, b: int|
            0 <= k < out.len() && #[trigger] contains(out[k].1, a, b) ==> self.at(a, b) == out[k].0
                && visited[b * self.width + a]
        &&& forall|a: int, b: int|
            self.in_grid(a, b) && #[trigger] visited[b * self.width + a] ==> exists|k: int|
                0 <= k < out.len() && out[k].0 == self.at(a, b) && #[trigger] contains(out[k].1, a, b)
        &&& forall|k1: int, k2: int|
            0 <= k1 < out.len() && 0 <= k2 < out.len() && k1 != k2 ==> (#[trigger] out[k1]).0 != (
            #[trigger] out[k2]).0
        &&& forall|a: int, b: int|
            self.in_grid(a, b) && before(a, b, x, y) ==> #[trigger] visited[b * self.width + a]
        &&& self.shape_ok() ==> out == self.entries_before(x, y)
        &&& forall|k: int|
            0 <= k < out.len() && self.label_ok((#[trigger] out[k]).0) ==> out[k].1 == self.region(out[k].0)
    }

    /// Where a label forms one rectangle, the rectangle grown from its first
    /// cell is that label's region.
    proof fn lemma_grown_is_region(&self, x: int, y: int, w: int, h: int)
        requires
            self.wf(),
            self.label_ok(self.at(x, y)),
            self.in_grid(x, y),
            self.first_at(x, y),
            1 <= w,
            x + w <= self.width,
            forall|i: int| 0 <= i < w ==> #[trigger] self.at(x + i, y) == self.at(x, y),
            x + w == self.width || self.at(x + w, y) != self.at(x, y),
            1 <= h,
            y + h <= self.height,
            forall|i: int| 0 <= i < h ==> #[trigger] self.at(x, y + i) == self.at(x, y),
            y + h == self.height || self.at(x, y + h) != self.at(x, y),
        ensures
            (GridRect { x: x as usize, y: y as usize, width: w as usize, height: h as usize })
                == self.region(self.at(x, y)),
    {
        let label = self.at(x, y);
        let r = self.region(label);
        assert(self.is_region(label, r));
        assert(contains(r, x, y));
        assert(self.at(r.x as int, r.y as int) == label);
        assert(!before(r.x as int, r.y as int, x, y));
        assert(r.x == x && r.y == y);
        assert(self.at(x + (w - 1), y) == label);
        assert(w <= r.width);
        if w < r.width {
            assert(contains(r, x + w, y));
        }
        assert(self.at(x, y + (h - 1)) == label);
        assert(h <= r.height);
        if h < r.height {
            assert(contains(r, x, y + h));
        }
    }

    /// Splits the grid into one rectangle per distinct label, scanning the
    /// cells in row-major order; fails on the first cell that shows that some
    /// label does not form exactly one rectangle.
    pub fn decompose(&self) -> (res: Result<Vec<(usize, GridRect)>, ShapeError>)
        requires
            self.wf(),
        ensures
            res is Ok <==> self.shape_ok(),
            res matches Ok(v) ==> v@ == self.decomposition() && tiles(*self, v@),
            res matches Ok(v) ==> forall|k: int|
                0 <= k < v@.len() ==> self.labels_corner(#[trigger] v@[k]),
            res matches Err(e) ==> {
                &&& self.in_grid(e.x as int, e.y as int)
                &&& e.found == self.at(e.x as int, e.y as int)
                &&& !self.label_ok(e.expected)
                &&& e == self.scan_error()
            },
    {
        let width = self.width;
        let height = self.height;
        let len = self.cells.len();
        let mut visited: Vec<bool> = Vec::new();
        while visited.len() < len
            invariant
                visited@.len() <= len,
                forall|i: int| 0 <= i < visited@.len() ==> !(#[trigger] visited@[i]),
            decreases len - visited@.len(),
        {
            visited.push(false);
        }
        let mut out: Vec<(usize, GridRect)> = Vec::new();
        proof {
            assert(self.entries_before(0, 0) =~= Seq::<(usize, GridRect)>::empty());
            assert forall|a: int, b: int| self.in_grid(a, b) implies !#[trigger] visited@[b * width + a] by {
                lemma_index(width as int, height as int, a, b);
            }
        }
        let mut y: usize = 0;
        while y < height
            invariant
                self.wf(),
                width == self.width,
                height == self.height,
                y <= height,
                self.scan_inv(visited@, out@, 0, y as int),
                self.order_inv(visited@, out@, 0, y as int),
            decreases height - y,
        {
            let mut x: usize = 0;
            while x < width
                invariant
                    self.wf(),
                    width == self.width,
                    height == self.height,
                    y < height,
                    x <= width,
                    self.scan_inv(visited@, out@, x as int, y as int),
                    self.order_inv(visited@, out@, x as int, y as int),
                decreases width - x,
            {
                proof {
                    lemma_index(width as int, height as int, x as int, y as int);
                }
                let n = visited.len();
                assert(y * width + x < n);
                let i = y * width + x;
                if !visited[i] {
                    let label = self.label_at(x, y);
                    if find_label(&out, label) {
                        proof {
                            self.lemma_seen_twice(visited@, out@, x as int, y as int);
                            self.lemma_error_seen(visited@, out@, x as int, y as int);
                        }
                        return Err(ShapeError { x, y, expected: label, found: label });
                    }
                    proof {
                        self.lemma_unseen_first(visited@, out@, x as int, y as int);
                    }
                    let w = self.run_right(x, y, label);
                    let h = self.run_down(x, y, label);
                    let r = GridRect { x, y, width: w, height: h };
                    assert(r == self.block(x as int, y as int));
                    proof {
                        if self.label_ok(label) {
                            self.lemma_grown_is_region(x as int, y as int, w as int, h as int);
                            assert(self.is_region(label, r));
                        }
                    }
                    match self.check_block(r, label) {
                        Ok(()) => {},
                        Err(e) => {
                            proof {
                                if self.label_ok(label) {
                                    assert(self.at(e.x as int, e.y as int) == label);
                                }
                                self.lemma_label_ok_of_shape(x as int, y as int);
                                self.lemma_error_block(visited@, out@, x as int, y as int, e);
                            }
                            return Err(e);
                        },
                    }
                    let ghost old_visited = visited@;
                    let ghost old_out = out@;
                    mark_block(&mut visited, width, height, r);
                    out.push((label, r));
                    proof {
                        assert(out@.drop_last() =~= old_out);
                        self.lemma_step_new(old_visited, old_out, visited@, out@, x as int, y as int);
                        assert(self.block_ok(x as int, y as int));
                        self.lemma_order_new(old_visited, old_out, visited@, out@, x as int, y as int);
                    }
                } else {
                    proof {
                        self.lemma_order_visited(visited@, out@, x as int, y as int);
                        self.lemma_step_visited(visited@, out@, x as int, y as int);
                    }
                }
                x += 1;
            }
            proof {
                self.lemma_row_end(visited@, out@, y as int);
                self.lemma_order_row_end(visited@, out@, y as int);
            }
            y += 1;
        }
        proof {
            self.lemma_scan_done(visited@, out@);
        }
        Ok(out)
    }
}

impl Template {
    proof fn lemma_seen_twice(&self, visited: Seq<bool>, out: Seq<(usize, GridRect)>, x: int, y: int)
        requires
            self.wf(),
            self.scan_inv(visited, out, x, y),
            self.in_grid(x, y),
            !visited[y * self.width + x],
            has_label(out, self.at(x, y)),
        ensures
            !self.label_ok(self.at(x, y)),
            !self.shape_ok(),
    {
        let label = self.at(x, y);
        if self.label_ok(label) {
            let k = choose|k: int| 0 <= k < out.len() && out[k].0 == label;
            assert(out[k].1 == self.region(label));
            assert(contains(out[k].1, x, y));
        }
        self.lemma_label_ok_of_shape(x, y);
    }

    proof fn lemma_label_ok_of_shape(&self, x: int, y: int)
        requires
            self.in_grid(x, y),
        ensures
            self.shape_ok() ==> self.label_ok(self.at(x, y)),
    {
    }

    proof fn lemma_unseen_first(&self, visited: Seq<bool>, out: Seq<(usize, GridRect)>, x: int, y: int)
        requires
            self.wf(),
            self.scan_inv(visited, out, x, y),
            self.in_grid(x, y),
            !has_label(out, self.at(x, y)),
        ensures
            self.first_at(x, y),
    {
        assert forall|a: int, b: int| self.in_grid(a, b) && before(a, b, x, y) implies #[trigger] self.at(
            a,
            b,
        ) != self.at(x, y) by {
            assert(visited[b * self.width + a]);
            let k = choose|k: int|
                0 <= k < out.len() && out[k].0 == self.at(a, b) && #[trigger] contains(out[k].1, a, b);
            assert(out[k].0 != self.at(x, y));
        }
    }

    proof fn lemma_step_visited(&self, visited: Seq<bool>, out: Seq<(usize, GridRect)>, x: int, y: int)
        requires
            self.wf(),
            self.scan_inv(visited, out, x, y),
            self.in_grid(x, y),
            visited[y * self.width + x],
        ensures
            self.scan_inv(visited, out, x + 1, y),
    {
        let k = choose|k: int|
            0 <= k < out.len() && out[k].0 == self.at(x, y) && #[trigger] contains(out[k].1, x, y);
        let r = out[k].1;
        assert(contains(r, r.x as int, r.y as int));
        assert(self.at(r.x as int, r.y as int) == self.at(x, y));
        assert(!self.first_at(x, y));
        assert(self.row_entries(y, x + 1) == self.row_entries(y, x));
        assert forall|k2: int| 0 <= k2 < out.len() implies before(
            (#[trigger] out[k2]).1.x as int,
            out[k2].1.y as int,
            x + 1,
            y,
        ) by {}
    }

    proof fn lemma_step_new(
        &self,
        old_visited: Seq<bool>,
        old_out: Seq<(usize, GridRect)>,
        visited: Seq<bool>,
        out: Seq<(usize, GridRect)>,
        x: int,
        y: int,
    )
        requires
            self.wf(),
            self.scan_inv(old_visited, old_out, x, y),
            self.in_grid(x, y),
            !has_label(old_out, self.at(x, y)),
            self.first_at(x, y),
            out.len() == old_out.len() + 1,
            out.drop_last() == old_out,
            out.last().0 == self.at(x, y),
            out.last().1.x == x,
            out.last().1.y == y,
            out.last().1.width >= 1,
            out.last().1.height >= 1,
            out.last().1.x + out.last().1.width <= self.width,
            out.last().1.y + out.last().1.height <= self.height,
            forall|a: int, b: int| contains(out.last().1, a, b) ==> #[trigger] self.at(a, b) == self.at(x, y),
            self.label_ok(self.at(x, y)) ==> out.last().1 == self.region(self.at(x, y)),
            visited.len() == self.width * self.height,
            forall|a: int, b: int|
                0 <= a < self.width && 0 <= b < self.height ==> #[trigger] visited[b * self.width + a]
                    == (old_visited[b * self.width + a] || contains(out.last().1, a, b)),
        ensures
            self.scan_inv(visited, out, x + 1, y),
    {
        let n = old_out.len();
        let r = out.last().1;
        assert forall|k: int| 0 <= k < n implies out[k] == old_out[k] by {
            assert(out[k] == out.drop_last()[k]);
        }
        assert forall|k: int, a: int, b: int|
            0 <= k < out.len() && #[trigger] contains(out[k].1, a, b) implies self.at(a, b) == out[k].0
            && visited[b * self.width + a] by {
            if k < n {
                assert(old_out[k] == out[k]);
                assert(contains(old_out[k].1, a, b));
            }
        }
        assert forall|a: int, b: int|
            self.in_grid(a, b) && #[trigger] visited[b * self.width + a] implies exists|k: int|
            0 <= k < out.len() && out[k].0 == self.at(a, b) && #[trigger] contains(out[k].1, a, b) by {
            if contains(r, a, b) {
                assert(out[n as int].0 == self.at(a, b) && contains(out[n as int].1, a, b));
            } else {
                assert(old_visited[b * self.width + a]);
                let k = choose|k: int|
                    0 <= k < old_out.len() && old_out[k].0 == self.at(a, b) && #[trigger] contains(
                        old_out[k].1,
                        a,
                        b,
                    );
                assert(out[k] == old_out[k]);
            }
        }
        assert forall|k1: int, k2: int|
            0 <= k1 < out.len() && 0 <= k2 < out.len() && k1 != k2 implies (#[trigger] out[k1]).0 != (
            #[trigger] out[k2]).0 by {
            if k1 < n && k2 < n {
                assert(old_out[k1] == out[k1] && old_out[k2] == out[k2]);
            } else if k1 < n {
                assert(old_out[k1] == out[k1]);
            } else {
                assert(old_out[k2] == out[k2]);
            }
        }
        assert forall|a: int, b: int|
            self.in_grid(a, b) && before(a, b, x + 1, y) implies #[trigger] visited[b * self.width + a] by {
            if before(a, b, x, y) {
                assert(old_visited[b * self.width + a]);
            } else {
                assert(contains(r, a, b));
            }
        }
        assert forall|k: int| 0 <= k < out.len() implies {
            &&& (#[trigger] out[k]).1.width >= 1
            &&& out[k].1.height >= 1
            &&& out[k].1.x + out[k].1.width <= self.width
            &&& out[k].1.y + out[k].1.height <= self.height
            &&& before(out[k].1.x as int, out[k].1.y as int, x + 1, y)
        } by {
            if k < n {
                assert(old_out[k] == out[k]);
            }
        }
        assert forall|k: int| 0 <= k < out.len() && self.label_ok((#[trigger] out[k]).0) implies out[k].1
            == self.region(out[k].0) by {
            if k < n {
                assert(old_out[k] == out[k]);
            }
        }
        if self.shape_ok() {
            let label = self.at(x, y);
            self.lemma_label_ok_of_shape(x, y);
            assert(self.row_entries(y, x + 1) == self.row_entries(y, x).push((label, self.region(label))));
            assert(out == old_out.push((label, r)));
            assert(out =~= self.entries_before(x + 1, y));
        }
    }

    proof fn lemma_row_end(&self, visited: Seq<bool>, out: Seq<(usize, GridRect)>, y: int)
        requires
            self.wf(),
            0 <= y < self.height,
            self.scan_inv(visited, out, self.width as int, y),
        ensures
            self.scan_inv(visited, out, 0, y + 1),
    {
        assert(self.row_entries(y + 1, 0) =~= Seq::<(usize, GridRect)>::empty());
        assert(self.entries_before(0, y + 1) =~= self.entries_before(self.width as int, y));
        assert forall|a: int, b: int|
            self.in_grid(a, b) && before(a, b, 0, y + 1) implies #[trigger] visited[b * self.width + a] by {
            assert(before(a, b, self.width as int, y));
        }
        assert forall|k: int| 0 <= k < out.len() implies before(
            (#[trigger] out[k]).1.x as int,
            out[k].1.y as int,
            0,
            y + 1,
        ) by {}
    }

    proof fn lemma_scan_done(&self, visited: Seq<bool>, out: Seq<(usize, GridRect)>)
        requires
            self.wf(),
            self.scan_inv(visited, out, 0, self.height as int),
        ensures
            self.shape_ok(),
            out == self.decomposition(),
            tiles(*self, out),
            forall|k: int| 0 <= k < out.len() ==> self.labels_corner(#[trigger] out[k]),
    {
        assert forall|k: int| 0 <= k < out.len() implies self.labels_corner(#[trigger] out[k]) by {
            assert(contains(out[k].1, out[k].1.x as int, out[k].1.y as int));
        }
        assert forall|x: int, y: int| self.in_grid(x, y) implies self.is_region(
            #[trigger] self.at(x, y),
            self.region(self.at(x, y)),
        ) by {
            let label = self.at(x, y);
            assert(before(x, y, 0, self.height as int));
            assert(visited[y * self.width + x]);
            let k = choose|k: int|
                0 <= k < out.len() && out[k].0 == self.at(x, y) && #[trigger] contains(out[k].1, x, y);
            let r = out[k].1;
            assert forall|a: int, b: int| self.in_grid(a, b) implies (#[trigger] self.at(a, b) == label
                <==> contains(r, a, b)) by {
                if self.at(a, b) == label {
                    assert(before(a, b, 0, self.height as int));
                    assert(visited[b * self.width + a]);
                    let k2 = choose|k2: int|
                        0 <= k2 < out.len() && out[k2].0 == self.at(a, b) && #[trigger] contains(
                            out[k2].1,
                            a,
                            b,
                        );
                    if k2 != k {
                        assert(out[k2].0 != out[k].0);
                    }
                }
            }
            assert(self.is_region(label, r));
        }
        assert(self.row_entries(self.height as int, 0) =~= Seq::<(usize, GridRect)>::empty());
        assert(out =~= self.decomposition());
        assert forall|x: int, y: int| self.in_grid(x, y) implies exists|k: int|
            0 <= k < out.len() && #[trigger] contains(out[k].1, x, y) by {
            assert(before(x, y, 0, self.height as int));
            assert(visited[y * self.width + x]);
        }
        reveal(tiles);
        assert forall|k1: int, k2: int, x: int, y: int|
            0 <= k1 < out.len() && 0 <= k2 < out.len() && k1 != k2 implies !(#[trigger] contains(
                out[k1].1,
                x,
                y,
            ) && #[trigger] contains(out[k2].1, x, y)) by {
            if contains(out[k1].1, x, y) && contains(out[k2].1, x, y) {
                assert(out[k1].0 == self.at(x, y));
                assert(out[k2].0 == self.at(x, y));
            }
        }
    }
}

impl Template {
    /// The distinct labels of the grid, in increasing order.
    pub fn ids(&self) -> (r: Vec<usize>)
        ensures
            forall|i: int, j: int| 0 <= i < j < r@.len() ==> r@[i] < r@[j],
            forall|c: usize| r@.contains(c) <==> self.cells@.contains(c),
    {
        let mut out: Vec<usize> = Vec::new();
        let mut k: usize = 0;
        while k < self.cells.len()
            invariant
                k <= self.cells@.len(),
                forall|i: int, j: int| 0 <= i < j < out@.len() ==> out@[i] < out@[j],
                forall|c: usize| out@.contains(c) <==> self.cells@.subrange(0, k as int).contains(c),
            decreases self.cells@.len() - k,
        {
            let c = self.cells[k];
            let mut p: usize = 0;
            while p < out.len() && out[p] < c
                invariant
                    p <= out@.len(),
                    forall|i: int| 0 <= i < p ==> out@[i] < c,
                decreases out@.len() - p,
            {
                p += 1;
            }
            let ghost prev = out@;
            proof {
                let pre = self.cells@.subrange(0, k as int);
                let next = self.cells@.subrange(0, k + 1);
                assert(next =~= pre.push(c));
                assert forall|d: usize| next.contains(d) <==> (pre.contains(d) || d == c) by {
                    if next.contains(d) {
                        let i = choose|i: int| 0 <= i < next.len() && next[i] == d;
                        if i < k {
                            assert(pre[i] == d);
                        }
                    }
                    if pre.contains(d) {
                        let i = choose|i: int| 0 <= i < pre.len() && pre[i] == d;
                        assert(next[i] == d);
                    }
                    if d == c {
                        assert(next[k as int] == c);
                    }
                }
            }
            if p < out.len() && out[p] == c {
                assert(prev[p as int] == c);
                assert forall|d: usize| out@.contains(d) <==> (prev.contains(d) || d == c) by {}
            } else {
                out.insert(p, c);
                proof {
                    assert forall|i: int, j: int| 0 <= i < j < out@.len() implies out@[i] < out@[j] by {
                        if j < p {
                        } else if i > p {
                            assert(out@[i] == prev[i - 1] && out@[j] == prev[j - 1]);
                        } else if i == p {
                            assert(out@[j] == prev[j - 1]);
                        } else {
                            assert(out@[i] == prev[i]);
                            if j > p {
                                assert(out@[j] == prev[j - 1]);
                            }
                        }
                    }
                    assert forall|d: usize| out@.contains(d) <==> prev.contains(d) || d == c by {
                        if out@.contains(d) {
                            let i = choose|i: int| 0 <= i < out@.len() && out@[i] == d;
                            if i < p {
                                assert(prev[i] == d);
                            } else if i > p {
                                assert(prev[i - 1] == d);
                            }
                        }
                        if prev.contains(d) {
                            let i = choose|i: int| 0 <= i < prev.len() && prev[i] == d;
                            if i < p {
                                assert(out@[i] == d);
                            } else {
                                assert(out@[i + 1] == d);
                            }
                        }
                        if d == c {
                            assert(out@[p as int] == c);
                        }
                    }
                }
            }
            proof {
                let next = self.cells@.subrange(0, k + 1);
                assert forall|d: usize| out@.contains(d) <==> next.contains(d) by {
                    assert(out@.contains(d) <==> (prev.contains(d) || d == c));
                    assert(prev.contains(d) <==> self.cells@.subrange(0, k as int).contains(d));
                    assert(next.contains(d) <==> (self.cells@.subrange(0, k as int).contains(d) || d == c));
                }
            }
            k += 1;
        }
        proof {
            assert(self.cells@.subrange(0, self.cells@.len() as int) =~= self.cells@);
        }
        out
    }
}

/// A label with two cells such that a cell between them, in the box they
/// span, carries another label (two separate patches, or an L) means the
/// grid is not valid, so that `decompose` fails on it.
pub proof fn lemma_split_label_invalid(t: Template, x1: int, y1: int, x2: int, y2: int, x: int, y: int)
    requires
        t.wf(),
        t.in_grid(x1, y1),
        t.in_grid(x2, y2),
        t.at(x1, y1) == t.at(x2, y2),
        (x1 <= x <= x2 || x2 <= x <= x1),
        (y1 <= y <= y2 || y2 <= y <= y1),
        t.at(x, y) != t.at(x1, y1),
    ensures
        !t.shape_ok(),
{
    if t.shape_ok() {
        let label = t.at(x1, y1);
        let r = t.region(label);
        assert(t.is_region(t.at(x1, y1), t.region(t.at(x1, y1))));
        assert(contains(r, x1, y1));
        assert(contains(r, x2, y2));
        assert(t.in_grid(x, y));
        assert(contains(r, x, y));
    }
}

impl Template {
    /// What the scan has done by `(x, y)`, in terms of `block` and
    /// `fails_at`.
    spec fn order_inv(&self, visited: Seq<bool>, out: Seq<(usize, GridRect)>, x: int, y: int) -> bool {
        &&& forall|a: int, b: int, c: int, d: int|
            self.in_grid(a, b) && before(a, b, x, y) && self.first_at(a, b) && self.in_grid(c, d)
                && #[trigger] contains(self.block(a, b), c, d) ==> visited[d * self.width + c]
        &&& forall|a: int, b: int| self.in_grid(a, b) && before(a, b, x, y) ==> !#[trigger] self.fails_at(a, b)
        &&& forall|k: int|
            0 <= k < out.len() ==> (#[trigger] out[k]).1 == self.block(out[k].1.x as int, out[k].1.y as int)
                && self.first_at(out[k].1.x as int, out[k].1.y as int)
    }

    proof fn lemma_first_fail_is(&self, p: (int, int))
        requires
            self.first_fail_at(p),
        ensures
            (choose|q: (int, int)| self.first_fail_at(q)) == p,
    {
        let q = choose|q: (int, int)| self.first_fail_at(q);
        assert(self.first_fail_at(q));
        if before(q.0, q.1, p.0, p.1) {
            assert(!self.fails_at(q.0, q.1));
        } else if before(p.0, p.1, q.0, q.1) {
            assert(!self.fails_at(p.0, p.1));
        }
    }

    proof fn lemma_first_bad_is(&self, r: GridRect, label: usize, p: (int, int))
        requires
            self.first_bad_at(r, label, p),
        ensures
            self.first_bad(r, label) == p,
    {
        let q = self.first_bad(r, label);
        assert(self.first_bad_at(r, label, q));
        if before(q.0, q.1, p.0, p.1) {
            assert(self.at(q.0, q.1) == label);
        } else if before(p.0, p.1, q.0, q.1) {
            assert(self.at(p.0, p.1) == label);
        }
    }

    proof fn lemma_not_first(&self, visited: Seq<bool>, out: Seq<(usize, GridRect)>, x: int, y: int, k: int)
        requires
            self.wf(),
            self.scan_inv(visited, out, x, y),
            self.in_grid(x, y),
            0 <= k < out.len(),
            out[k].0 == self.at(x, y),
        ensures
            !self.first_at(x, y),
    {
        let r = out[k].1;
        assert(contains(r, r.x as int, r.y as int));
        assert(self.at(r.x as int, r.y as int) == self.at(x, y));
    }

    proof fn lemma_order_visited(&self, visited: Seq<bool>, out: Seq<(usize, GridRect)>, x: int, y: int)
        requires
            self.wf(),
            self.scan_inv(visited, out, x, y),
            self.order_inv(visited, out, x, y),
            self.in_grid(x, y),
            visited[y * self.width + x],
        ensures
            self.order_inv(visited, out, x + 1, y),
    {
        let k = choose|k: int|
            0 <= k < out.len() && out[k].0 == self.at(x, y) && #[trigger] contains(out[k].1, x, y);
        self.lemma_not_first(visited, out, x, y, k);
        let r = out[k].1;
        assert(out[k] == out[k]);
        assert(r == self.block(r.x as int, r.y as int) && self.first_at(r.x as int, r.y as int));
        assert(self.in_grid(r.x as int, r.y as int));
        assert(contains(self.block(r.x as int, r.y as int), x, y));
        assert(self.covered_before(x, y));
        assert(!self.fails_at(x, y));
        assert forall|a: int, b: int| self.in_grid(a, b) && before(a, b, x + 1, y) implies !#[trigger] self.fails_at(
            a,
            b,
        ) by {
            if before(a, b, x, y) {
            } else {
                assert(a == x && b == y);
            }
        }
    }

    proof fn lemma_order_new(
        &self,
        old_visited: Seq<bool>,
        old_out: Seq<(usize, GridRect)>,
        visited: Seq<bool>,
        out: Seq<(usize, GridRect)>,
        x: int,
        y: int,
    )
        requires
            self.wf(),
            self.order_inv(old_visited, old_out, x, y),
            self.in_grid(x, y),
            self.first_at(x, y),
            self.block_ok(x, y),
            out == old_out.push((self.at(x, y), self.block(x, y))),
            visited.len() == self.width * self.height,
            forall|a: int, b: int|
                0 <= a < self.width && 0 <= b < self.height ==> #[trigger] visited[b * self.width + a]
                    == (old_visited[b * self.width + a] || contains(self.block(x, y), a, b)),
        ensures
            self.order_inv(visited, out, x + 1, y),
    {
        let n = old_out.len();
        assert forall|a: int, b: int, c: int, d: int|
            self.in_grid(a, b) && before(a, b, x + 1, y) && self.first_at(a, b) && self.in_grid(c, d)
                && #[trigger] contains(self.block(a, b), c, d) implies visited[d * self.width + c] by {
            assert(visited[d * self.width + c] == (old_visited[d * self.width + c] || contains(self.block(x, y), c, d)));
            if !(a == x && b == y) {
                assert(before(a, b, x, y));
            }
        }
        assert forall|a: int, b: int| self.in_grid(a, b) && before(a, b, x + 1, y) implies !#[trigger] self.fails_at(
            a,
            b,
        ) by {
            if !before(a, b, x, y) {
                assert(a == x && b == y);
            }
        }
        assert forall|k: int| 0 <= k < out.len() implies (#[trigger] out[k]).1 == self.block(
            out[k].1.x as int,
            out[k].1.y as int,
        ) && self.first_at(out[k].1.x as int, out[k].1.y as int) by {
            if k < n {
                assert(out[k] == old_out[k]);
            }
        }
    }

    proof fn lemma_order_row_end(&self, visited: Seq<bool>, out: Seq<(usize, GridRect)>, y: int)
        requires
            self.wf(),
            0 <= y < self.height,
            self.order_inv(visited, out, self.width as int, y),
        ensures
            self.order_inv(visited, out, 0, y + 1),
    {
        assert forall|a: int, b: int, c: int, d: int|
            self.in_grid(a, b) && before(a, b, 0, y + 1) && self.first_at(a, b) && self.in_grid(c, d)
                && #[trigger] contains(self.block(a, b), c, d) implies visited[d * self.width + c] by {
            assert(before(a, b, self.width as int, y));
        }
        assert forall|a: int, b: int| self.in_grid(a, b) && before(a, b, 0, y + 1) implies !#[trigger] self.fails_at(
            a,
            b,
        ) by {
            assert(before(a, b, self.width as int, y));
        }
    }

    proof fn lemma_error_seen(&self, visited: Seq<bool>, out: Seq<(usize, GridRect)>, x: int, y: int)
        requires
            self.wf(),
            self.scan_inv(visited, out, x, y),
            self.order_inv(visited, out, x, y),
            self.in_grid(x, y),
            !visited[y * self.width + x],
            has_label(out, self.at(x, y)),
        ensures
            self.scan_error() == (ShapeError {
                x: x as usize,
                y: y as usize,
                expected: self.at(x, y),
                found: self.at(x, y),
            }),
    {
        let k = choose|k: int| 0 <= k < out.len() && out[k].0 == self.at(x, y);
        self.lemma_not_first(visited, out, x, y, k);
        if self.covered_before(x, y) {
            let (a, b) = choose|a: int, b: int|
                self.in_grid(a, b) && before(a, b, x, y) && self.first_at(a, b) && #[trigger] contains(
                    self.block(a, b),
                    x,
                    y,
                );
            assert(visited[y * self.width + x]);
        }
        assert(self.first_fail_at((x, y)));
        self.lemma_first_fail_is((x, y));
    }

    proof fn lemma_error_block(&self, visited: Seq<bool>, out: Seq<(usize, GridRect)>, x: int, y: int, e: ShapeError)
        requires
            self.wf(),
            self.order_inv(visited, out, x, y),
            self.in_grid(x, y),
            self.first_at(x, y),
            self.first_bad_at(self.block(x, y), self.at(x, y), (e.x as int, e.y as int)),
            e.expected == self.at(x, y),
            e.found == self.at(e.x as int, e.y as int),
        ensures
            self.scan_error() == e,
    {
        assert(!self.block_ok(x, y));
        assert(self.first_fail_at((x, y)));
        self.lemma_first_fail_is((x, y));
        self.lemma_first_bad_is(self.block(x, y), self.at(x, y), (e.x as int, e.y as int));
    }
}

} // verus!
