//! Square, row-major grids of cells, their windows, and the coordinate scans over them.
use vstd::prelude::*;
use vstd::arithmetic::div_mod::lemma_fundamental_div_mod_converse;

verus! {

/// `side` is the ceiling of the square root of `len`: the smallest square side that holds
/// `len` cells.
pub open spec fn is_side_for(side: nat, len: nat) -> bool {
    len <= side * side && (side == 0 || (side - 1) * (side - 1) < len)
}

/// The side of a square grid that holds `len` cells.
pub open spec fn side_for(len: nat) -> nat {
    choose|side: nat| is_side_for(side, len)
}

/// At most one side fits a given number of cells.
pub proof fn lemma_side_unique(a: nat, b: nat, len: nat)
    requires
        is_side_for(a, len),
        is_side_for(b, len),
    ensures
        a == b,
{
    if a < b {
        assert(a * a <= (b - 1) * (b - 1)) by (nonlinear_arith)
            requires
                a < b,
        ;
    } else if b < a {
        assert(b * b <= (a - 1) * (a - 1)) by (nonlinear_arith)
            requires
                b < a,
        ;
    }
}

/// Every number of cells has a side.
pub proof fn lemma_side_exists(len: nat)
    ensures
        is_side_for(side_for(len), len),
    decreases len,
{
    if len == 0 {
        assert(is_side_for(0, 0));
    } else {
        lemma_side_exists((len - 1) as nat);
        let s = side_for((len - 1) as nat);
        if len <= s * s {
            assert(is_side_for(s, len));
        } else {
            assert(is_side_for(s + 1, len)) by (nonlinear_arith)
                requires
                    len - 1 <= s * s,
                    s * s < len,
            ;
        }
    }
}

/// A grid of `w * w` cells has side `w`.
pub proof fn lemma_side_of_square(w: nat)
    ensures
        is_side_for(w, w * w),
        side_for(w * w) == w,
{
    assert(w == 0 || (w - 1) * (w - 1) < w * w) by (nonlinear_arith);
    assert(is_side_for(w, w * w));
    lemma_side_unique(side_for(w * w), w, w * w);
}

/// `a / r` reaches `r` exactly when `r * r` does not exceed `a`.
pub proof fn lemma_div_at_least(a: int, r: int)
    requires
        a >= 0,
        r > 0,
    ensures
        (a / r >= r) == (r * r <= a),
{
    let q = a / r;
    let m = a % r;
    assert(a == q * r + m && 0 <= m < r) by (nonlinear_arith)
        requires
            r > 0,
            q == a / r,
            m == a % r,
    ;
    if q >= r {
        assert(r * r <= q * r) by (nonlinear_arith)
            requires
                q >= r,
                r > 0,
        ;
    } else {
        assert(q * r + m < r * r) by (nonlinear_arith)
            requires
                q < r,
                0 <= m < r,
                q >= 0,
        ;
    }
}

/// The ceiling of the square root of `n`.
pub fn ceil_sqrt(n: usize) -> (r: usize)
    ensures
        is_side_for(r as nat, n as nat),
        r == side_for(n as nat),
{
    if n == 0 {
        proof {
            lemma_side_of_square(0);
        }
        return 0;
    }
    let mut r: usize = 1;
    proof {
        lemma_div_at_least(n - 1, 1);
    }
    while (n - 1) / r >= r
        invariant
            1 <= r <= n,
            (r - 1) * (r - 1) < n,
        decreases n - r,
    {
        proof {
            lemma_div_at_least(n - 1, r as int);
            assert(r < n) by (nonlinear_arith)
                requires
                    r * r <= n - 1,
                    r >= 1,
            ;
        }
        r = r + 1;
    }
    proof {
        lemma_div_at_least(n - 1, r as int);
        assert(is_side_for(r as nat, n as nat));
        lemma_side_unique(side_for(n as nat), r as nat, n as nat);
    }
    r
}

/// The cell at column `x` and row `y` of a row-major square of the given side, or `blank`
/// where the square holds no such cell.
pub open spec fn cell_at<T>(cells: Seq<T>, side: int, x: int, y: int, blank: T) -> T {
    if 0 <= x < side && 0 <= y < side && y * side + x < cells.len() {
        cells[y * side + x]
    } else {
        blank
    }
}

/// The `w` by `w` window whose top left corner is at `(x0, y0)`, row-major, with `blank` for
/// every position outside the grid.
pub open spec fn window<T>(cells: Seq<T>, side: int, x0: int, y0: int, w: int, blank: T) -> Seq<T> {
    Seq::new((w * w) as nat, |k: int| cell_at(cells, side, x0 + k % w, y0 + k / w, blank))
}

/// Position `k` of a row-major scan of rows of width `w` is column `k % w` of row `k / w`.
pub proof fn lemma_row_major(k: int, w: int, row: int, col: int)
    requires
        w > 0,
        0 <= col < w,
        k == row * w + col,
    ensures
        k % w == col,
        k / w == row,
{
    lemma_fundamental_div_mod_converse(k, w, row, col);
}

/// The centre cell of the `w` by `w` window centred on a cell of the grid is that cell.
pub proof fn lemma_window_centre<T>(cells: Seq<T>, side: int, x: int, y: int, w: int, blank: T)
    requires
        w > 0,
        0 <= x < side,
        0 <= y < side,
        y * side + x < cells.len(),
    ensures
        window(cells, side, x - w / 2, y - w / 2, w, blank)[(w / 2) * w + w / 2] == cells[y * side
            + x],
{
    let k = (w / 2) * w + w / 2;
    lemma_row_major(k, w, w / 2, w / 2);
    assert(k < w * w) by (nonlinear_arith)
        requires
            k == (w / 2) * w + w / 2,
            w > 0,
    ;
}

/// A row-major scan of a rectangle of integer coordinates, moving by `stride` in both
/// directions.
pub struct ImageIterator {
    pub width: isize,
    pub height: isize,
    pub x: isize,
    pub y: isize,
    pub x_start: isize,
    pub y_start: isize,
    pub stride: isize,
}

impl ImageIterator {
    /// Every coordinate has been produced.
    pub open spec fn is_done(&self) -> bool {
        self.y >= self.y_start + self.height
    }

    /// The state after one coordinate has been produced.
    pub open spec fn stepped(&self) -> ImageIterator {
        if self.x + self.stride >= self.x_start + self.width {
            ImageIterator { x: self.x_start, y: (self.y + self.stride) as isize, ..*self }
        } else {
            ImageIterator { x: (self.x + self.stride) as isize, ..*self }
        }
    }

    /// The largest column that the scan can reach.
    pub open spec fn x_limit(&self) -> int {
        if self.width > 0 {
            self.x_start + self.width
        } else {
            self.x_start as int
        }
    }

    /// The scan moves forward and stays clear of the bounds of `isize`; a width or height of
    /// zero or less is allowed.
    pub open spec fn bounded(&self) -> bool {
        &&& self.stride > 0
        &&& isize::MIN <= self.x_start + self.width
        &&& isize::MIN <= self.y_start + self.height
        &&& self.x <= self.x_limit()
        &&& self.x_limit() + self.stride <= isize::MAX
        &&& self.y_start + self.height + self.stride <= isize::MAX
    }

    /// The coordinates still to come, in order.
    pub open spec fn remaining(self) -> Seq<(isize, isize)>
        decreases
                (if self.y_start + self.height - self.y > 0 {
                    self.y_start + self.height - self.y
                } else {
                    0
                }) as nat,
                (if self.x_start + self.width - self.x > 0 {
                    self.x_start + self.width - self.x
                } else {
                    0
                }) as nat,
    {
        if self.is_done() || self.stride <= 0 || self.y + self.stride > isize::MAX || self.x
            + self.stride > isize::MAX {
            seq![]
        } else {
            seq![(self.x, self.y)] + self.stepped().remaining()
        }
    }

    /// A scan of the `width` by `height` rectangle whose top left corner is `(x, y)`.
    pub fn new(x: isize, y: isize, width: isize, height: isize, stride: isize) -> (r:
        ImageIterator)
        ensures
            r == (ImageIterator { x, y, width, height, x_start: x, y_start: y, stride }),
    {
        ImageIterator { x, y, width, height, x_start: x, y_start: y, stride }
    }

    /// A scan of the `width` by `height` rectangle centred on `(x, y)`; for an even size the
    /// centre lies right of and below the middle.
    pub fn centered(x: isize, y: isize, width: isize, height: isize, stride: isize) -> (r:
        ImageIterator)
        requires
            width >= 0,
            height >= 0,
            x - width / 2 >= isize::MIN,
            y - height / 2 >= isize::MIN,
        ensures
            r == ImageIterator::new_spec(x - width / 2, y - height / 2, width, height, stride),
    {
        ImageIterator::new(x - width / 2, y - height / 2, width, height, stride)
    }

    pub open spec fn new_spec(x: int, y: int, width: isize, height: isize, stride: isize) -> ImageIterator {
        ImageIterator {
            x: x as isize,
            y: y as isize,
            width,
            height,
            x_start: x as isize,
            y_start: y as isize,
            stride,
        }
    }

    /// Produces the next coordinate, or `None` once the scan is over.
    pub fn next(&mut self) -> (r: Option<(isize, isize)>)
        requires
            old(self).bounded(),
        ensures
            final(self).bounded(),
            old(self).is_done() ==> r is None && *final(self) == *old(self),
            !old(self).is_done() ==> r == Some((old(self).x, old(self).y)) && *final(self)
                == old(self).stepped(),
    {
        if self.y >= self.y_start + self.height {
            None
        } else {
            let result = (self.x, self.y);
            self.x = self.x + self.stride;
            if self.x >= self.x_start + self.width {
                self.x = self.x_start;
                self.y = self.y + self.stride;
            }
            Some(result)
        }
    }

    /// Every coordinate still to come, in order.
    pub fn to_vec(self) -> (r: Vec<(isize, isize)>)
        requires
            self.bounded(),
        ensures
            r@ == self.remaining(),
    {
        let mut it = self;
        let mut out: Vec<(isize, isize)> = Vec::new();
        loop
            invariant
                it.bounded(),
                out@ + it.remaining() == self.remaining(),
            ensures
                out@ == self.remaining(),
            decreases
                (if it.y_start + it.height - it.y > 0 {
                    it.y_start + it.height - it.y
                } else {
                    0
                }) as nat,
                (if it.x_start + it.width - it.x > 0 {
                    it.x_start + it.width - it.x
                } else {
                    0
                }) as nat,
        {
            let ghost before = it;
            match it.next() {
                Some(p) => {
                    proof {
                        assert(before.remaining() == seq![p] + it.remaining());
                        assert(out@.push(p) + it.remaining() =~= out@ + before.remaining());
                    }
                    out.push(p);
                },
                None => {
                    proof {
                        assert(out@ + it.remaining() =~= out@);
                    }
                    break ;
                },
            }
        }
        out
    }
}

/// A square, row-major grid of cells that grows one cell at a time.
pub trait Grid<T: Copy>: Sized {
    /// The cells, row by row.
    spec fn cells(&self) -> Seq<T>;

    /// The side of the square.
    spec fn side_spec(&self) -> nat;

    /// The grid is well formed.
    spec fn grid_wf(&self) -> bool;

    /// The cell that stands for a position outside the grid.
    spec fn blank() -> T;

    /// The cell that a distance becomes when windows of side `kernel_size` are compared.
    spec fn pixel_for(&self, distance: u32, kernel_size: usize) -> T;

    /// The side of a well-formed grid is the ceiling of the square root of its length.
    proof fn lemma_grid_side(&self)
        requires
            self.grid_wf(),
        ensures
            is_side_for(self.side_spec(), self.cells().len()),
            self.cells().len() <= usize::MAX,
    ;

    /// Appends a cell in row-major order; the side follows the new length.
    fn add(&mut self, pixel: T)
        requires
            old(self).grid_wf(),
            old(self).cells().len() < usize::MAX,
        ensures
            final(self).grid_wf(),
            final(self).cells() == old(self).cells().push(pixel),
    ;

    /// The cell at column `x` and row `y`.
    fn get(&self, x: usize, y: usize) -> (r: T)
        requires
            self.grid_wf(),
            x < self.side_spec(),
            y < self.side_spec(),
            y * self.side_spec() + x < self.cells().len(),
        ensures
            r == self.cells()[y * self.side_spec() + x],
    ;

    fn side(&self) -> (r: usize)
        requires
            self.grid_wf(),
        ensures
            r == self.side_spec(),
    ;

    fn len(&self) -> (r: usize)
        requires
            self.grid_wf(),
        ensures
            r == self.cells().len(),
    ;

    /// The blank cell.
    fn blank_cell() -> (r: T)
        ensures
            r == Self::blank(),
    ;

    /// An empty grid of the same kind.
    fn default(&self) -> (r: Self)
        ensures
            r.grid_wf(),
            r.cells().len() == 0,
    ;

    /// The cell that `distance` becomes when windows of side `kernel_size` are compared.
    fn pixelize(&self, distance: u32, kernel_size: usize) -> (r: T)
        requires
            self.grid_wf(),
        ensures
            r == self.pixel_for(distance, kernel_size),
    ;

    /// Whether `(x, y)` lies inside the square.
    fn in_bounds(&self, x: isize, y: isize) -> (r: bool)
        requires
            self.grid_wf(),
        ensures
            r == (0 <= x < self.side_spec() && 0 <= y < self.side_spec()),
    {
        let side = self.side();
        x >= 0 && y >= 0 && (x as usize) < side && (y as usize) < side
    }

    /// The cell at `(x, y)`, or `None` where the grid holds no such cell.
    fn option_get(&self, x: isize, y: isize) -> (r: Option<T>)
        requires
            self.grid_wf(),
        ensures
            r == if 0 <= x < self.side_spec() && 0 <= y < self.side_spec() && y
                * self.side_spec() + x < self.cells().len() {
                Some(cell_at(self.cells(), self.side_spec() as int, x as int, y as int, Self::blank()))
            } else {
                None::<T>
            },
    {
        proof {
            self.lemma_grid_side();
        }
        if !self.in_bounds(x, y) {
            return None;
        }
        let side = self.side();
        let (ux, uy) = (x as usize, y as usize);
        match uy.checked_mul(side) {
            Some(row) => match row.checked_add(ux) {
                Some(index) => {
                    if index < self.len() {
                        Some(self.get(ux, uy))
                    } else {
                        None
                    }
                },
                None => None,
            },
            None => None,
        }
    }

    /// A row-major scan of every position of the grid.
    fn x_y_iter(&self) -> (r: ImageIterator)
        requires
            self.grid_wf(),
            self.side_spec() <= isize::MAX,
        ensures
            r == ImageIterator::new_spec(0, 0, self.side_spec() as isize, self.side_spec() as isize, 1),
    {
        let side = self.side() as isize;
        ImageIterator::new(0, 0, side, side, 1)
    }

    /// A row-major scan of every `step_size`-th column of every `step_size`-th row.
    fn x_y_step_iter(&self, step_size: usize) -> (r: ImageIterator)
        requires
            self.grid_wf(),
            self.side_spec() <= isize::MAX,
            step_size <= isize::MAX,
        ensures
            r == ImageIterator::new_spec(
                0,
                0,
                self.side_spec() as isize,
                self.side_spec() as isize,
                step_size as isize,
            ),
    {
        let side = self.side() as isize;
        ImageIterator::new(0, 0, side, side, step_size as isize)
    }

    /// The `side` by `side` window centred on `(x_center, y_center)`; positions outside the
    /// grid hold the blank cell, so the window is whole even at an edge.
    fn subimage(&self, x_center: usize, y_center: usize, side: usize) -> (r: Self)
        requires
            self.grid_wf(),
            x_center + side <= isize::MAX,
            y_center + side <= isize::MAX,
            side * side < usize::MAX,
        ensures
            r.grid_wf(),
            r.side_spec() == side,
            r.cells() == window(
                self.cells(),
                self.side_spec() as int,
                x_center - side / 2,
                y_center - side / 2,
                side as int,
                Self::blank(),
            ),
    {
        let x0: isize = x_center as isize - (side / 2) as isize;
        let y0: isize = y_center as isize - (side / 2) as isize;
        let ghost target = window(
            self.cells(),
            self.side_spec() as int,
            x0 as int,
            y0 as int,
            side as int,
            Self::blank(),
        );
        let mut result = self.default();
        let mut j: usize = 0;
        while j < side
            invariant
                self.grid_wf(),
                x0 == x_center - side / 2,
                y0 == y_center - side / 2,
                x_center + side <= isize::MAX,
                y_center + side <= isize::MAX,
                side * side < usize::MAX,
                j <= side,
                result.grid_wf(),
                result.cells().len() == j * side,
                target.len() == side * side,
                target == window(
                    self.cells(),
                    self.side_spec() as int,
                    x0 as int,
                    y0 as int,
                    side as int,
                    Self::blank(),
                ),
                forall|k: int| 0 <= k < result.cells().len() ==> result.cells()[k] == target[k],
            decreases side - j,
        {
            let mut i: usize = 0;
            while i < side
                invariant
                    self.grid_wf(),
                    x0 == x_center - side / 2,
                    y0 == y_center - side / 2,
                    x_center + side <= isize::MAX,
                    y_center + side <= isize::MAX,
                    side * side < usize::MAX,
                    j < side,
                    i <= side,
                    result.grid_wf(),
                    result.cells().len() == j * side + i,
                    target.len() == side * side,
                    target == window(
                        self.cells(),
                        self.side_spec() as int,
                        x0 as int,
                        y0 as int,
                        side as int,
                        Self::blank(),
                    ),
                    forall|k: int| 0 <= k < result.cells().len() ==> result.cells()[k] == target[k],
                decreases side - i,
            {
                let cell = match self.option_get(x0 + i as isize, y0 + j as isize) {
                    Some(c) => c,
                    None => Self::blank_cell(),
                };
                proof {
                    let k = j * side + i;
                    lemma_row_major(k, side as int, j as int, i as int);
                    assert(k < side * side) by (nonlinear_arith)
                        requires
                            k == j * side + i,
                            j < side,
                            i < side,
                    ;
                    assert(target[k] == cell_at(
                        self.cells(),
                        self.side_spec() as int,
                        x0 + i,
                        y0 + j,
                        Self::blank(),
                    ));
                    assert(cell == target[k]);
                }
                result.add(cell);
                i = i + 1;
            }
            proof {
                assert((j + 1) * side == j * side + side) by (nonlinear_arith);
            }
            j = j + 1;
        }
        proof {
            result.lemma_grid_side();
            lemma_side_of_square(side as nat);
            lemma_side_unique(result.side_spec(), side as nat, (side * side) as nat);
            assert(result.cells() =~= target);
        }
        result
    }
}

/// The centre cell of a window taken by `subimage` is the cell it is centred on: for a window
/// `sub` of side `w` centred on `(x, y)`, `sub.get(w / 2, w / 2) == g.get(x, y)`.
pub proof fn lemma_subimage_centre<T: Copy, G: Grid<T>>(g: &G, sub: &G, x: usize, y: usize, w: usize)
    requires
        g.grid_wf(),
        w > 0,
        x < g.side_spec(),
        y < g.side_spec(),
        y * g.side_spec() + x < g.cells().len(),
        sub.side_spec() == w,
        sub.cells() == window(
            g.cells(),
            g.side_spec() as int,
            x - w / 2,
            y - w / 2,
            w as int,
            G::blank(),
        ),
    ensures
        sub.cells()[(w / 2) * sub.side_spec() + w / 2] == g.cells()[y * g.side_spec() + x],
{
    lemma_window_centre(g.cells(), g.side_spec() as int, x as int, y as int, w as int, G::blank());
}

} // verus!
