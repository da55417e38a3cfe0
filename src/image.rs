//! Dense grayscale images: one byte per pixel, row-major, square.
use vstd::prelude::*;
use crate::grid::{
    Grid, is_side_for, lemma_row_major, lemma_side_exists, lemma_side_of_square, lemma_side_unique,
    side_for, window,
};

verus! {

/// `r` is the integer square root of `n`.
pub open spec fn is_floor_sqrt(r: nat, n: nat) -> bool {
    r * r <= n && n < (r + 1) * (r + 1)
}

/// The largest `r` with `r * r <= n`.
pub open spec fn floor_sqrt(n: nat) -> nat {
    choose|r: nat| is_floor_sqrt(r, n)
}

/// The integer square root of `n`.
pub fn integer_sqrt(n: u64) -> (r: u64)
    ensures
        r * r <= n < (r + 1) * (r + 1),
        r == floor_sqrt(n as nat),
{
    let mut lo: u64 = 0;
    let mut hi: u64 = 0x1_0000_0000;
    assert(n < hi * hi) by (nonlinear_arith)
        requires
            hi == 0x1_0000_0000u64,
            n <= u64::MAX,
    ;
    while hi - lo > 1
        invariant
            lo < hi <= 0x1_0000_0000u64,
            lo * lo <= n < hi * hi,
        decreases hi - lo,
    {
        let mid = lo + (hi - lo) / 2;
        assert(mid * mid < 0x1_0000_0000u64 * 0x1_0000_0000u64) by (nonlinear_arith)
            requires
                mid < 0x1_0000_0000u64,
        ;
        if mid * mid <= n {
            lo = mid;
        } else {
            hi = mid;
        }
    }
    proof {
        let r = lo as nat;
        assert(is_floor_sqrt(r, n as nat));
        let c = floor_sqrt(n as nat);
        assert(c * c <= n && n < (c + 1) * (c + 1));
        if c < r {
            assert((c + 1) * (c + 1) <= r * r) by (nonlinear_arith)
                requires
                    c < r,
            ;
        } else if r < c {
            assert((r + 1) * (r + 1) <= c * c) by (nonlinear_arith)
                requires
                    r < c,
            ;
        }
    }
    lo
}

/// The pixel that a squared Euclidean distance between two windows of side `kernel_size`
/// becomes: the distance's square root scaled so that the largest possible distance maps to
/// 255, rounded to the nearest integer.
///
/// The largest distance between windows of side `w` is `255 * w`, so the scaled value is
/// `sqrt(distance) / w`, and rounding it is `floor((floor(sqrt(4 * distance)) + w) / (2 * w))`.
/// With no window every positive distance saturates.
pub open spec fn pixel_value(distance: u32, kernel_size: usize) -> u8 {
    if kernel_size == 0 {
        if distance == 0 {
            0
        } else {
            255
        }
    } else {
        let scaled = (floor_sqrt(4 * distance as nat) + kernel_size as nat) / (2 * kernel_size as nat);
        if scaled > 255 {
            255
        } else {
            scaled as u8
        }
    }
}

/// A distance of zero is the darkest pixel.
pub proof fn lemma_pixelize_zero(kernel_size: usize)
    ensures
        pixel_value(0, kernel_size) == 0,
{
    let r = floor_sqrt(0);
    assert(is_floor_sqrt(0, 0)) by (nonlinear_arith);
    assert(r * r <= 0 && 0 < (r + 1) * (r + 1));
    assert(r == 0) by (nonlinear_arith)
        requires
            r * r <= 0,
    ;
    if kernel_size > 0 {
        assert((kernel_size as nat) / (2 * kernel_size as nat) == 0) by (nonlinear_arith)
            requires
                kernel_size > 0,
        ;
    }
}

/// Turns a squared Euclidean distance between windows of side `kernel_size` into a pixel.
pub fn scale_distance(distance: u32, kernel_size: usize) -> (r: u8)
    ensures
        r == pixel_value(distance, kernel_size),
{
    if kernel_size == 0 {
        return if distance == 0 {
            0
        } else {
            255
        };
    }
    let root = integer_sqrt(4 * distance as u64);
    let w = kernel_size as u64;
    proof {
        assert(root < 0x1_0000_0000u64) by (nonlinear_arith)
            requires
                root * root <= 4 * distance,
                distance <= u32::MAX,
        ;
    }
    if w > 0x1_0000_0000u64 {
        // the rounded value is below one
        proof {
            assert((root + w) / (2 * w) == 0) by (nonlinear_arith)
                requires
                    root < w,
            ;
        }
        return 0;
    }
    let scaled = (root + w) / (2 * w);
    if scaled > 255 {
        255
    } else {
        scaled as u8
    }
}

/// The sum of a sequence of bytes.
pub open spec fn byte_sum(s: Seq<u8>) -> nat
    decreases s.len(),
{
    if s.len() == 0 {
        0
    } else {
        byte_sum(s.drop_last()) + s.last() as nat
    }
}

pub proof fn lemma_byte_sum_push(s: Seq<u8>, b: u8)
    ensures
        byte_sum(s.push(b)) == byte_sum(s) + b,
{
    assert(s.push(b).drop_last() =~= s);
}

proof fn lemma_mean_bound(s: Seq<u8>, d: nat)
    requires
        s.len() == d,
        d > 0,
    ensures
        byte_sum(s) / d <= 255,
{
    lemma_byte_sum_bound(s);
    assert(byte_sum(s) / d <= 255) by (nonlinear_arith)
        requires
            byte_sum(s) <= 255 * d,
            d > 0,
    ;
}

pub proof fn lemma_byte_sum_bound(s: Seq<u8>)
    ensures
        byte_sum(s) <= 255 * s.len(),
    decreases s.len(),
{
    if s.len() > 0 {
        lemma_byte_sum_bound(s.drop_last());
    }
}

/// A square grayscale image.
#[derive(Clone, Debug)]
pub struct Image {
    pixels: Vec<u8>,
    side_size: usize,
}

impl View for Image {
    type V = Seq<u8>;

    closed spec fn view(&self) -> Seq<u8> {
        self.pixels@
    }
}

impl Image {
    /// The side of the image.
    pub closed spec fn side_nat(&self) -> nat {
        self.side_size as nat
    }

    /// The side is the ceiling of the square root of the number of pixels.
    pub open spec fn wf(&self) -> bool {
        &&& is_side_for(self.side_nat(), self@.len())
        &&& self@.len() <= usize::MAX
    }

    /// A well-formed image's side is fixed by its number of pixels.
    pub proof fn lemma_side(&self)
        requires
            self.wf(),
        ensures
            self.side_nat() == side_for(self@.len()),
    {
        lemma_side_exists(self@.len());
        lemma_side_unique(self.side_nat(), side_for(self@.len()), self@.len());
    }

    /// An image with no pixels.
    pub fn new() -> (r: Image)
        ensures
            r.wf(),
            r@ == Seq::<u8>::empty(),
    {
        Image { pixels: Vec::new(), side_size: 0 }
    }

    /// An image holding the given pixels in row-major order.
    pub fn from_vec(v: &Vec<u8>) -> (r: Image)
        ensures
            r.wf(),
            r@ == v@,
    {
        let mut result = Image::new();
        let mut i: usize = 0;
        while i < v.len()
            invariant
                i <= v@.len(),
                result.wf(),
                result@ == v@.subrange(0, i as int),
            decreases v@.len() - i,
        {
            result.add(v[i]);
            proof {
                assert(v@.subrange(0, i + 1) =~= v@.subrange(0, i as int).push(v@[i as int]));
            }
            i = i + 1;
        }
        proof {
            assert(v@.subrange(0, v@.len() as int) =~= v@);
        }
        result
    }

    /// The image whose `i`-th pixel is this image's pixel `permutation[i]`.
    pub fn permuted(&self, permutation: &[usize]) -> (r: Image)
        requires
            self.wf(),
            permutation@.len() == self@.len(),
            forall|i: int| 0 <= i < permutation@.len() ==> permutation@[i] < self@.len(),
        ensures
            r.wf(),
            r@ == Seq::new(permutation@.len(), |i: int| self@[permutation@[i] as int]),
    {
        let mut result = Image::new();
        let mut i: usize = 0;
        while i < permutation.len()
            invariant
                self.wf(),
                permutation@.len() == self@.len(),
                forall|i: int| 0 <= i < permutation@.len() ==> permutation@[i] < self@.len(),
                i <= permutation@.len(),
                result.wf(),
                result@ == Seq::new(i as nat, |k: int| self@[permutation@[k] as int]),
            decreases permutation@.len() - i,
        {
            result.add(self.pixels[permutation[i]]);
            proof {
                assert(result@ =~= Seq::new((i + 1) as nat, |k: int| self@[permutation@[k] as int]));
            }
            i = i + 1;
        }
        result
    }

    /// The mean of the `side` by `side` block whose top left corner is `(x, y)`.
    fn subimage_mean(&self, x: usize, y: usize, side: usize) -> (r: u8)
        requires
            self.wf(),
            self@.len() == self.side_nat() * self.side_nat(),
            side > 0,
            x + side <= self.side_nat(),
            y + side <= self.side_nat(),
        ensures
            r == byte_sum(window(self@, self.side_nat() as int, x as int, y as int, side as int, 0))
                / (side * side) as nat,
    {
        let ghost s = self.side_nat() as int;
        let ghost block = window(self@, s, x as int, y as int, side as int, 0u8);
        proof {
            assert(side * side <= s * s) by (nonlinear_arith)
                requires
                    side <= s,
            ;
        }
        let mut sum: u128 = 0;
        let ghost mut seen: Seq<u8> = Seq::empty();
        let mut j: usize = 0;
        while j < side
            invariant
                self.wf(),
                s == self.side_nat(),
                self@.len() == s * s,
                side > 0,
                x + side <= s,
                y + side <= s,
                j <= side,
                block == window(self@, s, x as int, y as int, side as int, 0u8),
                seen.len() == j * side,
                forall|k: int| 0 <= k < seen.len() ==> seen[k] == block[k],
                sum == byte_sum(seen),
            decreases side - j,
        {
            let mut i: usize = 0;
            while i < side
                invariant
                    self.wf(),
                    s == self.side_nat(),
                    self@.len() == s * s,
                    side > 0,
                    x + side <= s,
                    y + side <= s,
                    j < side,
                    i <= side,
                    block == window(self@, s, x as int, y as int, side as int, 0u8),
                    seen.len() == j * side + i,
                    forall|k: int| 0 <= k < seen.len() ==> seen[k] == block[k],
                    sum == byte_sum(seen),
                decreases side - i,
            {
                proof {
                    let k = j * side + i;
                    lemma_row_major(k, side as int, j as int, i as int);
                    assert(k < side * side) by (nonlinear_arith)
                        requires
                            k == j * side + i,
                            j < side,
                            i < side,
                    ;
                    assert((y + j) * s + (x + i) < s * s) by (nonlinear_arith)
                        requires
                            x + i < s,
                            y + j < s,
                    ;
                    lemma_byte_sum_bound(seen);
                    assert(side * side <= s * s) by (nonlinear_arith)
                        requires
                            side <= s,
                    ;
                }
                let p = self.get(x + i, y + j);
                proof {
                    lemma_byte_sum_push(seen, p);
                    seen = seen.push(p);
                }
                sum = sum + p as u128;
                i = i + 1;
            }
            proof {
                assert((j + 1) * side == j * side + side) by (nonlinear_arith);
            }
            j = j + 1;
        }
        proof {
            assert(seen =~= block);
            assert(side * side <= s * s) by (nonlinear_arith)
                requires
                    side <= s,
            ;
            lemma_byte_sum_bound(seen);
            assert(sum as nat / ((side * side) as nat) <= 255) by (nonlinear_arith)
                requires
                    sum <= 255 * (side * side),
                    side > 0,
            ;
            assert(side * side > 0) by (nonlinear_arith)
                requires
                    side > 0,
            ;
        }
        (sum / ((side * side) as u128)) as u8
    }
}

impl Image {
    /// The `side` by `side` window centred on `(x_center, y_center)`, with zero for every
    /// position outside the image.
    pub fn subimage(&self, x_center: usize, y_center: usize, side: usize) -> (r: Image)
        requires
            self.wf(),
            x_center + side <= isize::MAX,
            y_center + side <= isize::MAX,
            side * side < usize::MAX,
        ensures
            r.wf(),
            r.side_nat() == side,
            r@ == window(
                self@,
                self.side_nat() as int,
                x_center - side / 2,
                y_center - side / 2,
                side as int,
                0u8,
            ),
    {
        Grid::subimage(self, x_center, y_center, side)
    }

    /// The image of side `side / shrink` whose pixel `(x, y)` is the mean of the `shrink` by
    /// `shrink` block whose top left corner is `(x, y)`.
    pub fn shrunken(&self, shrink: usize) -> (r: Image)
        requires
            self.wf(),
            self@.len() == self.side_nat() * self.side_nat(),
            shrink > 0,
        ensures
            r.wf(),
            r.side_nat() == self.side_nat() / shrink as nat,
            r@.len() == r.side_nat() * r.side_nat(),
            forall|x: int, y: int|
                0 <= x < r.side_nat() && 0 <= y < r.side_nat() ==> #[trigger] r@[y * r.side_nat()
                    + x] == byte_sum(window(self@, self.side_nat() as int, x, y, shrink as int, 0))
                    / (shrink * shrink) as nat,
    {
        let s = self.side_size;
        let target = s / shrink;
        proof {
            let q = target as int;
            assert(q * shrink <= s) by (nonlinear_arith)
                requires
                    q == s / shrink,
                    shrink > 0,
            ;
            assert(q - 1 + shrink <= s || q == 0) by (nonlinear_arith)
                requires
                    q * shrink <= s,
                    shrink >= 1,
                    q >= 0,
            ;
            assert(q * q <= s * s) by (nonlinear_arith)
                requires
                    0 <= q <= s,
            ;
        }
        let ghost expected = Seq::new(
            (target * target) as nat,
            |k: int|
                (byte_sum(
                    window(self@, s as int, k % target as int, k / target as int, shrink as int, 0),
                ) / (shrink * shrink) as nat) as u8,
        );
        let mut result = Image::new();
        let mut y: usize = 0;
        while y < target
            invariant
                self.wf(),
                s == self.side_nat(),
                self@.len() == s * s,
                shrink > 0,
                target == s / shrink,
                target - 1 + shrink <= s || target == 0,
                target * target <= s * s,
                y <= target,
                result.wf(),
                result@.len() == y * target,
                expected.len() == target * target,
                expected == Seq::new(
                    (target * target) as nat,
                    |k: int|
                        (byte_sum(
                            window(self@, s as int, k % target as int, k / target as int, shrink as int, 0),
                        ) / (shrink * shrink) as nat) as u8,
                ),
                forall|k: int| 0 <= k < result@.len() ==> result@[k] == expected[k],
            decreases target - y,
        {
            let mut x: usize = 0;
            while x < target
                invariant
                    self.wf(),
                    s == self.side_nat(),
                    self@.len() == s * s,
                    shrink > 0,
                    target == s / shrink,
                    target - 1 + shrink <= s,
                    target * target <= s * s,
                    y < target,
                    x <= target,
                    result.wf(),
                    result@.len() == y * target + x,
                    expected.len() == target * target,
                    expected == Seq::new(
                        (target * target) as nat,
                        |k: int|
                            (byte_sum(
                                window(self@, s as int, k % target as int, k / target as int, shrink as int, 0),
                            ) / (shrink * shrink) as nat) as u8,
                    ),
                    forall|k: int| 0 <= k < result@.len() ==> result@[k] == expected[k],
                decreases target - x,
            {
                let m = self.subimage_mean(x, y, shrink);
                proof {
                    let k = y * target + x;
                    lemma_row_major(k, target as int, y as int, x as int);
                    assert(k < target * target) by (nonlinear_arith)
                        requires
                            k == y * target + x,
                            y < target,
                            x < target,
                    ;
                    assert(k < usize::MAX) by (nonlinear_arith)
                        requires
                            k < target * target,
                            target * target <= s * s,
                            s * s <= usize::MAX,
                    ;
                }
                result.add(m);
                x = x + 1;
            }
            proof {
                assert((y + 1) * target == y * target + target) by (nonlinear_arith);
            }
            y = y + 1;
        }
        proof {
            assert(result@ =~= expected);
            result.lemma_grid_side();
            lemma_side_of_square(target as nat);
            lemma_side_unique(result.side_nat(), target as nat, (target * target) as nat);
            assert forall|x: int, y: int|
                0 <= x < result.side_nat() && 0 <= y < result.side_nat() implies #[trigger] result@[y
                * result.side_nat() + x] == byte_sum(window(self@, s as int, x, y, shrink as int, 0))
                / (shrink * shrink) as nat by {
                lemma_row_major(y * target + x, target as int, y, x);
                assert(y * target + x < target * target) by (nonlinear_arith)
                    requires
                        0 <= x < target,
                        0 <= y < target,
                ;
                assert(shrink * shrink > 0) by (nonlinear_arith)
                    requires
                        shrink > 0,
                ;
                lemma_mean_bound(window(self@, s as int, x, y, shrink as int, 0), (shrink * shrink) as nat);
            }
        }
        result
    }

    /// The mean of all pixels.
    pub fn pixel_mean(&self) -> (r: u8)
        requires
            self@.len() > 0,
        ensures
            r == byte_sum(self@) / self@.len(),
    {
        let mut sum: u128 = 0;
        let mut i: usize = 0;
        while i < self.pixels.len()
            invariant
                i <= self@.len(),
                sum == byte_sum(self@.subrange(0, i as int)),
            decreases self@.len() - i,
        {
            proof {
                assert(self@.subrange(0, i + 1) =~= self@.subrange(0, i as int).push(self@[i as int]));
                lemma_byte_sum_push(self@.subrange(0, i as int), self@[i as int]);
                lemma_byte_sum_bound(self@.subrange(0, i as int));
            }
            sum = sum + self.pixels[i] as u128;
            i = i + 1;
        }
        proof {
            assert(self@.subrange(0, self@.len() as int) =~= self@);
            lemma_byte_sum_bound(self@);
            assert(sum as nat / self@.len() <= 255) by (nonlinear_arith)
                requires
                    sum <= 255 * self@.len(),
                    self@.len() > 0,
            ;
        }
        (sum / self.pixels.len() as u128) as u8
    }

    /// A copy of the image.
    pub fn clone_image(&self) -> (r: Image)
        ensures
            r@ == self@,
            r.side_nat() == self.side_nat(),
    {
        let mut pixels: Vec<u8> = Vec::new();
        let mut i: usize = 0;
        while i < self.pixels.len()
            invariant
                i <= self@.len(),
                pixels@ == self@.subrange(0, i as int),
            decreases self@.len() - i,
        {
            pixels.push(self.pixels[i]);
            proof {
                assert(self@.subrange(0, i + 1) =~= self@.subrange(0, i as int).push(self@[i as int]));
            }
            i = i + 1;
        }
        proof {
            assert(self@.subrange(0, self@.len() as int) =~= self@);
        }
        Image { pixels, side_size: self.side_size }
    }

    /// The number of pixels.
    pub fn pixel_count(&self) -> (r: usize)
        ensures
            r == self@.len(),
    {
        self.pixels.len()
    }

    /// The pixel at row-major position `i`.
    pub fn pixel(&self, i: usize) -> (r: u8)
        requires
            i < self@.len(),
        ensures
            r == self@[i as int],
    {
        self.pixels[i]
    }

    /// Whether two images have the same side and the same pixels.
    pub fn equals(&self, other: &Image) -> (r: bool)
        ensures
            r == (self.side_nat() == other.side_nat() && self@ == other@),
    {
        if self.side_size != other.side_size || self.pixels.len() != other.pixels.len() {
            return false;
        }
        let mut i: usize = 0;
        while i < self.pixels.len()
            invariant
                self@.len() == other@.len(),
                i <= self@.len(),
                forall|k: int| 0 <= k < i ==> self@[k] == other@[k],
            decreases self@.len() - i,
        {
            if self.pixels[i] != other.pixels[i] {
                return false;
            }
            i = i + 1;
        }
        proof {
            assert(self@ =~= other@);
        }
        true
    }
}

impl PartialEq for Image {
    fn eq(&self, other: &Image) -> (r: bool) {
        self.equals(other)
    }
}

impl vstd::std_specs::cmp::PartialEqSpecImpl for Image {
    open spec fn obeys_eq_spec() -> bool {
        true
    }

    open spec fn eq_spec(&self, other: &Image) -> bool {
        self.side_nat() == other.side_nat() && self@ == other@
    }
}

impl Grid<u8> for Image {
    open spec fn cells(&self) -> Seq<u8> {
        self@
    }

    open spec fn side_spec(&self) -> nat {
        self.side_nat()
    }

    open spec fn grid_wf(&self) -> bool {
        self.wf()
    }

    open spec fn blank() -> u8 {
        0
    }

    open spec fn pixel_for(&self, distance: u32, kernel_size: usize) -> u8 {
        pixel_value(distance, kernel_size)
    }

    proof fn lemma_grid_side(&self) {
    }

    fn add(&mut self, pixel: u8) {
        self.pixels.push(pixel);
        let n = self.pixels.len();
        let s = self.side_size;
        proof {
            if s > 0 {
                crate::grid::lemma_div_at_least(n - 1, s as int);
            }
        }
        if s == 0 || (n - 1) / s >= s {
            proof {
                if s == 0 {
                    assert(s * s == 0) by (nonlinear_arith)
                        requires
                            s == 0,
                    ;
                }
                assert(s < usize::MAX) by (nonlinear_arith)
                    requires
                        s * s < n,
                        n <= usize::MAX,
                ;
                assert(n <= (s + 1) * (s + 1)) by (nonlinear_arith)
                    requires
                        n - 1 <= s * s,
                ;
            }
            self.side_size = s + 1;
        } else {
            proof {
                assert((s - 1) * (s - 1) < n);
            }
        }
    }

    fn get(&self, x: usize, y: usize) -> u8 {
        self.pixels[y * self.side_size + x]
    }

    fn side(&self) -> usize {
        self.side_size
    }

    fn len(&self) -> usize {
        self.pixels.len()
    }

    fn blank_cell() -> u8 {
        0
    }

    fn default(&self) -> Image {
        Image::new()
    }

    fn pixelize(&self, distance: u32, kernel_size: usize) -> u8 {
        scale_distance(distance, kernel_size)
    }
}

} // verus!
