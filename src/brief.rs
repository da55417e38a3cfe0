//! BRIEF descriptors: fixed lists of pixel pairs, each compared to give one bit.
use vstd::prelude::*;
use hash_histogram::HashHistogram;
use vstd::multiset::Multiset;
use rand::distributions::{Distribution, Uniform};
use crate::bits::BitArray;
use crate::grid::{Grid, lemma_row_major, side_for, window};
use crate::image::Image;

verus! {

/// A pair of pixel positions.
pub type PixelPair = ((usize, usize), (usize, usize));

/// A descriptor: the pixel pairs compared, for images of the given width and height.
#[derive(Clone, Debug)]
pub struct Descriptor {
    pairs: Vec<PixelPair>,
    width: usize,
    height: usize,
}

/// The pixel at `(x, y)` of a full square image.
pub open spec fn pixel_at(cells: Seq<u8>, x: int, y: int) -> u8 {
    cells[y * side_for(cells.len()) as int + x]
}

/// Both positions of every pair lie inside a `side` by `side` image.
pub open spec fn pairs_inside(pairs: Seq<PixelPair>, side: nat) -> bool {
    forall|i: int|
        0 <= i < pairs.len() ==> (#[trigger] pairs[i]).0.0 < side && pairs[i].0.1 < side
            && pairs[i].1.0 < side && pairs[i].1.1 < side
}

/// The number of positions at which the first window is darker than the second.
pub open spec fn darker_count(a: Seq<u8>, b: Seq<u8>) -> nat
    decreases a.len(),
{
    if a.len() == 0 {
        0
    } else {
        darker_count(a.drop_last(), b.drop_last()) + if a.last() < b[a.len() - 1] {
            1nat
        } else {
            0nat
        }
    }
}

/// Whether the window of side `k` centred on `(x1, y1)` is darker than the one centred on
/// `(x2, y2)` at more than half of the positions.
pub open spec fn mask_bit(cells: Seq<u8>, x1: int, y1: int, x2: int, y2: int, k: nat) -> bool {
    let s = side_for(cells.len()) as int;
    let a = window(cells, s, x1 - k / 2, y1 - k / 2, k as int, 0u8);
    let b = window(cells, s, x2 - k / 2, y2 - k / 2, k as int, 0u8);
    darker_count(a, b) > (k * k) / 2
}

impl Descriptor {
    /// The pixel pairs.
    pub closed spec fn pairs_view(&self) -> Seq<PixelPair> {
        self.pairs@
    }

    pub closed spec fn width_spec(&self) -> nat {
        self.width as nat
    }

    pub closed spec fn height_spec(&self) -> nat {
        self.height as nat
    }

    /// A descriptor made of the given pairs.
    pub fn from_pairs(pairs: Vec<PixelPair>, width: usize, height: usize) -> (r: Descriptor)
        ensures
            r.pairs_view() == pairs@,
            r.width_spec() == width,
            r.height_spec() == height,
    {
        Descriptor { pairs, width, height }
    }

    /// Pairs each position, row by row, with the position `x_offset` columns right of it and
    /// `y_offset` rows below it, wrapping round the edges.
    pub fn equidistant(width: usize, height: usize, x_offset: usize, y_offset: usize) -> (r:
        Descriptor)
        requires
            height > 0 ==> width > 0,
            width + x_offset <= usize::MAX,
            height + y_offset <= usize::MAX,
        ensures
            r.width_spec() == width,
            r.height_spec() == height,
            r.pairs_view() == Seq::new(
                (width * height) as nat,
                |k: int|
                    (
                        ((k % width as int) as usize, (k / width as int) as usize),
                        (
                            ((k % width as int + x_offset) % width as int) as usize,
                            ((k / width as int + y_offset) % height as int) as usize,
                        ),
                    ),
            ),
    {
        let ghost target = Seq::new(
            (width * height) as nat,
            |k: int|
                (
                    ((k % width as int) as usize, (k / width as int) as usize),
                    (
                        ((k % width as int + x_offset) % width as int) as usize,
                        ((k / width as int + y_offset) % height as int) as usize,
                    ),
                ),
        );
        let mut pairs: Vec<PixelPair> = Vec::new();
        let mut y: usize = 0;
        while y < height
            invariant
                height > 0 ==> width > 0,
                width + x_offset <= usize::MAX,
                height + y_offset <= usize::MAX,
                target == Seq::new(
                    (width * height) as nat,
                    |k: int|
                        (
                            ((k % width as int) as usize, (k / width as int) as usize),
                            (
                                ((k % width as int + x_offset) % width as int) as usize,
                                ((k / width as int + y_offset) % height as int) as usize,
                            ),
                        ),
                ),
                y <= height,
                pairs@ == target.subrange(0, y * width),
            decreases height - y,
        {
            let mut x: usize = 0;
            while x < width
                invariant
                    width > 0,
                    width + x_offset <= usize::MAX,
                    height + y_offset <= usize::MAX,
                    target == Seq::new(
                        (width * height) as nat,
                        |k: int|
                            (
                                ((k % width as int) as usize, (k / width as int) as usize),
                                (
                                    ((k % width as int + x_offset) % width as int) as usize,
                                    ((k / width as int + y_offset) % height as int) as usize,
                                ),
                            ),
                    ),
                    y < height,
                    x <= width,
                    pairs@ == target.subrange(0, y * width + x),
                decreases width - x,
            {
                let pair = ((x, y), ((x + x_offset) % width, (y + y_offset) % height));
                proof {
                    let k = y * width + x;
                    lemma_row_major(k, width as int, y as int, x as int);
                    assert(k < width * height) by (nonlinear_arith)
                        requires
                            k == y * width + x,
                            y < height,
                            x < width,
                    ;
                    assert(target.subrange(0, k + 1) =~= target.subrange(0, k).push(pair));
                }
                pairs.push(pair);
                x = x + 1;
            }
            proof {
                assert(y * width + width == (y + 1) * width) by (nonlinear_arith);
            }
            y = y + 1;
        }
        proof {
            assert(height * width == width * height) by (nonlinear_arith);
            assert(pairs@ =~= target);
        }
        Descriptor { pairs, width, height }
    }

    pub fn width(&self) -> (r: usize)
        ensures
            r == self.width_spec(),
    {
        self.width
    }

    pub fn height(&self) -> (r: usize)
        ensures
            r == self.height_spec(),
    {
        self.height
    }

    /// Whether the pixel at `(x1, y1)` is darker than the one at `(x2, y2)`.
    pub fn evaluate(&self, img: &Image, x1: usize, y1: usize, x2: usize, y2: usize) -> (r: bool)
        requires
            img.wf(),
            img@.len() == img.side_nat() * img.side_nat(),
            x1 < img.side_nat(),
            y1 < img.side_nat(),
            x2 < img.side_nat(),
            y2 < img.side_nat(),
        ensures
            r == (pixel_at(img@, x1 as int, y1 as int) < pixel_at(img@, x2 as int, y2 as int)),
    {
        proof {
            img.lemma_side();
            let s = img.side_nat() as int;
            assert(y1 * s + x1 < s * s && y2 * s + x2 < s * s) by (nonlinear_arith)
                requires
                    x1 < s,
                    y1 < s,
                    x2 < s,
                    y2 < s,
            ;
        }
        img.get(x1, y1) < img.get(x2, y2)
    }

    /// Whether the window of side `kernel_size` centred on `(x1, y1)` is darker than the one
    /// centred on `(x2, y2)` at more than half of the positions.
    pub fn evaluate_mask(
        &self,
        img: &Image,
        x1: usize,
        y1: usize,
        x2: usize,
        y2: usize,
        kernel_size: usize,
    ) -> (r: bool)
        requires
            img.wf(),
            x1 + kernel_size <= isize::MAX,
            y1 + kernel_size <= isize::MAX,
            x2 + kernel_size <= isize::MAX,
            y2 + kernel_size <= isize::MAX,
            kernel_size * kernel_size < usize::MAX,
        ensures
            r == mask_bit(img@, x1 as int, y1 as int, x2 as int, y2 as int, kernel_size as nat),
    {
        proof {
            img.lemma_side();
        }
        let patch_1 = img.subimage(x1, y1, kernel_size);
        let patch_2 = img.subimage(x2, y2, kernel_size);
        let n = patch_1.pixel_count();
        let mut num_lower: usize = 0;
        let mut i: usize = 0;
        while i < n
            invariant
                n == patch_1@.len(),
                patch_2@.len() == n,
                i <= n,
                num_lower == darker_count(patch_1@.subrange(0, i as int), patch_2@.subrange(0, i as int)),
                num_lower <= i,
            decreases n - i,
        {
            let a = patch_1.pixel(i);
            let b = patch_2.pixel(i);
            proof {
                let (s1, s2) = (patch_1@.subrange(0, i as int), patch_2@.subrange(0, i as int));
                assert(patch_1@.subrange(0, i + 1).drop_last() =~= s1);
                assert(patch_2@.subrange(0, i + 1).drop_last() =~= s2);
            }
            if a < b {
                num_lower = num_lower + 1;
            }
            i = i + 1;
        }
        proof {
            assert(patch_1@.subrange(0, n as int) =~= patch_1@);
            assert(patch_2@.subrange(0, n as int) =~= patch_2@);
        }
        num_lower > kernel_size * kernel_size / 2
    }

    /// The bits of `img`: one per pair, on where the first pixel is darker than the second.
    pub fn apply_to(&self, img: &Image) -> (r: BitArray)
        requires
            img.wf(),
            img@.len() == img.side_nat() * img.side_nat(),
            img.side_nat() == self.width_spec(),
            img.side_nat() == self.height_spec(),
            pairs_inside(self.pairs_view(), img.side_nat()),
            self.pairs_view().len() < usize::MAX,
        ensures
            r.wf(),
            r@ == Seq::new(
                self.pairs_view().len(),
                |i: int|
                    pixel_at(img@, self.pairs_view()[i].0.0 as int, self.pairs_view()[i].0.1 as int)
                        < pixel_at(
                        img@,
                        self.pairs_view()[i].1.0 as int,
                        self.pairs_view()[i].1.1 as int,
                    ),
            ),
    {
        let mut bits = BitArray::new();
        let mut i: usize = 0;
        while i < self.pairs.len()
            invariant
                img.wf(),
                img@.len() == img.side_nat() * img.side_nat(),
                pairs_inside(self.pairs@, img.side_nat()),
                self.pairs@.len() < usize::MAX,
                i <= self.pairs@.len(),
                bits.wf(),
                bits@ == Seq::new(
                    i as nat,
                    |i: int|
                        pixel_at(img@, self.pairs@[i].0.0 as int, self.pairs@[i].0.1 as int)
                            < pixel_at(img@, self.pairs@[i].1.0 as int, self.pairs@[i].1.1 as int),
                ),
            decreases self.pairs@.len() - i,
        {
            let ((x1, y1), (x2, y2)) = self.pairs[i];
            let b = self.evaluate(img, x1, y1, x2, y2);
            bits.add(b);
            proof {
                assert(bits@ =~= Seq::new(
                    (i + 1) as nat,
                    |i: int|
                        pixel_at(img@, self.pairs@[i].0.0 as int, self.pairs@[i].0.1 as int)
                            < pixel_at(img@, self.pairs@[i].1.0 as int, self.pairs@[i].1.1 as int),
                ));
            }
            i = i + 1;
        }
        bits
    }

    /// The bits of `img`: one per pair, comparing the windows of side `kernel_size` around the
    /// two positions.
    pub fn apply_kernel(&self, img: &Image, kernel_size: usize) -> (r: BitArray)
        requires
            img.wf(),
            img.side_nat() == self.width_spec(),
            img.side_nat() == self.height_spec(),
            img.side_nat() + kernel_size <= isize::MAX,
            kernel_size * kernel_size < usize::MAX,
            pairs_inside(self.pairs_view(), img.side_nat()),
            self.pairs_view().len() < usize::MAX,
        ensures
            r.wf(),
            r@ == Seq::new(
                self.pairs_view().len(),
                |i: int|
                    mask_bit(
                        img@,
                        self.pairs_view()[i].0.0 as int,
                        self.pairs_view()[i].0.1 as int,
                        self.pairs_view()[i].1.0 as int,
                        self.pairs_view()[i].1.1 as int,
                        kernel_size as nat,
                    ),
            ),
    {
        let mut bits = BitArray::new();
        let mut i: usize = 0;
        while i < self.pairs.len()
            invariant
                img.wf(),
                img.side_nat() + kernel_size <= isize::MAX,
                kernel_size * kernel_size < usize::MAX,
                pairs_inside(self.pairs@, img.side_nat()),
                self.pairs@.len() < usize::MAX,
                i <= self.pairs@.len(),
                bits.wf(),
                bits@ == Seq::new(
                    i as nat,
                    |i: int|
                        mask_bit(
                            img@,
                            self.pairs@[i].0.0 as int,
                            self.pairs@[i].0.1 as int,
                            self.pairs@[i].1.0 as int,
                            self.pairs@[i].1.1 as int,
                            kernel_size as nat,
                        ),
                ),
            decreases self.pairs@.len() - i,
        {
            let ((x1, y1), (x2, y2)) = self.pairs[i];
            let b = self.evaluate_mask(img, x1, y1, x2, y2, kernel_size);
            bits.add(b);
            proof {
                assert(bits@ =~= Seq::new(
                    (i + 1) as nat,
                    |i: int|
                        mask_bit(
                            img@,
                            self.pairs@[i].0.0 as int,
                            self.pairs@[i].0.1 as int,
                            self.pairs@[i].1.0 as int,
                            self.pairs@[i].1.1 as int,
                            kernel_size as nat,
                        ),
                ));
            }
            i = i + 1;
        }
        bits
    }
}

/// Relies on rand's `Uniform::new(0, bound)`, sampled with the thread's generator: a value
/// below `bound`. `Uniform::new` panics on an empty range.
#[verifier::external_body]
fn uniform_below(bound: usize) -> (r: usize)
    requires
        bound > 0,
    ensures
        r < bound,
{
    Uniform::new(0, bound).sample(&mut rand::thread_rng())
}

/// Counts of `(x, y, outcome)` triples, kept in a `HashHistogram`. The histogram is held
/// in a private field rather than named as a declared outside type, because the bounds on
/// `HashHistogram`'s parameters are trait aliases, which such a declaration cannot name.
#[verifier::external_body]
pub struct PairCounts {
    counts: HashHistogram<(usize, usize, bool)>,
}

/// How often each triple has been counted.
pub uninterp spec fn pair_counts(h: PairCounts) -> Multiset<(usize, usize, bool)>;

impl PairCounts {
    /// Relies on `HashHistogram::new`: a histogram with no counts.
    #[verifier::external_body]
    fn new() -> (r: PairCounts)
        ensures
            pair_counts(r) == Multiset::<(usize, usize, bool)>::empty(),
    {
        PairCounts { counts: HashHistogram::new() }
    }

    /// Relies on `HashHistogram::bump`: the count of `key` grows by one.
    #[verifier::external_body]
    fn bump(&mut self, key: &(usize, usize, bool))
        ensures
            pair_counts(*final(self)) == pair_counts(*old(self)).insert(*key),
    {
        self.counts.bump(key)
    }

    /// Relies on `HashHistogram::count`: how often `key` has been counted, zero if never.
    #[verifier::external_body]
    fn count(&self, key: &(usize, usize, bool)) -> (r: usize)
        ensures
            r == pair_counts(*self).count(*key),
    {
        self.counts.count(key)
    }
}

/// For each pair, its first position and whether that pixel is darker than the second.
pub open spec fn pair_votes(pairs: Seq<PixelPair>, cells: Seq<u8>) -> Seq<(usize, usize, bool)> {
    Seq::new(
        pairs.len(),
        |i: int|
            (
                pairs[i].0.0,
                pairs[i].0.1,
                pixel_at(cells, pairs[i].0.0 as int, pairs[i].0.1 as int) < pixel_at(
                    cells,
                    pairs[i].1.0 as int,
                    pairs[i].1.1 as int,
                ),
            ),
    )
}

/// A value in `[min, max)` that lies `sample` away from `start_value` when that stays in range, on the
/// side that `coin` picks when both do; otherwise `min` or `max - 1`, as `coin` picks.
pub open spec fn bounded_value(sample: usize, start_value: usize, min: usize, max: usize, coin: bool) -> usize {
    let min_diff = start_value - min;
    let max_diff = max - start_value;
    if sample < min_diff && sample < max_diff {
        if coin {
            (start_value + sample) as usize
        } else {
            (start_value - sample) as usize
        }
    } else if sample < min_diff {
        (start_value - sample) as usize
    } else if sample < max_diff {
        (start_value + sample) as usize
    } else if coin {
        min
    } else {
        (max - 1) as usize
    }
}

/// Moves `sample` away from `start_value`, staying within `[min, max)`.
pub fn bounded_normal_value(sample: usize, start_value: usize, min: usize, max: usize, coin: bool) -> (r:
    usize)
    requires
        min <= start_value < max,
    ensures
        r == bounded_value(sample, start_value, min, max, coin),
        min <= r < max,
{
    let min_diff = start_value - min;
    let max_diff = max - start_value;
    if sample < min_diff && sample < max_diff {
        if coin {
            start_value + sample
        } else {
            start_value - sample
        }
    } else if sample < min_diff {
        start_value - sample
    } else if sample < max_diff {
        start_value + sample
    } else if coin {
        min
    } else {
        max - 1
    }
}

impl Descriptor {
    /// `n` pairs of positions drawn uniformly from a `width` by `height` image.
    pub fn classic_uniform_brief(n: usize, width: usize, height: usize) -> (r: Descriptor)
        requires
            width > 0,
            height > 0,
        ensures
            r.width_spec() == width,
            r.height_spec() == height,
            r.pairs_view().len() == n,
            forall|i: int|
                0 <= i < n ==> (#[trigger] r.pairs_view()[i]).0.0 < width && r.pairs_view()[i].0.1
                    < height && r.pairs_view()[i].1.0 < width && r.pairs_view()[i].1.1 < height,
    {
        let mut pairs: Vec<PixelPair> = Vec::new();
        let mut i: usize = 0;
        while i < n
            invariant
                width > 0,
                height > 0,
                i <= n,
                pairs@.len() == i,
                forall|j: int|
                    0 <= j < i ==> (#[trigger] pairs@[j]).0.0 < width && pairs@[j].0.1 < height
                        && pairs@[j].1.0 < width && pairs@[j].1.1 < height,
            decreases n - i,
        {
            let x1 = uniform_below(width);
            let y1 = uniform_below(height);
            let x2 = uniform_below(width);
            let y2 = uniform_below(height);
            pairs.push(((x1, y1), (x2, y2)));
            i = i + 1;
        }
        Descriptor { pairs, width, height }
    }

    /// For each position, row by row, `neighbors` pairs of it with a position drawn uniformly
    /// from the image.
    pub fn uniform_neighbor(neighbors: usize, width: usize, height: usize) -> (r: Descriptor)
        requires
            width > 0,
            height > 0,
        ensures
            r.width_spec() == width,
            r.height_spec() == height,
            r.pairs_view().len() == width * height * neighbors,
            forall|i: int|
                0 <= i < r.pairs_view().len() ==> (#[trigger] r.pairs_view()[i]).0 == (
                    ((i / neighbors as int) % width as int) as usize,
                    ((i / neighbors as int) / width as int) as usize,
                ) && r.pairs_view()[i].1.0 < width && r.pairs_view()[i].1.1 < height,
    {
        let mut pairs: Vec<PixelPair> = Vec::new();
        let mut y: usize = 0;
        while y < height
            invariant
                width > 0,
                height > 0,
                y <= height,
                pairs@.len() == y * width * neighbors,
                forall|i: int|
                    0 <= i < pairs@.len() ==> (#[trigger] pairs@[i]).0 == (
                        ((i / neighbors as int) % width as int) as usize,
                        ((i / neighbors as int) / width as int) as usize,
                    ) && pairs@[i].1.0 < width && pairs@[i].1.1 < height,
            decreases height - y,
        {
            let mut x: usize = 0;
            while x < width
                invariant
                    width > 0,
                    height > 0,
                    y < height,
                    x <= width,
                    pairs@.len() == (y * width + x) * neighbors,
                    forall|i: int|
                        0 <= i < pairs@.len() ==> (#[trigger] pairs@[i]).0 == (
                            ((i / neighbors as int) % width as int) as usize,
                            ((i / neighbors as int) / width as int) as usize,
                        ) && pairs@[i].1.0 < width && pairs@[i].1.1 < height,
                decreases width - x,
            {
                let mut t: usize = 0;
                while t < neighbors
                    invariant
                        width > 0,
                        height > 0,
                        y < height,
                        x < width,
                        t <= neighbors,
                        pairs@.len() == (y * width + x) * neighbors + t,
                        forall|i: int|
                            0 <= i < pairs@.len() ==> (#[trigger] pairs@[i]).0 == (
                                ((i / neighbors as int) % width as int) as usize,
                                ((i / neighbors as int) / width as int) as usize,
                            ) && pairs@[i].1.0 < width && pairs@[i].1.1 < height,
                    decreases neighbors - t,
                {
                    let other = (uniform_below(width), uniform_below(height));
                    proof {
                        let k = (y * width + x) * neighbors + t;
                        crate::grid::lemma_row_major(k, neighbors as int, y * width + x, t as int);
                        crate::grid::lemma_row_major(y * width + x, width as int, y as int, x as int);
                    }
                    pairs.push(((x, y), other));
                    t = t + 1;
                }
                proof {
                    assert((y * width + x) * neighbors + neighbors == (y * width + x + 1) * neighbors)
                        by (nonlinear_arith);
                }
                x = x + 1;
            }
            proof {
                assert((y * width + width) * neighbors == (y + 1) * width * neighbors)
                    by (nonlinear_arith);
            }
            y = y + 1;
        }
        proof {
            assert(height * width * neighbors == width * height * neighbors) by (nonlinear_arith);
        }
        Descriptor { pairs, width, height }
    }

    /// The bit image of `img`: a position's bit is on where, among the pairs starting at it,
    /// more find it darker than their second pixel than find it not darker.
    pub fn majority_image(&self, img: &Image) -> (r: BitArray)
        requires
            img.wf(),
            img@.len() == img.side_nat() * img.side_nat(),
            img.side_nat() * img.side_nat() < usize::MAX,
            pairs_inside(self.pairs_view(), img.side_nat()),
        ensures
            r.wf(),
            r@ == Seq::new(
                img.side_nat() * img.side_nat(),
                |k: int|
                    pair_votes(self.pairs_view(), img@).to_multiset().count(
                        (
                            (k % img.side_nat() as int) as usize,
                            (k / img.side_nat() as int) as usize,
                            true,
                        ),
                    ) > pair_votes(self.pairs_view(), img@).to_multiset().count(
                        (
                            (k % img.side_nat() as int) as usize,
                            (k / img.side_nat() as int) as usize,
                            false,
                        ),
                    ),
            ),
    {
        let ghost votes = pair_votes(self.pairs@, img@);
        let mut counts = PairCounts::new();
        proof {
            let none = votes.subrange(0, 0);
            none.to_multiset_ensures();
            assert(none.to_multiset() =~= Multiset::<(usize, usize, bool)>::empty());
        }
        let mut i: usize = 0;
        while i < self.pairs.len()
            invariant
                img.wf(),
                img@.len() == img.side_nat() * img.side_nat(),
                pairs_inside(self.pairs@, img.side_nat()),
                votes == pair_votes(self.pairs@, img@),
                i <= self.pairs@.len(),
                pair_counts(counts) == votes.subrange(0, i as int).to_multiset(),
            decreases self.pairs@.len() - i,
        {
            let ((x1, y1), (x2, y2)) = self.pairs[i];
            let darker = self.evaluate(img, x1, y1, x2, y2);
            counts.bump(&(x1, y1, darker));
            proof {
                assert(votes.subrange(0, i + 1) =~= votes.subrange(0, i as int).push(votes[i as int]));
                votes.subrange(0, i as int).to_multiset_ensures();
            }
            i = i + 1;
        }
        proof {
            assert(votes.subrange(0, i as int) =~= votes);
            img.lemma_side();
        }
        let s = img.side();
        let ghost target = Seq::new(
            (s * s) as nat,
            |k: int|
                votes.to_multiset().count(((k % s as int) as usize, (k / s as int) as usize, true))
                    > votes.to_multiset().count(
                    ((k % s as int) as usize, (k / s as int) as usize, false),
                ),
        );
        let mut bits = BitArray::new();
        let mut y: usize = 0;
        while y < s
            invariant
                s * s < usize::MAX,
                pair_counts(counts) == votes.to_multiset(),
                target == Seq::new(
                    (s * s) as nat,
                    |k: int|
                        votes.to_multiset().count(((k % s as int) as usize, (k / s as int) as usize, true))
                            > votes.to_multiset().count(
                            ((k % s as int) as usize, (k / s as int) as usize, false),
                        ),
                ),
                y <= s,
                bits.wf(),
                bits@ == target.subrange(0, y * s),
            decreases s - y,
        {
            let mut x: usize = 0;
            while x < s
                invariant
                    s * s < usize::MAX,
                    pair_counts(counts) == votes.to_multiset(),
                    target == Seq::new(
                        (s * s) as nat,
                        |k: int|
                            votes.to_multiset().count(
                                ((k % s as int) as usize, (k / s as int) as usize, true),
                            ) > votes.to_multiset().count(
                                ((k % s as int) as usize, (k / s as int) as usize, false),
                            ),
                    ),
                    y < s,
                    x <= s,
                    bits.wf(),
                    bits@ == target.subrange(0, y * s + x),
                decreases s - x,
            {
                let on = counts.count(&(x, y, true)) > counts.count(&(x, y, false));
                proof {
                    let k = y * s + x;
                    crate::grid::lemma_row_major(k, s as int, y as int, x as int);
                    assert(k < s * s) by (nonlinear_arith)
                        requires
                            k == y * s + x,
                            y < s,
                            x < s,
                    ;
                    assert(target.subrange(0, k + 1) =~= target.subrange(0, k).push(on));
                }
                bits.add(on);
                x = x + 1;
            }
            proof {
                assert(y * s + s == (y + 1) * s) by (nonlinear_arith);
            }
            y = y + 1;
        }
        proof {
            assert(bits@ =~= target);
        }
        bits
    }
}

} // verus!
