//! Pyramids of kernel-index images, and the coarse-to-fine distance between two of them.
use vstd::prelude::*;
use std::cmp::Ordering;
use crate::convolutional::{
    KERNEL_SIZE, STRIDE, add_patches, all_patches, kernels_ok, scannable, strided_count, strided_subimages, strided_window,
    views,
};
use crate::euclidean_distance::{
    euclidean_distance, lemma_squared_error_bound, lemma_squared_error_self, squared_error,
};
use crate::grid::{Grid, lemma_side_of_square, side_for, window};
use crate::image::Image;

verus! {

/// The number of positions at which two pixel sequences differ.
pub open spec fn mismatches(a: Seq<u8>, b: Seq<u8>) -> nat
    decreases a.len(),
{
    if a.len() == 0 {
        0
    } else {
        mismatches(a.drop_last(), b.drop_last()) + if a.last() != b[a.len() - 1] {
            1nat
        } else {
            0nat
        }
    }
}

proof fn lemma_mismatches_push(a: Seq<u8>, b: Seq<u8>, x: u8, y: u8)
    requires
        a.len() == b.len(),
    ensures
        mismatches(a.push(x), b.push(y)) == mismatches(a, b) + if x != y {
            1nat
        } else {
            0nat
        },
{
    assert(a.push(x).drop_last() =~= a);
    assert(b.push(y).drop_last() =~= b);
}

proof fn lemma_mismatches_bound(a: Seq<u8>, b: Seq<u8>)
    ensures
        mismatches(a, b) <= a.len(),
    decreases a.len(),
{
    if a.len() > 0 {
        lemma_mismatches_bound(a.drop_last(), b.drop_last());
    }
}

/// Two equally long sequences have no mismatch exactly when they are equal.
pub proof fn lemma_mismatches_zero(a: Seq<u8>, b: Seq<u8>)
    requires
        a.len() == b.len(),
    ensures
        (mismatches(a, b) == 0) == (a == b),
    decreases a.len(),
{
    if a.len() > 0 {
        lemma_mismatches_zero(a.drop_last(), b.drop_last());
        if a == b {
            assert(a.drop_last() == b.drop_last());
        } else if mismatches(a, b) == 0 {
            assert(a.drop_last() == b.drop_last());
            assert(a =~= a.drop_last().push(a.last()));
            assert(b =~= b.drop_last().push(b.last()));
        }
    } else {
        assert(a =~= b);
    }
}

/// How two windows are compared when a window is matched against a codebook.
#[derive(Clone, Copy, Debug, PartialEq, Eq, Structural)]
pub enum PatchDistance {
    /// The sum of squared pixel differences, for grayscale images.
    Euclidean,
    /// The number of differing cells, for images of kernel indices.
    Mismatch,
}

/// The distance between two windows of equal length.
pub open spec fn patch_distance(kind: PatchDistance, a: Seq<u8>, b: Seq<u8>) -> nat {
    match kind {
        PatchDistance::Euclidean => squared_error(a, b),
        PatchDistance::Mismatch => mismatches(a, b),
    }
}

/// The index of the kernel among the first `count` closest to `w`; on a tie the lowest index.
pub open spec fn best_among(w: Seq<u8>, kernels: Seq<Seq<u8>>, kind: PatchDistance, count: nat) -> nat
    decreases count,
{
    if count <= 1 {
        0
    } else {
        let b = best_among(w, kernels, kind, (count - 1) as nat);
        if patch_distance(kind, w, kernels[count - 1]) < patch_distance(kind, w, kernels[b as int]) {
            (count - 1) as nat
        } else {
            b
        }
    }
}

/// The index of the kernel closest to `w`; on a tie the lowest index.
pub open spec fn best_kernel(w: Seq<u8>, kernels: Seq<Seq<u8>>, kind: PatchDistance) -> nat {
    best_among(w, kernels, kind, kernels.len())
}

/// The number of differing pixels of two images with the same number of pixels.
pub fn hamming_distance(img1: &Image, img2: &Image) -> (r: u32)
    requires
        img1@.len() == img2@.len(),
        img1@.len() <= u32::MAX,
    ensures
        r == mismatches(img1@, img2@),
{
    let n = img1.pixel_count();
    let mut count: u32 = 0;
    let mut i: usize = 0;
    while i < n
        invariant
            n == img1@.len(),
            img1@.len() == img2@.len(),
            n <= u32::MAX,
            i <= n,
            count == mismatches(img1@.subrange(0, i as int), img2@.subrange(0, i as int)),
        decreases n - i,
    {
        let a = img1.pixel(i);
        let b = img2.pixel(i);
        proof {
            assert(img1@.subrange(0, i + 1) =~= img1@.subrange(0, i as int).push(a));
            assert(img2@.subrange(0, i + 1) =~= img2@.subrange(0, i as int).push(b));
            lemma_mismatches_push(img1@.subrange(0, i as int), img2@.subrange(0, i as int), a, b);
            lemma_mismatches_bound(img1@.subrange(0, i as int), img2@.subrange(0, i as int));
        }
        if a != b {
            count = count + 1;
        }
        i = i + 1;
    }
    proof {
        assert(img1@.subrange(0, n as int) =~= img1@);
        assert(img2@.subrange(0, n as int) =~= img2@);
    }
    count
}

/// The distance of kind `kind` between two windows of side three.
fn window_distance(a: &Image, b: &Image, kind: PatchDistance) -> (r: u32)
    requires
        a@.len() == KERNEL_SIZE * KERNEL_SIZE,
        b@.len() == KERNEL_SIZE * KERNEL_SIZE,
    ensures
        r == patch_distance(kind, a@, b@),
{
    match kind {
        PatchDistance::Euclidean => {
            proof {
                lemma_squared_error_bound(a@, b@);
            }
            euclidean_distance(a, b)
        },
        PatchDistance::Mismatch => hamming_distance(a, b),
    }
}

/// The index of the kernel closest to the window `w`; on a tie the lowest index.
fn classify_window(w: &Image, kernels: &Vec<Image>, kind: PatchDistance) -> (r: usize)
    requires
        w@.len() == KERNEL_SIZE * KERNEL_SIZE,
        kernels@.len() > 0,
        kernels_ok(kernels@),
    ensures
        r == best_kernel(w@, views(kernels@), kind),
        r < kernels@.len(),
{
    let ghost ks = views(kernels@);
    let mut best: usize = 0;
    let mut best_distance = window_distance(w, &kernels[0], kind);
    let mut i: usize = 1;
    while i < kernels.len()
        invariant
            w@.len() == KERNEL_SIZE * KERNEL_SIZE,
            kernels_ok(kernels@),
            ks == views(kernels@),
            1 <= i <= kernels@.len(),
            best < i,
            best == best_among(w@, ks, kind, i as nat),
            best_distance == patch_distance(kind, w@, ks[best as int]),
        decreases kernels@.len() - i,
    {
        let d = window_distance(w, &kernels[i], kind);
        if d < best_distance {
            best = i;
            best_distance = d;
        }
        i = i + 1;
    }
    best
}

/// The index of the kernel closest to the window of side three centred on `(x, y)`; on a tie
/// the lowest index.
pub fn classify_pixel(img: &Image, x: usize, y: usize, kernels: &Vec<Image>, distance: PatchDistance) -> (r: usize)
    requires
        img.wf(),
        x + KERNEL_SIZE <= isize::MAX,
        y + KERNEL_SIZE <= isize::MAX,
        kernels@.len() > 0,
        kernels_ok(kernels@),
    ensures
        r < kernels@.len(),
        r == best_kernel(
            window(img@, img.side_nat() as int, x - 1, y - 1, KERNEL_SIZE as int, 0u8),
            views(kernels@),
            distance,
        ),
{
    let sub = img.subimage(x, y, KERNEL_SIZE);
    classify_window(&sub, kernels, distance)
}

/// The image of kernel indices of `img`: for each window of a scan with stride two, the
/// index of its closest kernel.
pub open spec fn indexed_image(cells: Seq<u8>, kernels: Seq<Seq<u8>>, kind: PatchDistance) -> Seq<u8> {
    let n = strided_count(side_for(cells.len()), STRIDE as nat);
    Seq::new(
        n * n,
        |k: int|
            best_kernel(strided_window(cells, STRIDE as nat, KERNEL_SIZE as nat, k), kernels, kind)
                as u8,
    )
}

/// The next level of a pyramid: each window of a scan of `img` with stride two replaced by
/// the index of its closest kernel.
pub fn indexed_kernel_image(img: &Image, kernels: &Vec<Image>, distance: PatchDistance) -> (r: Image)
    requires
        scannable(*img),
        kernels@.len() > 0,
        kernels@.len() <= 256,
        kernels_ok(kernels@),
    ensures
        scannable(r),
        r@ == indexed_image(img@, views(kernels@), distance),
{
    let windows = strided_subimages(img, STRIDE, KERNEL_SIZE);
    let ghost n = strided_count(img.side_nat(), STRIDE as nat);
    let ghost target = indexed_image(img@, views(kernels@), distance);
    proof {
        img.lemma_side();
    }
    let mut result = Image::new();
    let mut k: usize = 0;
    while k < windows.len()
        invariant
            img.wf(),
            img.side_nat() == side_for(img@.len()),
            kernels@.len() > 0,
            kernels@.len() <= 256,
            kernels_ok(kernels@),
            windows@.len() == n * n,
            n == strided_count(img.side_nat(), STRIDE as nat),
            target == indexed_image(img@, views(kernels@), distance),
            target.len() == n * n,
            forall|k: int|
                0 <= k < windows@.len() ==> (#[trigger] windows@[k]).wf() && windows@[k].side_nat()
                    == KERNEL_SIZE && windows@[k]@ == strided_window(
                    img@,
                    STRIDE as nat,
                    KERNEL_SIZE as nat,
                    k,
                ),
            k <= windows@.len(),
            result.wf(),
            result@ == target.subrange(0, k as int),
        decreases windows@.len() - k,
    {
        let win = &windows[k];
        proof {
            assert(win@.len() == 9);
        }
        let index = classify_window(win, kernels, distance);
        let p = index as u8;
        result.add(p);
        proof {
            assert(target.subrange(0, k + 1) =~= target.subrange(0, k as int).push(p));
        }
        k = k + 1;
    }
    proof {
        assert(result@ =~= target);
        lemma_side_of_square(n);
        result.lemma_side();
        crate::convolutional::lemma_strided_count_bound(img.side_nat(), 2);
    }
    result
}

/// The result of comparing two pyramids: how many levels, from the coarsest down, are
/// identical, and the distance at the first level that is not (or between the originals when
/// every level is).
#[derive(Clone, Copy, Debug, PartialEq, Eq, Structural)]
pub struct KernelPyramidDistance {
    pub num_levels_identical: usize,
    pub distance_level_n: u32,
}

/// Pyramid distances are ordered as distances: more identical levels is closer, and among
/// equally many identical levels the smaller residual distance is closer.
pub open spec fn pyramid_order(a: KernelPyramidDistance, b: KernelPyramidDistance) -> Ordering {
    if a.num_levels_identical == b.num_levels_identical {
        if a.distance_level_n < b.distance_level_n {
            Ordering::Less
        } else if a.distance_level_n == b.distance_level_n {
            Ordering::Equal
        } else {
            Ordering::Greater
        }
    } else if a.num_levels_identical > b.num_levels_identical {
        Ordering::Less
    } else {
        Ordering::Greater
    }
}

impl PartialOrd for KernelPyramidDistance {
    fn partial_cmp(&self, other: &KernelPyramidDistance) -> (r: Option<Ordering>) {
        if self.num_levels_identical == other.num_levels_identical {
            if self.distance_level_n < other.distance_level_n {
                Some(Ordering::Less)
            } else if self.distance_level_n == other.distance_level_n {
                Some(Ordering::Equal)
            } else {
                Some(Ordering::Greater)
            }
        } else if self.num_levels_identical > other.num_levels_identical {
            Some(Ordering::Less)
        } else {
            Some(Ordering::Greater)
        }
    }
}

impl vstd::std_specs::cmp::PartialOrdSpecImpl for KernelPyramidDistance {
    open spec fn obeys_partial_cmp_spec() -> bool {
        true
    }

    open spec fn partial_cmp_spec(&self, other: &KernelPyramidDistance) -> Option<Ordering> {
        Some(pyramid_order(*self, *other))
    }
}

/// The comparison of two level stacks from level `i` (counted from the coarsest) down.
pub open spec fn pyramid_walk(
    l1: Seq<Seq<u8>>,
    l2: Seq<Seq<u8>>,
    o1: Seq<u8>,
    o2: Seq<u8>,
    i: nat,
) -> (nat, nat)
    decreases l1.len() - i,
{
    if i >= l1.len() {
        (l1.len(), squared_error(o1, o2))
    } else {
        let d = mismatches(l1[l1.len() - 1 - i], l2[l1.len() - 1 - i]);
        if d == 0 {
            pyramid_walk(l1, l2, o1, o2, i + 1)
        } else {
            (i, d)
        }
    }
}

/// The distance between two pyramids with level stacks `l1`, `l2` and originals `o1`, `o2`:
/// the levels are compared from the coarsest (the last) down; the first level that differs
/// gives the number of identical levels above it and its number of differing cells; when no
/// level differs, the residual is the squared distance between the originals.
pub open spec fn pyramid_distance(l1: Seq<Seq<u8>>, l2: Seq<Seq<u8>>, o1: Seq<u8>, o2: Seq<u8>) -> (
    nat,
    nat,
) {
    pyramid_walk(l1, l2, o1, o2, 0)
}

/// Two pyramids can be compared: equally many levels, of equal sizes level by level, and
/// distances that fit in the result; the originals' distance is needed only when every level
/// matches.
pub open spec fn comparable(l1: Seq<Seq<u8>>, l2: Seq<Seq<u8>>, o1: Seq<u8>, o2: Seq<u8>) -> bool {
    &&& l1.len() == l2.len()
    &&& forall|i: int| 0 <= i < l1.len() ==> (#[trigger] l1[i]).len() == l2[i].len()
    &&& forall|i: int| 0 <= i < l1.len() ==> (#[trigger] l1[i]).len() <= u32::MAX
    &&& o1.len() == o2.len()
    &&& (forall|i: int| 0 <= i < l1.len() ==> #[trigger] l1[i] == l2[i]) ==> squared_error(o1, o2)
        <= u32::MAX
}

proof fn lemma_walk_reflexive(l: Seq<Seq<u8>>, o: Seq<u8>, i: nat)
    requires
        i <= l.len(),
    ensures
        pyramid_walk(l, l, o, o, i) == (l.len(), 0nat),
    decreases l.len() - i,
{
    if i < l.len() {
        lemma_mismatches_zero(l[l.len() - 1 - i], l[l.len() - 1 - i]);
        lemma_walk_reflexive(l, o, i + 1);
    } else {
        lemma_squared_error_self(o);
    }
}

/// A pyramid is at distance `(number of levels, 0)` from itself.
pub proof fn lemma_pyramid_distance_reflexive(l: Seq<Seq<u8>>, o: Seq<u8>)
    ensures
        pyramid_distance(l, l, o, o) == (l.len(), 0nat),
{
    lemma_walk_reflexive(l, o, 0);
}

/// Two pyramids whose coarsest levels differ are at distance `(0, d)`, where `d` is the
/// number of cells in which their coarsest levels differ.
pub proof fn lemma_pyramid_distance_top(l1: Seq<Seq<u8>>, l2: Seq<Seq<u8>>, o1: Seq<u8>, o2: Seq<u8>)
    requires
        l1.len() == l2.len(),
        l1.len() > 0,
        l1.last().len() == l2.last().len(),
        l1.last() != l2.last(),
    ensures
        pyramid_distance(l1, l2, o1, o2) == (0nat, mismatches(l1.last(), l2.last())),
        mismatches(l1.last(), l2.last()) > 0,
{
    lemma_mismatches_zero(l1.last(), l2.last());
}

/// A pixel image together with the stack of kernel-index images built over it; the last
/// level is the coarsest.
pub struct KernelPyramidImage {
    original: Image,
    indexed_kernel_images: Vec<Image>,
}

impl KernelPyramidImage {
    /// The pixels of the original image.
    pub closed spec fn original_view(&self) -> Seq<u8> {
        self.original@
    }

    /// The levels, finest first.
    pub closed spec fn levels(&self) -> Seq<Seq<u8>> {
        views(self.indexed_kernel_images@)
    }

    /// The original and every level are well-formed images.
    pub closed spec fn wf(&self) -> bool {
        &&& scannable(self.original)
        &&& forall|i: int|
            0 <= i < self.indexed_kernel_images@.len() ==> scannable(
                #[trigger] self.indexed_kernel_images@[i],
            )
    }

    /// A pyramid made of an original image and its levels, finest first.
    pub fn from_levels(original: Image, levels: Vec<Image>) -> (r: KernelPyramidImage)
        requires
            scannable(original),
            forall|i: int| 0 <= i < levels@.len() ==> scannable(#[trigger] levels@[i]),
        ensures
            r.wf(),
            r.original_view() == original@,
            r.levels() == views(levels@),
    {
        KernelPyramidImage { original, indexed_kernel_images: levels }
    }

    /// The coarsest level.
    pub fn top(&self) -> (r: &Image)
        requires
            self.levels().len() > 0,
        ensures
            r@ == self.levels().last(),
            self.wf() ==> scannable(*r),
    {
        self.nth(0)
    }

    /// The level `n` steps below the coarsest.
    pub fn nth(&self, n: usize) -> (r: &Image)
        requires
            n < self.levels().len(),
        ensures
            r@ == self.levels()[self.levels().len() - 1 - n],
            self.wf() ==> scannable(*r),
    {
        &self.indexed_kernel_images[self.num_levels() - 1 - n]
    }

    /// The original image.
    pub fn original(&self) -> (r: &Image)
        ensures
            r@ == self.original_view(),
    {
        &self.original
    }

    /// The number of levels above the original.
    pub fn num_levels(&self) -> (r: usize)
        ensures
            r == self.levels().len(),
    {
        self.indexed_kernel_images.len()
    }

    /// The coarse-to-fine distance between two pyramids.
    pub fn distance(img1: &KernelPyramidImage, img2: &KernelPyramidImage) -> (r:
        KernelPyramidDistance)
        requires
            comparable(img1.levels(), img2.levels(), img1.original_view(), img2.original_view()),
        ensures
            (r.num_levels_identical as nat, r.distance_level_n as nat) == pyramid_distance(
                img1.levels(),
                img2.levels(),
                img1.original_view(),
                img2.original_view(),
            ),
    {
        let ghost (l1, l2, o1, o2) = (
            img1.levels(),
            img2.levels(),
            img1.original_view(),
            img2.original_view(),
        );
        let mut num_levels_identical: usize = 0;
        while num_levels_identical < img1.num_levels()
            invariant
                l1 == img1.levels(),
                l2 == img2.levels(),
                o1 == img1.original_view(),
                o2 == img2.original_view(),
                comparable(l1, l2, o1, o2),
                num_levels_identical <= l1.len(),
                forall|k: int|
                    0 <= k < num_levels_identical ==> #[trigger] l1[l1.len() - 1 - k] == l2[l1.len()
                        - 1 - k],
                pyramid_walk(l1, l2, o1, o2, num_levels_identical as nat) == pyramid_distance(
                    l1,
                    l2,
                    o1,
                    o2,
                ),
            decreases l1.len() - num_levels_identical,
        {
            let a = img1.nth(num_levels_identical);
            let b = img2.nth(num_levels_identical);
            let current_level_distance = hamming_distance(a, b);
            if current_level_distance == 0 {
                proof {
                    lemma_mismatches_zero(a@, b@);
                }
                num_levels_identical = num_levels_identical + 1;
            } else {
                return KernelPyramidDistance {
                    num_levels_identical,
                    distance_level_n: current_level_distance,
                };
            }
        }
        proof {
            assert forall|i: int| 0 <= i < l1.len() implies #[trigger] l1[i] == l2[i] by {
                assert(l1[l1.len() - 1 - (l1.len() - 1 - i)] == l2[l1.len() - 1 - (l1.len() - 1 - i)]);
            }
        }
        KernelPyramidDistance {
            num_levels_identical,
            distance_level_n: euclidean_distance(&img1.original, &img2.original),
        }
    }
}

impl KernelPyramidImage {
    /// A copy of this pyramid with one more, coarser, level.
    fn with_level(&self, level: Image) -> (r: KernelPyramidImage)
        requires
            self.wf(),
            scannable(level),
        ensures
            r.wf(),
            r.original_view() == self.original_view(),
            r.levels() == self.levels().push(level@),
    {
        let mut levels: Vec<Image> = Vec::new();
        let mut i: usize = 0;
        while i < self.indexed_kernel_images.len()
            invariant
                self.wf(),
                i <= self.indexed_kernel_images@.len(),
                levels@.len() == i,
                forall|j: int| 0 <= j < i ==> scannable(#[trigger] levels@[j]),
                views(levels@) == views(self.indexed_kernel_images@).subrange(0, i as int),
            decreases self.indexed_kernel_images@.len() - i,
        {
            let copy = self.indexed_kernel_images[i].clone_image();
            proof {
                assert(scannable(self.indexed_kernel_images@[i as int]));
            }
            levels.push(copy);
            proof {
                assert(views(levels@) =~= views(self.indexed_kernel_images@).subrange(0, i + 1));
            }
            i = i + 1;
        }
        proof {
            assert(views(levels@) =~= views(self.indexed_kernel_images@));
        }
        let ghost before = levels@;
        levels.push(level);
        proof {
            assert(views(levels@) =~= views(before).push(levels@.last()@));
        }
        KernelPyramidImage { original: self.original.clone_image(), indexed_kernel_images: levels }
    }
}

/// Codebooks have this many kernels at most, so that a kernel index fits in a pixel.
pub open spec fn codebook_ok(kernels: Seq<Image>) -> bool {
    0 < kernels.len() <= 256 && kernels_ok(kernels)
}

/// A pyramid of one level for each labelled image: the image of its closest kernels, by
/// Euclidean distance.
pub fn kernel_stack_all(labeled_images: &Vec<(u8, Image)>, kernels: &Vec<Image>) -> (r: Vec<
    (u8, KernelPyramidImage),
>)
    requires
        forall|i: int| 0 <= i < labeled_images@.len() ==> scannable(#[trigger] labeled_images@[i].1),
        codebook_ok(kernels@),
    ensures
        r@.len() == labeled_images@.len(),
        forall|i: int|
            0 <= i < r@.len() ==> {
                &&& (#[trigger] r@[i]).0 == labeled_images@[i].0
                &&& r@[i].1.wf()
                &&& r@[i].1.original_view() == labeled_images@[i].1@
                &&& r@[i].1.levels() == seq![
                    indexed_image(labeled_images@[i].1@, views(kernels@), PatchDistance::Euclidean),
                ]
            },
{
    let mut out: Vec<(u8, KernelPyramidImage)> = Vec::new();
    let mut i: usize = 0;
    while i < labeled_images.len()
        invariant
            forall|i: int|
                0 <= i < labeled_images@.len() ==> scannable(#[trigger] labeled_images@[i].1),
            codebook_ok(kernels@),
            i <= labeled_images@.len(),
            out@.len() == i,
            forall|j: int|
                0 <= j < i ==> {
                    &&& (#[trigger] out@[j]).0 == labeled_images@[j].0
                    &&& out@[j].1.wf()
                    &&& out@[j].1.original_view() == labeled_images@[j].1@
                    &&& out@[j].1.levels() == seq![
                        indexed_image(labeled_images@[j].1@, views(kernels@), PatchDistance::Euclidean),
                    ]
                },
        decreases labeled_images@.len() - i,
    {
        let img = &labeled_images[i].1;
        let level = indexed_kernel_image(img, kernels, PatchDistance::Euclidean);
        let mut levels: Vec<Image> = Vec::new();
        levels.push(level);
        proof {
            assert(views(levels@) =~= seq![level@]);
        }
        let pyramid = KernelPyramidImage::from_levels(img.clone_image(), levels);
        out.push((labeled_images[i].0, pyramid));
        i = i + 1;
    }
    out
}

/// Adds to every pyramid the image of the closest kernels, by mismatch count, to the windows
/// of its current coarsest level.
pub fn add_pyramid_level(pyramid_images: &mut Vec<(u8, KernelPyramidImage)>, kernels: &Vec<Image>)
    requires
        forall|i: int|
            0 <= i < old(pyramid_images)@.len() ==> (#[trigger] old(pyramid_images)@[i]).1.wf()
                && old(pyramid_images)@[i].1.levels().len() > 0,
        codebook_ok(kernels@),
    ensures
        final(pyramid_images)@.len() == old(pyramid_images)@.len(),
        forall|i: int|
            0 <= i < final(pyramid_images)@.len() ==> {
                &&& (#[trigger] final(pyramid_images)@[i]).0 == old(pyramid_images)@[i].0
                &&& final(pyramid_images)@[i].1.wf()
                &&& final(pyramid_images)@[i].1.original_view()
                    == old(pyramid_images)@[i].1.original_view()
                &&& final(pyramid_images)@[i].1.levels() == old(pyramid_images)@[i].1.levels().push(
                    indexed_image(
                        old(pyramid_images)@[i].1.levels().last(),
                        views(kernels@),
                        PatchDistance::Mismatch,
                    ),
                )
            },
{
    let ghost before = pyramid_images@;
    let mut i: usize = 0;
    while i < pyramid_images.len()
        invariant
            before == old(pyramid_images)@,
            codebook_ok(kernels@),
            pyramid_images@.len() == before.len(),
            i <= before.len(),
            forall|j: int|
                i <= j < before.len() ==> #[trigger] pyramid_images@[j] == before[j],
            forall|j: int|
                0 <= j < before.len() ==> (#[trigger] before[j]).1.wf()
                    && before[j].1.levels().len() > 0,
            forall|j: int|
                0 <= j < i ==> {
                    &&& (#[trigger] pyramid_images@[j]).0 == before[j].0
                    &&& pyramid_images@[j].1.wf()
                    &&& pyramid_images@[j].1.original_view() == before[j].1.original_view()
                    &&& pyramid_images@[j].1.levels() == before[j].1.levels().push(
                        indexed_image(before[j].1.levels().last(), views(kernels@), PatchDistance::Mismatch),
                    )
                },
        decreases before.len() - i,
    {
        let label = pyramid_images[i].0;
        let pyramid = &pyramid_images[i].1;
        let top = pyramid.top();
        let level = indexed_kernel_image(top, kernels, PatchDistance::Mismatch);
        let grown = pyramid.with_level(level);
        pyramid_images.set(i, (label, grown));
        i = i + 1;
    }
}

/// Every window of side three of the coarsest level of every pyramid: the candidates from
/// which the next level's codebook is chosen.
pub fn indexed_kernel_candidates(pyramid_images: &Vec<(u8, KernelPyramidImage)>) -> (r: Vec<Image>)
    requires
        forall|i: int|
            0 <= i < pyramid_images@.len() ==> (#[trigger] pyramid_images@[i]).1.wf()
                && pyramid_images@[i].1.levels().len() > 0,
    ensures
        views(r@) == all_patches(
            Seq::new(pyramid_images@.len(), |i: int| pyramid_images@[i].1.levels().last()),
            KERNEL_SIZE as nat,
        ),
{
    let ghost tops = Seq::new(pyramid_images@.len(), |i: int| pyramid_images@[i].1.levels().last());
    let mut candidates: Vec<Image> = Vec::new();
    let mut i: usize = 0;
    while i < pyramid_images.len()
        invariant
            tops == Seq::new(pyramid_images@.len(), |i: int| pyramid_images@[i].1.levels().last()),
            forall|i: int|
                0 <= i < pyramid_images@.len() ==> (#[trigger] pyramid_images@[i]).1.wf()
                    && pyramid_images@[i].1.levels().len() > 0,
            i <= pyramid_images@.len(),
            views(candidates@) == all_patches(tops.subrange(0, i as int), KERNEL_SIZE as nat),
            forall|k: int|
                0 <= k < candidates@.len() ==> (#[trigger] candidates@[k]).wf()
                    && candidates@[k].side_nat() == KERNEL_SIZE,
        decreases pyramid_images@.len() - i,
    {
        let top = pyramid_images[i].1.top();
        add_patches(top, &mut candidates, KERNEL_SIZE);
        proof {
            assert(tops.subrange(0, i + 1).drop_last() =~= tops.subrange(0, i as int));
        }
        i = i + 1;
    }
    proof {
        assert(tops.subrange(0, i as int) =~= tops);
    }
    candidates
}

/// Relies on `hash_histogram::mode_values`: a value that occurs at least as often as any
/// other, or `None` when there are no values. Which of several equally common values comes
/// back depends on the order in which a hash map is walked.
#[verifier::external_body]
fn most_common(values: Vec<u8>) -> (r: Option<u8>)
    ensures
        r is None <==> values@.len() == 0,
        r matches Some(m) ==> values@.contains(m) && forall|v: u8|
            #[trigger] values@.to_multiset().count(v) <= values@.to_multiset().count(m),
{
    hash_histogram::mode_values(values)
}

/// The pixels at position `p` of each image.
pub open spec fn column(images: Seq<Seq<u8>>, p: int) -> Seq<u8> {
    Seq::new(images.len(), |i: int| images[i][p])
}

/// A most common kernel index at each position: the mean of a set of index images.
pub fn index_mean(images: &Vec<&Image>) -> (r: Image)
    requires
        images@.len() > 0,
        forall|i: int| 0 <= i < images@.len() ==> (#[trigger] images@[i])@.len() == images@[0]@.len(),
    ensures
        r.wf(),
        r@.len() == images@[0]@.len(),
        forall|p: int|
            0 <= p < r@.len() ==> {
                let c = column(Seq::new(images@.len(), |i: int| images@[i]@), p);
                &&& c.contains(#[trigger] r@[p])
                &&& forall|v: u8| #[trigger] c.to_multiset().count(v) <= c.to_multiset().count(r@[p])
            },
{
    let ghost all = Seq::new(images@.len(), |i: int| images@[i]@);
    let n = images[0].pixel_count();
    let mut result = Image::new();
    let mut p: usize = 0;
    while p < n
        invariant
            all == Seq::new(images@.len(), |i: int| images@[i]@),
            images@.len() > 0,
            forall|i: int| 0 <= i < images@.len() ==> (#[trigger] images@[i])@.len() == n,
            p <= n,
            result.wf(),
            result@.len() == p,
            forall|q: int|
                0 <= q < p ==> {
                    let c = column(all, q);
                    &&& c.contains(#[trigger] result@[q])
                    &&& forall|v: u8| #[trigger] c.to_multiset().count(v) <= c.to_multiset().count(result@[q])
                },
        decreases n - p,
    {
        let mut values: Vec<u8> = Vec::new();
        let mut i: usize = 0;
        while i < images.len()
            invariant
                all == Seq::new(images@.len(), |i: int| images@[i]@),
                forall|i: int| 0 <= i < images@.len() ==> (#[trigger] images@[i])@.len() == n,
                p < n,
                i <= images@.len(),
                values@ == column(all, p as int).subrange(0, i as int),
            decreases images@.len() - i,
        {
            values.push(images[i].pixel(p));
            proof {
                assert(values@ =~= column(all, p as int).subrange(0, i + 1));
            }
            i = i + 1;
        }
        proof {
            assert(values@ =~= column(all, p as int));
        }
        let m = match most_common(values) {
            Some(m) => m,
            None => 0,
        };
        result.add(m);
        p = p + 1;
    }
    result
}

impl KernelPyramidImage {
    /// A pyramid is at distance `(num_levels, 0)` from itself.
    pub proof fn lemma_distance_to_self(&self)
        ensures
            pyramid_distance(self.levels(), self.levels(), self.original_view(), self.original_view())
                == (self.levels().len(), 0nat),
    {
        lemma_pyramid_distance_reflexive(self.levels(), self.original_view());
    }

    /// Two pyramids whose coarsest levels have equal size but differ are at distance
    /// `(0, d)`, where `d > 0` counts the cells in which those levels differ.
    pub proof fn lemma_distance_top_differs(a: &KernelPyramidImage, b: &KernelPyramidImage)
        requires
            a.levels().len() == b.levels().len(),
            a.levels().len() > 0,
            a.levels().last().len() == b.levels().last().len(),
            a.levels().last() != b.levels().last(),
        ensures
            pyramid_distance(a.levels(), b.levels(), a.original_view(), b.original_view()) == (
                0nat,
                mismatches(a.levels().last(), b.levels().last()),
            ),
            mismatches(a.levels().last(), b.levels().last()) > 0,
    {
        lemma_pyramid_distance_top(a.levels(), b.levels(), a.original_view(), b.original_view());
    }
}

} // verus!
