//! Projecting images through a codebook of kernels: one response image per kernel.
use vstd::prelude::*;
use vstd::arithmetic::div_mod::lemma_fundamental_div_mod;
use crate::euclidean_distance::{euclidean_distance, lemma_squared_error_bound, squared_error};
use crate::grid::{Grid, lemma_row_major, lemma_side_of_square, side_for, window};
use crate::image::{Image, pixel_value, scale_distance};

verus! {

/// Side of the kernels of a codebook.
pub const KERNEL_SIZE: usize = 3;

/// Distance between the centres of neighbouring windows of a projection; with windows of side
/// three no pixel is the centre of two windows.
pub const STRIDE: usize = 2;

/// The number of positions that a scan with the given stride visits along a side.
pub open spec fn strided_count(side: nat, stride: nat) -> nat {
    if stride == 0 {
        0
    } else {
        ((side + stride - 1) / stride as int) as nat
    }
}

/// The `w` by `w` window centred on the `k`-th position of a row-major scan of the image
/// `cells` that visits every `stride`-th column of every `stride`-th row.
pub open spec fn strided_window(cells: Seq<u8>, stride: nat, w: nat, k: int) -> Seq<u8> {
    let s = side_for(cells.len());
    let n = strided_count(s, stride);
    window(
        cells,
        s as int,
        (k % n as int) * stride - w / 2,
        (k / n as int) * stride - w / 2,
        w as int,
        0u8,
    )
}

/// The image that one kernel makes of `cells`: for each window of a scan with stride two,
/// the pixel of its squared distance to the kernel.
pub open spec fn kernel_response(cells: Seq<u8>, kernel: Seq<u8>) -> Seq<u8> {
    let n = strided_count(side_for(cells.len()), STRIDE as nat);
    Seq::new(
        n * n,
        |k: int|
            pixel_value(
                squared_error(strided_window(cells, STRIDE as nat, KERNEL_SIZE as nat, k), kernel)
                    as u32,
                KERNEL_SIZE,
            ),
    )
}

/// The responses of every image to every kernel, image by image.
pub open spec fn project_all(images: Seq<Seq<u8>>, kernels: Seq<Seq<u8>>) -> Seq<Seq<u8>> {
    let m = kernels.len();
    Seq::new(
        images.len() * m,
        |i: int| kernel_response(images[i / m as int], kernels[i % m as int]),
    )
}

/// The images that `levels` rounds of projection make of one image.
pub open spec fn kernelized(img: Seq<u8>, kernels: Seq<Seq<u8>>, levels: nat) -> Seq<Seq<u8>>
    decreases levels,
{
    if levels == 0 {
        seq![img]
    } else {
        project_all(kernelized(img, kernels, (levels - 1) as nat), kernels)
    }
}

/// The pixels of each image of a sequence.
pub open spec fn views(images: Seq<Image>) -> Seq<Seq<u8>> {
    images.map_values(|im: Image| im@)
}

/// Every kernel holds a full window of side three.
pub open spec fn kernels_ok(kernels: Seq<Image>) -> bool {
    forall|i: int| 0 <= i < kernels.len() ==> #[trigger] kernels[i]@.len() == KERNEL_SIZE
        * KERNEL_SIZE
}

/// The image is well formed and small enough that windows around it stay within `isize`.
pub open spec fn scannable(img: Image) -> bool {
    img.wf() && img.side_nat() + 8 <= isize::MAX
}

pub proof fn lemma_ceil_div(s: nat, st: nat, i: nat)
    requires
        st > 0,
        i * st >= s,
        i == 0 || (i - 1) * st < s,
    ensures
        i == strided_count(s, st),
{
    let x = s + st - 1;
    let q = x / st as int;
    let r = x % st as int;
    lemma_fundamental_div_mod(x, st as int);
    assert(0 <= r < st);
    if i == 0 {
        assert(s == 0) by (nonlinear_arith)
            requires
                i * st >= s,
                i == 0,
        ;
        assert(q == 0) by (nonlinear_arith)
            requires
                x == st * q + r,
                0 <= r < st,
                x == st - 1,
        ;
    } else {
        assert(q <= i) by (nonlinear_arith)
            requires
                x == st * q + r,
                0 <= r,
                x <= i * st + st - 1,
                st > 0,
        ;
        assert(q >= i) by (nonlinear_arith)
            requires
                x == st * q + r,
                r < st,
                x >= (i - 1) * st + st,
                st > 0,
        ;
    }
}

pub proof fn lemma_strided_count_bound(s: nat, st: nat)
    requires
        st > 0,
    ensures
        strided_count(s, st) <= s,
{
    let x = s + st - 1;
    let q = x / st as int;
    let r = x % st as int;
    lemma_fundamental_div_mod(x, st as int);
    if s > 0 {
        assert(x <= s * st) by (nonlinear_arith)
            requires
                x == s + st - 1,
                s >= 1,
                st >= 1,
        ;
        assert(q <= s) by (nonlinear_arith)
            requires
                x == st * q + r,
                0 <= r,
                x <= s * st,
                st > 0,
        ;
    } else {
        assert(q == 0) by (nonlinear_arith)
            requires
                x == st * q + r,
                0 <= r < st,
                x == st - 1,
        ;
    }
}

/// The `w` by `w` windows centred on every `stride`-th column of every `stride`-th row.
pub fn strided_subimages(img: &Image, stride: usize, w: usize) -> (r: Vec<Image>)
    requires
        img.wf(),
        stride > 0,
        img.side_nat() + stride + w <= isize::MAX,
        w * w < usize::MAX,
    ensures
        r@.len() == strided_count(img.side_nat(), stride as nat) * strided_count(
            img.side_nat(),
            stride as nat,
        ),
        forall|k: int|
            0 <= k < r@.len() ==> (#[trigger] r@[k]).wf() && r@[k].side_nat() == w && r@[k]@
                == strided_window(img@, stride as nat, w as nat, k),
{
    proof {
        img.lemma_side();
    }
    let s = img.side();
    let ghost n = strided_count(s as nat, stride as nat);
    let mut out: Vec<Image> = Vec::new();
    let mut cy: usize = 0;
    let ghost mut j: nat = 0;
    while cy < s
        invariant
            img.wf(),
            s == img.side_nat(),
            s == side_for(img@.len()),
            stride > 0,
            s + stride + w <= isize::MAX,
            w * w < usize::MAX,
            n == strided_count(s as nat, stride as nat),
            cy == j * stride,
            j == 0 || (j - 1) * stride < s,
            out@.len() == j * n,
            forall|k: int|
                0 <= k < out@.len() ==> (#[trigger] out@[k]).wf() && out@[k].side_nat() == w
                    && out@[k]@ == strided_window(img@, stride as nat, w as nat, k),
        decreases s + stride - cy,
    {
        let mut cx: usize = 0;
        let ghost mut i: nat = 0;
        while cx < s
            invariant
                img.wf(),
                s == img.side_nat(),
                s == side_for(img@.len()),
                stride > 0,
                s + stride + w <= isize::MAX,
                w * w < usize::MAX,
                n == strided_count(s as nat, stride as nat),
                cy == j * stride,
                cy < s,
                cx == i * stride,
                i == 0 || (i - 1) * stride < s,
                out@.len() == j * n + i,
                forall|k: int|
                    0 <= k < out@.len() ==> (#[trigger] out@[k]).wf() && out@[k].side_nat() == w
                        && out@[k]@ == strided_window(img@, stride as nat, w as nat, k),
            decreases s + stride - cx,
        {
            proof {
                assert(i < n) by {
                    assert(i * stride < s);
                    assert(i <= (s - 1 + stride) / stride as int) by (nonlinear_arith)
                        requires
                            i * stride < s,
                            stride > 0,
                    ;
                    if i == (s + stride - 1) / stride as int {
                        assert(i * stride >= s) by (nonlinear_arith)
                            requires
                                i == (s + stride - 1) / stride as int,
                                stride > 0,
                        ;
                    }
                }
                let k = j * n + i;
                lemma_row_major(k as int, n as int, j as int, i as int);
            }
            let sub = img.subimage(cx, cy, w);
            out.push(sub);
            proof {
                assert((i + 1 - 1) * stride < s);
                assert(cx + stride == (i + 1) * stride) by (nonlinear_arith)
                    requires
                        cx == i * stride,
                ;
                i = i + 1;
            }
            cx = cx + stride;
        }
        proof {
            lemma_ceil_div(s as nat, stride as nat, i);
            assert(j * n + n == (j + 1) * n) by (nonlinear_arith);
            assert(cy + stride == (j + 1) * stride) by (nonlinear_arith)
                requires
                    cy == j * stride,
            ;
            j = j + 1;
        }
        cy = cy + stride;
    }
    proof {
        lemma_ceil_div(s as nat, stride as nat, j);
    }
    out
}

/// The pixel of a squared Euclidean distance between windows of side three.
pub fn pixelize(distance: u32) -> (r: u8)
    ensures
        r == pixel_value(distance, KERNEL_SIZE),
{
    scale_distance(distance, KERNEL_SIZE)
}

/// The response image of `img` to one kernel.
pub fn apply_kernel_to(img: &Image, kernel: &Image) -> (r: Image)
    requires
        scannable(*img),
        kernel@.len() == KERNEL_SIZE * KERNEL_SIZE,
    ensures
        scannable(r),
        r.side_nat() == strided_count(img.side_nat(), STRIDE as nat),
        r@ == kernel_response(img@, kernel@),
{
    proof {
        img.lemma_side();
    }
    let windows = strided_subimages(img, STRIDE, KERNEL_SIZE);
    let ghost n = strided_count(img.side_nat(), STRIDE as nat);
    let ghost target = kernel_response(img@, kernel@);
    let mut result = Image::new();
    let mut k: usize = 0;
    while k < windows.len()
        invariant
            img.wf(),
            img.side_nat() == side_for(img@.len()),
            kernel@.len() == 9,
            windows@.len() == n * n,
            target == kernel_response(img@, kernel@),
            target.len() == n * n,
            forall|k: int|
                0 <= k < windows@.len() ==> (#[trigger] windows@[k]).wf() && windows@[k].side_nat()
                    == KERNEL_SIZE && windows@[k]@ == strided_window(
                    img@,
                    STRIDE as nat,
                    KERNEL_SIZE as nat,
                    k,
                ),
            k <= windows@.len(),
            result.wf(),
            result@ == target.subrange(0, k as int),
        decreases windows@.len() - k,
    {
        let win = &windows[k];
        proof {
            assert(win@.len() == 9);
            lemma_squared_error_bound(win@, kernel@);
        }
        let d = euclidean_distance(win, kernel);
        let p = pixelize(d);
        result.add(p);
        proof {
            assert(target.subrange(0, k + 1) =~= target.subrange(0, k as int).push(p));
        }
        k = k + 1;
    }
    proof {
        assert(result@ =~= target);
        lemma_side_of_square(n);
        result.lemma_side();
        lemma_strided_count_bound(img.side_nat(), 2);
    }
    result
}

/// The response images of `img` to each kernel, in kernel order.
pub fn project_image_through(img: &Image, kernels: &Vec<Image>) -> (r: Vec<Image>)
    requires
        scannable(*img),
        kernels_ok(kernels@),
    ensures
        r@.len() == kernels@.len(),
        forall|i: int|
            0 <= i < r@.len() ==> scannable(#[trigger] r@[i]) && r@[i]@ == kernel_response(
                img@,
                kernels@[i]@,
            ),
{
    let mut out: Vec<Image> = Vec::new();
    let mut i: usize = 0;
    while i < kernels.len()
        invariant
            scannable(*img),
            kernels_ok(kernels@),
            i <= kernels@.len(),
            out@.len() == i,
            forall|j: int|
                0 <= j < out@.len() ==> scannable(#[trigger] out@[j]) && out@[j]@ == kernel_response(
                    img@,
                    kernels@[j]@,
                ),
        decreases kernels@.len() - i,
    {
        let response = apply_kernel_to(img, &kernels[i]);
        out.push(response);
        i = i + 1;
    }
    out
}

/// The response images of every image to every kernel, image by image.
pub fn project_all_through(images: &Vec<Image>, kernels: &Vec<Image>) -> (r: Vec<Image>)
    requires
        forall|i: int| 0 <= i < images@.len() ==> scannable(#[trigger] images@[i]),
        kernels_ok(kernels@),
    ensures
        views(r@) == project_all(views(images@), views(kernels@)),
        forall|i: int| 0 <= i < r@.len() ==> scannable(#[trigger] r@[i]),
{
    let ghost m = kernels@.len();
    let mut out: Vec<Image> = Vec::new();
    let mut i: usize = 0;
    while i < images.len()
        invariant
            forall|i: int| 0 <= i < images@.len() ==> scannable(#[trigger] images@[i]),
            kernels_ok(kernels@),
            m == kernels@.len(),
            i <= images@.len(),
            out@.len() == i * m,
            forall|j: int| 0 <= j < out@.len() ==> scannable(#[trigger] out@[j]),
            forall|j: int|
                0 <= j < out@.len() ==> (#[trigger] out@[j])@ == kernel_response(
                    images@[j / m as int]@,
                    kernels@[j % m as int]@,
                ),
        decreases images@.len() - i,
    {
        let responses = project_image_through(&images[i], kernels);
        let mut t: usize = 0;
        while t < responses.len()
            invariant
                forall|i: int| 0 <= i < images@.len() ==> scannable(#[trigger] images@[i]),
                m == kernels@.len(),
                i < images@.len(),
                responses@.len() == m,
                forall|j: int|
                    0 <= j < responses@.len() ==> scannable(#[trigger] responses@[j])
                        && responses@[j]@ == kernel_response(images@[i as int]@, kernels@[j]@),
                t <= m,
                out@.len() == i * m + t,
                forall|j: int| 0 <= j < out@.len() ==> scannable(#[trigger] out@[j]),
                forall|j: int|
                    0 <= j < out@.len() ==> (#[trigger] out@[j])@ == kernel_response(
                        images@[j / m as int]@,
                        kernels@[j % m as int]@,
                    ),
            decreases m - t,
        {
            proof {
                lemma_row_major(i * m + t, m as int, i as int, t as int);
            }
            out.push(responses[t].clone_image());
            t = t + 1;
        }
        proof {
            assert(i * m + m == (i + 1) * m) by (nonlinear_arith);
        }
        i = i + 1;
    }
    proof {
        let len = images@.len();
        assert forall|j: int| 0 <= j < out@.len() implies views(out@)[j] == project_all(
            views(images@),
            views(kernels@),
        )[j] by {
            assert(m > 0) by (nonlinear_arith)
                requires
                    0 <= j < len * m,
            ;
            assert(j / (m as int) < len) by (nonlinear_arith)
                requires
                    0 <= j < len * m,
                    m > 0,
            ;
            assert(0 <= j / (m as int)) by (nonlinear_arith)
                requires
                    0 <= j,
                    m > 0,
            ;
        }
        assert(views(out@) =~= project_all(views(images@), views(kernels@)));
    }
    out
}

/// Appends the window of side `kernel_size` centred on every position of `img`, row by row.
pub fn add_kernels_from_to(img: &Image, raw_filters: &mut Vec<Image>, kernel_size: usize)
    requires
        img.wf(),
        img.side_nat() + 1 + kernel_size <= isize::MAX,
        kernel_size * kernel_size < usize::MAX,
    ensures
        final(raw_filters)@.len() == old(raw_filters)@.len() + img.side_nat() * img.side_nat(),
        forall|k: int|
            0 <= k < old(raw_filters)@.len() ==> #[trigger] final(raw_filters)@[k]
                == old(raw_filters)@[k],
        forall|k: int|
            0 <= k < img.side_nat() * img.side_nat()
                ==> (#[trigger] final(raw_filters)@[old(raw_filters)@.len() + k]).wf()
                && final(raw_filters)@[old(raw_filters)@.len() + k].side_nat() == kernel_size
                && final(raw_filters)@[old(raw_filters)@.len() + k]@
                == strided_window(img@, 1, kernel_size as nat, k),
{
    let windows = strided_subimages(img, 1, kernel_size);
    let ghost start = raw_filters@.len();
    let mut i: usize = 0;
    while i < windows.len()
        invariant
            start == old(raw_filters)@.len(),
            windows@.len() == img.side_nat() * img.side_nat(),
            forall|k: int|
                0 <= k < windows@.len() ==> (#[trigger] windows@[k]).wf() && windows@[k].side_nat()
                    == kernel_size && windows@[k]@ == strided_window(img@, 1, kernel_size as nat, k),
            i <= windows@.len(),
            raw_filters@.len() == start + i,
            forall|k: int| 0 <= k < start ==> #[trigger] raw_filters@[k] == old(raw_filters)@[k],
            forall|k: int|
                0 <= k < i ==> (#[trigger] raw_filters@[start + k]).wf() && raw_filters@[start
                    + k].side_nat() == kernel_size && raw_filters@[start + k]@ == strided_window(
                    img@,
                    1,
                    kernel_size as nat,
                    k,
                ),
        decreases windows@.len() - i,
    {
        let copy = windows[i].clone_image();
        raw_filters.push(copy);
        proof {
            assert(raw_filters@[start + i] == copy);
        }
        i = i + 1;
    }
}

/// The sum of the squared errors of corresponding images.
pub open spec fn total_squared_error(a: Seq<Seq<u8>>, b: Seq<Seq<u8>>) -> nat
    decreases a.len(),
{
    if a.len() == 0 {
        0
    } else {
        total_squared_error(a.drop_last(), b.drop_last()) + squared_error(a.last(), b[a.len() - 1])
    }
}

proof fn lemma_total_squared_error_prefix(a: Seq<Seq<u8>>, b: Seq<Seq<u8>>, i: int)
    requires
        a.len() == b.len(),
        0 <= i <= a.len(),
    ensures
        total_squared_error(a.subrange(0, i), b.subrange(0, i)) <= total_squared_error(a, b),
        i < a.len() ==> total_squared_error(a.subrange(0, i + 1), b.subrange(0, i + 1))
            == total_squared_error(a.subrange(0, i), b.subrange(0, i)) + squared_error(a[i], b[i]),
    decreases a.len() - i,
{
    if i < a.len() {
        lemma_total_squared_error_prefix(a, b, i + 1);
        assert(a.subrange(0, i + 1).drop_last() =~= a.subrange(0, i));
        assert(b.subrange(0, i + 1).drop_last() =~= b.subrange(0, i));
    } else {
        assert(a.subrange(0, i) =~= a);
        assert(b.subrange(0, i) =~= b);
    }
}

/// The sum of the squared Euclidean distances of corresponding images of two projections.
pub fn kernelized_distance(k1: &Vec<Image>, k2: &Vec<Image>) -> (r: u32)
    requires
        k1@.len() == k2@.len(),
        forall|i: int| 0 <= i < k1@.len() ==> (#[trigger] k1@[i])@.len() == k2@[i]@.len(),
        total_squared_error(views(k1@), views(k2@)) <= u32::MAX,
    ensures
        r == total_squared_error(views(k1@), views(k2@)),
{
    let ghost a = views(k1@);
    let ghost b = views(k2@);
    let mut sum: u32 = 0;
    let mut i: usize = 0;
    while i < k1.len()
        invariant
            a == views(k1@),
            b == views(k2@),
            k1@.len() == k2@.len(),
            forall|i: int| 0 <= i < k1@.len() ==> (#[trigger] k1@[i])@.len() == k2@[i]@.len(),
            total_squared_error(a, b) <= u32::MAX,
            i <= k1@.len(),
            sum == total_squared_error(a.subrange(0, i as int), b.subrange(0, i as int)),
        decreases k1@.len() - i,
    {
        proof {
            lemma_total_squared_error_prefix(a, b, i as int);
            lemma_total_squared_error_prefix(a, b, i + 1);
            lemma_squared_error_bound(k1@[i as int]@, k2@[i as int]@);
        }
        let d = euclidean_distance(&k1[i], &k2[i]);
        sum = sum + d;
        i = i + 1;
    }
    proof {
        assert(a.subrange(0, i as int) =~= a);
        assert(b.subrange(0, i as int) =~= b);
    }
    sum
}

/// Each labelled image, projected `levels` times through the kernels.
pub fn kernelize_all(labeled_images: &Vec<(u8, Image)>, kernels: &Vec<Image>, levels: usize) -> (r:
    Vec<(u8, Vec<Image>)>)
    requires
        forall|i: int| 0 <= i < labeled_images@.len() ==> scannable(#[trigger] labeled_images@[i].1),
        kernels_ok(kernels@),
    ensures
        r@.len() == labeled_images@.len(),
        forall|i: int|
            0 <= i < r@.len() ==> (#[trigger] r@[i]).0 == labeled_images@[i].0 && views(r@[i].1@)
                == kernelized(labeled_images@[i].1@, views(kernels@), levels as nat),
        forall|i: int, j: int|
            0 <= i < r@.len() && 0 <= j < r@[i].1@.len() ==> scannable(#[trigger] r@[i].1@[j]),
        levels == 0 ==> forall|i: int|
            0 <= i < r@.len() ==> (#[trigger] r@[i]).1@.len() == 1 && r@[i].1@[0]@
                == labeled_images@[i].1@ && r@[i].1@[0].side_nat() == labeled_images@[i].1.side_nat(),
{
    let mut out: Vec<(u8, Vec<Image>)> = Vec::new();
    let mut i: usize = 0;
    while i < labeled_images.len()
        invariant
            forall|i: int|
                0 <= i < labeled_images@.len() ==> scannable(#[trigger] labeled_images@[i].1),
            kernels_ok(kernels@),
            i <= labeled_images@.len(),
            out@.len() == i,
            forall|j: int|
                0 <= j < i ==> (#[trigger] out@[j]).0 == labeled_images@[j].0 && views(out@[j].1@)
                    == kernelized(labeled_images@[j].1@, views(kernels@), levels as nat),
            forall|j: int, t: int|
                0 <= j < i && 0 <= t < out@[j].1@.len() ==> scannable(#[trigger] out@[j].1@[t]),
            levels == 0 ==> forall|j: int|
                0 <= j < i ==> (#[trigger] out@[j]).1@.len() == 1 && out@[j].1@[0]@
                    == labeled_images@[j].1@ && out@[j].1@[0].side_nat()
                    == labeled_images@[j].1.side_nat(),
        decreases labeled_images@.len() - i,
    {
        let (label, img) = (labeled_images[i].0, &labeled_images[i].1);
        let mut images: Vec<Image> = Vec::new();
        images.push(img.clone_image());
        proof {
            assert(views(images@) =~= kernelized(img@, views(kernels@), 0));
        }
        let mut level: usize = 0;
        while level < levels
            invariant
                kernels_ok(kernels@),
                level <= levels,
                forall|j: int| 0 <= j < images@.len() ==> scannable(#[trigger] images@[j]),
                views(images@) == kernelized(img@, views(kernels@), level as nat),
                level == 0 ==> images@.len() == 1 && images@[0]@ == img@ && images@[0].side_nat()
                    == img.side_nat(),
            decreases levels - level,
        {
            images = project_all_through(&images, kernels);
            level = level + 1;
        }
        out.push((label, images));
        i = i + 1;
    }
    out
}

/// The windows of side `w` centred on every position of the image `cells`, row by row.
pub open spec fn patches(cells: Seq<u8>, w: nat) -> Seq<Seq<u8>> {
    let s = side_for(cells.len());
    Seq::new(s * s, |k: int| strided_window(cells, 1, w, k))
}

/// The windows of side `w` of every image, image by image.
pub open spec fn all_patches(images: Seq<Seq<u8>>, w: nat) -> Seq<Seq<u8>>
    decreases images.len(),
{
    if images.len() == 0 {
        seq![]
    } else {
        all_patches(images.drop_last(), w) + patches(images.last(), w)
    }
}

/// Appends the windows of `img` to `candidates`, as `all_patches` orders them.
pub fn add_patches(img: &Image, candidates: &mut Vec<Image>, kernel_size: usize)
    requires
        img.wf(),
        img.side_nat() + 1 + kernel_size <= isize::MAX,
        kernel_size * kernel_size < usize::MAX,
        forall|k: int|
            0 <= k < old(candidates)@.len() ==> (#[trigger] old(candidates)@[k]).wf()
                && old(candidates)@[k].side_nat() == kernel_size,
    ensures
        views(final(candidates)@) == views(old(candidates)@) + patches(img@, kernel_size as nat),
        forall|k: int|
            0 <= k < final(candidates)@.len() ==> (#[trigger] final(candidates)@[k]).wf()
                && final(candidates)@[k].side_nat() == kernel_size,
{
    proof {
        img.lemma_side();
    }
    let ghost before = candidates@;
    add_kernels_from_to(img, candidates, kernel_size);
    proof {
        let s = img.side_nat();
        assert forall|k: int| 0 <= k < candidates@.len() implies (#[trigger] candidates@[k]).wf()
            && candidates@[k].side_nat() == kernel_size by {
            if k >= before.len() {
                let j = k - before.len();
                assert(candidates@[before.len() + j].wf());
            }
        }
        assert forall|k: int| 0 <= k < candidates@.len() implies views(candidates@)[k] == (views(
            before,
        ) + patches(img@, kernel_size as nat))[k] by {
            if k >= before.len() {
                let j = k - before.len();
                assert(candidates@[before.len() + j]@ == strided_window(img@, 1, kernel_size as nat, j));
            }
        }
        assert(views(candidates@) =~= views(before) + patches(img@, kernel_size as nat));
    }
}

/// Every window of side `kernel_size` of every image: the candidates from which a codebook
/// is chosen.
pub fn kernel_candidates(images: &Vec<Image>, kernel_size: usize) -> (r: Vec<Image>)
    requires
        forall|i: int|
            0 <= i < images@.len() ==> (#[trigger] images@[i]).wf() && images@[i].side_nat() + 1
                + kernel_size <= isize::MAX,
        kernel_size * kernel_size < usize::MAX,
    ensures
        views(r@) == all_patches(views(images@), kernel_size as nat),
        forall|k: int| 0 <= k < r@.len() ==> (#[trigger] r@[k]).wf() && r@[k].side_nat() == kernel_size,
{
    let mut candidates: Vec<Image> = Vec::new();
    let mut i: usize = 0;
    while i < images.len()
        invariant
            forall|i: int|
                0 <= i < images@.len() ==> (#[trigger] images@[i]).wf() && images@[i].side_nat() + 1
                    + kernel_size <= isize::MAX,
            kernel_size * kernel_size < usize::MAX,
            i <= images@.len(),
            views(candidates@) == all_patches(views(images@).subrange(0, i as int), kernel_size as nat),
            forall|k: int|
                0 <= k < candidates@.len() ==> (#[trigger] candidates@[k]).wf()
                    && candidates@[k].side_nat() == kernel_size,
        decreases images@.len() - i,
    {
        add_patches(&images[i], &mut candidates, kernel_size);
        proof {
            let v = views(images@);
            assert(v.subrange(0, i + 1).drop_last() =~= v.subrange(0, i as int));
            assert(v.subrange(0, i + 1).last() == images@[i as int]@);
        }
        i = i + 1;
    }
    proof {
        assert(views(images@).subrange(0, i as int) =~= views(images@));
    }
    candidates
}

} // verus!
