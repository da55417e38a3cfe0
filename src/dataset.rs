//! The MNIST file layout, thinning a data set, and per-pixel means of image sets.
use vstd::prelude::*;
use crate::bits::BitArray;
use crate::convolutional::{lemma_ceil_div, strided_count, views};
use crate::grid::Grid;
use crate::image::Image;

verus! {

/// The side of an MNIST image.
pub const IMAGE_DIMENSION: usize = 28;

/// The number of pixels of an MNIST image.
pub const IMAGE_BYTES: usize = 784;

/// The length of the header of an MNIST label file.
pub const LABEL_HEADER_BYTES: usize = 8;

/// The length of the header of an MNIST image file.
pub const IMAGE_HEADER_BYTES: usize = 16;

/// The labels of an MNIST label file: every byte after the header.
pub fn parse_labels(bytes: &[u8]) -> (r: Vec<u8>)
    ensures
        r@ == if bytes@.len() <= LABEL_HEADER_BYTES {
            Seq::<u8>::empty()
        } else {
            bytes@.subrange(LABEL_HEADER_BYTES as int, bytes@.len() as int)
        },
{
    let mut labels: Vec<u8> = Vec::new();
    let mut i: usize = LABEL_HEADER_BYTES;
    while i < bytes.len()
        invariant
            LABEL_HEADER_BYTES <= i,
            i <= bytes@.len() || bytes@.len() <= LABEL_HEADER_BYTES,
            i < bytes@.len() || i == bytes@.len() || bytes@.len() <= LABEL_HEADER_BYTES,
            bytes@.len() > LABEL_HEADER_BYTES ==> labels@ == bytes@.subrange(
                LABEL_HEADER_BYTES as int,
                i as int,
            ),
            bytes@.len() <= LABEL_HEADER_BYTES ==> labels@.len() == 0,
        decreases bytes@.len() - i,
    {
        labels.push(bytes[i]);
        i = i + 1;
    }
    proof {
        if bytes@.len() <= LABEL_HEADER_BYTES {
            assert(labels@ =~= Seq::<u8>::empty());
        }
    }
    labels
}

/// The number of whole images that an MNIST image file of `len` bytes holds.
pub open spec fn image_count(len: nat) -> nat {
    if len <= IMAGE_HEADER_BYTES {
        0
    } else {
        ((len - IMAGE_HEADER_BYTES) / IMAGE_BYTES as int) as nat
    }
}

/// The labelled images of an MNIST image file: each run of 784 bytes after the header is one
/// image, labelled by the label at its position; a trailing partial image is dropped.
pub fn parse_images(bytes: &[u8], labels: &[u8]) -> (r: Vec<(u8, Image)>)
    requires
        labels@.len() >= image_count(bytes@.len()),
    ensures
        r@.len() == image_count(bytes@.len()),
        forall|i: int|
            0 <= i < r@.len() ==> {
                &&& (#[trigger] r@[i]).0 == labels@[i]
                &&& r@[i].1.wf()
                &&& r@[i].1@ == bytes@.subrange(
                    IMAGE_HEADER_BYTES + i * IMAGE_BYTES,
                    IMAGE_HEADER_BYTES + (i + 1) * IMAGE_BYTES,
                )
            },
{
    let count = if bytes.len() <= IMAGE_HEADER_BYTES {
        0
    } else {
        (bytes.len() - IMAGE_HEADER_BYTES) / IMAGE_BYTES
    };
    let total = bytes.len();
    let mut images: Vec<(u8, Image)> = Vec::new();
    let mut i: usize = 0;
    while i < count
        invariant
            total == bytes@.len(),
            count == image_count(bytes@.len()),
            labels@.len() >= count,
            i <= count,
            images@.len() == i,
            forall|j: int|
                0 <= j < i ==> {
                    &&& (#[trigger] images@[j]).0 == labels@[j]
                    &&& images@[j].1.wf()
                    &&& images@[j].1@ == bytes@.subrange(
                        IMAGE_HEADER_BYTES + j * IMAGE_BYTES,
                        IMAGE_HEADER_BYTES + (j + 1) * IMAGE_BYTES,
                    )
                },
        decreases count - i,
    {
        proof {
            assert(16 + i * 784 + 784 <= bytes@.len()) by (nonlinear_arith)
                requires
                    i < count,
                    count == (bytes@.len() - 16) / 784,
                    bytes@.len() > 16,
            ;
        }
        assert(IMAGE_HEADER_BYTES + i * IMAGE_BYTES + IMAGE_BYTES <= bytes@.len());
        let start = IMAGE_HEADER_BYTES + i * IMAGE_BYTES;
        let mut image = Image::new();
        let mut p: usize = 0;
        while p < IMAGE_BYTES
            invariant
                total == bytes@.len(),
                start + IMAGE_BYTES <= bytes@.len(),
                p <= IMAGE_BYTES,
                image.wf(),
                image@ == bytes@.subrange(start as int, start + p),
            decreases IMAGE_BYTES - p,
        {
            image.add(bytes[start + p]);
            proof {
                assert(bytes@.subrange(start as int, start + p + 1) =~= bytes@.subrange(
                    start as int,
                    start + p,
                ).push(bytes@[start + p]));
            }
            p = p + 1;
        }
        proof {
            assert(start + IMAGE_BYTES == IMAGE_HEADER_BYTES + (i + 1) * IMAGE_BYTES);
        }
        images.push((labels[i], image));
        i = i + 1;
    }
    images
}

/// Every `shrink`-th labelled image, starting with the first.
pub fn discard(items: &[(u8, Image)], shrink: usize) -> (r: Vec<(u8, Image)>)
    requires
        shrink > 0,
    ensures
        r@.len() == strided_count(items@.len() as nat, shrink as nat),
        forall|j: int|
            0 <= j < r@.len() ==> {
                &&& (#[trigger] r@[j]).0 == items@[j * shrink].0
                &&& r@[j].1@ == items@[j * shrink].1@
                &&& r@[j].1.side_nat() == items@[j * shrink].1.side_nat()
            },
{
    let mut result: Vec<(u8, Image)> = Vec::new();
    if items.len() == 0 {
        proof {
            lemma_ceil_div(0, shrink as nat, 0);
        }
        return result;
    }
    let mut i: usize = 0;
    let ghost mut j: nat = 0;
    loop
        invariant_except_break
            shrink > 0,
            i < items@.len(),
            i == j * shrink,
            result@.len() == j,
            forall|k: int|
                0 <= k < j ==> {
                    &&& (#[trigger] result@[k]).0 == items@[k * shrink].0
                    &&& result@[k].1@ == items@[k * shrink].1@
                    &&& result@[k].1.side_nat() == items@[k * shrink].1.side_nat()
                },
        ensures
            result@.len() == strided_count(items@.len() as nat, shrink as nat),
            forall|k: int|
                0 <= k < result@.len() ==> {
                    &&& (#[trigger] result@[k]).0 == items@[k * shrink].0
                    &&& result@[k].1@ == items@[k * shrink].1@
                    &&& result@[k].1.side_nat() == items@[k * shrink].1.side_nat()
                },
        decreases items@.len() - i,
    {
        let copy = items[i].1.clone_image();
        result.push((items[i].0, copy));
        proof {
            j = j + 1;
        }
        if items.len() - i <= shrink {
            proof {
                assert((j - 1) * shrink < items@.len());
                assert(j * shrink == i + shrink) by (nonlinear_arith)
                    requires
                        i == (j - 1) * shrink,
                ;
                lemma_ceil_div(items@.len() as nat, shrink as nat, j);
            }
            break ;
        }
        proof {
            assert(j * shrink == i + shrink) by (nonlinear_arith)
                requires
                    i == (j - 1) * shrink,
            ;
        }
        i = i + shrink;
    }
    result
}

/// The sum of the pixels at position `p` of each image.
pub open spec fn column_sum(images: Seq<Seq<u8>>, p: int) -> nat
    decreases images.len(),
{
    if images.len() == 0 {
        0
    } else {
        column_sum(images.drop_last(), p) + images.last()[p] as nat
    }
}

/// The pixelwise mean, rounded down, of equally long images.
pub open spec fn mean_image(images: Seq<Seq<u8>>) -> Seq<u8> {
    Seq::new(images[0].len(), |p: int| (column_sum(images, p) / images.len()) as u8)
}

proof fn lemma_column_sum_bound(images: Seq<Seq<u8>>, p: int)
    ensures
        column_sum(images, p) <= 255 * images.len(),
    decreases images.len(),
{
    if images.len() > 0 {
        lemma_column_sum_bound(images.drop_last(), p);
    }
}

/// The pixelwise mean, rounded down, of equally long images.
pub fn image_mean_borrowed(images: &Vec<&Image>) -> (r: Image)
    requires
        images@.len() > 0,
        forall|i: int| 0 <= i < images@.len() ==> (#[trigger] images@[i])@.len() == images@[0]@.len(),
        images@.len() * 255 <= usize::MAX,
    ensures
        r.wf(),
        r@ == mean_image(Seq::new(images@.len(), |i: int| images@[i]@)),
{
    let ghost all = Seq::new(images@.len(), |i: int| images@[i]@);
    let n = images[0].pixel_count();
    let mut sums: Vec<usize> = Vec::new();
    let mut p: usize = 0;
    while p < n
        invariant
            p <= n,
            sums@.len() == p,
            forall|q: int| 0 <= q < p ==> sums@[q] == 0,
        decreases n - p,
    {
        sums.push(0);
        p = p + 1;
    }
    let mut i: usize = 0;
    while i < images.len()
        invariant
            all == Seq::new(images@.len(), |i: int| images@[i]@),
            forall|i: int| 0 <= i < images@.len() ==> (#[trigger] images@[i])@.len() == n,
            images@.len() * 255 <= usize::MAX,
            i <= images@.len(),
            sums@.len() == n,
            forall|q: int| 0 <= q < n ==> sums@[q] == column_sum(all.subrange(0, i as int), q),
        decreases images@.len() - i,
    {
        let image = images[i];
        let ghost before = sums@;
        let mut q: usize = 0;
        while q < n
            invariant
                all == Seq::new(images@.len(), |i: int| images@[i]@),
                image@.len() == n,
                image == images@[i as int],
                images@.len() * 255 <= usize::MAX,
                i < images@.len(),
                q <= n,
                sums@.len() == n,
                before.len() == n,
                forall|t: int| 0 <= t < n ==> before[t] == column_sum(all.subrange(0, i as int), t),
                forall|t: int| 0 <= t < q ==> sums@[t] == before[t] + image@[t],
                forall|t: int| q <= t < n ==> sums@[t] == before[t],
            decreases n - q,
        {
            proof {
                assert(all.subrange(0, i as int).len() == i);
                lemma_column_sum_bound(all.subrange(0, i as int), q as int);
                assert(255 * i + 255 <= usize::MAX) by (nonlinear_arith)
                    requires
                        i < images@.len(),
                        images@.len() * 255 <= usize::MAX,
                ;
                assert(sums@[q as int] == before[q as int]);
                assert(before[q as int] <= 255 * i);
            }
            let v = sums[q] + image.pixel(q) as usize;
            sums.set(q, v);
            q = q + 1;
        }
        proof {
            assert forall|t: int| 0 <= t < n implies sums@[t] == column_sum(
                all.subrange(0, i + 1),
                t,
            ) by {
                assert(all.subrange(0, i + 1).drop_last() =~= all.subrange(0, i as int));
            }
        }
        i = i + 1;
    }
    let count = images.len();
    let mut result = Image::new();
    let mut q: usize = 0;
    while q < n
        invariant
            all == Seq::new(images@.len(), |i: int| images@[i]@),
            all.subrange(0, count as int) == all,
            count == images@.len(),
            count > 0,
            n == images@[0]@.len(),
            sums@.len() == n,
            forall|t: int| 0 <= t < n ==> sums@[t] == column_sum(all.subrange(0, count as int), t),
            q <= n,
            result.wf(),
            result@ == mean_image(all).subrange(0, q as int),
        decreases n - q,
    {
        proof {
            lemma_column_sum_bound(all, q as int);
            assert(column_sum(all, q as int) / (count as nat) <= 255) by (nonlinear_arith)
                requires
                    column_sum(all, q as int) <= 255 * count,
                    count > 0,
            ;
        }
        let m = (sums[q] / count) as u8;
        proof {
            assert(mean_image(all).subrange(0, q + 1) =~= mean_image(all).subrange(0, q as int).push(m));
        }
        result.add(m);
        q = q + 1;
    }
    proof {
        assert(result@ =~= mean_image(all));
    }
    result
}

/// The pixelwise mean, rounded down, of equally long images.
pub fn image_mean(images: &Vec<Image>) -> (r: Image)
    requires
        images@.len() > 0,
        forall|i: int| 0 <= i < images@.len() ==> (#[trigger] images@[i])@.len() == images@[0]@.len(),
        images@.len() * 255 <= usize::MAX,
    ensures
        r.wf(),
        r@ == mean_image(views(images@)),
{
    let mut refs: Vec<&Image> = Vec::new();
    let mut i: usize = 0;
    while i < images.len()
        invariant
            i <= images@.len(),
            refs@.len() == i,
            forall|j: int| 0 <= j < i ==> *refs@[j] == images@[j],
        decreases images@.len() - i,
    {
        refs.push(&images[i]);
        i = i + 1;
    }
    let r = image_mean_borrowed(&refs);
    proof {
        assert(Seq::new(refs@.len(), |i: int| refs@[i]@) =~= views(images@));
    }
    r
}

/// One for a set bit, zero otherwise.
pub fn bits_to_num(b: bool) -> (r: usize)
    ensures
        r == if b {
            1usize
        } else {
            0usize
        },
{
    if b {
        1
    } else {
        0
    }
}

/// The number of the bit sequences that have bit `p` set.
pub open spec fn ones_at(images: Seq<Seq<bool>>, p: int) -> nat
    decreases images.len(),
{
    if images.len() == 0 {
        0
    } else {
        ones_at(images.drop_last(), p) + if images.last()[p] {
            1nat
        } else {
            0nat
        }
    }
}

proof fn lemma_ones_at_bound(images: Seq<Seq<bool>>, p: int)
    ensures
        ones_at(images, p) <= images.len(),
    decreases images.len(),
{
    if images.len() > 0 {
        lemma_ones_at_bound(images.drop_last(), p);
    }
}

/// The bitwise majority of equally long bit sequences: a bit is on where at least as many
/// sequences have it on as off.
pub fn bitarray_max(images: &Vec<BitArray>) -> (r: BitArray)
    requires
        images@.len() > 0,
        forall|i: int|
            0 <= i < images@.len() ==> (#[trigger] images@[i]).wf() && images@[i]@.len()
                == images@[0]@.len(),
        images@[0]@.len() < usize::MAX,
    ensures
        r.wf(),
        r@ == Seq::new(
            images@[0]@.len(),
            |p: int|
                ones_at(Seq::new(images@.len(), |i: int| images@[i]@), p) >= images@.len() - ones_at(
                    Seq::new(images@.len(), |i: int| images@[i]@),
                    p,
                ),
        ),
{
    let ghost all = Seq::new(images@.len(), |i: int| images@[i]@);
    let n = images[0].len() as usize;
    let count = images.len();
    let mut result = BitArray::new();
    let mut p: usize = 0;
    while p < n
        invariant
            all == Seq::new(images@.len(), |i: int| images@[i]@),
            count == images@.len(),
            forall|i: int|
                0 <= i < images@.len() ==> (#[trigger] images@[i]).wf() && images@[i]@.len() == n,
            n == images@[0]@.len(),
            n < usize::MAX,
            p <= n,
            result.wf(),
            result@ == Seq::new(p as nat, |q: int| ones_at(all, q) >= count - ones_at(all, q)),
        decreases n - p,
    {
        let mut ones: usize = 0;
        let mut i: usize = 0;
        while i < count
            invariant
                all == Seq::new(images@.len(), |i: int| images@[i]@),
                count == images@.len(),
                forall|i: int|
                    0 <= i < images@.len() ==> (#[trigger] images@[i]).wf() && images@[i]@.len() == n,
                p < n,
                i <= count,
                ones == ones_at(all.subrange(0, i as int), p as int),
                ones <= i,
            decreases count - i,
        {
            proof {
                assert(all.subrange(0, i + 1).drop_last() =~= all.subrange(0, i as int));
            }
            ones = ones + bits_to_num(images[i].is_set(p as u64));
            i = i + 1;
        }
        proof {
            assert(all.subrange(0, count as int) =~= all);
        }
        let zeros = count - ones;
        result.add(ones >= zeros);
        proof {
            assert(result@ =~= Seq::new(
                (p + 1) as nat,
                |q: int| ones_at(all, q) >= count - ones_at(all, q),
            ));
        }
        p = p + 1;
    }
    result
}

} // verus!
