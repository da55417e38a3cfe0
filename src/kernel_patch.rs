//! Comparing two sets of kernels by matching each kernel to its closest counterpart.
use vstd::prelude::*;
use crate::convolutional::views;
use crate::euclidean_distance::{euclidean_distance, squared_error};
use crate::image::Image;

verus! {

/// The smallest squared distance from `a` to an element of the non-empty `bs`.
pub open spec fn nearest_distance(a: Seq<u8>, bs: Seq<Seq<u8>>) -> nat
    decreases bs.len(),
{
    if bs.len() <= 1 {
        squared_error(a, bs[0])
    } else {
        let m = nearest_distance(a, bs.drop_last());
        let d = squared_error(a, bs.last());
        if d < m {
            d
        } else {
            m
        }
    }
}

/// The sum, over the elements of `as_`, of the distance to the nearest element of `bs`.
pub open spec fn one_way_distance(as_: Seq<Seq<u8>>, bs: Seq<Seq<u8>>) -> nat
    decreases as_.len(),
{
    if as_.len() == 0 {
        0
    } else {
        one_way_distance(as_.drop_last(), bs) + nearest_distance(as_.last(), bs)
    }
}

/// Every image of `a` can be compared with every image of `b`, and every squared distance
/// between them, as well as the sum of `one_way_distance` in both directions, fits in `u32`.
pub open spec fn match_fits(a: Seq<Seq<u8>>, b: Seq<Seq<u8>>) -> bool {
    &&& forall|i: int, j: int|
        0 <= i < a.len() && 0 <= j < b.len() ==> (#[trigger] a[i]).len() == (#[trigger] b[j]).len()
            && squared_error(a[i], b[j]) <= u32::MAX && squared_error(b[j], a[i]) <= u32::MAX
    &&& one_way_distance(a, b) + one_way_distance(b, a) <= u32::MAX
}

proof fn lemma_one_way_prefix(as_: Seq<Seq<u8>>, bs: Seq<Seq<u8>>, i: int)
    requires
        0 <= i <= as_.len(),
    ensures
        one_way_distance(as_.subrange(0, i), bs) <= one_way_distance(as_, bs),
        i < as_.len() ==> one_way_distance(as_.subrange(0, i + 1), bs) == one_way_distance(
            as_.subrange(0, i),
            bs,
        ) + nearest_distance(as_[i], bs),
    decreases as_.len() - i,
{
    if i < as_.len() {
        lemma_one_way_prefix(as_, bs, i + 1);
        assert(as_.subrange(0, i + 1).drop_last() =~= as_.subrange(0, i));
    } else {
        assert(as_.subrange(0, i) =~= as_);
    }
}

/// The smallest squared distance from `img` to a kernel of the non-empty `kernels`.
fn nearest(img: &Image, kernels: &Vec<Image>) -> (r: u32)
    requires
        kernels@.len() > 0,
        forall|j: int|
            0 <= j < kernels@.len() ==> (#[trigger] kernels@[j])@.len() == img@.len()
                && squared_error(img@, kernels@[j]@) <= u32::MAX,
    ensures
        r == nearest_distance(img@, views(kernels@)),
{
    let ghost bs = views(kernels@);
    let mut best = euclidean_distance(img, &kernels[0]);
    proof {
        assert(bs.subrange(0, 1) =~= seq![bs[0]]);
    }
    let mut j: usize = 1;
    while j < kernels.len()
        invariant
            bs == views(kernels@),
            forall|j: int|
                0 <= j < kernels@.len() ==> (#[trigger] kernels@[j])@.len() == img@.len()
                    && squared_error(img@, kernels@[j]@) <= u32::MAX,
            1 <= j <= kernels@.len(),
            best == nearest_distance(img@, bs.subrange(0, j as int)),
        decreases kernels@.len() - j,
    {
        let d = euclidean_distance(img, &kernels[j]);
        proof {
            assert(bs.subrange(0, j + 1).drop_last() =~= bs.subrange(0, j as int));
        }
        if d < best {
            best = d;
        }
        j = j + 1;
    }
    proof {
        assert(bs.subrange(0, j as int) =~= bs);
    }
    best
}

/// The sum, over the images of `k1`, of the squared distance to the nearest image of `k2`.
fn best_match_one_way(k1: &Vec<Image>, k2: &Vec<Image>) -> (r: u32)
    requires
        k2@.len() > 0,
        forall|i: int, j: int|
            0 <= i < k1@.len() && 0 <= j < k2@.len() ==> (#[trigger] k1@[i])@.len() == (
            #[trigger] k2@[j])@.len() && squared_error(k1@[i]@, k2@[j]@) <= u32::MAX,
        one_way_distance(views(k1@), views(k2@)) <= u32::MAX,
    ensures
        r == one_way_distance(views(k1@), views(k2@)),
{
    let ghost (a, b) = (views(k1@), views(k2@));
    let mut sum: u32 = 0;
    let mut i: usize = 0;
    while i < k1.len()
        invariant
            a == views(k1@),
            b == views(k2@),
            k2@.len() > 0,
            forall|i: int, j: int|
                0 <= i < k1@.len() && 0 <= j < k2@.len() ==> (#[trigger] k1@[i])@.len() == (
                #[trigger] k2@[j])@.len() && squared_error(k1@[i]@, k2@[j]@) <= u32::MAX,
            one_way_distance(a, b) <= u32::MAX,
            i <= k1@.len(),
            sum == one_way_distance(a.subrange(0, i as int), b),
        decreases k1@.len() - i,
    {
        proof {
            lemma_one_way_prefix(a, b, i as int);
            lemma_one_way_prefix(a, b, i + 1);
            assert forall|j: int| 0 <= j < k2@.len() implies (#[trigger] k2@[j])@.len()
                == k1@[i as int]@.len() && squared_error(k1@[i as int]@, k2@[j]@) <= u32::MAX by {
                assert(k1@[i as int]@.len() == k2@[j]@.len());
            }
        }
        let d = nearest(&k1[i], k2);
        sum = sum + d;
        i = i + 1;
    }
    proof {
        assert(a.subrange(0, i as int) =~= a);
    }
    sum
}

/// How far apart two equally large sets of kernels are: the distance from each kernel to its
/// nearest counterpart, summed in both directions.
pub fn best_match_distance(k1: &Vec<Image>, k2: &Vec<Image>) -> (r: u32)
    requires
        k1@.len() == k2@.len(),
        k1@.len() > 0,
        match_fits(views(k1@), views(k2@)),
    ensures
        r == one_way_distance(views(k1@), views(k2@)) + one_way_distance(views(k2@), views(k1@)),
{
    let ghost (a, b) = (views(k1@), views(k2@));
    proof {
        assert forall|i: int, j: int|
            0 <= i < k1@.len() && 0 <= j < k2@.len() implies (#[trigger] k1@[i])@.len() == (
            #[trigger] k2@[j])@.len() && squared_error(k1@[i]@, k2@[j]@) <= u32::MAX by {
            assert(a[i] == k1@[i]@ && b[j] == k2@[j]@);
        }
        assert forall|i: int, j: int|
            0 <= i < k2@.len() && 0 <= j < k1@.len() implies (#[trigger] k2@[i])@.len() == (
            #[trigger] k1@[j])@.len() && squared_error(k2@[i]@, k1@[j]@) <= u32::MAX by {
            assert(a[j] == k1@[j]@ && b[i] == k2@[i]@);
        }
    }
    let forward = best_match_one_way(k1, k2);
    let backward = best_match_one_way(k2, k1);
    forward + backward
}

} // verus!
