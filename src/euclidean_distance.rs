//! Squared Euclidean distance between images.
use vstd::prelude::*;
use crate::image::Image;

verus! {

/// The sum of the squared differences of two pixel sequences, position by position.
pub open spec fn squared_error(a: Seq<u8>, b: Seq<u8>) -> nat
    decreases a.len(),
{
    if a.len() == 0 {
        0
    } else {
        let d = a.last() - b[a.len() - 1];
        squared_error(a.drop_last(), b.drop_last()) + (d * d) as nat
    }
}

/// Each image is at squared distance zero from itself.
pub proof fn lemma_squared_error_self(a: Seq<u8>)
    ensures
        squared_error(a, a) == 0,
    decreases a.len(),
{
    if a.len() > 0 {
        lemma_squared_error_self(a.drop_last());
        let d = a.last() - a[a.len() - 1];
        assert(d * d == 0) by (nonlinear_arith)
            requires
                d == 0,
        ;
    }
}

proof fn lemma_squared_error_push(a: Seq<u8>, b: Seq<u8>, x: u8, y: u8)
    requires
        a.len() == b.len(),
    ensures
        squared_error(a.push(x), b.push(y)) == squared_error(a, b) + ((x - y) * (x - y)) as nat,
{
    assert(a.push(x).drop_last() =~= a);
    assert(b.push(y).drop_last() =~= b);
}

pub proof fn lemma_squared_error_bound(a: Seq<u8>, b: Seq<u8>)
    requires
        a.len() == b.len(),
    ensures
        squared_error(a, b) <= 65025 * a.len(),
    decreases a.len(),
{
    if a.len() > 0 {
        lemma_squared_error_bound(a.drop_last(), b.drop_last());
        let d = a.last() - b[a.len() - 1];
        assert(0 <= d * d <= 65025) by (nonlinear_arith)
            requires
                -255 <= d <= 255,
        ;
    }
}

/// The sum of squared pixel differences of two images with the same number of pixels.
pub fn euclidean_distance(img1: &Image, img2: &Image) -> (r: u32)
    requires
        img1@.len() == img2@.len(),
        squared_error(img1@, img2@) <= u32::MAX,
    ensures
        r == squared_error(img1@, img2@),
{
    let n = img1.pixel_count();
    let mut sum: u32 = 0;
    let mut i: usize = 0;
    while i < n
        invariant
            n == img1@.len(),
            img1@.len() == img2@.len(),
            squared_error(img1@, img2@) <= u32::MAX,
            i <= n,
            sum == squared_error(img1@.subrange(0, i as int), img2@.subrange(0, i as int)),
        decreases n - i,
    {
        let a = img1.pixel(i);
        let b = img2.pixel(i);
        proof {
            assert(img1@.subrange(0, i + 1) =~= img1@.subrange(0, i as int).push(a));
            assert(img2@.subrange(0, i + 1) =~= img2@.subrange(0, i as int).push(b));
            lemma_squared_error_push(img1@.subrange(0, i as int), img2@.subrange(0, i as int), a, b);
            lemma_squared_error_prefix(img1@, img2@, i + 1);
        }
        let d: i32 = a as i32 - b as i32;
        assert(0 <= d * d <= 65025) by (nonlinear_arith)
            requires
                -255 <= d <= 255,
        ;
        assert(d * d == (a - b) * (a - b));
        sum = sum + (d * d) as u32;
        i = i + 1;
    }
    proof {
        assert(img1@.subrange(0, n as int) =~= img1@);
        assert(img2@.subrange(0, n as int) =~= img2@);
    }
    sum
}

/// A prefix never has a larger squared error than the whole.
pub proof fn lemma_squared_error_prefix(a: Seq<u8>, b: Seq<u8>, i: int)
    requires
        a.len() == b.len(),
        0 <= i <= a.len(),
    ensures
        squared_error(a.subrange(0, i), b.subrange(0, i)) <= squared_error(a, b),
    decreases a.len() - i,
{
    if i < a.len() {
        lemma_squared_error_prefix(a, b, i + 1);
        assert(a.subrange(0, i + 1) =~= a.subrange(0, i).push(a[i]));
        assert(b.subrange(0, i + 1) =~= b.subrange(0, i).push(b[i]));
        lemma_squared_error_push(a.subrange(0, i), b.subrange(0, i), a[i], b[i]);
    } else {
        assert(a.subrange(0, i) =~= a);
        assert(b.subrange(0, i) =~= b);
    }
}

} // verus!
