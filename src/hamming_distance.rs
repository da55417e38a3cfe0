//! Hamming distance between bit images.
use vstd::prelude::*;
use crate::bits::{BitArray, count_differences, distance};

verus! {

/// The number of positions at which two bit images of equal length differ.
pub fn hamming_distance(img1: &BitArray, img2: &BitArray) -> (r: u32)
    requires
        img1.wf(),
        img2.wf(),
        img1@.len() == img2@.len(),
        img1@.len() <= u32::MAX,
    ensures
        r == count_differences(img1@, img2@),
{
    distance(img1, img2)
}

} // verus!
