use distance_kernels::convolutional::{
    add_kernels_from_to, apply_kernel_to, kernel_candidates, kernelize_all, kernelized_distance,
    pixelize, project_all_through, project_image_through,
};
use distance_kernels::euclidean_distance::euclidean_distance;
use distance_kernels::grid::Grid;
use distance_kernels::image::Image;
use distance_kernels::pyramid::{
    add_pyramid_level, classify_pixel, hamming_distance, index_mean, indexed_kernel_candidates,
    indexed_kernel_image, kernel_stack_all, KernelPyramidDistance, KernelPyramidImage,
    PatchDistance,
};
use std::cmp::Ordering;

fn img(v: &[u8]) -> Image {
    Image::from_vec(&v.to_vec())
}

#[test]
fn euclidean_distance_test_values() {
    let img1 = Image::from_vec(&vec![1, 2, 3, 4, 5, 6, 7, 8, 9]);
    let img2 = Image::from_vec(&vec![9, 8, 7, 6, 5, 4, 3, 2, 1]);
    assert_eq!(2 * (64 + 36 + 16 + 4), euclidean_distance(&img1, &img2));
}

#[test]
fn candidate_windows_of_small_image() {
    let image = Image::from_vec(&(1..10).collect());
    let candidates = kernel_candidates(&vec![image.clone()], 2);
    assert_eq!(9, candidates.len());
    for c in candidates.iter() {
        assert_eq!(2, c.side());
        assert_eq!(4, c.pixel_count());
    }
    assert_eq!(img(&[0, 0, 0, 1]), candidates[0]);
    assert_eq!(img(&[1, 2, 4, 5]), candidates[4]);
    let mut appended = vec![img(&[7])];
    add_kernels_from_to(&image, &mut appended, 3);
    assert_eq!(10, appended.len());
    assert_eq!(img(&[7]), appended[0]);
    assert_eq!(image, appended[5]);
}

#[test]
fn kernel_response_pixels() {
    let image = Image::from_vec(&vec![9; 9]);
    let zero = Image::from_vec(&vec![0; 9]);
    let same = Image::from_vec(&vec![9, 9, 9, 9, 9, 9, 9, 9, 9]);
    let response = apply_kernel_to(&image, &zero);
    assert_eq!(2, response.side());
    // Every window holds four pixels of the image and five of padding.
    assert_eq!(6, pixelize(4 * 81));
    assert_eq!(img(&[6, 6, 6, 6]), response);
    let centre = apply_kernel_to(&image, &same);
    assert_eq!(7, pixelize(5 * 81));
    assert_eq!(img(&[7, 7, 7, 7]), centre);
    let all = project_image_through(&image, &vec![zero.clone(), same.clone()]);
    assert_eq!(vec![response.clone(), centre.clone()], all);
    let both = project_all_through(&vec![image.clone(), zero.clone()], &vec![zero.clone(), same.clone()]);
    assert_eq!(4, both.len());
    assert_eq!(response, both[0]);
    assert_eq!(img(&[0, 0, 0, 0]), both[2]);
}

#[test]
fn kernelizing_levels() {
    let image = Image::from_vec(&(0..25).collect());
    let kernels = vec![Image::from_vec(&vec![0; 9]), Image::from_vec(&vec![20; 9])];
    let done = kernelize_all(&vec![(4, image.clone())], &kernels, 2);
    assert_eq!(1, done.len());
    assert_eq!(4, done[0].0);
    assert_eq!(4, done[0].1.len());
    let once = project_all_through(&vec![image.clone()], &kernels);
    let twice = project_all_through(&once, &kernels);
    assert_eq!(twice, done[0].1);
    assert_eq!(0, kernelized_distance(&once, &once));
    for level in done[0].1.iter() {
        assert_eq!(2, level.side());
    }
    let zero = kernelize_all(&vec![(1, image.clone())], &kernels, 0);
    assert_eq!(vec![image.clone()], zero[0].1);
    let shifted = vec![img(&[1, 2, 3, 4]), img(&[5])];
    let other = vec![img(&[2, 2, 3, 1]), img(&[8])];
    assert_eq!(1 + 9 + 9, kernelized_distance(&shifted, &other));
}

#[test]
fn classification_prefers_closest_then_lowest_index() {
    let image = Image::from_vec(&vec![10; 9]);
    let kernels = vec![
        Image::from_vec(&vec![0; 9]),
        Image::from_vec(&vec![10, 10, 10, 10, 10, 10, 10, 10, 10]),
        Image::from_vec(&vec![10; 9]),
    ];
    // The window at the centre holds no padding, so kernel 1 matches it exactly.
    assert_eq!(1, classify_pixel(&image, 1, 1, &kernels, PatchDistance::Euclidean));
    assert_eq!(1, classify_pixel(&image, 1, 1, &kernels, PatchDistance::Mismatch));
    // A corner window holds five padding zeros: the zero kernel is closer by mismatches.
    assert_eq!(0, classify_pixel(&image, 0, 0, &kernels, PatchDistance::Mismatch));
    let indexed = indexed_kernel_image(&image, &kernels, PatchDistance::Euclidean);
    assert_eq!(2, indexed.side());
    assert_eq!(img(&[0, 0, 0, 0]), indexed);
}

#[test]
fn pyramid_distance_of_a_pyramid_to_itself() {
    let original = img(&[1, 2, 3, 4, 5, 6, 7, 8, 9]);
    let p = KernelPyramidImage::from_levels(original.clone(), vec![img(&[1, 0, 1, 0]), img(&[2])]);
    let q = KernelPyramidImage::from_levels(original.clone(), vec![img(&[1, 0, 1, 0]), img(&[2])]);
    assert_eq!(2, p.num_levels());
    assert_eq!(&img(&[2]), p.top());
    assert_eq!(&img(&[1, 0, 1, 0]), p.nth(1));
    assert_eq!(&original, p.original());
    let d = KernelPyramidImage::distance(&p, &q);
    assert_eq!(KernelPyramidDistance { num_levels_identical: 2, distance_level_n: 0 }, d);
}

#[test]
fn pyramid_distance_stops_at_coarsest_difference() {
    let original = img(&[1, 2, 3, 4, 5, 6, 7, 8, 9]);
    let p = KernelPyramidImage::from_levels(original.clone(), vec![img(&[1, 0, 1, 0]), img(&[2, 3, 4, 5])]);
    let q = KernelPyramidImage::from_levels(original.clone(), vec![img(&[1, 0, 1, 0]), img(&[2, 0, 4, 0])]);
    let d = KernelPyramidImage::distance(&p, &q);
    assert_eq!(0, d.num_levels_identical);
    assert_eq!(2, d.distance_level_n);
}

#[test]
fn pyramid_distance_residuals() {
    let p = KernelPyramidImage::from_levels(img(&[1, 2, 3, 4]), vec![img(&[1, 1, 0, 0]), img(&[2])]);
    let q = KernelPyramidImage::from_levels(img(&[1, 2, 3, 6]), vec![img(&[1, 0, 0, 0]), img(&[2])]);
    let r = KernelPyramidImage::from_levels(img(&[1, 2, 3, 6]), vec![img(&[1, 1, 0, 0]), img(&[2])]);
    assert_eq!(
        KernelPyramidDistance { num_levels_identical: 1, distance_level_n: 1 },
        KernelPyramidImage::distance(&p, &q)
    );
    assert_eq!(
        KernelPyramidDistance { num_levels_identical: 2, distance_level_n: 4 },
        KernelPyramidImage::distance(&p, &r)
    );
    assert_eq!(3, hamming_distance(&img(&[1, 2, 3, 4]), &img(&[1, 5, 6, 7])));
}

#[test]
fn pyramid_distances_order_as_distances() {
    let near = KernelPyramidDistance { num_levels_identical: 3, distance_level_n: 50 };
    let nearer = KernelPyramidDistance { num_levels_identical: 3, distance_level_n: 10 };
    let far = KernelPyramidDistance { num_levels_identical: 1, distance_level_n: 0 };
    assert_eq!(Some(Ordering::Less), nearer.partial_cmp(&near));
    assert_eq!(Some(Ordering::Less), near.partial_cmp(&far));
    assert_eq!(Some(Ordering::Greater), far.partial_cmp(&nearer));
    assert_eq!(Some(Ordering::Equal), near.partial_cmp(&near));
    assert!(nearer < near);
}

#[test]
fn pyramid_construction() {
    let a = Image::from_vec(&(0..16).map(|v| v * 10).collect());
    let b = Image::from_vec(&vec![0; 16]);
    let kernels = vec![Image::from_vec(&vec![0; 9]), Image::from_vec(&vec![100; 9])];
    let mut pyramids = kernel_stack_all(&vec![(3, a.clone()), (5, b.clone())], &kernels);
    assert_eq!(2, pyramids.len());
    assert_eq!(3, pyramids[0].0);
    assert_eq!(1, pyramids[0].1.num_levels());
    let first = indexed_kernel_image(&a, &kernels, PatchDistance::Euclidean);
    assert_eq!(&first, pyramids[0].1.top());
    assert_eq!(&img(&[0, 0, 0, 0]), pyramids[1].1.top());
    let candidates = indexed_kernel_candidates(&pyramids);
    assert_eq!(8, candidates.len());
    let index_kernels = vec![Image::from_vec(&vec![0; 9]), Image::from_vec(&vec![1; 9])];
    add_pyramid_level(&mut pyramids, &index_kernels);
    assert_eq!(2, pyramids[0].1.num_levels());
    assert_eq!(1, pyramids[0].1.top().side());
    let second = indexed_kernel_image(&first, &index_kernels, PatchDistance::Mismatch);
    assert_eq!(&second, pyramids[0].1.top());
    assert_eq!(5, pyramids[1].0);
}

#[test]
fn index_mean_takes_most_common_value() {
    let a = img(&[1, 2, 3, 4]);
    let b = img(&[1, 5, 3, 4]);
    let c = img(&[2, 5, 3, 0]);
    let mean = index_mean(&vec![&a, &b, &c]);
    assert_eq!(img(&[1, 5, 3, 4]), mean);
}
