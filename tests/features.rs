use distance_kernels::brief::{bounded_normal_value, Descriptor};
use distance_kernels::dataset::{
    bits_to_num, discard, image_mean, image_mean_borrowed, parse_images, parse_labels,
    IMAGE_BYTES,
};
use distance_kernels::grid::Grid;
use distance_kernels::image::Image;
use distance_kernels::kernel_patch::best_match_distance;
use distance_kernels::kernel_points::{
    best_matching_distance, best_matching_kernel_distance, closest_for_all,
    closest_for_all_one_way, find_keypoints, squared_diff,
};
use distance_kernels::sobel::edge_image;

fn img(v: &[u8]) -> Image {
    Image::from_vec(&v.to_vec())
}

#[test]
fn sobel_edges() {
    let flat = img(&[50; 9]);
    let edges = edge_image(&flat);
    assert_eq!(3, edges.side());
    // Only the padding around the border makes edges in a flat image.
    assert_eq!(0, edges.get(1, 1));
    assert_eq!(200, edges.get(0, 1));
    let step = img(&[0, 0, 100, 0, 0, 100, 0, 0, 100]);
    let e = edge_image(&step);
    assert_eq!(255, e.get(1, 1));
    let small = img(&[0, 0, 10, 0, 0, 10, 0, 0, 10]);
    assert_eq!(40, edge_image(&small).get(1, 1));
}

#[test]
fn descriptor_bits() {
    let d = Descriptor::equidistant(2, 2, 1, 1);
    assert_eq!(2, d.width());
    assert_eq!(2, d.height());
    let image = img(&[1, 2, 3, 4]);
    let bits = d.apply_to(&image);
    assert_eq!(4, bits.len());
    // (0,0) against (1,1), (1,0) against (0,1), (0,1) against (1,0), (1,1) against (0,0)
    assert!(bits.is_set(0));
    assert!(bits.is_set(1));
    assert!(!bits.is_set(2));
    assert!(!bits.is_set(3));
    assert!(d.evaluate(&image, 0, 0, 1, 1));
    assert!(!d.evaluate(&image, 1, 1, 0, 0));
    let masked = d.apply_kernel(&image, 1);
    assert_eq!(bits, masked);
    assert!(!d.evaluate_mask(&image, 0, 0, 1, 1, 3));
    assert!(d.evaluate_mask(&image, 0, 0, 1, 1, 1));
    let majority = d.majority_image(&image);
    assert_eq!(4, majority.len());
    assert!(majority.is_set(0));
    assert!(!majority.is_set(3));
}

#[test]
fn random_descriptors_stay_inside() {
    let d = Descriptor::classic_uniform_brief(50, 5, 7);
    let image = Image::from_vec(&vec![3; 25]);
    let _ = d.width();
    let n = Descriptor::uniform_neighbor(2, 3, 3);
    let bits = n.apply_to(&Image::from_vec(&vec![1; 9]));
    assert_eq!(18, bits.len());
    assert_eq!(0, bits.count_bits_on());
    assert_eq!(5, image.side());
}

#[test]
fn bounded_normal_values() {
    assert_eq!(7, bounded_normal_value(2, 5, 0, 10, true));
    assert_eq!(3, bounded_normal_value(2, 5, 0, 10, false));
    assert_eq!(1, bounded_normal_value(4, 5, 0, 7, true));
    assert_eq!(8, bounded_normal_value(3, 5, 4, 10, false));
    assert_eq!(0, bounded_normal_value(20, 5, 0, 10, true));
    assert_eq!(9, bounded_normal_value(20, 5, 0, 10, false));
}

#[test]
fn mnist_layout() {
    let mut label_bytes = vec![0u8; 8];
    label_bytes.extend_from_slice(&[7, 2]);
    let labels = parse_labels(&label_bytes);
    assert_eq!(vec![7, 2], labels);
    assert_eq!(Vec::<u8>::new(), parse_labels(&[1, 2, 3]));
    let mut image_bytes = vec![0u8; 16];
    for i in 0..(2 * IMAGE_BYTES + 10) {
        image_bytes.push((i % 251) as u8);
    }
    let images = parse_images(&image_bytes, &labels);
    assert_eq!(2, images.len());
    assert_eq!(7, images[0].0);
    assert_eq!(2, images[1].0);
    assert_eq!(28, images[0].1.side());
    assert_eq!(0, images[0].1.get(0, 0));
    assert_eq!((IMAGE_BYTES % 251) as u8, images[1].1.get(0, 0));
}

#[test]
fn thinning_and_means() {
    let items: Vec<(u8, Image)> = (0..7).map(|i| (i as u8, img(&[i as u8]))).collect();
    let kept = discard(&items, 3);
    assert_eq!(vec![0, 3, 6], kept.iter().map(|(l, _)| *l).collect::<Vec<u8>>());
    assert_eq!(img(&[6]), kept[2].1);
    assert_eq!(7, discard(&items, 1).len());
    let a = img(&[0, 10, 255, 1]);
    let b = img(&[1, 20, 255, 2]);
    assert_eq!(img(&[0, 15, 255, 1]), image_mean(&vec![a.clone(), b.clone()]));
    assert_eq!(img(&[0, 15, 255, 1]), image_mean_borrowed(&vec![&a, &b]));
    assert_eq!(1, bits_to_num(true));
    assert_eq!(0, bits_to_num(false));
}

#[test]
fn point_set_distances() {
    assert_eq!(9, squared_diff(2, 5));
    assert_eq!(9, squared_diff(5, 2));
    let refs = vec![(0, 0), (3, 4), (10, 10)];
    assert_eq!(2, best_matching_distance((4, 5), &refs));
    let g1 = vec![(0, 0), (5, 5)];
    let g2 = vec![(1, 0)];
    assert_eq!(1 + 41, closest_for_all_one_way(&g1, &g2));
    assert_eq!(1, closest_for_all_one_way(&g2, &g1));
    assert_eq!(43, closest_for_all(&g1, &g2));
    assert_eq!(0, closest_for_all(&g1, &g1));
}

#[test]
fn kernel_matching() {
    let image = Image::from_vec(&(0..16).collect());
    let kernels = vec![Image::from_vec(&vec![0; 9]), Image::from_vec(&vec![5; 9])];
    let d = best_matching_kernel_distance(&kernels, &image, 1, 1);
    // the window around (1,1) is 0 1 2 / 4 5 6 / 8 9 10
    assert_eq!(102, d);
    let points = find_keypoints(&image, &kernels, 3);
    assert_eq!(3, points.len());
    assert_eq!((0, 0), points[0]);
    let single = vec![img(&[0])];
    let ordered = find_keypoints(&img(&[5, 3, 9, 0]), &single, 3);
    assert_eq!(vec![(1, 1), (1, 0), (0, 0)], ordered);
    let all = find_keypoints(&image, &kernels, 100);
    assert_eq!(16, all.len());
    let same = vec![img(&[1, 2, 3, 4]), img(&[5, 6, 7, 8])];
    assert_eq!(0, best_match_distance(&same, &same));
    let other = vec![img(&[1, 2, 3, 5]), img(&[9, 6, 7, 8])];
    assert_eq!(1 + 16 + 1 + 16, best_match_distance(&same, &other));
}
