use distance_kernels::bits::BitArray;
use distance_kernels::dataset::bitarray_max;
use distance_kernels::grid::{Grid, ImageIterator};
use distance_kernels::image::Image;

fn build_binimage(image: &Vec<bool>) -> BitArray {
    let mut b1 = BitArray::new();
    for i in 0..image.len() {
        b1.add(image[i]);
    }
    b1
}

#[test]
fn test_img() {
    let mut img = Image::new();
    assert_eq!(0, img.side());
    img.add(10);
    assert_eq!(1, img.side());
    assert_eq!(10, img.get(0, 0));
    img.add(20);
    assert_eq!(2, img.side());
    assert_eq!(20, img.get(1, 0));
    img.add(30);
    assert_eq!(2, img.side());
    assert_eq!(30, img.get(0, 1));
    img.add(40);
    assert_eq!(2, img.side());
    assert_eq!(40, img.get(1, 1));
    img.add(50);
    assert_eq!(3, img.side());
    assert_eq!(30, img.get(2, 0));
    assert_eq!(40, img.get(0, 1));
    assert_eq!(50, img.get(1, 1));
}

#[test]
fn test_x_y_iterator_1() {
    let iterated: Vec<(isize, isize)> = ImageIterator::new(0, 0, 2, 3, 1).to_vec();
    let reference: Vec<(isize, isize)> = vec![(0, 0), (1, 0), (0, 1), (1, 1), (0, 2), (1, 2)];
    assert_eq!(iterated.len(), reference.len());
    for i in 0..reference.len() {
        assert_eq!(reference[i], iterated[i]);
    }
}

#[test]
fn test_x_y_iterator_2() {
    let iterated: Vec<(isize, isize)> = ImageIterator::new(-1, -1, 2, 2, 1).to_vec();
    let reference: Vec<(isize, isize)> = vec![(-1, -1), (0, -1), (-1, 0), (0, 0)];
    assert_eq!(iterated.len(), reference.len());
    for i in 0..reference.len() {
        assert_eq!(reference[i], iterated[i]);
    }
}

#[test]
fn test_subimage() {
    let img = Image::from_vec(&(1..16).collect());
    let sub = img.subimage(1, 1, 3);
    let ref_sub = Image::from_vec(&vec![1, 2, 3, 5, 6, 7, 9, 10, 11]);
    assert_eq!(ref_sub, sub);
}

#[test]
fn test_image_mean_bitarray() {
    let b1 = build_binimage(&vec![true, false, true, false]);
    let b2 = build_binimage(&vec![true, false, true, false]);
    let b3 = build_binimage(&vec![true, false, false, false]);
    let b4 = build_binimage(&vec![false, true, false, false]);
    let bins = vec![b1.clone(), b2.clone(), b3.clone(), b4.clone()];
    let means = bitarray_max(&bins);
    let result = build_binimage(&vec![true, false, true, false]);
    assert_eq!(result, means);
}

#[test]
fn iterator_steps_and_centres() {
    let strided = ImageIterator::new(0, 0, 5, 5, 2).to_vec();
    assert_eq!(
        vec![(0, 0), (2, 0), (4, 0), (0, 2), (2, 2), (4, 2), (0, 4), (2, 4), (4, 4)],
        strided
    );
    let centred = ImageIterator::centered(0, 0, 3, 3, 1).to_vec();
    assert_eq!(9, centred.len());
    assert_eq!((-1, -1), centred[0]);
    assert_eq!((1, 1), centred[8]);
    let even = ImageIterator::centered(5, 5, 2, 2, 1).to_vec();
    assert_eq!(vec![(4, 4), (5, 4), (4, 5), (5, 5)], even);
    assert_eq!(Vec::<(isize, isize)>::new(), ImageIterator::new(0, 0, 3, -2, 1).to_vec());
    assert_eq!(vec![(0, 0), (0, 1)], ImageIterator::new(0, 0, -1, 2, 1).to_vec());
    let mut it = ImageIterator::new(0, 0, 1, 1, 1);
    assert_eq!(Some((0, 0)), it.next());
    assert_eq!(None, it.next());
    assert_eq!(None, it.next());
}

#[test]
fn subimage_centre_matches_source() {
    let img = Image::from_vec(&(0..25).map(|v| v as u8 * 3).collect());
    for y in 0..5 {
        for x in 0..5 {
            let sub = img.subimage(x, y, 3);
            assert_eq!(img.get(x, y), sub.get(1, 1));
            let wide = img.subimage(x, y, 5);
            assert_eq!(img.get(x, y), wide.get(2, 2));
        }
    }
}

#[test]
fn subimage_is_padded_at_edges() {
    let img = Image::from_vec(&(1..10).collect());
    let corner = img.subimage(0, 0, 3);
    assert_eq!(3, corner.side());
    assert_eq!(9, corner.len());
    assert_eq!(Image::from_vec(&vec![0, 0, 0, 0, 1, 2, 0, 4, 5]), corner);
    let far = img.subimage(2, 2, 5);
    assert_eq!(5, far.side());
    assert_eq!(25, far.len());
    assert_eq!(1, far.get(0, 0));
    assert_eq!(0, far.get(4, 4));
    let even = img.subimage(1, 1, 2);
    assert_eq!(Image::from_vec(&vec![1, 2, 4, 5]), even);
}

#[test]
fn bit_grid_windows_and_pixels() {
    let bits = build_binimage(&vec![true, false, true, false, true, false, true, false, true]);
    assert_eq!(3, Grid::side(&bits));
    assert_eq!(9, Grid::len(&bits));
    assert!(bits.get(1, 1));
    assert!(!bits.get(1, 0));
    let sub = Grid::subimage(&bits, 0, 0, 3);
    assert_eq!(9, Grid::len(&sub));
    assert!(!sub.get(0, 0));
    assert!(sub.get(1, 1));
    assert!(bits.pixelize(6, 3));
    assert!(!bits.pixelize(5, 3));
    assert_eq!(None, bits.option_get(-1, 0));
    assert_eq!(Some(true), bits.option_get(2, 2));
}

#[test]
fn pixel_scaling() {
    let img = Image::new();
    assert_eq!(0, img.pixelize(0, 3));
    assert_eq!(1, img.pixelize(9, 3));
    assert_eq!(255, img.pixelize(585225, 3));
    assert_eq!(3, img.pixelize(81, 3));
    assert_eq!(0, img.pixelize(0, 0));
    assert_eq!(255, img.pixelize(1, 0));
}

#[test]
fn permuted_shrunken_and_means() {
    let img = Image::from_vec(&vec![1, 2, 3, 4]);
    let p = img.permuted(&[3, 2, 1, 0]);
    assert_eq!(Image::from_vec(&vec![4, 3, 2, 1]), p);
    let big = Image::from_vec(&(0..16).collect());
    let small = big.shrunken(2);
    assert_eq!(2, small.side());
    assert_eq!(Image::from_vec(&vec![2, 3, 6, 7]), small);
    assert_eq!(7, big.pixel_mean());
}
