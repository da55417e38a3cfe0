use distance_kernels::bits::{distance, BitArray, NUM_BITS};
use distance_kernels::hamming_distance::hamming_distance;

fn bits_of(values: &[bool]) -> BitArray {
    let mut b = BitArray::new();
    for v in values {
        b.add(*v);
    }
    b
}

#[test]
fn test_bits() {
    let mut b = BitArray::new();
    assert_eq!(0, b.len());
    b.add(false);
    assert_eq!(1, b.len());
    assert!(!b.is_set(0));
    assert_eq!(0, b.count_bits_on());

    b.add(true);
    assert_eq!(2, b.len());
    assert!(b.is_set(1));
    assert_eq!(1, b.count_bits_on());

    for _ in 0..NUM_BITS {
        b.add(true);
    }
    assert_eq!(NUM_BITS + 2, b.len());
    for i in 1..b.len() {
        assert!(b.is_set(i));
    }
    assert_eq!(b.len() as u32 - 1, b.count_bits_on());

    let mut b2 = BitArray::new();
    for i in 0..b.len() {
        b2.add(i % 2 == 0);
    }

    let b3 = b.xor(&b2);
    assert_eq!((b.len() as u32 / 2) + 1, b3.count_bits_on());
    assert_eq!(b3.count_bits_on(), distance(&b, &b2));

    assert_ne!(b, b2);
    assert_ne!(b2, b3);
    assert_ne!(b, b3);

    assert_eq!(b, b.clone());
    assert_eq!(b2, b2.clone());
    assert_eq!(b3, b3.clone());
}

#[test]
fn hamming_distance_test_values() {
    let mut b1 = BitArray::new();
    let mut b2 = BitArray::new();
    b1.add(true);
    b2.add(false);
    b1.add(true);
    b2.add(false);
    let diff: u32 = 2;
    for _ in 0..(BitArray::word_size() - 1) {
        b1.add(false);
        b2.add(false);
    }
    assert_eq!(diff, hamming_distance(&b1, &b2))
}

#[test]
fn distance_to_self_is_zero() {
    let b = bits_of(&[true, false, true, true, false, false, true]);
    assert_eq!(0, distance(&b, &b));
    let mut long = BitArray::new();
    for i in 0..200u64 {
        long.add(i % 3 == 0);
    }
    assert_eq!(0, hamming_distance(&long, &long));
}

#[test]
fn distance_is_symmetric_and_counts_differences() {
    let a_values: Vec<bool> = (0..130).map(|i| i % 5 == 0 || i % 7 == 0).collect();
    let b_values: Vec<bool> = (0..130).map(|i| i % 3 == 0).collect();
    let a = bits_of(&a_values);
    let b = bits_of(&b_values);
    let naive = (0..130).filter(|i| a_values[*i] != b_values[*i]).count() as u32;
    assert_eq!(naive, distance(&a, &b));
    assert_eq!(distance(&a, &b), distance(&b, &a));
    for i in 0..130u64 {
        assert_eq!(a_values[i as usize], a.is_set(i));
    }
}

#[test]
fn set_changes_one_bit_across_words() {
    let mut b = bits_of(&[false; 70]);
    b.set(65, true);
    b.set(3, true);
    assert_eq!(2, b.count_bits_on());
    assert!(b.is_set(65));
    b.set(65, false);
    assert!(!b.is_set(65));
    assert_eq!(1, b.count_bits_on());
}

#[test]
fn equal_bits_compare_equal() {
    let a = bits_of(&[true, false, true]);
    let b = bits_of(&[true, false, true]);
    let c = bits_of(&[true, false, true, false]);
    assert_eq!(a, b);
    assert_ne!(a, c);
}
