use lz4_kit::simd::{count_same_bytes_scalar, count_same_bytes_simd};

#[test]
fn test_count_same_bytes_scalar() {
    let a = [1, 2, 3, 4, 5, 6, 7, 8, 9, 10];
    let b = [1, 2, 3, 4, 5, 0, 7, 8, 9, 10];
    assert_eq!(count_same_bytes_scalar(&a, &b), 5);

    let a = [1, 2, 3, 4, 5, 6, 7, 8];
    let b = [1, 2, 3, 4, 5, 6, 7, 8];
    assert_eq!(count_same_bytes_scalar(&a, &b), 8);

    let a = [0; 32];
    let b = [0; 32];
    assert_eq!(count_same_bytes_scalar(&a, &b), 32);

    let a = [1, 2, 3];
    let b = [9, 2, 3];
    assert_eq!(count_same_bytes_scalar(&a, &b), 0);
}

#[test]
fn test_count_same_bytes_simd() {
    // 32 matching bytes
    let mut a = [1u8; 32];
    let mut b = [1u8; 32];
    assert_eq!(count_same_bytes_simd(&a, &b), 32);

    // Mismatch at position 20
    b[20] = 0;
    assert_eq!(count_same_bytes_simd(&a, &b), 20);

    // Mismatch at position 0
    a[0] = 0;
    b[0] = 1;
    assert_eq!(count_same_bytes_simd(&a, &b), 0);
}

#[test]
fn lane_and_scalar_agree() {
    // Lengths below, at and above the vector width, mismatches at the
    // first and last byte, and unequal lengths.
    let cases: Vec<(Vec<u8>, Vec<u8>)> = vec![
        (vec![], vec![]),
        (vec![1], vec![2]),
        (vec![7; 15], vec![7; 15]),
        (vec![7; 16], vec![7; 16]),
        (vec![7; 17], vec![7; 17]),
        ((0..64).collect(), (0..64).collect()),
        (vec![5; 40], vec![5; 23]),
    ];
    for (a, b) in &cases {
        assert_eq!(count_same_bytes_simd(a, b), count_same_bytes_scalar(a, b));
    }

    let mut a = vec![9u8; 33];
    let b = vec![9u8; 33];
    for i in 0..33 {
        let keep = a[i];
        a[i] = 0;
        assert_eq!(
            count_same_bytes_simd(&a, &b),
            count_same_bytes_scalar(&a, &b)
        );
        assert_eq!(count_same_bytes_scalar(&a, &b), i);
        a[i] = keep;
    }
}
