use texswizzle::swizzle::morton;

#[test]
fn morton_reference_values_8x8() {
    let expected: [usize; 12] = [0, 1, 8, 9, 2, 3, 10, 11, 16, 17, 24, 25];
    for (t, want) in expected.iter().enumerate() {
        assert_eq!(morton(t, 8, 8), *want, "morton({t}, 8, 8)");
    }
    assert_eq!(morton(63, 8, 8), 63);
}

#[test]
fn morton_reference_values_non_power_of_two() {
    // With bounds (5, 3) the mapper consumes two x bits and one y bit, so it
    // walks the 4 x 2 sub-grid and repeats after eight steps.
    let expected: [usize; 15] = [0, 1, 5, 6, 2, 3, 7, 8, 0, 1, 5, 6, 2, 3, 7];
    for (t, want) in expected.iter().enumerate() {
        assert_eq!(morton(t, 5, 3), *want, "morton({t}, 5, 3)");
    }
}

#[test]
fn morton_bijective_8x8() {
    let mut seen = [false; 64];
    for t in 0..64 {
        let idx = morton(t, 8, 8);
        assert!(idx < 64);
        assert!(!seen[idx], "cell {idx} hit twice");
        seen[idx] = true;
    }
    assert!(seen.iter().all(|s| *s));
}

#[test]
fn morton_bijective_16x16() {
    let mut seen = vec![false; 256];
    for t in 0..256 {
        let idx = morton(t, 16, 16);
        assert!(idx < 256);
        assert!(!seen[idx], "cell {idx} hit twice");
        seen[idx] = true;
    }
    assert!(seen.iter().all(|s| *s));
}

#[test]
fn morton_bijective_rectangular_pow2() {
    let mut seen = vec![false; 32 * 8];
    for t in 0..32 * 8 {
        let idx = morton(t, 32, 8);
        assert!(idx < 32 * 8);
        assert!(!seen[idx]);
        seen[idx] = true;
    }
    assert!(seen.iter().all(|s| *s));
}
