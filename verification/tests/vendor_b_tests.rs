use texswizzle::swizzle::x360::{xg_address_2d_tiled_x, xg_address_2d_tiled_y};
use texswizzle::swizzle::xbox::{rotate_groups_x360, swap_byte_order_x360, Xbox360};
use texswizzle::swizzle::{Deswizzler, FormatInfo, Swizzler};

fn pseudo_random_bytes(len: usize, seed: u64) -> Vec<u8> {
    let mut state: u64 = seed | 1;
    let mut out: Vec<u8> = Vec::with_capacity(len);
    for _ in 0..len {
        state = state.wrapping_mul(6364136223846793005).wrapping_add(1442695040888963407);
        out.push((state >> 33) as u8);
    }
    out
}

#[test]
fn xg_address_x_reference() {
    let cases: [(usize, usize, usize, usize); 9] = [
        (0, 64, 4, 0),
        (1, 64, 4, 1),
        (2, 64, 4, 2),
        (63, 64, 4, 31),
        (64, 64, 4, 0),
        (100, 64, 4, 16),
        (1000, 64, 4, 4),
        (5, 32, 16, 8),
        (500, 32, 16, 14),
    ];
    for (bo, wib, p, want) in cases {
        assert_eq!(xg_address_2d_tiled_x(bo, wib, p), want, "x({bo}, {wib}, {p})");
    }
    assert_eq!(xg_address_2d_tiled_x(7, 128, 2), 7);
    assert_eq!(xg_address_2d_tiled_x(129, 128, 2), 1);
}

#[test]
fn xg_address_y_reference() {
    let cases: [(usize, usize, usize, usize); 9] = [
        (0, 64, 4, 0),
        (1, 64, 4, 0),
        (63, 64, 4, 1),
        (64, 64, 4, 2),
        (100, 64, 4, 3),
        (1000, 64, 4, 30),
        (5, 32, 16, 1),
        (31, 32, 16, 1),
        (500, 32, 16, 22),
    ];
    for (bo, wib, p, want) in cases {
        assert_eq!(xg_address_2d_tiled_y(bo, wib, p), want, "y({bo}, {wib}, {p})");
    }
    assert_eq!(xg_address_2d_tiled_y(129, 128, 2), 4);
}

#[test]
fn xg_address_pure_repeatable() {
    for bo in [0usize, 17, 255, 4095] {
        assert_eq!(
            xg_address_2d_tiled_x(bo, 40, 8),
            xg_address_2d_tiled_x(bo, 40, 8)
        );
        assert_eq!(
            xg_address_2d_tiled_y(bo, 40, 8),
            xg_address_2d_tiled_y(bo, 40, 8)
        );
    }
    assert_eq!(xg_address_2d_tiled_x(3, 40, 8), 1);
    assert_eq!(xg_address_2d_tiled_y(3, 40, 8), 1);
    assert_eq!(xg_address_2d_tiled_x(77, 40, 8), 11);
    assert_eq!(xg_address_2d_tiled_y(77, 40, 8), 2);
}

#[test]
fn swap_byte_order_pairs() {
    let mut data: Vec<u8> = vec![1, 2, 3, 4, 5];
    swap_byte_order_x360(&mut data);
    assert_eq!(data, vec![2, 1, 4, 3, 5]);
}

#[test]
fn swap_byte_order_twice_is_identity() {
    let original = pseudo_random_bytes(1026, 21);
    let mut data = original.clone();
    swap_byte_order_x360(&mut data);
    swap_byte_order_x360(&mut data);
    assert_eq!(data, original);
}

#[test]
fn rotate_groups_reference() {
    let mut data: Vec<u8> = vec![1, 2, 3, 4, 5, 6, 7, 8, 9];
    rotate_groups_x360(&mut data);
    assert_eq!(data, vec![2, 3, 4, 1, 6, 7, 8, 5, 9]);
}

#[test]
fn byte_order_transform_round_trip_ragged_tail() {
    // The transform pair also restores a buffer whose length is not a
    // multiple of four: the rotation skips the tail and the pair swap there
    // cancels with itself.
    for len in [1usize, 2, 3, 5, 6, 7, 10, 1023] {
        let original = pseudo_random_bytes(len, 26);
        let mut data = original.clone();
        swap_byte_order_x360(&mut data);
        rotate_groups_x360(&mut data);
        swap_byte_order_x360(&mut data);
        rotate_groups_x360(&mut data);
        assert_eq!(data, original, "length {len}");
    }
}

#[test]
fn byte_order_transform_round_trip() {
    // The encode pass applies pair-swap then rotation; the decode pass
    // applies the same pair and restores the data.
    let original = pseudo_random_bytes(4096, 22);
    let mut data = original.clone();
    swap_byte_order_x360(&mut data);
    rotate_groups_x360(&mut data);
    swap_byte_order_x360(&mut data);
    rotate_groups_x360(&mut data);
    assert_eq!(data, original);
}

#[test]
fn x360_round_trip_64x64_rgba8() {
    let fmt = FormatInfo {
        bits_per_pixel: 32,
        bytes_per_block: 4,
        block_edge: 1,
        compressed: false,
        swapped: false,
    };
    let x = pseudo_random_bytes(64 * 64 * 4, 23);
    let mut tiled: Vec<u8> = vec![0; x.len()];
    assert!(<Xbox360 as Swizzler>::swizzle(&x, &mut tiled, (64, 64, 1), fmt, false).is_ok());
    let mut back: Vec<u8> = vec![0; x.len()];
    assert!(<Xbox360 as Deswizzler>::deswizzle(&tiled, &mut back, (64, 64, 1), fmt, false).is_ok());
    assert_eq!(back, x);
}

#[test]
fn x360_round_trip_128x128_bc_swapped() {
    // Block-compressed data with the byte-order transform on: the 4-byte
    // rotation must be correctly inverted by the decode pass.
    let fmt = FormatInfo {
        bits_per_pixel: 8,
        bytes_per_block: 16,
        block_edge: 4,
        compressed: true,
        swapped: true,
    };
    let blocks = (128 / 4) * (128 / 4);
    let x = pseudo_random_bytes(blocks * 16, 24);
    let mut tiled: Vec<u8> = vec![0; x.len()];
    assert!(<Xbox360 as Swizzler>::swizzle(&x, &mut tiled, (128, 128, 1), fmt, false).is_ok());
    let mut back: Vec<u8> = vec![0; x.len()];
    assert!(
        <Xbox360 as Deswizzler>::deswizzle(&tiled, &mut back, (128, 128, 1), fmt, false).is_ok()
    );
    assert_eq!(back, x);
}

#[test]
fn x360_round_trip_two_slices() {
    // Depth slices are translated independently on both sides, so a
    // two-slice volume round-trips.
    let fmt = FormatInfo {
        bits_per_pixel: 8,
        bytes_per_block: 16,
        block_edge: 4,
        compressed: true,
        swapped: false,
    };
    let x = pseudo_random_bytes(2 * 32 * 32 * 16, 27);
    let mut tiled: Vec<u8> = vec![0; x.len()];
    assert!(<Xbox360 as Swizzler>::swizzle(&x, &mut tiled, (128, 128, 2), fmt, false).is_ok());
    let mut back: Vec<u8> = vec![0; x.len()];
    assert!(
        <Xbox360 as Deswizzler>::deswizzle(&tiled, &mut back, (128, 128, 2), fmt, false).is_ok()
    );
    assert_eq!(back, x);
}

#[test]
fn x360_tiling_changes_layout() {
    // The address translation must actually move blocks: tiled output
    // differs from the input for a grid larger than one micro-tile.
    let fmt = FormatInfo {
        bits_per_pixel: 32,
        bytes_per_block: 4,
        block_edge: 1,
        compressed: false,
        swapped: false,
    };
    let x = pseudo_random_bytes(64 * 64 * 4, 25);
    let mut tiled: Vec<u8> = vec![0; x.len()];
    assert!(<Xbox360 as Swizzler>::swizzle(&x, &mut tiled, (64, 64, 1), fmt, false).is_ok());
    assert_ne!(tiled, x);
}
