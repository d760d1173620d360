use texswizzle::swizzle::ps::{Ps3, Ps4};
use texswizzle::swizzle::{Deswizzler, FormatInfo, Swizzler};

fn pseudo_random_bytes(len: usize, seed: u64) -> Vec<u8> {
    let mut state: u64 = seed | 1;
    let mut out: Vec<u8> = Vec::with_capacity(len);
    for _ in 0..len {
        state = state.wrapping_mul(6364136223846793005).wrapping_add(1442695040888963407);
        out.push((state >> 33) as u8);
    }
    out
}

fn rgba8() -> FormatInfo {
    FormatInfo {
        bits_per_pixel: 32,
        bytes_per_block: 4,
        block_edge: 1,
        compressed: false,
        swapped: false,
    }
}

fn bc_16byte() -> FormatInfo {
    FormatInfo {
        bits_per_pixel: 8,
        bytes_per_block: 16,
        block_edge: 4,
        compressed: true,
        swapped: false,
    }
}

#[test]
fn ps3_deswizzle_small_grid_exact() {
    // 4 x 4 grid of 1-byte blocks: untiling sends tiled block t to linear
    // cell morton(t, 4, 4), which for this grid is its own inverse.
    let fmt = FormatInfo {
        bits_per_pixel: 8,
        bytes_per_block: 1,
        block_edge: 1,
        compressed: false,
        swapped: false,
    };
    let src: Vec<u8> = (0..16).collect();
    let mut dest: Vec<u8> = vec![0; 16];
    let r = <Ps3 as Deswizzler>::deswizzle(&src, &mut dest, (4, 4, 1), fmt, false);
    assert!(r.is_ok());
    let expected: Vec<u8> = vec![0, 1, 4, 5, 2, 3, 6, 7, 8, 9, 12, 13, 10, 11, 14, 15];
    assert_eq!(dest, expected);
}

#[test]
fn ps3_round_trip_64x64_rgba8() {
    let fmt = rgba8();
    let x = pseudo_random_bytes(64 * 64 * 4, 11);
    let mut tiled: Vec<u8> = vec![0; x.len()];
    assert!(<Ps3 as Swizzler>::swizzle(&x, &mut tiled, (64, 64, 1), fmt, true).is_ok());
    let mut back: Vec<u8> = vec![0; x.len()];
    assert!(<Ps3 as Deswizzler>::deswizzle(&tiled, &mut back, (64, 64, 1), fmt, true).is_ok());
    assert_eq!(back, x);
}

#[test]
fn ps3_round_trip_128x128_bc3() {
    let fmt = bc_16byte();
    let blocks = (128 / 4) * (128 / 4);
    let x = pseudo_random_bytes(blocks * 16, 12);
    let mut tiled: Vec<u8> = vec![0; x.len()];
    assert!(<Ps3 as Swizzler>::swizzle(&x, &mut tiled, (128, 128, 1), fmt, true).is_ok());
    let mut back: Vec<u8> = vec![0; x.len()];
    assert!(<Ps3 as Deswizzler>::deswizzle(&tiled, &mut back, (128, 128, 1), fmt, true).is_ok());
    assert_eq!(back, x);
}

#[test]
fn ps4_round_trip_900x1080_bc7() {
    // 900 x 1080 with 4-texel, 16-byte blocks: a 225 x 270 block grid over a
    // padded 29 x 34 tile grid.  The tiled buffer must hold the whole padded
    // tile space.
    let fmt = bc_16byte();
    let blocks = (900 / 4) * (1080 / 4);
    let tiles_x = (225 + 7) / 8;
    let tiles_y = (270 + 7) / 8;
    let x = pseudo_random_bytes(blocks * 16, 13);
    let mut tiled: Vec<u8> = vec![0; tiles_x * tiles_y * 64 * 16];
    assert!(<Ps4 as Swizzler>::swizzle(&x, &mut tiled, (900, 1080, 1), fmt, false).is_ok());
    let mut back: Vec<u8> = vec![0; x.len()];
    assert!(<Ps4 as Deswizzler>::deswizzle(&tiled, &mut back, (900, 1080, 1), fmt, false).is_ok());
    assert_eq!(back, x);
}

#[test]
fn ps4_round_trip_171x171_rgba8() {
    let fmt = rgba8();
    let x = pseudo_random_bytes(171 * 171 * 4, 14);
    let tiles = (171 + 7) / 8;
    let mut tiled: Vec<u8> = vec![0; tiles * tiles * 64 * 4];
    assert!(<Ps4 as Swizzler>::swizzle(&x, &mut tiled, (171, 171, 1), fmt, true).is_ok());
    let mut back: Vec<u8> = vec![0; x.len()];
    assert!(<Ps4 as Deswizzler>::deswizzle(&tiled, &mut back, (171, 171, 1), fmt, true).is_ok());
    assert_eq!(back, x);
}

#[test]
fn ps4_round_trip_512x512_bc5() {
    let fmt = bc_16byte();
    let blocks = (512 / 4) * (512 / 4);
    let x = pseudo_random_bytes(blocks * 16, 15);
    let mut tiled: Vec<u8> = vec![0; x.len()];
    assert!(<Ps4 as Swizzler>::swizzle(&x, &mut tiled, (512, 512, 1), fmt, false).is_ok());
    let mut back: Vec<u8> = vec![0; x.len()];
    assert!(<Ps4 as Deswizzler>::deswizzle(&tiled, &mut back, (512, 512, 1), fmt, false).is_ok());
    assert_eq!(back, x);
}

#[test]
fn ps3_round_trip_three_slices() {
    // Depth slices are tiled independently: the address pair is the same in
    // both directions, so a three-slice volume round-trips.
    let fmt = rgba8();
    let x = pseudo_random_bytes(16 * 16 * 3 * 4, 17);
    let mut tiled: Vec<u8> = vec![0; x.len()];
    assert!(<Ps3 as Swizzler>::swizzle(&x, &mut tiled, (16, 16, 3), fmt, false).is_ok());
    let mut back: Vec<u8> = vec![0; x.len()];
    assert!(<Ps3 as Deswizzler>::deswizzle(&tiled, &mut back, (16, 16, 3), fmt, false).is_ok());
    assert_eq!(back, x);
}

#[test]
fn ps3_tiles_second_slice_from_its_own_data() {
    // The tiling direction must read slice 1 from slice 1's linear data and
    // write it right after slice 0 in the tiled stream.
    let fmt = FormatInfo {
        bits_per_pixel: 8,
        bytes_per_block: 1,
        block_edge: 1,
        compressed: false,
        swapped: false,
    };
    let src: Vec<u8> = vec![10, 20];
    let mut tiled: Vec<u8> = vec![0; 2];
    assert!(<Ps3 as Swizzler>::swizzle(&src, &mut tiled, (1, 1, 2), fmt, false).is_ok());
    assert_eq!(tiled, vec![10, 20]);
}

#[test]
fn ps4_round_trip_two_slices() {
    let fmt = bc_16byte();
    let x = pseudo_random_bytes(32 * 32 * 2, 18);
    let mut tiled: Vec<u8> = vec![0; x.len()];
    assert!(<Ps4 as Swizzler>::swizzle(&x, &mut tiled, (32, 32, 2), fmt, false).is_ok());
    let mut back: Vec<u8> = vec![0; x.len()];
    assert!(<Ps4 as Deswizzler>::deswizzle(&tiled, &mut back, (32, 32, 2), fmt, false).is_ok());
    assert_eq!(back, x);
}

#[test]
fn ps3_skips_out_of_range_blocks() {
    // An undersized destination loses the blocks that fall past its end but
    // the call still succeeds and the destination keeps its length.
    let fmt = rgba8();
    let x = pseudo_random_bytes(16 * 16 * 4, 16);
    let mut small: Vec<u8> = vec![0xAB; 100];
    assert!(<Ps3 as Swizzler>::swizzle(&x, &mut small, (16, 16, 1), fmt, false).is_ok());
    assert_eq!(small.len(), 100);
}
