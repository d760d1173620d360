use texswizzle::swizzle::{Format, FormatInfo, SwizzleError, TextureSlice};

#[test]
fn format_info_reports_its_fields() {
    let fmt = FormatInfo {
        bits_per_pixel: 8,
        bytes_per_block: 16,
        block_edge: 4,
        compressed: true,
        swapped: true,
    };
    assert_eq!(fmt.bpp(), 8);
    assert_eq!(fmt.block_size(), 16);
    assert_eq!(fmt.pixel_block_size(), 4);
    assert!(fmt.is_compressed());
    assert!(fmt.x360_swap());
}

#[test]
fn swizzle_error_carries_its_code() {
    let err = SwizzleError::FormatOutOfRange(42);
    match err {
        SwizzleError::FormatOutOfRange(code) => assert_eq!(code, 42),
        SwizzleError::OutOfBounds(_) => panic!("wrong variant"),
    }
    let text = format!("{err:?}");
    assert!(text.contains("42"));
}

#[test]
fn out_of_bounds_names_a_slice() {
    let err = SwizzleError::OutOfBounds(TextureSlice::Dest);
    let text = format!("{err:?}");
    assert!(text.contains("Dest"));
    let err2 = SwizzleError::OutOfBounds(TextureSlice::Source);
    let text2 = format!("{err2:?}");
    assert!(text2.contains("Source"));
}
