//! The vendor-A driver types: the simple Morton engine and the 8x8
//! macro-tile engine behind the directional traits.

use vstd::prelude::*;
use crate::swizzle::{Deswizzler, Format, SwizzleError, Swizzler};

verus! {

/// The vendor-A simple (full-grid Morton) tiling engine's driver type.
pub struct Ps3;

impl Swizzler for Ps3 {
    fn swizzle<T: Format>(
        source: &Vec<u8>,
        dest: &mut Vec<u8>,
        dimensions: (usize, usize, usize),
        format: T,
        align_resolution: bool,
    ) -> (r: Result<(), SwizzleError>)
        ensures
            final(dest)@ == crate::swizzle::ps3::ps3_result(
                old(dest)@,
                source@,
                dimensions.0 as int,
                dimensions.1 as int,
                dimensions.2 as int,
                format.spec_bpp() as int,
                format.spec_block_size() as int,
                format.spec_pixel_block_size() as int,
                false,
                align_resolution,
                format.spec_is_compressed(),
            ),
    {
        crate::swizzle::ps3::do_swizzle(source, dest, dimensions, format, false, align_resolution);
        Ok(())
    }
}

impl Deswizzler for Ps3 {
    fn deswizzle<T: Format>(
        source: &Vec<u8>,
        dest: &mut Vec<u8>,
        dimensions: (usize, usize, usize),
        format: T,
        align_resolution: bool,
    ) -> (r: Result<(), SwizzleError>)
        ensures
            final(dest)@ == crate::swizzle::ps3::ps3_result(
                old(dest)@,
                source@,
                dimensions.0 as int,
                dimensions.1 as int,
                dimensions.2 as int,
                format.spec_bpp() as int,
                format.spec_block_size() as int,
                format.spec_pixel_block_size() as int,
                true,
                align_resolution,
                format.spec_is_compressed(),
            ),
    {
        crate::swizzle::ps3::do_swizzle(source, dest, dimensions, format, true, align_resolution);
        Ok(())
    }
}

/// The vendor-A tiled (8x8 macro-tile Morton) engine's driver type.
pub struct Ps4;

impl Swizzler for Ps4 {
    fn swizzle<T: Format>(
        source: &Vec<u8>,
        dest: &mut Vec<u8>,
        dimensions: (usize, usize, usize),
        format: T,
        align_resolution: bool,
    ) -> (r: Result<(), SwizzleError>)
        ensures
            final(dest)@ == crate::swizzle::ps4::ps4_result(
                old(dest)@,
                source@,
                dimensions.0 as int,
                dimensions.1 as int,
                dimensions.2 as int,
                format.spec_bpp() as int,
                format.spec_block_size() as int,
                format.spec_pixel_block_size() as int,
                false,
                align_resolution,
                format.spec_is_compressed(),
            ),
    {
        crate::swizzle::ps4::do_swizzle(source, dest, dimensions, format, false, align_resolution);
        Ok(())
    }
}

impl Deswizzler for Ps4 {
    fn deswizzle<T: Format>(
        source: &Vec<u8>,
        dest: &mut Vec<u8>,
        dimensions: (usize, usize, usize),
        format: T,
        align_resolution: bool,
    ) -> (r: Result<(), SwizzleError>)
        ensures
            final(dest)@ == crate::swizzle::ps4::ps4_result(
                old(dest)@,
                source@,
                dimensions.0 as int,
                dimensions.1 as int,
                dimensions.2 as int,
                format.spec_bpp() as int,
                format.spec_block_size() as int,
                format.spec_pixel_block_size() as int,
                true,
                align_resolution,
                format.spec_is_compressed(),
            ),
    {
        crate::swizzle::ps4::do_swizzle(source, dest, dimensions, format, true, align_resolution);
        Ok(())
    }
}

} // verus!
