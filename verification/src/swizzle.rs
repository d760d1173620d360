//! Shared surface of the tiling engines: the format capability descriptor,
//! the error type, the directional traits, and the Z-order index mapper that
//! the vendor-A engines are built on.

pub mod blocks;
pub mod ps;
pub mod ps3;
pub mod ps4;
pub mod x360;
pub mod xbox;
pub mod zorder;

use vstd::prelude::*;
use vstd::arithmetic::div_mod::*;
use vstd::arithmetic::mul::*;
use crate::swizzle::zorder::{
    is_pow2, lemma_morton_loop_step, lemma_next_pow2_minimal, lemma_next_pow2_props,
    lemma_pow2_double, lemma_zorder_bounds, morton_spec, next_pow2_spec, zorder,
};

verus! {

/// Names the buffer a bounds violation would concern.
#[derive(Debug, Clone, Copy)]
pub enum TextureSlice {
    Source,
    Dest,
}

/// The errors the driver layer can report.  `FormatOutOfRange` carries the
/// numeric format code an external catalog failed to map; `OutOfBounds` is
/// declared for strict-mode callers but the engines skip out-of-range block
/// copies silently instead of raising it.
#[derive(Debug, Clone, Copy)]
pub enum SwizzleError {
    FormatOutOfRange(u32),
    OutOfBounds(TextureSlice),
}

/// The capability descriptor of a pixel format: the five values the engines
/// consume.  Catalogs that map console-specific format codes to descriptors
/// live outside this crate.
pub trait Format {
    /// Bits per pixel.
    spec fn spec_bpp(&self) -> usize;

    /// Bytes in one texel block.
    spec fn spec_block_size(&self) -> usize;

    /// Edge length of a texel block, in pixels (1 for uncompressed formats).
    spec fn spec_pixel_block_size(&self) -> usize;

    /// Whether the format is block-compressed.
    spec fn spec_is_compressed(&self) -> bool;

    /// Whether the 16-bit byte-order transform applies (vendor-B only).
    spec fn spec_x360_swap(&self) -> bool;

    fn bpp(&self) -> (r: usize)
        ensures
            r == self.spec_bpp(),
    ;

    fn block_size(&self) -> (r: usize)
        ensures
            r == self.spec_block_size(),
    ;

    fn pixel_block_size(&self) -> (r: usize)
        ensures
            r == self.spec_pixel_block_size(),
    ;

    fn is_compressed(&self) -> (r: bool)
        ensures
            r == self.spec_is_compressed(),
    ;

    fn x360_swap(&self) -> (r: bool)
        ensures
            r == self.spec_x360_swap(),
    ;
}

/// A plain value implementing `Format`: the five capability fields spelled
/// out.  External catalogs produce these; tests build them directly.
#[derive(Debug, Clone, Copy)]
pub struct FormatInfo {
    pub bits_per_pixel: usize,
    pub bytes_per_block: usize,
    pub block_edge: usize,
    pub compressed: bool,
    pub swapped: bool,
}

impl Format for FormatInfo {
    open spec fn spec_bpp(&self) -> usize {
        self.bits_per_pixel
    }

    open spec fn spec_block_size(&self) -> usize {
        self.bytes_per_block
    }

    open spec fn spec_pixel_block_size(&self) -> usize {
        self.block_edge
    }

    open spec fn spec_is_compressed(&self) -> bool {
        self.compressed
    }

    open spec fn spec_x360_swap(&self) -> bool {
        self.swapped
    }

    fn bpp(&self) -> (r: usize) {
        self.bits_per_pixel
    }

    fn block_size(&self) -> (r: usize) {
        self.bytes_per_block
    }

    fn pixel_block_size(&self) -> (r: usize) {
        self.block_edge
    }

    fn is_compressed(&self) -> (r: bool) {
        self.compressed
    }

    fn x360_swap(&self) -> (r: bool) {
        self.swapped
    }
}

/// The width or height the tiled side of an engine works with: rounded up to
/// the next power of two when resolution alignment applies to the format.
pub open spec fn eff_dim(v: int, align: bool, compressed: bool) -> int {
    if align && compressed {
        next_pow2_spec(v)
    } else {
        v
    }
}

/// Byte offset of depth slice `z` in the linear layout.
pub open spec fn slice_base(z: int, w: int, h: int, bpp: int) -> int {
    (z * w * h * bpp) / 8
}

/// An upper bound on the block count along one axis that any engine's
/// traversal can reach: the power-of-two-rounded extent in blocks, plus the
/// eight-wide macro-tile padding.
pub open spec fn grid_bound(v: int, pbs: int) -> int {
    next_pow2_spec(v) / pbs + 8
}

/// The machine limits an engine call must respect so that no offset
/// arithmetic overflows `usize`, together with the block alignment of the
/// dimensions that the format descriptors imply.
pub open spec fn swizzle_fits(w: int, h: int, d: int, bpp: int, bs: int, pbs: int) -> bool {
    &&& pbs >= 1
    &&& bs >= 1
    &&& w % pbs == 0
    &&& h % pbs == 0
    &&& next_pow2_spec(w) <= usize::MAX as int
    &&& next_pow2_spec(h) <= usize::MAX as int
    &&& d * w <= usize::MAX as int
    &&& d * w * h <= usize::MAX as int
    &&& d * w * h * bpp <= usize::MAX as int
    &&& grid_bound(w, pbs) * grid_bound(h, pbs) * bs <= usize::MAX as int
    &&& grid_bound(w, pbs) * grid_bound(h, pbs) * 1048576 <= usize::MAX as int
    &&& d * (grid_bound(w, pbs) * grid_bound(h, pbs) * bs) <= usize::MAX as int
    &&& d * w * h * bpp / 8 + d * (grid_bound(w, pbs) * grid_bound(h, pbs) * bs)
        <= usize::MAX as int
}

/// The machine limits the directional driver operations require: those of
/// the engines, together with the block sizes the vendor-B address formulas
/// are defined for — power-of-two blocks of at most 16 bytes, the largest
/// texel block any supported format uses.
pub open spec fn driver_fits(w: int, h: int, d: int, bpp: int, bs: int, pbs: int) -> bool {
    &&& swizzle_fits(w, h, d, bpp, bs, pbs)
    &&& is_pow2(bs)
    &&& bs <= 16
}

/// The tiling side of an engine: copies `source` into `dest` so that `dest`
/// holds the engine's tiled layout.  `dest` keeps its length; blocks whose
/// computed offsets do not fit a buffer are skipped silently, so a caller
/// tiling an image whose dimensions are not powers of two should over-size
/// `dest` or accept truncation.
pub trait Swizzler {
    fn swizzle<T: Format>(
        source: &Vec<u8>,
        dest: &mut Vec<u8>,
        dimensions: (usize, usize, usize),
        format: T,
        align_resolution: bool,
    ) -> (r: Result<(), SwizzleError>)
        requires
            driver_fits(
                dimensions.0 as int,
                dimensions.1 as int,
                dimensions.2 as int,
                format.spec_bpp() as int,
                format.spec_block_size() as int,
                format.spec_pixel_block_size() as int,
            ),
        ensures
            final(dest)@.len() == old(dest)@.len(),
            r == Ok::<(), SwizzleError>(()),
    ;
}

/// The untiling side of an engine: copies `source`, holding the engine's
/// tiled layout, into `dest` in linear row-major order.  `dest` is usually
/// sized `(width * height * depth * bpp) / 8`; it keeps its length.
pub trait Deswizzler {
    fn deswizzle<T: Format>(
        source: &Vec<u8>,
        dest: &mut Vec<u8>,
        dimensions: (usize, usize, usize),
        format: T,
        align_resolution: bool,
    ) -> (r: Result<(), SwizzleError>)
        requires
            driver_fits(
                dimensions.0 as int,
                dimensions.1 as int,
                dimensions.2 as int,
                format.spec_bpp() as int,
                format.spec_block_size() as int,
                format.spec_pixel_block_size() as int,
            ),
        ensures
            final(dest)@.len() == old(dest)@.len(),
            r == Ok::<(), SwizzleError>(()),
    ;
}

/// The smallest power of two at least `n`.
pub(crate) fn next_pow2(n: usize) -> (r: usize)
    requires
        next_pow2_spec(n as int) <= usize::MAX as int,
    ensures
        r as int == next_pow2_spec(n as int),
{
    proof {
        lemma_next_pow2_props(n as int);
    }
    let mut p: usize = 1;
    while p < n
        invariant
            1 <= p,
            is_pow2(p as int),
            p as int <= next_pow2_spec(n as int),
            next_pow2_spec(n as int) <= usize::MAX as int,
        decreases 2 * (n as int) - p as int,
    {
        proof {
            lemma_next_pow2_props(n as int);
            lemma_pow2_double(p as int, next_pow2_spec(n as int));
        }
        p = p * 2;
    }
    proof {
        lemma_next_pow2_minimal(n as int, p as int);
    }
    p
}

/// The Z-order index mapper: sends linear index `t` under bounds `(x, y)` to
/// the flat row-major cell index of its Z-curve coordinate.  An axis whose
/// bound is exhausted stops consuming bits, which keeps the mapper usable for
/// bounds that are not powers of two.
pub fn morton(t: usize, x: usize, y: usize) -> (r: usize)
    requires
        (x as int) * (y as int) <= usize::MAX as int,
    ensures
        r == morton_spec(t as nat, x as nat, y as nat),
{
    let mut bit_position_x: usize = 1;
    let mut bit_position_y: usize = 1;
    let mut morton_code: usize = t;
    let mut mask_x: usize = x;
    let mut mask_y: usize = y;
    let mut result_x: usize = 0;
    let mut result_y: usize = 0;

    while mask_x > 1 || mask_y > 1
        invariant
            (x as int) * (y as int) <= usize::MAX as int,
            1 <= bit_position_x,
            1 <= bit_position_y,
            result_x < bit_position_x,
            result_y < bit_position_y,
            (mask_x as int) * (bit_position_x as int) <= x as int,
            (mask_y as int) * (bit_position_y as int) <= y as int,
            zorder(t as nat, x as nat, y as nat).0 == result_x as nat + bit_position_x as nat
                * zorder(morton_code as nat, mask_x as nat, mask_y as nat).0,
            zorder(t as nat, x as nat, y as nat).1 == result_y as nat + bit_position_y as nat
                * zorder(morton_code as nat, mask_x as nat, mask_y as nat).1,
        decreases mask_x + mask_y,
    {
        let ghost code0: int = morton_code as int;
        let ghost mx0: int = mask_x as int;
        let ghost my0: int = mask_y as int;
        let ghost rx0: int = result_x as int;
        let ghost ry0: int = result_y as int;
        let ghost bx0: int = bit_position_x as int;
        let ghost by0: int = bit_position_y as int;
        if mask_x > 1 {
            proof {
                lemma_mul_inequality(2, mask_x as int, bit_position_x as int);
                lemma_mul_is_commutative(mask_x as int, bit_position_x as int);
                lemma_mul_inequality((morton_code % 2) as int, 1, bit_position_x as int);
                lemma_mul_is_commutative(bit_position_x as int, (morton_code % 2) as int);
            }
            result_x = result_x + bit_position_x * (morton_code % 2);
            morton_code = morton_code / 2;
            bit_position_x = bit_position_x * 2;
            mask_x = mask_x / 2;
        }
        if mask_y > 1 {
            proof {
                lemma_mul_inequality(2, mask_y as int, bit_position_y as int);
                lemma_mul_is_commutative(mask_y as int, bit_position_y as int);
                lemma_mul_inequality((morton_code % 2) as int, 1, bit_position_y as int);
                lemma_mul_is_commutative(bit_position_y as int, (morton_code % 2) as int);
            }
            result_y = result_y + bit_position_y * (morton_code % 2);
            morton_code = morton_code / 2;
            bit_position_y = bit_position_y * 2;
            mask_y = mask_y / 2;
        }
        proof {
            lemma_morton_loop_step(
                code0,
                mx0,
                my0,
                rx0,
                ry0,
                bx0,
                by0,
                x as int,
                y as int,
                morton_code as int,
                mask_x as int,
                mask_y as int,
                result_x as int,
                result_y as int,
                bit_position_x as int,
                bit_position_y as int,
                t as int,
            );
        }
    }
    proof {
        let zc = zorder(morton_code as nat, mask_x as nat, mask_y as nat);
        assert(zc.0 == 0 && zc.1 == 0);
        assert(result_x as nat + bit_position_x as nat * zc.0 == result_x as nat)
            by (nonlinear_arith)
            requires
                zc.0 == 0,
        ;
        assert(result_y as nat + bit_position_y as nat * zc.1 == result_y as nat)
            by (nonlinear_arith)
            requires
                zc.1 == 0,
        ;
        assert(zorder(t as nat, x as nat, y as nat).0 == result_x as nat);
        assert(zorder(t as nat, x as nat, y as nat).1 == result_y as nat);
        lemma_zorder_bounds(t as nat, x as nat, y as nat);
        if x == 0 {
            assert(result_y as int * x as int == 0) by (nonlinear_arith)
                requires
                    x as int == 0,
            ;
        } else if y == 0 {
            assert(result_y as int * x as int == 0) by (nonlinear_arith)
                requires
                    result_y as int == 0,
            ;
        } else {
            lemma_mul_inequality(result_y as int, y as int - 1, x as int);
            assert((y as int - 1) * (x as int) == (x as int) * (y as int) - (x as int))
                by (nonlinear_arith);
        }
    }
    result_y * x + result_x
}

} // verus!
