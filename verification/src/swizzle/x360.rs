//! The vendor-B tiling engine: closed-form bit-arithmetic address functions
//! implementing the hardware's 32-byte-macro-tile / 4-byte-micro-tile
//! layout, and the per-slice traversal that copies blocks by those
//! addresses.  The address formulas are exact, order-sensitive arithmetic
//! and are kept literally as the hardware definition gives them.

use vstd::prelude::*;
use vstd::arithmetic::div_mod::{
    lemma_div_is_ordered, lemma_div_nonincreasing, lemma_div_pos_is_pos,
    lemma_fundamental_div_mod, lemma_fundamental_div_mod_converse, lemma_mod_bound,
    lemma_small_mod,
};
use vstd::arithmetic::mul::{lemma_mul_inequality, lemma_mul_is_commutative};
use crate::swizzle::blocks::{copy_block, covers, lemma_scatter_hit, scatter, write_block};
use crate::swizzle::xbox::{
    lemma_byte_order_round_trip, lemma_rot4_scatter, lemma_swap2_scatter, rot4_spec,
    rotate_groups_x360, swap2_spec, swap_byte_order_x360,
};
use crate::swizzle::{driver_fits, grid_bound, next_pow2_spec, Format};

verus! {

/// Two to the power `k` (and 1 for negative `k`).
pub open spec fn pow2i(k: int) -> int
    decreases k,
{
    if k <= 0 {
        1
    } else {
        2 * pow2i(k - 1)
    }
}

proof fn lemma_pow2i_pos(k: int)
    ensures
        pow2i(k) >= 1,
    decreases (if k <= 0 { 0int } else { k }),
{
    if k > 0 {
        lemma_pow2i_pos(k - 1);
    }
}

proof fn lemma_pow2i_mono(a: int, b: int)
    requires
        a <= b,
    ensures
        pow2i(a) <= pow2i(b),
    decreases (if b <= 0 { 0int } else { b }),
{
    if a < b && b > 0 {
        lemma_pow2i_mono(a, b - 1);
        lemma_pow2i_pos(b - 1);
    }
}

proof fn lemma_pow2i_values()
    ensures
        pow2i(0) == 1,
        pow2i(4) == 16,
        pow2i(12) == 4096,
{
    assert(pow2i(0) == 1);
    assert(pow2i(1) == 2);
    assert(pow2i(2) == 4);
    assert(pow2i(3) == 8);
    assert(pow2i(4) == 16);
    assert(pow2i(5) == 32);
    assert(pow2i(6) == 64);
    assert(pow2i(7) == 128);
    assert(pow2i(8) == 256);
    assert(pow2i(9) == 512);
    assert(pow2i(10) == 1024);
    assert(pow2i(11) == 2048);
    assert(pow2i(12) == 4096);
}

/// The remainder never exceeds a non-negative dividend.
proof fn lemma_mod_le(a: int, m: int)
    requires
        a >= 0,
        m >= 1,
    ensures
        0 <= a % m <= a,
{
    lemma_mod_bound(a, m);
    if a < m {
        lemma_small_mod(a as nat, m as nat);
    }
}

/// The log2 of the texel byte pitch, by the hardware's bit trick (exact for
/// power-of-two pitches up to 16).
pub open spec fn xg_log_bpp(p: int) -> int {
    p / 4 + (p / 2) / pow2i(p / 4)
}

/// The tiled-layout x coordinate of a block, from its row-major offset, the
/// slice width in blocks and the texel byte pitch.
#[verifier::opaque]
pub open spec fn xg_x_spec(block_offset: int, width_in_blocks: int, p: int) -> int {
    let aligned_width: int = ((width_in_blocks + 31) / 32) * 32;
    let log_bpp: int = xg_log_bpp(p);
    let offset_byte: int = block_offset * pow2i(log_bpp);
    let offset_tile: int = (offset_byte / 4096) * 512 + ((offset_byte / 256) % 8) * 64
        + offset_byte % 64;
    let offset_macro: int = offset_tile / (128 * pow2i(log_bpp));
    let macro_x: int = (offset_macro % (aligned_width / 32)) * 4;
    let tile: int = ((((offset_tile / (32 * pow2i(log_bpp))) / 2) % 2) * 2 + offset_byte / 64)
        % 4;
    let macro_full: int = (macro_x + tile) * 8;
    let micro: int = ((((offset_tile / 2) - ((offset_tile / 2) % 16)) + offset_tile % 16) % (p
        * 8)) / pow2i(log_bpp);
    macro_full + micro
}

/// The tiled-layout y coordinate of a block, from its row-major offset, the
/// slice width in blocks and the texel byte pitch.
#[verifier::opaque]
pub open spec fn xg_y_spec(block_offset: int, width_in_blocks: int, p: int) -> int {
    let aligned_width: int = ((width_in_blocks + 31) / 32) * 32;
    let log_bpp: int = xg_log_bpp(p);
    let offset_byte: int = block_offset * pow2i(log_bpp);
    let offset_tile: int = (offset_byte / 4096) * 512 + ((offset_byte / 256) % 8) * 64
        + offset_byte % 64;
    let offset_macro: int = offset_tile / (128 * pow2i(log_bpp));
    let macro_y: int = (offset_macro / (aligned_width / 32)) * 4;
    let tile: int = (offset_tile / (64 * pow2i(log_bpp))) % 2 + ((offset_byte / 2048) % 2) * 2;
    let macro_full: int = (macro_y + tile) * 8;
    let masked: int = offset_tile % (p * 64);
    let shifted: int = ((masked - masked % 32) + (offset_tile % 16) * 2) / (8 * pow2i(log_bpp));
    let micro: int = shifted - shifted % 2;
    macro_full + micro + (offset_tile / 16) % 2
}

/// Two to the power `k`, for the small exponents the address math uses.
fn pow2_small(k: usize) -> (r: usize)
    requires
        k <= 12,
    ensures
        r as int == pow2i(k as int),
        1 <= r <= 4096,
{
    proof {
        lemma_pow2i_values();
    }
    let mut r: usize = 1;
    let mut j: usize = 0;
    while j < k
        invariant
            j <= k,
            k <= 12,
            r as int == pow2i(j as int),
            1 <= r,
            r as int <= 4096,
        decreases k - j,
    {
        proof {
            lemma_pow2i_values();
            lemma_pow2i_mono(j as int + 1, 12);
            assert(pow2i(j as int + 1) == 2 * pow2i(j as int));
        }
        r = r * 2;
        j = j + 1;
    }
    r
}

/// The tiled x coordinate of the block at `block_offset`.  Pure arithmetic:
/// the result depends on the three arguments alone.
pub fn xg_address_2d_tiled_x(
    block_offset: usize,
    width_in_blocks: usize,
    texel_byte_pitch: usize,
) -> (r: usize)
    requires
        1 <= width_in_blocks,
        (width_in_blocks as int + 31) * 32 <= usize::MAX as int,
        1 <= texel_byte_pitch <= 16,
        block_offset as int * 1048576 <= usize::MAX as int,
    ensures
        r as int == xg_x_spec(block_offset as int, width_in_blocks as int, texel_byte_pitch as int),
{
    proof {
        reveal(xg_x_spec);
        lemma_pow2i_values();
        lemma_xg_prelude(block_offset as int, width_in_blocks as int, texel_byte_pitch as int);
    }
    let aligned_width: usize = ((width_in_blocks + 31) / 32) * 32;
    let lb4: usize = texel_byte_pitch / 4;
    let p2a: usize = pow2_small(lb4);
    let log_bpp: usize = lb4 + (texel_byte_pitch / 2) / p2a;
    let p2l: usize = pow2_small(log_bpp);
    let offset_byte: usize = block_offset * p2l;
    let offset_tile: usize = (offset_byte / 4096) * 512 + ((offset_byte / 256) % 8) * 64
        + offset_byte % 64;
    proof {
        lemma_xg_tile_bound(offset_byte as int);
    }
    let offset_macro: usize = offset_tile / (128 * p2l);
    let macro_x: usize = (offset_macro % (aligned_width / 32)) * 4;
    proof {
        lemma_mod_bound(offset_macro as int, aligned_width as int / 32);
        assert(aligned_width as int == (aligned_width as int / 32) * 32) by {
            lemma_fundamental_div_mod_converse(
                aligned_width as int,
                32,
                (width_in_blocks as int + 31) / 32,
                0,
            );
        }
    }
    let tile: usize = ((((offset_tile / (32 * p2l)) / 2) % 2) * 2 + offset_byte / 64) % 4;
    let macro_full: usize = (macro_x + tile) * 8;
    proof {
        lemma_mod_le(offset_tile as int / 2, 16);
        lemma_mod_bound(
            ((offset_tile as int / 2) - ((offset_tile as int / 2) % 16)) + offset_tile as int
                % 16,
            texel_byte_pitch as int * 8,
        );
        lemma_mod_le(offset_tile as int, 16);
        lemma_div_nonincreasing(offset_tile as int / 2, 16);
    }
    let micro: usize = ((((offset_tile / 2) - ((offset_tile / 2) % 16)) + offset_tile % 16) % (
    texel_byte_pitch * 8)) / p2l;
    macro_full + micro
}

/// The tiled y coordinate of the block at `block_offset`.  Pure arithmetic:
/// the result depends on the three arguments alone.
pub fn xg_address_2d_tiled_y(
    block_offset: usize,
    width_in_blocks: usize,
    texel_byte_pitch: usize,
) -> (r: usize)
    requires
        1 <= width_in_blocks,
        (width_in_blocks as int + 31) * 32 <= usize::MAX as int,
        1 <= texel_byte_pitch <= 16,
        block_offset as int * 1048576 <= usize::MAX as int,
    ensures
        r as int == xg_y_spec(block_offset as int, width_in_blocks as int, texel_byte_pitch as int),
{
    proof {
        reveal(xg_y_spec);
        lemma_pow2i_values();
        lemma_xg_prelude(block_offset as int, width_in_blocks as int, texel_byte_pitch as int);
    }
    let aligned_width: usize = ((width_in_blocks + 31) / 32) * 32;
    let lb4: usize = texel_byte_pitch / 4;
    let p2a: usize = pow2_small(lb4);
    let log_bpp: usize = lb4 + (texel_byte_pitch / 2) / p2a;
    let p2l: usize = pow2_small(log_bpp);
    let offset_byte: usize = block_offset * p2l;
    let offset_tile: usize = (offset_byte / 4096) * 512 + ((offset_byte / 256) % 8) * 64
        + offset_byte % 64;
    proof {
        lemma_xg_tile_bound(offset_byte as int);
    }
    let offset_macro: usize = offset_tile / (128 * p2l);
    proof {
        lemma_div_pos_is_pos(width_in_blocks as int + 31, 32);
        lemma_div_nonincreasing(offset_macro as int, aligned_width as int / 32);
    }
    let macro_y: usize = (offset_macro / (aligned_width / 32)) * 4;
    let tile: usize = (offset_tile / (64 * p2l)) % 2 + ((offset_byte / 2048) % 2) * 2;
    let macro_full: usize = (macro_y + tile) * 8;
    proof {
        lemma_mod_bound(offset_tile as int, texel_byte_pitch as int * 64);
        lemma_mod_le(offset_tile as int % (texel_byte_pitch as int * 64), 32);
        lemma_mod_le(offset_tile as int, 16);
    }
    let masked: usize = offset_tile % (texel_byte_pitch * 64);
    let shifted: usize = ((masked - masked % 32) + (offset_tile % 16) * 2) / (8 * p2l);
    proof {
        lemma_mod_le(shifted as int, 2);
    }
    let micro: usize = shifted - shifted % 2;
    macro_full + micro + (offset_tile / 16) % 2
}

/// Shared arithmetic bounds of the two address functions.
proof fn lemma_xg_prelude(bo: int, wib: int, p: int)
    requires
        bo >= 0,
        1 <= wib,
        (wib + 31) * 32 <= usize::MAX as int,
        1 <= p <= 16,
        bo * 1048576 <= usize::MAX as int,
    ensures
        0 <= p / 4 <= 4,
        0 <= xg_log_bpp(p) <= 12,
        ((wib + 31) / 32) * 32 <= wib + 31,
        1 <= (wib + 31) / 32,
        bo * pow2i(xg_log_bpp(p)) <= bo * 4096,
        bo * 4096 + 4096 <= usize::MAX as int,
        bo * pow2i(xg_log_bpp(p)) >= 0,
{
    lemma_pow2i_values();
    lemma_pow2i_pos(p / 4);
    lemma_div_pos_is_pos(p, 4);
    lemma_div_pos_is_pos(p / 2, pow2i(p / 4));
    lemma_div_nonincreasing(p / 2, pow2i(p / 4));
    lemma_fundamental_div_mod(wib + 31, 32);
    lemma_mod_bound(wib + 31, 32);
    lemma_div_pos_is_pos(wib + 31, 32);
    lemma_fundamental_div_mod_converse((wib + 31) / 32 * 32, 32, (wib + 31) / 32, 0);
    lemma_pow2i_mono(xg_log_bpp(p), 12);
    lemma_pow2i_pos(xg_log_bpp(p));
    lemma_mul_inequality(pow2i(xg_log_bpp(p)), 4096, bo);
    lemma_mul_is_commutative(pow2i(xg_log_bpp(p)), bo);
    lemma_mul_is_commutative(4096, bo);
    assert(bo * 4096 + 4096 <= bo * 1048576 || (bo == 0 && bo * 4096 == 0))
        by (nonlinear_arith)
        requires
            bo >= 0,
    ;
    assert(bo * pow2i(xg_log_bpp(p)) >= 0) by (nonlinear_arith)
        requires
            bo >= 0,
            pow2i(xg_log_bpp(p)) >= 1,
    ;
}

/// The tile-offset remap keeps within an additive margin of the byte
/// offset.
proof fn lemma_xg_tile_bound(ob: int)
    requires
        ob >= 0,
    ensures
        0 <= (ob / 4096) * 512 <= ob,
        0 <= (ob / 256) % 8 < 8,
        0 <= ob % 64 < 64,
        (ob / 4096) * 512 + ((ob / 256) % 8) * 64 + ob % 64 <= ob + 511,
{
    lemma_div_pos_is_pos(ob, 4096);
    lemma_fundamental_div_mod(ob, 4096);
    lemma_mod_bound(ob, 4096);
    lemma_mod_bound(ob / 256, 8);
    lemma_div_pos_is_pos(ob / 256, 8);
    lemma_div_pos_is_pos(ob, 256);
    lemma_mod_bound(ob, 64);
    assert((ob / 4096) * 512 * 8 == (ob / 4096) * 4096) by (nonlinear_arith);
    assert((ob / 4096) * 512 >= 0 && (ob / 4096) * 512 <= (ob / 4096) * 4096)
        by (nonlinear_arith)
        requires
            ob / 4096 >= 0,
    ;
}

/// The flat tiled-grid cell index the address functions assign to the block
/// at row-major offset `r`.
pub open spec fn x360_addr(r: int, wib: int, p: int) -> int {
    xg_y_spec(r, wib, p) * wib + xg_x_spec(r, wib, p)
}

/// The machine limits of the vendor-B traversal, over the block grid.
pub open spec fn x360_fits(wib: int, hib: int, d: int, p: int) -> bool {
    &&& 1 <= p <= 16
    &&& wib >= 0
    &&& hib >= 0
    &&& d >= 0
    &&& d * (hib * wib * p) <= usize::MAX as int
    &&& (wib + 31) * 32 <= usize::MAX as int
    &&& hib * wib * 1048576 <= usize::MAX as int
}

/// Where traversal step `k` reads: row-major when untiling, the address
/// functions' cell when tiling, each inside the step's slice.
pub open spec fn x360_soff(wib: int, hib: int, p: int, deswizzle: bool) -> spec_fn(int) -> int {
    if deswizzle {
        |k: int| (k / (hib * wib)) * (hib * wib * p) + (k % (hib * wib)) * p
    } else {
        |k: int| (k / (hib * wib)) * (hib * wib * p) + x360_addr(k % (hib * wib), wib, p) * p
    }
}

/// Where traversal step `k` writes: the address functions' cell when
/// untiling, row-major when tiling, each inside the step's slice.
pub open spec fn x360_doff(wib: int, hib: int, p: int, deswizzle: bool) -> spec_fn(int) -> int {
    if deswizzle {
        |k: int| (k / (hib * wib)) * (hib * wib * p) + x360_addr(k % (hib * wib), wib, p) * p
    } else {
        |k: int| (k / (hib * wib)) * (hib * wib * p) + (k % (hib * wib)) * p
    }
}

/// Every step of the traversal attempts its copy.
pub open spec fn x360_act() -> spec_fn(int) -> bool {
    |k: int| true
}

/// The destination contents after the address-translation pass alone.
pub open spec fn untile_spec(
    dest0: Seq<u8>,
    src: Seq<u8>,
    wib: int,
    hib: int,
    d: int,
    p: int,
    deswizzle: bool,
) -> Seq<u8> {
    scatter(
        dest0,
        src,
        x360_soff(wib, hib, p, deswizzle),
        x360_doff(wib, hib, p, deswizzle),
        x360_act(),
        p,
        d * (hib * wib),
    )
}

/// The destination contents after one run of the vendor-B engine: the pair
/// swap before the address translation and the 4-byte rotation after it
/// when the format asks for the byte-order transform.
pub open spec fn x360_result(
    dest0: Seq<u8>,
    src: Seq<u8>,
    wib: int,
    hib: int,
    d: int,
    p: int,
    swap: bool,
    deswizzle: bool,
) -> Seq<u8> {
    let s1 = if swap {
        swap2_spec(src)
    } else {
        src
    };
    let tiled = untile_spec(dest0, s1, wib, hib, d, p, deswizzle);
    if swap {
        rot4_spec(tiled)
    } else {
        tiled
    }
}

/// A traversal step whose computed offset lies beyond both buffers leaves
/// the destination unchanged.
proof fn lemma_x360_skip(
    dest0: Seq<u8>,
    src: Seq<u8>,
    sof: spec_fn(int) -> int,
    dof: spec_fn(int) -> int,
    act: spec_fn(int) -> bool,
    p: int,
    k: int,
    off: int,
)
    requires
        act(k),
        k >= 0,
        sof(k) == off || dof(k) == off,
        off + p > dest0.len(),
        off + p > src.len(),
    ensures
        scatter(dest0, src, sof, dof, act, p, k + 1) == scatter(dest0, src, sof, dof, act, p, k),
{
    crate::swizzle::blocks::lemma_scatter_len(dest0, src, sof, dof, act, p, k);
}

/// Copies each block between its row-major cell and the cell the address
/// functions assign, one depth slice at a time.  A block whose computed
/// range does not fit its buffer is skipped; the destination is never
/// resized.
#[verifier::loop_isolation(false)]
#[verifier::rlimit(100)]
pub fn untile_x360_image_data(
    image_data: &Vec<u8>,
    dest: &mut Vec<u8>,
    image_width: usize,
    image_height: usize,
    image_depth: usize,
    block_pixel_size: usize,
    texel_byte_pitch: usize,
    deswizzle: bool,
)
    requires
        block_pixel_size >= 1,
        x360_fits(
            image_width as int / block_pixel_size as int,
            image_height as int / block_pixel_size as int,
            image_depth as int,
            texel_byte_pitch as int,
        ),
    ensures
        final(dest)@.len() == old(dest)@.len(),
        final(dest)@ == untile_spec(
            old(dest)@,
            image_data@,
            image_width as int / block_pixel_size as int,
            image_height as int / block_pixel_size as int,
            image_depth as int,
            texel_byte_pitch as int,
            deswizzle,
        ),
{
    let width_in_blocks: usize = image_width / block_pixel_size;
    let height_in_blocks: usize = image_height / block_pixel_size;
    let ghost wib: int = width_in_blocks as int;
    let ghost hib: int = height_in_blocks as int;
    let ghost di: int = image_depth as int;
    let ghost p: int = texel_byte_pitch as int;
    proof {
        assert(hib * wib <= hib * wib * 1048576 && hib * wib * p >= hib * wib && hib * wib * p
            <= hib * wib * 1048576 && hib * wib >= 0 && wib * p <= hib * wib * p || hib == 0)
            by (nonlinear_arith)
            requires
                wib >= 0,
                hib >= 0,
                1 <= p <= 1048576,
        ;
        if hib == 0 {
        }
    }
    let slice_size: usize = width_in_blocks * height_in_blocks * texel_byte_pitch;
    proof {
        assert(wib * hib * p == hib * wib * p && wib * hib == hib * wib) by (nonlinear_arith);
    }
    let ghost sof: spec_fn(int) -> int = x360_soff(wib, hib, p, deswizzle);
    let ghost dof: spec_fn(int) -> int = x360_doff(wib, hib, p, deswizzle);
    let ghost act: spec_fn(int) -> bool = x360_act();
    let ghost ns: int = hib * wib;
    let dest_total: usize = dest.len();
    let source_total: usize = image_data.len();

    let mut z: usize = 0;
    while z < image_depth
        invariant
            z <= image_depth,
            dest@.len() == old(dest)@.len(),
            dest@ == scatter(old(dest)@, image_data@, sof, dof, act, p, z as int * ns),
        decreases image_depth - z,
    {
        proof {
            assert(z as int * (ns * p) <= di * (ns * p) && (z as int * ns + 0 * wib + 0) == z
                as int * ns && 0 <= z as int * (ns * p)) by (nonlinear_arith)
                requires
                    0 <= z as int <= di,
                    ns >= 0,
                    p >= 1,
                    ns * p >= 0,
            ;
            assert(z as int * (ns * p) == z as int * ns * p) by (nonlinear_arith);
        }
        let slice_off: usize = z * slice_size;
        let mut j: usize = 0;
        while j < height_in_blocks
            invariant
                j <= height_in_blocks,
                z < image_depth,
                slice_off as int == z as int * (ns * p),
                dest@.len() == old(dest)@.len(),
                dest@ == scatter(
                    old(dest)@,
                    image_data@,
                    sof,
                    dof,
                    act,
                    p,
                    z as int * ns + j as int * wib,
                ),
            decreases height_in_blocks - j,
        {
            let mut i: usize = 0;
            while i < width_in_blocks
                invariant
                    i <= width_in_blocks,
                    j < height_in_blocks,
                    z < image_depth,
                    slice_off as int == z as int * (ns * p),
                    dest@.len() == old(dest)@.len(),
                    dest@ == scatter(
                        old(dest)@,
                        image_data@,
                        sof,
                        dof,
                        act,
                        p,
                        z as int * ns + j as int * wib + i as int,
                    ),
                decreases width_in_blocks - i,
            {
                let ghost k: int = z as int * ns + j as int * wib + i as int;
                let ghost rr: int = j as int * wib + i as int;
                proof {
                    assert(0 <= rr < ns && rr * 1048576 <= hib * wib * 1048576)
                        by (nonlinear_arith)
                        requires
                            0 <= (j as int) < hib,
                            0 <= (i as int) < wib,
                            rr == j as int * wib + i as int,
                            ns == hib * wib,
                    ;
                    lemma_fundamental_div_mod_converse(k, ns, z as int, rr);
                }
                let block_offset: usize = j * width_in_blocks + i;
                let x: usize = xg_address_2d_tiled_x(
                    block_offset,
                    width_in_blocks,
                    texel_byte_pitch,
                );
                let y: usize = xg_address_2d_tiled_y(
                    block_offset,
                    width_in_blocks,
                    texel_byte_pitch,
                );
                proof {
                    assert((rr + 1) * p <= ns * p && rr * p + p == (rr + 1) * p && 0 <= rr * p)
                        by (nonlinear_arith)
                        requires
                            0 <= rr < ns,
                            p >= 1,
                    ;
                    assert(z as int * (ns * p) + ns * p <= di * (ns * p)) by (nonlinear_arith)
                        requires
                            z as int + 1 <= di,
                            ns * p >= 0,
                    ;
                }
                let src_byte_offset: usize = slice_off + block_offset * texel_byte_pitch;
                let ghost addr_i: int = x360_addr(rr, wib, p);
                proof {
                    assert(usize::MAX as int <= u64::MAX as int);
                    assert((y as int) * wib + x as int <= u128::MAX as int
                        && (usize::MAX as int) * 16 + 16 + usize::MAX as int <= u128::MAX
                        as int) by (nonlinear_arith)
                        requires
                            0 <= (y as int) <= u64::MAX as int,
                            0 <= wib <= u64::MAX as int,
                            0 <= (x as int) <= u64::MAX as int,
                            usize::MAX as int <= u64::MAX as int,
                    ;
                }
                let y128: u128 = (y as u128) * (width_in_blocks as u128) + (x as u128);
                let mut copied: bool = false;
                if y128 <= (usize::MAX as u128) {
                    let addr: usize = y128 as usize;
                    proof {
                        assert((addr as int) * (texel_byte_pitch as int) + texel_byte_pitch
                            as int <= u128::MAX as int) by (nonlinear_arith)
                            requires
                                0 <= (addr as int) <= u64::MAX as int,
                                1 <= (texel_byte_pitch as int) <= 16,
                        ;
                    }
                    let a128: u128 = (addr as u128) * (texel_byte_pitch as u128) + (
                    texel_byte_pitch as u128);
                    if a128 <= (usize::MAX as u128) - (slice_off as u128) {
                        let addr_byte_offset: usize = slice_off + addr * texel_byte_pitch;
                        let (src_off, dst_off) = if deswizzle {
                            (src_byte_offset, addr_byte_offset)
                        } else {
                            (addr_byte_offset, src_byte_offset)
                        };
                        copy_block(image_data, dest, src_off, dst_off, texel_byte_pitch);
                        copied = true;
                        proof {
                            assert(addr_byte_offset as int == z as int * (ns * p) + addr_i * p);
                            assert(act(k));
                            assert(sof(k) == src_off as int);
                            assert(dof(k) == dst_off as int);
                            assert(scatter(old(dest)@, image_data@, sof, dof, act, p, k + 1)
                                == write_block(
                                scatter(old(dest)@, image_data@, sof, dof, act, p, k),
                                image_data@,
                                sof(k),
                                dof(k),
                                p,
                            ));
                        }
                    }
                }
                if !copied {
                    proof {
                        let off: int = z as int * (ns * p) + addr_i * p;
                        assert(off + p > usize::MAX as int) by (nonlinear_arith)
                            requires
                                off == z as int * (ns * p) + addr_i * p,
                                addr_i == (y as int) * wib + x as int,
                                p >= 1,
                                z as int * (ns * p) >= 0,
                                addr_i * p + p > usize::MAX as int - z as int * (ns * p)
                                    || (y as int) * wib + x as int > usize::MAX as int,
                                addr_i >= 0,
                        ;
                        assert(act(k));
                        assert(sof(k) == off || dof(k) == off);
                        lemma_x360_skip(
                            old(dest)@,
                            image_data@,
                            sof,
                            dof,
                            act,
                            p,
                            k,
                            off,
                        );
                    }
                }
                i = i + 1;
            }
            j = j + 1;
            proof {
                assert(z as int * ns + (j as int - 1) * wib + wib == z as int * ns + j as int
                    * wib) by (nonlinear_arith);
            }
        }
        z = z + 1;
        proof {
            assert((z as int - 1) * ns + hib * wib == z as int * ns) by (nonlinear_arith)
                requires
                    ns == hib * wib,
            ;
        }
    }
}

/// Converts between the linear and the vendor-B tiled layout, applying the
/// byte-order transform around the address translation when the format asks
/// for it.
pub fn do_swizzle<T: Format>(
    source: &Vec<u8>,
    dest: &mut Vec<u8>,
    dimensions: (usize, usize, usize),
    format: T,
    unswizzle: bool,
    align_resolution: bool,
)
    requires
        driver_fits(
            dimensions.0 as int,
            dimensions.1 as int,
            dimensions.2 as int,
            format.spec_bpp() as int,
            format.spec_block_size() as int,
            format.spec_pixel_block_size() as int,
        ),
    ensures
        final(dest)@.len() == old(dest)@.len(),
        final(dest)@ == x360_result(
            old(dest)@,
            source@,
            dimensions.0 as int / format.spec_pixel_block_size() as int,
            dimensions.1 as int / format.spec_pixel_block_size() as int,
            dimensions.2 as int,
            format.spec_block_size() as int,
            format.spec_x360_swap(),
            unswizzle,
        ),
{
    let (width, height, depth) = dimensions;
    let ghost wi: int = width as int;
    let ghost hi: int = height as int;
    let ghost pbsi: int = format.spec_pixel_block_size() as int;
    let ghost bsi: int = format.spec_block_size() as int;
    proof {
        lemma_x360_fits_from_driver(
            wi,
            hi,
            depth as int,
            format.spec_bpp() as int,
            bsi,
            pbsi,
        );
    }
    let mut working: Vec<u8> = clone_bytes(source);
    if format.x360_swap() {
        swap_byte_order_x360(&mut working);
    }
    untile_x360_image_data(
        &working,
        dest,
        width,
        height,
        depth,
        format.pixel_block_size(),
        format.block_size(),
        unswizzle,
    );
    if format.x360_swap() {
        rotate_groups_x360(dest);
    }
}

/// The driver limits imply the traversal limits over the block grid.
proof fn lemma_x360_fits_from_driver(w: int, h: int, d: int, bpp: int, bs: int, pbs: int)
    requires
        driver_fits(w, h, d, bpp, bs, pbs),
        w >= 0,
        h >= 0,
        d >= 0,
    ensures
        x360_fits(w / pbs, h / pbs, d, bs),
{
    let wib: int = w / pbs;
    let hib: int = h / pbs;
    let gw: int = grid_bound(w, pbs);
    let gh: int = grid_bound(h, pbs);
    crate::swizzle::zorder::lemma_next_pow2_props(w);
    crate::swizzle::zorder::lemma_next_pow2_props(h);
    lemma_div_is_ordered(w, next_pow2_spec(w), pbs);
    lemma_div_is_ordered(h, next_pow2_spec(h), pbs);
    lemma_div_pos_is_pos(w, pbs);
    lemma_div_pos_is_pos(h, pbs);
    lemma_div_pos_is_pos(next_pow2_spec(w), pbs);
    lemma_div_pos_is_pos(next_pow2_spec(h), pbs);
    assert(wib <= gw - 8 && hib <= gh - 8 && gw >= 8 && gh >= 8);
    assert(hib * wib * bs <= gw * gh * bs && hib * wib * 1048576 <= gw * gh * 1048576 && (wib
        + 31) * 32 <= gw * 1048576 && gw * 1048576 <= gw * gh * 1048576 && hib * wib * bs >= 0
        && gw <= gw * gh && d * (hib * wib * bs) <= d * (gw * gh * bs) && hib * wib * bs == hib
        * (wib * bs)) by (nonlinear_arith)
        requires
            0 <= wib <= gw - 8,
            0 <= hib <= gh - 8,
            gw >= 8,
            gh >= 8,
            bs >= 1,
            d >= 0,
    ;
}

/// Round-trip law of the vendor-B address translation: tiling an image of
/// exactly matching size and untiling the result restores it byte for byte,
/// for any number of depth slices and without the byte-order transform,
/// whenever the address functions permute a slice's block grid.  That
/// permutation property holds of the hardware configurations the formulas
/// were built for (block rows a multiple of 32 blocks wide, power-of-two
/// pitches); it is taken as a hypothesis here rather than derived from the
/// bit formulas.
#[verifier::rlimit(100)]
pub proof fn lemma_x360_round_trip(
    x: Seq<u8>,
    y0: Seq<u8>,
    z0: Seq<u8>,
    wib: int,
    hib: int,
    d: int,
    p: int,
    addr_inv: spec_fn(int) -> int,
)
    requires
        p >= 1,
        wib >= 0,
        hib >= 0,
        d >= 1,
        x.len() == d * (hib * wib * p),
        z0.len() == x.len(),
        y0.len() == x.len(),
        forall|r: int| 0 <= r < hib * wib ==> 0 <= #[trigger] x360_addr(r, wib, p) < hib * wib,
        forall|r1: int, r2: int|
            0 <= r1 < hib * wib && 0 <= r2 < hib * wib && #[trigger] x360_addr(r1, wib, p)
                == #[trigger] x360_addr(r2, wib, p) ==> r1 == r2,
        forall|c: int|
            0 <= c < hib * wib ==> 0 <= #[trigger] addr_inv(c) < hib * wib && x360_addr(
                addr_inv(c),
                wib,
                p,
            ) == c,
    ensures
        untile_spec(z0, untile_spec(y0, x, wib, hib, d, p, false), wib, hib, d, p, true) == x,
{
    let ns: int = hib * wib;
    let ss: int = ns * p;
    let n: int = d * ns;
    let sof_t: spec_fn(int) -> int = x360_soff(wib, hib, p, false);
    let dof_t: spec_fn(int) -> int = x360_doff(wib, hib, p, false);
    let sof_u: spec_fn(int) -> int = x360_soff(wib, hib, p, true);
    let dof_u: spec_fn(int) -> int = x360_doff(wib, hib, p, true);
    let act: spec_fn(int) -> bool = x360_act();
    let y = untile_spec(y0, x, wib, hib, d, p, false);
    let zz = untile_spec(z0, y, wib, hib, d, p, true);
    assert(y == scatter(y0, x, sof_t, dof_t, act, p, n));
    assert(zz == scatter(z0, y, sof_u, dof_u, act, p, n));
    crate::swizzle::blocks::lemma_scatter_len(y0, x, sof_t, dof_t, act, p, n);
    crate::swizzle::blocks::lemma_scatter_len(z0, y, sof_u, dof_u, act, p, n);
    assert((n - 1) * p + (p - 1) == n * p - 1 && n * p == d * (hib * wib * p) && ns >= 0 && (d
        - 1) * ss + (ss - 1) == d * ss - 1 && d * ss == n * p && (ns - 1) * p + (p - 1) == ss
        - 1) by (nonlinear_arith)
        requires
            ns == hib * wib,
            ss == ns * p,
            n == d * ns,
            p >= 1,
            d >= 1,
            hib >= 0,
            wib >= 0,
    ;

    assert forall|i: int| 0 <= i < n * p implies y[i] == x[(i / p / ns) * ss + x360_addr(
        i / p % ns,
        wib,
        p,
    ) * p + (i % p)] by {
        let kk: int = i / p;
        let b: int = i % p;
        lemma_fundamental_div_mod(i, p);
        lemma_mod_bound(i, p);
        lemma_fundamental_div_mod_converse(n * p - 1, p, n - 1, p - 1);
        lemma_div_is_ordered(i, n * p - 1, p);
        lemma_div_is_ordered(0, i, p);
        let zk: int = kk / ns;
        let r: int = kk % ns;
        lemma_fundamental_div_mod(kk, ns);
        lemma_mod_bound(kk, ns);
        lemma_div_is_ordered(0, kk, ns);
        assert(zk < d) by {
            assert((d - 1) * ns + (ns - 1) == n - 1) by (nonlinear_arith)
                requires
                    n == d * ns,
            ;
            lemma_fundamental_div_mod_converse(n - 1, ns, d - 1, ns - 1);
            lemma_div_is_ordered(kk, n - 1, ns);
        }
        let a: int = x360_addr(r, wib, p);
        assert(0 <= a < ns);
        assert(zk * ss + r * p == kk * p && 0 <= zk * ss + a * p && zk * ss + a * p + p <= d
            * ss && kk * p <= i < kk * p + p && kk * p + p <= n * p && i == kk * p + b)
            by (nonlinear_arith)
            requires
                kk == ns * zk + r,
                0 <= r < ns,
                0 <= a < ns,
                0 <= zk < d,
                0 <= kk < n,
                n == d * ns,
                ss == ns * p,
                p >= 1,
                i == p * kk + b,
                0 <= b < p,
        ;
        assert(sof_t(kk) == zk * ss + a * p);
        assert(dof_t(kk) == zk * ss + r * p);
        assert(covers(y0.len() as int, x.len() as int, sof_t, dof_t, act, p, kk, i));
        assert forall|k2: int| kk < k2 < n implies !covers(
            y0.len() as int,
            x.len() as int,
            sof_t,
            dof_t,
            act,
            p,
            k2,
            i,
        ) by {
            lemma_fundamental_div_mod(k2, ns);
            lemma_mod_bound(k2, ns);
            assert((k2 / ns) * ss + (k2 % ns) * p == k2 * p && i < k2 * p) by (nonlinear_arith)
                requires
                    k2 == ns * (k2 / ns) + k2 % ns,
                    ss == ns * p,
                    i == p * kk + b,
                    0 <= b < p,
                    kk < k2,
                    p >= 1,
            ;
        }
        lemma_scatter_hit(y0, x, sof_t, dof_t, act, p, n, kk, i);
        assert(y[i] == x[sof_t(kk) + (i - dof_t(kk))]);
        assert(sof_t(kk) + (i - dof_t(kk)) == zk * ss + a * p + b);
    }

    assert forall|i: int| 0 <= i < n * p implies zz[i] == x[i] by {
        let zi: int = i / ss;
        let rem: int = i % ss;
        lemma_fundamental_div_mod(i, ss);
        lemma_mod_bound(i, ss);
        lemma_fundamental_div_mod_converse(d * ss - 1, ss, d - 1, ss - 1);
        lemma_div_is_ordered(i, d * ss - 1, ss);
        lemma_div_is_ordered(0, i, ss);
        assert(0 <= zi < d);
        let j: int = rem / p;
        let b: int = rem % p;
        lemma_fundamental_div_mod(rem, p);
        lemma_mod_bound(rem, p);
        lemma_fundamental_div_mod_converse(ss - 1, p, ns - 1, p - 1);
        lemma_div_is_ordered(rem, ss - 1, p);
        lemma_div_is_ordered(0, rem, p);
        assert(0 <= j < ns);
        let rw: int = addr_inv(j);
        assert(0 <= rw < ns && x360_addr(rw, wib, p) == j);
        let k: int = zi * ns + rw;
        assert(k == ns * zi + rw) by (nonlinear_arith)
            requires
                k == zi * ns + rw,
        ;
        lemma_fundamental_div_mod_converse(k, ns, zi, rw);
        assert(zi * ss + rw * p == k * p && 0 <= k < n && k * p + p <= n * p && 0 <= k * p && zi
            * ss + j * p <= i < zi * ss + j * p + p && zi * ss + j * p + p <= d * ss && 0 <= zi
            * ss + j * p && i == zi * ss + j * p + b) by (nonlinear_arith)
            requires
                k == zi * ns + rw,
                0 <= zi < d,
                0 <= rw < ns,
                0 <= j < ns,
                n == d * ns,
                ss == ns * p,
                p >= 1,
                i == ss * zi + rem,
                rem == p * j + b,
                0 <= b < p,
        ;
        assert(sof_u(k) == k * p);
        assert(dof_u(k) == zi * ss + j * p);
        assert(covers(z0.len() as int, y.len() as int, sof_u, dof_u, act, p, k, i));
        assert forall|k2: int| k < k2 < n implies !covers(
            z0.len() as int,
            y.len() as int,
            sof_u,
            dof_u,
            act,
            p,
            k2,
            i,
        ) by {
            if covers(z0.len() as int, y.len() as int, sof_u, dof_u, act, p, k2, i) {
                let z2: int = k2 / ns;
                let r2: int = k2 % ns;
                lemma_fundamental_div_mod(k2, ns);
                lemma_mod_bound(k2, ns);
                lemma_div_is_ordered(0, k2, ns);
                assert(z2 < d) by {
                    assert((d - 1) * ns + (ns - 1) == n - 1) by (nonlinear_arith)
                        requires
                            n == d * ns,
                    ;
                    lemma_fundamental_div_mod_converse(n - 1, ns, d - 1, ns - 1);
                    lemma_div_is_ordered(k2, n - 1, ns);
                }
                let a2: int = x360_addr(r2, wib, p);
                assert(0 <= a2 < ns);
                assert(z2 * ss + a2 * p <= i < z2 * ss + a2 * p + p);
                assert(i == ss * z2 + (a2 * p + (i - z2 * ss - a2 * p)) && 0 <= a2 * p + (i - z2
                    * ss - a2 * p) < ss) by (nonlinear_arith)
                    requires
                        z2 * ss + a2 * p <= i < z2 * ss + a2 * p + p,
                        0 <= a2 < ns,
                        ss == ns * p,
                        p >= 1,
                ;
                lemma_fundamental_div_mod_converse(i, ss, z2, a2 * p + (i - z2 * ss - a2 * p));
                assert(z2 == zi);
                assert(rem == p * a2 + (i - z2 * ss - a2 * p) && 0 <= i - z2 * ss - a2 * p < p)
                    by (nonlinear_arith)
                    requires
                        rem == a2 * p + (i - z2 * ss - a2 * p),
                        z2 * ss + a2 * p <= i < z2 * ss + a2 * p + p,
                ;
                lemma_fundamental_div_mod_converse(rem, p, a2, i - z2 * ss - a2 * p);
                assert(a2 == j);
                assert(x360_addr(r2, wib, p) == x360_addr(rw, wib, p));
                assert(r2 == rw);
                assert(k2 == k) by (nonlinear_arith)
                    requires
                        k2 == ns * z2 + r2,
                        k == zi * ns + rw,
                        z2 == zi,
                        r2 == rw,
                ;
            }
        }
        lemma_scatter_hit(z0, y, sof_u, dof_u, act, p, n, k, i);
        let i2: int = k * p + b;
        assert(zz[i] == y[i2]);
        lemma_fundamental_div_mod_converse(i2, p, k, b);
        assert(0 <= i2 < n * p && i2 == p * k + b) by (nonlinear_arith)
            requires
                i2 == k * p + b,
                0 <= k < n,
                0 <= b < p,
                p >= 1,
        ;
        assert(i2 / p / ns == zi && i2 / p % ns == rw);
        assert(y[i2] == x[(i2 / p / ns) * ss + x360_addr(i2 / p % ns, wib, p) * p + (i2 % p)]);
        assert(zz[i] == x[i]) by (nonlinear_arith)
            requires
                zz[i] == x[zi * ss + x360_addr(rw, wib, p) * p + b],
                x360_addr(rw, wib, p) == j,
                x[zi * ss + j * p + b] == x[i],
                i == zi * ss + j * p + b,
        ;
    }
    assert(zz =~= x);
}

/// A product with a 4-aligned factor is 4-aligned.
proof fn lemma_mul4_aligned(a: int, p: int)
    requires
        p % 4 == 0,
    ensures
        (a * p) % 4 == 0,
{
    lemma_fundamental_div_mod(p, 4);
    assert(a * p == 4 * (a * (p / 4))) by (nonlinear_arith)
        requires
            p == 4 * (p / 4),
    ;
    lemma_fundamental_div_mod_converse(a * p, 4, a * (p / 4), 0);
}

/// A sum of 4-aligned terms is 4-aligned.
proof fn lemma_add4_aligned(u: int, v: int)
    requires
        u % 4 == 0,
        v % 4 == 0,
    ensures
        (u + v) % 4 == 0,
{
    lemma_fundamental_div_mod(u, 4);
    lemma_fundamental_div_mod(v, 4);
    lemma_fundamental_div_mod_converse(u + v, 4, u / 4 + v / 4, 0);
}

/// Round-trip law of the vendor-B engine with the byte-order transform on:
/// for block sizes that are multiples of four bytes the pair swap and the
/// 4-byte rotation commute with the 4-aligned block copies of the address
/// translation, so the encode pass (swap, tile, rotate) is undone by the
/// decode pass (swap, untile, rotate), under the same grid-permutation
/// hypothesis as the transform-free law.
#[verifier::rlimit(60)]
pub proof fn lemma_x360_round_trip_swapped(
    x: Seq<u8>,
    y0: Seq<u8>,
    z0: Seq<u8>,
    wib: int,
    hib: int,
    d: int,
    p: int,
    addr_inv: spec_fn(int) -> int,
)
    requires
        p >= 1,
        p % 4 == 0,
        wib >= 0,
        hib >= 0,
        d >= 1,
        x.len() == d * (hib * wib * p),
        z0.len() == x.len(),
        y0.len() == x.len(),
        forall|r: int| 0 <= r < hib * wib ==> 0 <= #[trigger] x360_addr(r, wib, p) < hib * wib,
        forall|r1: int, r2: int|
            0 <= r1 < hib * wib && 0 <= r2 < hib * wib && #[trigger] x360_addr(r1, wib, p)
                == #[trigger] x360_addr(r2, wib, p) ==> r1 == r2,
        forall|c: int|
            0 <= c < hib * wib ==> 0 <= #[trigger] addr_inv(c) < hib * wib && x360_addr(
                addr_inv(c),
                wib,
                p,
            ) == c,
    ensures
        x360_result(
            z0,
            x360_result(y0, x, wib, hib, d, p, true, false),
            wib,
            hib,
            d,
            p,
            true,
            true,
        ) == x,
{
    let ns: int = hib * wib;
    let n: int = d * ns;
    let sof_t: spec_fn(int) -> int = x360_soff(wib, hib, p, false);
    let dof_t: spec_fn(int) -> int = x360_doff(wib, hib, p, false);
    let sof_u: spec_fn(int) -> int = x360_soff(wib, hib, p, true);
    let dof_u: spec_fn(int) -> int = x360_doff(wib, hib, p, true);
    let act: spec_fn(int) -> bool = x360_act();

    let s1 = swap2_spec(x);
    let tf = untile_spec(y0, s1, wib, hib, d, p, false);
    let enc = rot4_spec(tf);
    assert(enc == x360_result(y0, x, wib, hib, d, p, true, false));
    let s2 = swap2_spec(enc);
    let tt = untile_spec(z0, s2, wib, hib, d, p, true);
    let dec = rot4_spec(tt);
    assert(dec == x360_result(z0, enc, wib, hib, d, p, true, true));

    assert(x.len() as int % 4 == 0) by {
        lemma_mul4_aligned(hib * wib, p);
        assert((hib * wib) * p == hib * wib * p) by (nonlinear_arith);
        lemma_mul4_aligned(d, (hib * wib) * p);
        assert(d * ((hib * wib) * p) == d * (hib * wib * p)) by (nonlinear_arith);
    }

    assert forall|k: int| 0 <= k < n && act(k) implies #[trigger] sof_t(k) % 4 == 0 && dof_t(k)
        % 4 == 0 && sof_u(k) % 4 == 0 && dof_u(k) % 4 == 0 by {
        lemma_mul4_aligned(ns, p);
        assert(ns * p == hib * wib * p) by (nonlinear_arith)
            requires
                ns == hib * wib,
        ;
        lemma_mul4_aligned(k / ns, ns * p);
        assert((k / ns) * (hib * wib * p) == (k / ns) * (ns * p)) by (nonlinear_arith)
            requires
                ns == hib * wib,
        ;
        lemma_mul4_aligned(k % ns, p);
        lemma_mul4_aligned(x360_addr(k % ns, wib, p), p);
        lemma_add4_aligned((k / ns) * (hib * wib * p), (k % ns) * p);
        lemma_add4_aligned((k / ns) * (hib * wib * p), x360_addr(k % ns, wib, p) * p);
    }

    lemma_rot4_scatter(y0, s1, sof_t, dof_t, act, p, n);
    let y0r = rot4_spec(y0);
    let s1r = rot4_spec(s1);
    assert(enc == scatter(y0r, s1r, sof_t, dof_t, act, p, n));
    lemma_swap2_scatter(y0r, s1r, sof_t, dof_t, act, p, n);
    let y0rs = swap2_spec(y0r);
    let s1rs = swap2_spec(s1r);
    assert(s2 == scatter(y0rs, s1rs, sof_t, dof_t, act, p, n));
    assert(s2 == untile_spec(y0rs, s1rs, wib, hib, d, p, false));

    lemma_x360_round_trip(s1rs, y0rs, z0, wib, hib, d, p, addr_inv);
    assert(tt == s1rs);
    lemma_byte_order_round_trip(x);
    assert(dec == x);
}

/// A byte-for-byte copy of the source buffer.
fn clone_bytes(source: &Vec<u8>) -> (r: Vec<u8>)
    ensures
        r@ == source@,
{
    let mut r: Vec<u8> = Vec::new();
    let mut i: usize = 0;
    while i < source.len()
        invariant
            i <= source.len(),
            r@ == source@.take(i as int),
        decreases source.len() - i,
    {
        r.push(source[i]);
        proof {
            assert(r@ =~= source@.take(i as int + 1));
        }
        i = i + 1;
    }
    proof {
        assert(source@.take(source@.len() as int) =~= source@);
    }
    r
}

} // verus!
