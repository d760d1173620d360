//! The vendor-A tiled engine: blocks grouped into fixed 8x8 macro-tiles,
//! each internally Z-ordered.  The tile grid is padded up to whole tiles (and
//! to powers of two for compressed formats under resolution alignment), so
//! the traversal walks padding cells that advance the tiled-side counter
//! without copying.

use vstd::prelude::*;
use vstd::arithmetic::div_mod::{
    lemma_div_is_ordered, lemma_div_pos_is_pos, lemma_fundamental_div_mod,
    lemma_fundamental_div_mod_converse, lemma_mod_bound,
};
use vstd::arithmetic::mul::{lemma_mul_inequality, lemma_mul_is_commutative};
use crate::swizzle::blocks::{copy_block, covers, lemma_scatter_hit, lemma_scatter_len, scatter, write_block};
use crate::swizzle::zorder::{
    is_pow2, lemma_morton_bijective, lemma_next_pow2_props, lemma_zorder_bounds, morton_i,
    morton_inv, next_pow2_spec, zorder,
};
use crate::swizzle::ps3::lemma_ps3_slice_base_eq;
use crate::swizzle::{eff_dim, grid_bound, morton, next_pow2, slice_base, swizzle_fits, Format};

verus! {

/// The in-tile position of traversal step `k`.
pub open spec fn ps4_t(k: int) -> int {
    k % 64
}

/// The tile column of traversal step `k`.
pub open spec fn ps4_xt(k: int, tx: int) -> int {
    (k / 64) % tx
}

/// The tile row of traversal step `k`.
pub open spec fn ps4_yt(k: int, tx: int, ty: int) -> int {
    (k / 64 / tx) % ty
}

/// The depth slice of traversal step `k`.
pub open spec fn ps4_z(k: int, tx: int, ty: int) -> int {
    k / 64 / tx / ty
}

/// The absolute block column step `k` addresses.
pub open spec fn ps4_xoff(k: int, tx: int) -> int {
    ps4_xt(k, tx) * 8 + morton_i(ps4_t(k), 8, 8) % 8
}

/// The absolute block row step `k` addresses.
pub open spec fn ps4_yoff(k: int, tx: int, ty: int) -> int {
    ps4_yt(k, tx, ty) * 8 + morton_i(ps4_t(k), 8, 8) / 8
}

/// A step copies only when its block coordinate lies inside the true
/// (unpadded) block grid of the image.
pub open spec fn ps4_act(tx: int, ty: int, wtd: int, htd: int) -> spec_fn(int) -> bool {
    |k: int| ps4_xoff(k, tx) < wtd && ps4_yoff(k, tx, ty) < htd
}

/// The linear-layout byte offset of traversal step `k`: its slice's base
/// plus the grid cell its tile and in-tile position address.
pub open spec fn ps4_linear_off(
    tx: int,
    ty: int,
    wtd: int,
    bs: int,
    w: int,
    h: int,
    bpp: int,
) -> spec_fn(int) -> int {
    |k: int|
        slice_base(ps4_z(k, tx, ty), w, h, bpp) + bs * (ps4_yoff(k, tx, ty) * wtd + ps4_xoff(
            k,
            tx,
        ))
}

/// The tiled-layout byte offset of traversal step `k`: the monotone block
/// counter, which also advances over padding positions.
pub open spec fn ps4_tiled_off(bs: int) -> spec_fn(int) -> int {
    |k: int| k * bs
}

/// Where step `k` reads.  The direction does not change the address math,
/// only which layout plays the source role.
pub open spec fn ps4_soff(
    tx: int,
    ty: int,
    wtd: int,
    bs: int,
    w: int,
    h: int,
    bpp: int,
    unswizzle: bool,
) -> spec_fn(int) -> int {
    if unswizzle {
        ps4_tiled_off(bs)
    } else {
        ps4_linear_off(tx, ty, wtd, bs, w, h, bpp)
    }
}

/// Where step `k` writes: the layout the source role leaves over.
pub open spec fn ps4_doff(
    tx: int,
    ty: int,
    wtd: int,
    bs: int,
    w: int,
    h: int,
    bpp: int,
    unswizzle: bool,
) -> spec_fn(int) -> int {
    if unswizzle {
        ps4_linear_off(tx, ty, wtd, bs, w, h, bpp)
    } else {
        ps4_tiled_off(bs)
    }
}

/// The number of tiles along one axis: the block count rounded up to whole
/// 8-wide tiles.
pub open spec fn tiles_of(bt: int) -> int {
    (bt + 7) / 8
}

/// The destination contents after one run of the tiled engine.
pub open spec fn ps4_result(
    dest0: Seq<u8>,
    src: Seq<u8>,
    w: int,
    h: int,
    d: int,
    bpp: int,
    bs: int,
    pbs: int,
    unswizzle: bool,
    align: bool,
    compressed: bool,
) -> Seq<u8> {
    let wt: int = eff_dim(w, align, compressed) / pbs;
    let ht: int = eff_dim(h, align, compressed) / pbs;
    let wtd: int = w / pbs;
    let htd: int = h / pbs;
    let tx: int = tiles_of(wt);
    let ty: int = tiles_of(ht);
    scatter(
        dest0,
        src,
        ps4_soff(tx, ty, wtd, bs, w, h, bpp, unswizzle),
        ps4_doff(tx, ty, wtd, bs, w, h, bpp, unswizzle),
        ps4_act(tx, ty, wtd, htd),
        bs,
        d * (ty * (tx * 64)),
    )
}

/// How a step index splits into slice, tile row, tile column and in-tile
/// position, and how those components rebuild it.
pub(crate) proof fn lemma_ps4_decompose(z: int, y: int, x: int, t: int, tx: int, ty: int)
    requires
        0 <= z,
        0 <= y < ty,
        0 <= x < tx,
        0 <= t < 64,
    ensures
        ps4_t(((z * ty + y) * tx + x) * 64 + t) == t,
        ps4_xt(((z * ty + y) * tx + x) * 64 + t, tx) == x,
        ps4_yt(((z * ty + y) * tx + x) * 64 + t, tx, ty) == y,
        ps4_z(((z * ty + y) * tx + x) * 64 + t, tx, ty) == z,
{
    let q1: int = (z * ty + y) * tx + x;
    let k: int = q1 * 64 + t;
    lemma_fundamental_div_mod_converse(k, 64, q1, t);
    lemma_fundamental_div_mod_converse(q1, tx, z * ty + y, x);
    lemma_fundamental_div_mod_converse(z * ty + y, ty, z, y);
}

/// Every step index rebuilds from its components, which stay in range.
pub(crate) proof fn lemma_ps4_recompose(k: int, tx: int, ty: int)
    requires
        k >= 0,
        tx >= 1,
        ty >= 1,
    ensures
        k == ((ps4_z(k, tx, ty) * ty + ps4_yt(k, tx, ty)) * tx + ps4_xt(k, tx)) * 64 + ps4_t(k),
        0 <= ps4_t(k) < 64,
        0 <= ps4_xt(k, tx) < tx,
        0 <= ps4_yt(k, tx, ty) < ty,
        0 <= ps4_z(k, tx, ty),
{
    lemma_fundamental_div_mod(k, 64);
    lemma_mod_bound(k, 64);
    lemma_div_is_ordered(0, k, 64);
    lemma_fundamental_div_mod(k / 64, tx);
    lemma_mod_bound(k / 64, tx);
    lemma_div_is_ordered(0, k / 64, tx);
    lemma_fundamental_div_mod(k / 64 / tx, ty);
    lemma_mod_bound(k / 64 / tx, ty);
    lemma_div_is_ordered(0, k / 64 / tx, ty);
    let zc: int = ps4_z(k, tx, ty);
    let yc: int = ps4_yt(k, tx, ty);
    let xc: int = ps4_xt(k, tx);
    let tc: int = ps4_t(k);
    assert(k == ((zc * ty + yc) * tx + xc) * 64 + tc) by (nonlinear_arith)
        requires
            k == 64 * (k / 64) + tc,
            k / 64 == tx * (k / 64 / tx) + xc,
            k / 64 / tx == ty * zc + yc,
    ;
}

/// Relocates texel blocks between the linear layout and the 8x8-macro-tile
/// Z-ordered layout, one depth slice at a time.  Padding positions advance
/// the tiled-side counter without copying; a block whose computed range does
/// not fit its buffer is skipped; the destination is never resized.
#[verifier::loop_isolation(false)]
#[verifier::rlimit(60)]
pub fn do_swizzle<T: Format>(
    source: &Vec<u8>,
    dest: &mut Vec<u8>,
    dimensions: (usize, usize, usize),
    format: T,
    unswizzle: bool,
    align_resolution: bool,
)
    requires
        swizzle_fits(
            dimensions.0 as int,
            dimensions.1 as int,
            dimensions.2 as int,
            format.spec_bpp() as int,
            format.spec_block_size() as int,
            format.spec_pixel_block_size() as int,
        ),
    ensures
        final(dest)@.len() == old(dest)@.len(),
        final(dest)@ == ps4_result(
            old(dest)@,
            source@,
            dimensions.0 as int,
            dimensions.1 as int,
            dimensions.2 as int,
            format.spec_bpp() as int,
            format.spec_block_size() as int,
            format.spec_pixel_block_size() as int,
            unswizzle,
            align_resolution,
            format.spec_is_compressed(),
        ),
{
    let (width, height, depth) = dimensions;
    let pixel_block_size: usize = format.pixel_block_size();
    let block_size: usize = format.block_size();
    let bpp: usize = format.bpp();
    let compressed: bool = format.is_compressed();

    let ghost wi: int = width as int;
    let ghost hi: int = height as int;
    let ghost di: int = depth as int;
    let ghost bsi: int = block_size as int;
    let ghost bppi: int = bpp as int;
    let ghost pbsi: int = pixel_block_size as int;

    proof {
        lemma_next_pow2_props(wi);
        lemma_next_pow2_props(hi);
    }
    let (width_src, height_src) = if align_resolution && compressed {
        (next_pow2(width), next_pow2(height))
    } else {
        (width, height)
    };

    let width_texels_dest: usize = width / pixel_block_size;
    let height_texels_dest: usize = height / pixel_block_size;

    let width_texels: usize = width_src / pixel_block_size;
    let height_texels: usize = height_src / pixel_block_size;

    let ghost wt: int = width_texels as int;
    let ghost ht: int = height_texels as int;
    let ghost wtd: int = width_texels_dest as int;
    let ghost htd: int = height_texels_dest as int;
    let ghost gw: int = grid_bound(wi, pbsi);
    let ghost gh: int = grid_bound(hi, pbsi);
    proof {
        lemma_div_is_ordered(width as int, next_pow2_spec(wi), pbsi);
        lemma_div_is_ordered(height as int, next_pow2_spec(hi), pbsi);
        lemma_div_is_ordered(width_src as int, next_pow2_spec(wi), pbsi);
        lemma_div_is_ordered(height_src as int, next_pow2_spec(hi), pbsi);
        lemma_div_pos_is_pos(next_pow2_spec(wi), pbsi);
        lemma_div_pos_is_pos(next_pow2_spec(hi), pbsi);
        assert(gw >= 8 && gh >= 8);
        assert(wt <= gw - 8 && ht <= gh - 8 && wtd <= gw - 8 && htd <= gh - 8);
        assert(gw <= gw * gh * bsi && gh <= gw * gh * bsi) by (nonlinear_arith)
            requires
                bsi >= 1,
                gw >= 1,
                gh >= 1,
        ;
    }

    let width_texels_aligned: usize = (width_texels + 7) / 8;
    let height_texels_aligned: usize = (height_texels + 7) / 8;
    let ghost tx: int = width_texels_aligned as int;
    let ghost ty: int = height_texels_aligned as int;

    proof {
        lemma_fundamental_div_mod(wt + 7, 8);
        lemma_mod_bound(wt + 7, 8);
        lemma_fundamental_div_mod(ht + 7, 8);
        lemma_mod_bound(ht + 7, 8);
        assert(8 * tx <= wt + 7 && 8 * ty <= ht + 7);
        assert(ty * (tx * 64) <= gw * gh && (gw - 1) * (gh - 1) <= gw * gh) by (nonlinear_arith)
            requires
                8 * tx <= wt + 7,
                8 * ty <= ht + 7,
                wt + 7 <= gw - 1,
                ht + 7 <= gh - 1,
                tx >= 0,
                ty >= 0,
                gw >= 8,
                gh >= 8,
        ;
        assert(wtd * htd <= gw * gh) by (nonlinear_arith)
            requires
                0 <= wtd <= gw,
                0 <= htd <= gh,
                gw >= 0,
                gh >= 0,
        ;
        assert(gw * gh * bsi == (gw * gh) * bsi && gw * gh <= gw * gh * bsi) by (nonlinear_arith)
            requires
                bsi >= 1,
                gw >= 0,
                gh >= 0,
        ;
        lemma_mul_inequality(ty * (tx * 64), gw * gh, bsi);
        lemma_mul_is_commutative(ty * (tx * 64), bsi);
        lemma_mul_is_commutative(gw * gh, bsi);
        lemma_mul_inequality(wtd * htd, gw * gh, bsi);
        lemma_mul_is_commutative(wtd * htd, bsi);
    }
    let ghost nslice: int = ty * (tx * 64);
    let ghost sof: spec_fn(int) -> int = ps4_soff(tx, ty, wtd, bsi, wi, hi, bppi, unswizzle);
    let ghost dof: spec_fn(int) -> int = ps4_doff(tx, ty, wtd, bsi, wi, hi, bppi, unswizzle);
    let ghost act: spec_fn(int) -> bool = ps4_act(tx, ty, wtd, htd);

    proof {
        assert(di * (nslice * bsi) <= di * (gw * gh * bsi)) by (nonlinear_arith)
            requires
                di >= 0,
                nslice * bsi <= gw * gh * bsi,
                nslice * bsi >= 0,
        ;
    }

    let mut data_index: usize = 0;
    let mut z: usize = 0;

    while z < depth
        invariant
            z <= depth,
            data_index as int == z as int * nslice * bsi,
            dest@.len() == old(dest)@.len(),
            dest@ == scatter(old(dest)@, source@, sof, dof, act, bsi, z as int * nslice),
        decreases depth - z,
    {
        proof {
            assert(z as int * wi <= di * wi && z as int * wi * hi <= di * wi * hi && z as int
                * wi * hi * bppi <= di * wi * hi * bppi) by (nonlinear_arith)
                requires
                    0 <= z as int <= di,
                    wi >= 0,
                    hi >= 0,
                    bppi >= 0,
            ;
            lemma_div_is_ordered(z as int * wi * hi * bppi, di * wi * hi * bppi, 8);
            assert(z as int * nslice * bsi == ((z as int * ty + 0) * tx + 0) * 64 * bsi && z
                as int * nslice == ((z as int * ty + 0) * tx + 0) * 64 && (z as int * ty) * (tx
                * 64) == ((z as int * ty + 0) * tx + 0) * 64 && ((z as int * ty) * (tx * 64))
                * bsi == z as int * nslice * bsi) by (nonlinear_arith)
                requires
                    nslice == ty * (tx * 64),
            ;
        }
        let slice_offset: usize = (z * width * height * bpp) / 8;
        let mut y: usize = 0;

        while y < height_texels_aligned
            invariant
                y <= height_texels_aligned,
                z < depth,
                slice_offset as int == slice_base(z as int, wi, hi, bppi),
                data_index as int == (z as int * ty + y as int) * (tx * 64) * bsi,
                dest@.len() == old(dest)@.len(),
                dest@ == scatter(
                    old(dest)@,
                    source@,
                    sof,
                    dof,
                    act,
                    bsi,
                    (z as int * ty + y as int) * (tx * 64),
                ),
            decreases height_texels_aligned - y,
        {
            proof {
                assert(((z as int * ty + y as int) * (tx * 64)) == (((z as int * ty + y as int)
                    * tx + 0) * 64) && ((z as int * ty + y as int) * (tx * 64)) * bsi == (((z
                    as int * ty + y as int) * tx + 0) * 64) * bsi) by (nonlinear_arith);
            }
            let mut x: usize = 0;

            while x < width_texels_aligned
                invariant
                    x <= width_texels_aligned,
                    y < height_texels_aligned,
                    z < depth,
                    slice_offset as int == slice_base(z as int, wi, hi, bppi),
                    data_index as int == ((z as int * ty + y as int) * tx + x as int) * 64 * bsi,
                    dest@.len() == old(dest)@.len(),
                    dest@ == scatter(
                        old(dest)@,
                        source@,
                        sof,
                        dof,
                        act,
                        bsi,
                        ((z as int * ty + y as int) * tx + x as int) * 64,
                    ),
                decreases width_texels_aligned - x,
            {
                let ghost kbase: int = ((z as int * ty + y as int) * tx + x as int) * 64;
                let mut t: usize = 0;

                while t < 64
                    invariant
                        t <= 64,
                        x < width_texels_aligned,
                        y < height_texels_aligned,
                        z < depth,
                        slice_offset as int == slice_base(z as int, wi, hi, bppi),
                        data_index as int == (kbase + t as int) * bsi,
                        dest@.len() == old(dest)@.len(),
                        dest@ == scatter(
                            old(dest)@,
                            source@,
                            sof,
                            dof,
                            act,
                            bsi,
                            kbase + t as int,
                        ),
                    decreases 64 - t,
                {
                    let ghost k: int = kbase + t as int;
                    proof {
                        lemma_ps4_decompose(
                            z as int,
                            y as int,
                            x as int,
                            t as int,
                            tx,
                            ty,
                        );
                        lemma_zorder_bounds(t as nat, 8, 8);
                        let zc = zorder(t as nat, 8, 8);
                        assert(morton_i(t as int, 8, 8) < 64);
                        assert((k + 1) * bsi == k * bsi + bsi) by (nonlinear_arith);
                        assert(k + 1 <= di * nslice && k >= 0) by (nonlinear_arith)
                            requires
                                k == ((z as int * ty + y as int) * tx + x as int) * 64 + t as int,
                                0 <= (z as int) <= di - 1,
                                0 <= (y as int) < ty,
                                0 <= (x as int) < tx,
                                0 <= (t as int) < 64,
                                nslice == ty * (tx * 64),
                                tx >= 0,
                                ty >= 0,
                        ;
                        lemma_mul_inequality(k + 1, di * nslice, bsi);
                        lemma_mul_is_commutative(k + 1, bsi);
                        lemma_mul_is_commutative(di * nslice, bsi);
                        assert(di * nslice * bsi == di * (nslice * bsi)) by (nonlinear_arith);
                        assert(gw * gh * bsi <= di * (gw * gh * bsi)) by (nonlinear_arith)
                            requires
                                di >= 1,
                                gw * gh * bsi >= 0,
                        ;
                    }
                    let pixel_index: usize = morton(t, 8, 8);
                    let div: usize = pixel_index / 8;
                    let rem: usize = pixel_index % 8;
                    let x_offset: usize = x * 8 + rem;
                    let y_offset: usize = y * 8 + div;
                    proof {
                        assert(x_offset as int == ps4_xoff(k, tx) && y_offset as int == ps4_yoff(
                            k,
                            tx,
                            ty,
                        ));
                    }
                    if x_offset < width_texels_dest && y_offset < height_texels_dest {
                        proof {
                            assert((y_offset as int * wtd + x_offset as int) < wtd * htd)
                                by (nonlinear_arith)
                                requires
                                    0 <= (x_offset as int) < wtd,
                                    0 <= (y_offset as int) < htd,
                            ;
                            lemma_mul_inequality(
                                y_offset as int * wtd + x_offset as int,
                                wtd * htd,
                                bsi,
                            );
                            lemma_mul_is_commutative(
                                y_offset as int * wtd + x_offset as int,
                                bsi,
                            );
                        }
                        let dest_pixel_index: usize = y_offset * width_texels_dest + x_offset;
                        let dest_index: usize = block_size * dest_pixel_index;
                        let (src_off, dst_off) = if unswizzle {
                            (data_index, slice_offset + dest_index)
                        } else {
                            (slice_offset + dest_index, data_index)
                        };
                        copy_block(source, dest, src_off, dst_off, block_size);
                        proof {
                            assert(act(k));
                            assert(sof(k) == src_off as int);
                            assert(dof(k) == dst_off as int);
                            assert(scatter(old(dest)@, source@, sof, dof, act, bsi, k + 1)
                                == write_block(
                                scatter(old(dest)@, source@, sof, dof, act, bsi, k),
                                source@,
                                sof(k),
                                dof(k),
                                bsi,
                            ));
                        }
                    } else {
                        proof {
                            assert(!act(k));
                            assert(scatter(old(dest)@, source@, sof, dof, act, bsi, k + 1)
                                == scatter(old(dest)@, source@, sof, dof, act, bsi, k));
                        }
                    }
                    data_index = data_index + block_size;
                    t = t + 1;
                }
                x = x + 1;
                proof {
                    assert(kbase + 64 == ((z as int * ty + y as int) * tx + x as int) * 64
                        && (kbase + 64) * bsi == ((z as int * ty + y as int) * tx + x as int)
                        * 64 * bsi) by (nonlinear_arith)
                        requires
                            kbase == ((z as int * ty + y as int) * tx + (x as int - 1)) * 64,
                    ;
                }
            }
            y = y + 1;
            proof {
                assert(((z as int * ty + (y as int - 1)) * tx + tx) * 64 == (z as int * ty + y
                    as int) * (tx * 64) && (((z as int * ty + (y as int - 1)) * tx + tx) * 64)
                    * bsi == ((z as int * ty + y as int) * (tx * 64)) * bsi)
                    by (nonlinear_arith);
            }
        }
        z = z + 1;
        proof {
            assert((((z as int - 1) * ty + ty) * (tx * 64)) == z as int * nslice && (((z as int
                - 1) * ty + ty) * (tx * 64)) * bsi == z as int * nslice * bsi)
                by (nonlinear_arith)
                requires
                    nslice == ty * (tx * 64),
            ;
        }
    }
    proof {
        assert(z as int * nslice == di * (ty * (tx * 64))) by (nonlinear_arith)
            requires
                z as int == di,
                nslice == ty * (tx * 64),
        ;
    }
}

/// A step index inside the total step count belongs to a slice in range.
proof fn lemma_ps4_z_bound(k: int, tx: int, ty: int, d: int)
    requires
        tx >= 1,
        ty >= 1,
        d >= 1,
        0 <= k < d * (ty * (tx * 64)),
    ensures
        0 <= ps4_z(k, tx, ty) < d,
{
    assert((d * ty * tx - 1) * 64 + 63 == d * (ty * (tx * 64)) - 1) by (nonlinear_arith);
    lemma_fundamental_div_mod_converse(d * (ty * (tx * 64)) - 1, 64, d * ty * tx - 1, 63);
    lemma_div_is_ordered(k, d * (ty * (tx * 64)) - 1, 64);
    lemma_div_is_ordered(0, k, 64);
    assert((d * ty - 1) * tx + (tx - 1) == d * ty * tx - 1) by (nonlinear_arith);
    lemma_fundamental_div_mod_converse(d * ty * tx - 1, tx, d * ty - 1, tx - 1);
    lemma_div_is_ordered(k / 64, d * ty * tx - 1, tx);
    lemma_div_is_ordered(0, k / 64, tx);
    assert((d - 1) * ty + (ty - 1) == d * ty - 1) by (nonlinear_arith);
    lemma_fundamental_div_mod_converse(d * ty - 1, ty, d - 1, ty - 1);
    lemma_div_is_ordered(k / 64 / tx, d * ty - 1, ty);
    lemma_div_is_ordered(0, k / 64 / tx, ty);
}

/// Round-trip law of the tiled engine: tiling an image of exactly matching
/// size into a tiled buffer that holds the whole padded tile grid, then
/// untiling it, restores the image byte for byte, for any number of depth
/// slices whose linear stride matches the true block grid.
#[verifier::rlimit(100)]
pub proof fn lemma_ps4_round_trip(
    x: Seq<u8>,
    y0: Seq<u8>,
    z0: Seq<u8>,
    w: int,
    h: int,
    d: int,
    bpp: int,
    bs: int,
    pbs: int,
    align: bool,
    compressed: bool,
)
    requires
        pbs >= 1,
        bs >= 1,
        d >= 1,
        x.len() == d * ((w / pbs) * (h / pbs) * bs),
        d == 1 || w * h * bpp == 8 * ((w / pbs) * (h / pbs) * bs),
        z0.len() == x.len(),
        y0.len() >= d * (tiles_of(eff_dim(h, align, compressed) / pbs) * (tiles_of(
            eff_dim(w, align, compressed) / pbs,
        ) * 64) * bs),
        w >= 0,
        h >= 0,
    ensures
        ps4_result(
            z0,
            ps4_result(y0, x, w, h, d, bpp, bs, pbs, false, align, compressed),
            w,
            h,
            d,
            bpp,
            bs,
            pbs,
            true,
            align,
            compressed,
        ) == x,
{
    let wt: int = eff_dim(w, align, compressed) / pbs;
    let ht: int = eff_dim(h, align, compressed) / pbs;
    let wtd: int = w / pbs;
    let htd: int = h / pbs;
    let tx: int = tiles_of(wt);
    let ty: int = tiles_of(ht);
    let ns: int = ty * (tx * 64);
    let n: int = d * ns;
    let sbd: int = wtd * htd * bs;

    lemma_next_pow2_props(w);
    lemma_next_pow2_props(h);
    lemma_div_is_ordered(w, eff_dim(w, align, compressed), pbs);
    lemma_div_is_ordered(h, eff_dim(h, align, compressed), pbs);
    lemma_fundamental_div_mod(wt + 7, 8);
    lemma_mod_bound(wt + 7, 8);
    lemma_fundamental_div_mod(ht + 7, 8);
    lemma_mod_bound(ht + 7, 8);
    lemma_div_pos_is_pos(eff_dim(w, align, compressed), pbs);
    lemma_div_pos_is_pos(eff_dim(h, align, compressed), pbs);
    lemma_div_pos_is_pos(w, pbs);
    lemma_div_pos_is_pos(h, pbs);
    assert(8 * tx >= wt && 8 * ty >= ht && tx >= 0 && ty >= 0 && wt >= 0 && ht >= 0 && wtd >= 0
        && htd >= 0 && wtd <= wt && htd <= ht);
    assert(is_pow2(1int));
    assert(is_pow2(2int));
    assert(is_pow2(4int));
    assert(is_pow2(8int));
    lemma_morton_bijective(8, 8);

    let sof_t: spec_fn(int) -> int = ps4_soff(tx, ty, wtd, bs, w, h, bpp, false);
    let dof_t: spec_fn(int) -> int = ps4_doff(tx, ty, wtd, bs, w, h, bpp, false);
    let sof_u: spec_fn(int) -> int = ps4_soff(tx, ty, wtd, bs, w, h, bpp, true);
    let dof_u: spec_fn(int) -> int = ps4_doff(tx, ty, wtd, bs, w, h, bpp, true);
    let act: spec_fn(int) -> bool = ps4_act(tx, ty, wtd, htd);
    let y = ps4_result(y0, x, w, h, d, bpp, bs, pbs, false, align, compressed);
    let zz = ps4_result(z0, y, w, h, d, bpp, bs, pbs, true, align, compressed);
    assert(y == scatter(y0, x, sof_t, dof_t, act, bs, n));
    assert(zz == scatter(z0, y, sof_u, dof_u, act, bs, n));
    lemma_scatter_len(y0, x, sof_t, dof_t, act, bs, n);
    lemma_scatter_len(z0, y, sof_u, dof_u, act, bs, n);
    assert(n * bs <= y0.len() && d * (ns * bs) == n * bs && d * sbd == x.len())
        by (nonlinear_arith)
        requires
            n == d * ns,
            y0.len() >= d * (ns * bs),
            x.len() == d * sbd,
            sbd == wtd * htd * bs,
    ;

    assert forall|i: int|
        0 <= i < n * bs && wtd >= 1 && htd >= 1 && ps4_xoff(i / bs, tx) < wtd && ps4_yoff(
            i / bs,
            tx,
            ty,
        ) < htd implies y[i] == x[ps4_z(i / bs, tx, ty) * (wtd * htd * bs) + bs * (ps4_yoff(
        i / bs,
        tx,
        ty,
    ) * wtd + ps4_xoff(i / bs, tx)) + (i % bs)] by {
        assert(tx >= 1 && ty >= 1);
        let k: int = i / bs;
        let b: int = i % bs;
        lemma_fundamental_div_mod(i, bs);
        lemma_mod_bound(i, bs);
        lemma_div_is_ordered(0, i, bs);
        assert((n - 1) * bs + (bs - 1) == n * bs - 1) by (nonlinear_arith);
        lemma_fundamental_div_mod_converse(n * bs - 1, bs, n - 1, bs - 1);
        lemma_div_is_ordered(i, n * bs - 1, bs);
        assert(0 <= k < n);
        assert(i == k * bs + b) by (nonlinear_arith)
            requires
                i == bs * k + b,
        ;
        lemma_ps4_recompose(k, tx, ty);
        lemma_ps4_z_bound(k, tx, ty, d);
        let zk: int = ps4_z(k, tx, ty);
        lemma_ps3_slice_base_eq(zk, w, h, bpp, sbd, d);
        let xo: int = ps4_xoff(k, tx);
        let yo: int = ps4_yoff(k, tx, ty);
        assert(morton_i(ps4_t(k), 8, 8) % 8 >= 0 && morton_i(ps4_t(k), 8, 8) / 8 >= 0) by {
            lemma_mod_bound(morton_i(ps4_t(k), 8, 8), 8);
            lemma_div_is_ordered(0, morton_i(ps4_t(k), 8, 8), 8);
        }
        assert(xo >= 0 && yo >= 0) by (nonlinear_arith)
            requires
                xo == ps4_xt(k, tx) * 8 + morton_i(ps4_t(k), 8, 8) % 8,
                yo == ps4_yt(k, tx, ty) * 8 + morton_i(ps4_t(k), 8, 8) / 8,
                ps4_xt(k, tx) >= 0,
                ps4_yt(k, tx, ty) >= 0,
                morton_i(ps4_t(k), 8, 8) % 8 >= 0,
                morton_i(ps4_t(k), 8, 8) / 8 >= 0,
        ;
        assert(0 <= zk * sbd + bs * (yo * wtd + xo) && zk * sbd + bs * (yo * wtd + xo) + bs <= d
            * sbd && (k + 1) * bs <= n * bs && (k + 1) * bs == k * bs + bs && 0 <= k * bs)
            by (nonlinear_arith)
            requires
                0 <= xo < wtd,
                0 <= yo < htd,
                bs >= 1,
                0 <= k < n,
                0 <= zk < d,
                sbd == wtd * htd * bs,
        ;
        assert(sof_t(k) == zk * sbd + bs * (yo * wtd + xo));
        assert(dof_t(k) == k * bs);
        assert(covers(y0.len() as int, x.len() as int, sof_t, dof_t, act, bs, k, i));
        assert forall|k2: int| k < k2 < n implies !covers(
            y0.len() as int,
            x.len() as int,
            sof_t,
            dof_t,
            act,
            bs,
            k2,
            i,
        ) by {
            assert(i < k2 * bs) by (nonlinear_arith)
                requires
                    i == k * bs + b,
                    b < bs,
                    k < k2,
                    bs >= 1,
            ;
        }
        lemma_scatter_hit(y0, x, sof_t, dof_t, act, bs, n, k, i);
        assert(y[i] == x[sof_t(k) + (i - dof_t(k))]);
        assert(sof_t(k) + (i - dof_t(k)) == zk * sbd + bs * (yo * wtd + xo) + b);
    }

    assert forall|i: int| 0 <= i < n * bs && 0 <= i < d * sbd implies zz[i] == x[i] by {
        assert(wtd * htd >= 1 && wtd >= 1 && htd >= 1 && sbd >= 1 && (d - 1) * sbd + (sbd - 1)
            == d * sbd - 1 && (wtd * htd - 1) * bs + (bs - 1) == sbd - 1) by (nonlinear_arith)
            requires
                0 <= i < d * sbd,
                wtd >= 0,
                htd >= 0,
                bs >= 1,
                d >= 1,
                sbd == wtd * htd * bs,
        ;
        assert(tx >= 1 && ty >= 1);
        let zi: int = i / sbd;
        let rem: int = i % sbd;
        lemma_fundamental_div_mod(i, sbd);
        lemma_mod_bound(i, sbd);
        lemma_fundamental_div_mod_converse(d * sbd - 1, sbd, d - 1, sbd - 1);
        lemma_div_is_ordered(i, d * sbd - 1, sbd);
        lemma_div_is_ordered(0, i, sbd);
        assert(0 <= zi < d);
        let j: int = rem / bs;
        let b: int = rem % bs;
        lemma_fundamental_div_mod(rem, bs);
        lemma_mod_bound(rem, bs);
        lemma_fundamental_div_mod_converse(sbd - 1, bs, wtd * htd - 1, bs - 1);
        lemma_div_is_ordered(rem, sbd - 1, bs);
        lemma_div_is_ordered(0, rem, bs);
        assert(0 <= j < wtd * htd);
        let xo: int = j % wtd;
        let yo: int = j / wtd;
        lemma_fundamental_div_mod(j, wtd);
        lemma_mod_bound(j, wtd);
        lemma_div_is_ordered(0, j, wtd);
        assert(yo < htd) by {
            assert((htd - 1) * wtd + (wtd - 1) == wtd * htd - 1) by (nonlinear_arith);
            lemma_fundamental_div_mod_converse(wtd * htd - 1, wtd, htd - 1, wtd - 1);
            lemma_div_is_ordered(j, wtd * htd - 1, wtd);
        }
        let xt_w: int = xo / 8;
        let lx: int = xo % 8;
        let yt_w: int = yo / 8;
        let ly: int = yo % 8;
        lemma_fundamental_div_mod(xo, 8);
        lemma_mod_bound(xo, 8);
        lemma_div_is_ordered(0, xo, 8);
        lemma_fundamental_div_mod(yo, 8);
        lemma_mod_bound(yo, 8);
        lemma_div_is_ordered(0, yo, 8);
        assert(xt_w < tx && yt_w < ty) by {
            assert((tx - 1) * 8 + 7 == 8 * tx - 1 && (ty - 1) * 8 + 7 == 8 * ty - 1)
                by (nonlinear_arith);
            lemma_fundamental_div_mod_converse(8 * tx - 1, 8, tx - 1, 7);
            lemma_fundamental_div_mod_converse(8 * ty - 1, 8, ty - 1, 7);
            lemma_div_is_ordered(xo, 8 * tx - 1, 8);
            lemma_div_is_ordered(yo, 8 * ty - 1, 8);
        }
        let lidx: int = ly * 8 + lx;
        let tw: int = morton_inv(lidx, 8, 8);
        assert(0 <= lidx < 64) by (nonlinear_arith)
            requires
                lidx == ly * 8 + lx,
                0 <= lx < 8,
                0 <= ly < 8,
        ;
        assert(0 <= tw < 64 && morton_i(tw, 8, 8) == lidx);
        let k: int = ((zi * ty + yt_w) * tx + xt_w) * 64 + tw;
        lemma_ps4_decompose(zi, yt_w, xt_w, tw, tx, ty);
        lemma_fundamental_div_mod_converse(lidx, 8, ly, lx);
        assert(ps4_xoff(k, tx) == xo && ps4_yoff(k, tx, ty) == yo);
        assert(act(k));
        assert(0 <= k < n && 0 <= k * bs && (k + 1) * bs <= n * bs && (k + 1) * bs == k * bs
            + bs) by (nonlinear_arith)
            requires
                k == ((zi * ty + yt_w) * tx + xt_w) * 64 + tw,
                0 <= zi < d,
                0 <= yt_w < ty,
                0 <= xt_w < tx,
                0 <= tw < 64,
                n == d * (ty * (tx * 64)),
                bs >= 1,
        ;
        lemma_ps3_slice_base_eq(zi, w, h, bpp, sbd, d);
        assert(j == yo * wtd + xo) by (nonlinear_arith)
            requires
                j == wtd * yo + xo,
        ;
        assert(zi * sbd + bs * j <= i < zi * sbd + bs * j + bs && zi * sbd + bs * j + bs <= d
            * sbd && zi * sbd + bs * j >= 0) by (nonlinear_arith)
            requires
                i == sbd * zi + rem,
                rem == bs * j + b,
                0 <= b < bs,
                0 <= j < wtd * htd,
                0 <= zi < d,
                bs >= 1,
                sbd == wtd * htd * bs,
        ;
        assert(sof_u(k) == k * bs);
        assert(dof_u(k) == zi * sbd + bs * j);
        assert(covers(z0.len() as int, y.len() as int, sof_u, dof_u, act, bs, k, i));
        assert forall|k2: int| k < k2 < n implies !covers(
            z0.len() as int,
            y.len() as int,
            sof_u,
            dof_u,
            act,
            bs,
            k2,
            i,
        ) by {
            if covers(z0.len() as int, y.len() as int, sof_u, dof_u, act, bs, k2, i) {
                lemma_ps4_recompose(k2, tx, ty);
                lemma_ps4_z_bound(k2, tx, ty, d);
                let z2: int = ps4_z(k2, tx, ty);
                lemma_ps3_slice_base_eq(z2, w, h, bpp, sbd, d);
                let xo2: int = ps4_xoff(k2, tx);
                let yo2: int = ps4_yoff(k2, tx, ty);
                let j2: int = yo2 * wtd + xo2;
                let m2: int = morton_i(ps4_t(k2), 8, 8);
                assert(0 <= m2 < 64);
                lemma_fundamental_div_mod(m2, 8);
                lemma_mod_bound(m2, 8);
                lemma_div_is_ordered(0, m2, 8);
                assert(yo2 >= 0 && xo2 >= 0) by (nonlinear_arith)
                    requires
                        xo2 == ps4_xt(k2, tx) * 8 + m2 % 8,
                        yo2 == ps4_yt(k2, tx, ty) * 8 + m2 / 8,
                        ps4_xt(k2, tx) >= 0,
                        ps4_yt(k2, tx, ty) >= 0,
                        m2 % 8 >= 0,
                        m2 / 8 >= 0,
                ;
                assert(0 <= j2 < wtd * htd && i == sbd * z2 + (bs * j2 + (i - z2 * sbd - bs
                    * j2)) && 0 <= bs * j2 + (i - z2 * sbd - bs * j2) < sbd)
                    by (nonlinear_arith)
                    requires
                        z2 * sbd + bs * j2 <= i < z2 * sbd + bs * j2 + bs,
                        j2 == yo2 * wtd + xo2,
                        0 <= xo2 < wtd,
                        0 <= yo2 < htd,
                        bs >= 1,
                        sbd == wtd * htd * bs,
                ;
                lemma_fundamental_div_mod_converse(
                    i,
                    sbd,
                    z2,
                    bs * j2 + (i - z2 * sbd - bs * j2),
                );
                assert(z2 == zi);
                assert(rem == j2 * bs + (i - z2 * sbd - bs * j2) && 0 <= i - z2 * sbd - bs * j2
                    < bs) by (nonlinear_arith)
                    requires
                        rem == bs * j2 + (i - z2 * sbd - bs * j2),
                        z2 * sbd + bs * j2 <= i < z2 * sbd + bs * j2 + bs,
                ;
                lemma_fundamental_div_mod_converse(rem, bs, j2, i - z2 * sbd - bs * j2);
                assert(j2 == j);
                assert(j2 == wtd * yo2 + xo2) by (nonlinear_arith)
                    requires
                        j2 == yo2 * wtd + xo2,
                ;
                lemma_fundamental_div_mod_converse(j, wtd, yo2, xo2);
                assert(xo2 == xo && yo2 == yo);
                lemma_fundamental_div_mod_converse(xo, 8, ps4_xt(k2, tx), m2 % 8);
                lemma_fundamental_div_mod_converse(yo, 8, ps4_yt(k2, tx, ty), m2 / 8);
                assert(ps4_xt(k2, tx) == xt_w && m2 % 8 == lx && ps4_yt(k2, tx, ty) == yt_w
                    && m2 / 8 == ly);
                assert(m2 == lidx);
                assert(ps4_t(k2) == tw);
                assert(k2 == k) by (nonlinear_arith)
                    requires
                        k2 == ((ps4_z(k2, tx, ty) * ty + ps4_yt(k2, tx, ty)) * tx + ps4_xt(
                            k2,
                            tx,
                        )) * 64 + ps4_t(k2),
                        ps4_z(k2, tx, ty) == zi,
                        ps4_yt(k2, tx, ty) == yt_w,
                        ps4_xt(k2, tx) == xt_w,
                        ps4_t(k2) == tw,
                        k == ((zi * ty + yt_w) * tx + xt_w) * 64 + tw,
                ;
            }
        }
        lemma_scatter_hit(z0, y, sof_u, dof_u, act, bs, n, k, i);
        assert(zz[i] == y[k * bs + b]);
        let i2: int = k * bs + b;
        lemma_fundamental_div_mod_converse(i2, bs, k, b);
        assert(0 <= i2 < n * bs) by (nonlinear_arith)
            requires
                i2 == k * bs + b,
                0 <= k < n,
                0 <= b < bs,
        ;
        assert(y[i2] == x[ps4_z(i2 / bs, tx, ty) * (wtd * htd * bs) + bs * (ps4_yoff(
            i2 / bs,
            tx,
            ty,
        ) * wtd + ps4_xoff(i2 / bs, tx)) + (i2 % bs)]);
        assert(zz[i] == x[zi * sbd + bs * j + b]);
        assert(x[zi * sbd + bs * j + b] == x[i]) by (nonlinear_arith)
            requires
                i == sbd * zi + rem,
                rem == bs * j + b,
                x[zi * sbd + bs * j + b] == x[zi * sbd + bs * j + b],
                sbd * zi == zi * sbd,
        ;
    }
    assert(d * sbd <= n * bs) by (nonlinear_arith)
        requires
            0 <= wtd,
            0 <= htd,
            wtd <= 8 * tx,
            htd <= 8 * ty,
            tx >= 0,
            ty >= 0,
            bs >= 1,
            d >= 1,
            sbd == wtd * htd * bs,
            ns == ty * (tx * 64),
            n == d * ns,
    ;
    assert(zz =~= x);
}

} // verus!
