//! The vendor-A simple tiling engine: per-slice block relocation driven
//! directly by the Z-order mapper over the full texel-block grid.

use vstd::prelude::*;
use vstd::arithmetic::div_mod::{
    lemma_div_is_ordered, lemma_div_pos_is_pos, lemma_fundamental_div_mod,
    lemma_fundamental_div_mod_converse, lemma_mod_bound,
};
use vstd::arithmetic::mul::{lemma_mul_inequality, lemma_mul_is_commutative};
use crate::swizzle::blocks::{copy_block, covers, lemma_scatter_hit, lemma_scatter_len, scatter, write_block};
use crate::swizzle::zorder::{
    is_pow2, lemma_morton_bijective, lemma_next_pow2_props, lemma_pow2_pos, lemma_zorder_bounds,
    morton_i, morton_inv, next_pow2_spec, zorder,
};
use crate::swizzle::{eff_dim, grid_bound, morton, next_pow2, slice_base, swizzle_fits, Format};

verus! {

/// The linear-layout byte offset of traversal step `k`: its slice's base
/// plus the Z-order cell of its in-slice index.
pub open spec fn ps3_linear_off(
    ts: int,
    bs: int,
    wt: int,
    ht: int,
    w: int,
    h: int,
    bpp: int,
) -> spec_fn(int) -> int {
    |k: int| slice_base(k / ts, w, h, bpp) + bs * morton_i(k % ts, wt, ht)
}

/// The tiled-layout byte offset of traversal step `k`: the monotone block
/// counter.
pub open spec fn ps3_tiled_off(bs: int) -> spec_fn(int) -> int {
    |k: int| k * bs
}

/// Where traversal step `k` reads.  The direction does not change the
/// address math, only which layout plays the source role.
pub open spec fn ps3_soff(
    ts: int,
    bs: int,
    wt: int,
    ht: int,
    w: int,
    h: int,
    bpp: int,
    unswizzle: bool,
) -> spec_fn(int) -> int {
    if unswizzle {
        ps3_tiled_off(bs)
    } else {
        ps3_linear_off(ts, bs, wt, ht, w, h, bpp)
    }
}

/// Where traversal step `k` writes: the layout the source role leaves over.
pub open spec fn ps3_doff(
    ts: int,
    bs: int,
    wt: int,
    ht: int,
    w: int,
    h: int,
    bpp: int,
    unswizzle: bool,
) -> spec_fn(int) -> int {
    if unswizzle {
        ps3_linear_off(ts, bs, wt, ht, w, h, bpp)
    } else {
        ps3_tiled_off(bs)
    }
}

/// Every step of the simple engine attempts its copy.
pub open spec fn ps3_act() -> spec_fn(int) -> bool {
    |k: int| true
}

/// The destination contents after one run of the simple engine.
pub open spec fn ps3_result(
    dest0: Seq<u8>,
    src: Seq<u8>,
    w: int,
    h: int,
    d: int,
    bpp: int,
    bs: int,
    pbs: int,
    unswizzle: bool,
    align: bool,
    compressed: bool,
) -> Seq<u8> {
    let wt: int = eff_dim(w, align, compressed) / pbs;
    let ht: int = eff_dim(h, align, compressed) / pbs;
    let ts: int = wt * ht;
    scatter(
        dest0,
        src,
        ps3_soff(ts, bs, wt, ht, w, h, bpp, unswizzle),
        ps3_doff(ts, bs, wt, ht, w, h, bpp, unswizzle),
        ps3_act(),
        bs,
        d * ts,
    )
}

/// Relocates texel blocks of one image between the linear layout and the
/// Z-order tiled layout, one depth slice at a time.  A block whose computed
/// source or destination range does not fit its buffer is skipped; the
/// destination is never resized.
#[verifier::loop_isolation(false)]
pub fn do_swizzle<T: Format>(
    source: &Vec<u8>,
    dest: &mut Vec<u8>,
    dimensions: (usize, usize, usize),
    format: T,
    unswizzle: bool,
    align_resolution: bool,
)
    requires
        swizzle_fits(
            dimensions.0 as int,
            dimensions.1 as int,
            dimensions.2 as int,
            format.spec_bpp() as int,
            format.spec_block_size() as int,
            format.spec_pixel_block_size() as int,
        ),
    ensures
        final(dest)@.len() == old(dest)@.len(),
        final(dest)@ == ps3_result(
            old(dest)@,
            source@,
            dimensions.0 as int,
            dimensions.1 as int,
            dimensions.2 as int,
            format.spec_bpp() as int,
            format.spec_block_size() as int,
            format.spec_pixel_block_size() as int,
            unswizzle,
            align_resolution,
            format.spec_is_compressed(),
        ),
{
    let (width, height, depth) = dimensions;
    let pixel_block_size: usize = format.pixel_block_size();
    let block_size: usize = format.block_size();
    let bpp: usize = format.bpp();
    let compressed: bool = format.is_compressed();

    let ghost wi: int = width as int;
    let ghost hi: int = height as int;
    let ghost di: int = depth as int;
    let ghost bsi: int = block_size as int;
    let ghost bppi: int = bpp as int;
    let ghost pbsi: int = pixel_block_size as int;

    proof {
        lemma_next_pow2_props(wi);
        lemma_next_pow2_props(hi);
    }
    let (width_src, height_src) = if align_resolution && compressed {
        (next_pow2(width), next_pow2(height))
    } else {
        (width, height)
    };

    let width_texels: usize = width_src / pixel_block_size;
    let height_texels: usize = height_src / pixel_block_size;

    let ghost wt: int = width_texels as int;
    let ghost ht: int = height_texels as int;
    let ghost gw: int = grid_bound(wi, pbsi);
    let ghost gh: int = grid_bound(hi, pbsi);
    proof {
        lemma_div_is_ordered(width_src as int, next_pow2_spec(wi), pbsi);
        lemma_div_is_ordered(height_src as int, next_pow2_spec(hi), pbsi);
        lemma_div_pos_is_pos(next_pow2_spec(wi), pbsi);
        lemma_div_pos_is_pos(next_pow2_spec(hi), pbsi);
        assert(gw >= 8 && gh >= 8);
        assert(wt <= gw && ht <= gh);
        lemma_mul_inequality(wt, gw, ht);
        lemma_mul_is_commutative(gw, ht);
        lemma_mul_inequality(ht, gh, gw);
        lemma_mul_is_commutative(gw, gh);
        assert(gw * gh <= gw * gh * bsi) by (nonlinear_arith)
            requires
                bsi >= 1,
                gw >= 0,
                gh >= 0,
        ;
    }
    let texel_size: usize = width_texels * height_texels;
    let ghost ts: int = wt * ht;
    let ghost sof: spec_fn(int) -> int = ps3_soff(ts, bsi, wt, ht, wi, hi, bppi, unswizzle);
    let ghost dof: spec_fn(int) -> int = ps3_doff(ts, bsi, wt, ht, wi, hi, bppi, unswizzle);
    let ghost act: spec_fn(int) -> bool = ps3_act();

    proof {
        assert(ts * bsi <= gw * gh * bsi) by (nonlinear_arith)
            requires
                ts >= 0,
                bsi >= 0,
                ts <= gw * gh,
        ;
        assert(di * ts * bsi <= di * (gw * gh * bsi)) by (nonlinear_arith)
            requires
                di >= 0,
                ts * bsi <= gw * gh * bsi,
                ts * bsi >= 0,
        ;
    }

    let mut data_index: usize = 0;
    let mut z: usize = 0;

    while z < depth
        invariant
            z <= depth,
            data_index as int == z as int * ts * bsi,
            dest@.len() == old(dest)@.len(),
            dest@ == scatter(old(dest)@, source@, sof, dof, act, bsi, z as int * ts),
        decreases depth - z,
    {
        proof {
            assert(z as int * wi <= di * wi && z as int * wi * hi <= di * wi * hi && z as int
                * wi * hi * bppi <= di * wi * hi * bppi) by (nonlinear_arith)
                requires
                    0 <= z as int <= di,
                    wi >= 0,
                    hi >= 0,
                    bppi >= 0,
            ;
            lemma_div_is_ordered(z as int * wi * hi * bppi, di * wi * hi * bppi, 8);
        }
        let slice_offset: usize = (z * width * height * bpp) / 8;
        let mut t: usize = 0;

        proof {
            assert(z as int * ts * bsi == (z as int * ts + 0) * bsi) by (nonlinear_arith);
        }
        while t < texel_size
            invariant
                t <= texel_size,
                z < depth,
                slice_offset as int == slice_base(z as int, wi, hi, bppi),
                data_index as int == (z as int * ts + t as int) * bsi,
                dest@.len() == old(dest)@.len(),
                dest@ == scatter(old(dest)@, source@, sof, dof, act, bsi, z as int * ts + t as int),
            decreases texel_size - t,
        {
            let ghost k: int = z as int * ts + t as int;
            proof {
                assert(wt >= 1 && ht >= 1) by (nonlinear_arith)
                    requires
                        wt >= 0,
                        ht >= 0,
                        wt * ht >= 1,
                ;
                assert(0 <= z as int * ts) by (nonlinear_arith)
                    requires
                        z as int >= 0,
                        ts >= 0,
                ;
                lemma_fundamental_div_mod_converse(k, ts, z as int, t as int);
                lemma_zorder_bounds(t as nat, wt as nat, ht as nat);
                let zc = zorder(t as nat, wt as nat, ht as nat);
                lemma_mul_inequality(zc.1 as int, ht - 1, wt);
                assert((ht - 1) * wt == ht * wt - wt) by (nonlinear_arith);
                lemma_mul_is_commutative(ht, wt);
                assert(morton_i(t as int, wt, ht) < ts);
                assert((z as int * ts + t as int) < di * ts) by (nonlinear_arith)
                    requires
                        0 <= z as int <= di - 1,
                        0 <= (t as int) < ts,
                ;
            }
            let pixel_index: usize = morton(t, width_texels, height_texels);
            proof {
                lemma_mul_inequality(pixel_index as int, ts, bsi);
                lemma_mul_is_commutative(pixel_index as int, bsi);
                lemma_mul_is_commutative(ts, bsi);
                assert((k + 1) * bsi == k * bsi + bsi) by (nonlinear_arith);
                lemma_mul_inequality(k + 1, di * ts, bsi);
                lemma_mul_is_commutative(k + 1, bsi);
                lemma_mul_is_commutative(di * ts, bsi);
                assert(gw * gh * bsi <= di * (gw * gh * bsi)) by (nonlinear_arith)
                    requires
                        di >= 1,
                        gw * gh * bsi >= 0,
                ;
            }
            let dest_index: usize = block_size * pixel_index;
            let (src_off, dst_off) = if unswizzle {
                (data_index, slice_offset + dest_index)
            } else {
                (slice_offset + dest_index, data_index)
            };
            copy_block(source, dest, src_off, dst_off, block_size);
            proof {
                assert(act(k));
                assert(sof(k) == src_off as int);
                assert(dof(k) == dst_off as int);
                assert(scatter(old(dest)@, source@, sof, dof, act, bsi, k + 1) == write_block(
                    scatter(old(dest)@, source@, sof, dof, act, bsi, k),
                    source@,
                    sof(k),
                    dof(k),
                    bsi,
                ));
            }
            data_index = data_index + block_size;
            t = t + 1;
        }
        z = z + 1;
        proof {
            assert((z as int - 1) * ts + ts == z as int * ts) by (nonlinear_arith);
            assert(((z as int - 1) * ts + ts) * bsi == z as int * ts * bsi) by (nonlinear_arith);
        }
    }
}

/// Round-trip law of the simple engine: tiling an image of exactly matching
/// size and untiling the result restores it byte for byte, for any number of
/// depth slices whose linear stride matches the block grid, on texel-block
/// grids whose extents are powers of two (the grids on which the Z-order
/// mapper is a bijection).
#[verifier::rlimit(60)]
pub proof fn lemma_ps3_round_trip(
    x: Seq<u8>,
    y0: Seq<u8>,
    z0: Seq<u8>,
    w: int,
    h: int,
    d: int,
    bpp: int,
    bs: int,
    pbs: int,
    align: bool,
    compressed: bool,
)
    requires
        pbs >= 1,
        bs >= 1,
        d >= 1,
        is_pow2(eff_dim(w, align, compressed) / pbs),
        is_pow2(eff_dim(h, align, compressed) / pbs),
        x.len() == d * ((eff_dim(w, align, compressed) / pbs) * (eff_dim(h, align, compressed)
            / pbs) * bs),
        d == 1 || w * h * bpp == 8 * ((eff_dim(w, align, compressed) / pbs) * (eff_dim(
            h,
            align,
            compressed,
        ) / pbs) * bs),
        z0.len() == x.len(),
        y0.len() >= x.len(),
    ensures
        ps3_result(
            z0,
            ps3_result(y0, x, w, h, d, bpp, bs, pbs, false, align, compressed),
            w,
            h,
            d,
            bpp,
            bs,
            pbs,
            true,
            align,
            compressed,
        ) == x,
{
    let wt: int = eff_dim(w, align, compressed) / pbs;
    let ht: int = eff_dim(h, align, compressed) / pbs;
    let ts: int = wt * ht;
    let sb: int = ts * bs;
    let n: int = d * ts;
    lemma_pow2_pos(wt);
    lemma_pow2_pos(ht);
    assert(wt * ht >= 1) by (nonlinear_arith)
        requires
            wt >= 1,
            ht >= 1,
    ;
    assert(sb >= 1 && n >= 1 && n * bs == d * sb && (n - 1) * bs + (bs - 1) == n * bs - 1 && (d
        - 1) * sb + (sb - 1) == d * sb - 1 && (ts - 1) * bs + (bs - 1) == sb - 1)
        by (nonlinear_arith)
        requires
            ts >= 1,
            bs >= 1,
            d >= 1,
            sb == ts * bs,
            n == d * ts,
    ;
    lemma_morton_bijective(wt, ht);
    let sof_t: spec_fn(int) -> int = ps3_soff(ts, bs, wt, ht, w, h, bpp, false);
    let dof_t: spec_fn(int) -> int = ps3_doff(ts, bs, wt, ht, w, h, bpp, false);
    let sof_u: spec_fn(int) -> int = ps3_soff(ts, bs, wt, ht, w, h, bpp, true);
    let dof_u: spec_fn(int) -> int = ps3_doff(ts, bs, wt, ht, w, h, bpp, true);
    let act: spec_fn(int) -> bool = ps3_act();
    let y = ps3_result(y0, x, w, h, d, bpp, bs, pbs, false, align, compressed);
    let zz = ps3_result(z0, y, w, h, d, bpp, bs, pbs, true, align, compressed);
    assert(y == scatter(y0, x, sof_t, dof_t, act, bs, n));
    assert(zz == scatter(z0, y, sof_u, dof_u, act, bs, n));
    lemma_scatter_len(y0, x, sof_t, dof_t, act, bs, n);
    lemma_scatter_len(z0, y, sof_u, dof_u, act, bs, n);

    assert forall|i: int| 0 <= i < n * bs implies y[i] == x[(i / bs / ts) * sb + bs * morton_i(
        i / bs % ts,
        wt,
        ht,
    ) + (i % bs)] by {
        let kk: int = i / bs;
        let b: int = i % bs;
        lemma_fundamental_div_mod(i, bs);
        lemma_mod_bound(i, bs);
        lemma_div_is_ordered(i, n * bs - 1, bs);
        lemma_fundamental_div_mod_converse(n * bs - 1, bs, n - 1, bs - 1);
        lemma_div_is_ordered(0, i, bs);
        let zk: int = kk / ts;
        let t: int = kk % ts;
        lemma_fundamental_div_mod(kk, ts);
        lemma_mod_bound(kk, ts);
        lemma_div_is_ordered(0, kk, ts);
        assert(zk < d) by {
            assert((d - 1) * ts + (ts - 1) == n - 1) by (nonlinear_arith)
                requires
                    n == d * ts,
            ;
            lemma_fundamental_div_mod_converse(n - 1, ts, d - 1, ts - 1);
            lemma_div_is_ordered(kk, n - 1, ts);
        }
        lemma_ps3_slice_base_eq(zk, w, h, bpp, sb, d);
        let m: int = morton_i(t, wt, ht);
        assert(0 <= zk * sb + bs * m && zk * sb + bs * m + bs <= d * sb) by (nonlinear_arith)
            requires
                0 <= zk < d,
                0 <= m < ts,
                bs >= 1,
                sb == ts * bs,
        ;
        lemma_mul_is_commutative(kk, bs);
        assert(kk * bs <= i < kk * bs + bs);
        assert((kk + 1) * bs <= n * bs && (kk + 1) * bs == kk * bs + bs) by (nonlinear_arith)
            requires
                0 <= kk < n,
                bs >= 1,
        ;
        assert(sof_t(kk) == zk * sb + bs * m);
        assert(dof_t(kk) == kk * bs);
        assert(covers(y0.len() as int, x.len() as int, sof_t, dof_t, act, bs, kk, i));
        assert forall|k2: int| kk < k2 < n implies !covers(
            y0.len() as int,
            x.len() as int,
            sof_t,
            dof_t,
            act,
            bs,
            k2,
            i,
        ) by {
            lemma_mul_inequality(kk + 1, k2, bs);
            lemma_mul_is_commutative(kk, bs);
            assert((kk + 1) * bs == kk * bs + bs) by (nonlinear_arith);
        }
        lemma_scatter_hit(y0, x, sof_t, dof_t, act, bs, n, kk, i);
        assert(y[i] == x[sof_t(kk) + (i - dof_t(kk))]);
        assert(sof_t(kk) + (i - dof_t(kk)) == zk * sb + bs * m + b);
    }

    assert forall|i: int| 0 <= i < n * bs implies zz[i] == x[i] by {
        let zi: int = i / sb;
        let rem: int = i % sb;
        lemma_fundamental_div_mod(i, sb);
        lemma_mod_bound(i, sb);
        lemma_div_is_ordered(i, d * sb - 1, sb);
        lemma_fundamental_div_mod_converse(d * sb - 1, sb, d - 1, sb - 1);
        lemma_div_is_ordered(0, i, sb);
        assert(0 <= zi < d);
        let j: int = rem / bs;
        let b: int = rem % bs;
        lemma_fundamental_div_mod(rem, bs);
        lemma_mod_bound(rem, bs);
        lemma_div_is_ordered(rem, sb - 1, bs);
        lemma_fundamental_div_mod_converse(sb - 1, bs, ts - 1, bs - 1);
        lemma_div_is_ordered(0, rem, bs);
        assert(0 <= j < ts);
        let tt: int = morton_inv(j, wt, ht);
        assert(0 <= tt < ts && morton_i(tt, wt, ht) == j);
        let k: int = zi * ts + tt;
        lemma_fundamental_div_mod_converse(k, ts, zi, tt);
        assert(0 <= k < n && (k + 1) * bs <= n * bs && (k + 1) * bs == k * bs + bs && 0 <= k
            * bs) by (nonlinear_arith)
            requires
                0 <= zi < d,
                0 <= tt < ts,
                k == zi * ts + tt,
                n == d * ts,
                bs >= 1,
                ts >= 1,
        ;
        lemma_ps3_slice_base_eq(zi, w, h, bpp, sb, d);
        assert(sof_u(k) == k * bs);
        assert(dof_u(k) == zi * sb + bs * j);
        assert(zi * sb + bs * j <= i < zi * sb + bs * j + bs && zi * sb + bs * j + bs <= d * sb
            && 0 <= zi * sb + bs * j) by (nonlinear_arith)
            requires
                i == sb * zi + rem,
                rem == bs * j + b,
                0 <= b < bs,
                0 <= j < ts,
                0 <= zi < d,
                sb == ts * bs,
                bs >= 1,
        ;
        assert(covers(z0.len() as int, y.len() as int, sof_u, dof_u, act, bs, k, i));
        assert forall|k2: int| k < k2 < n implies !covers(
            z0.len() as int,
            y.len() as int,
            sof_u,
            dof_u,
            act,
            bs,
            k2,
            i,
        ) by {
            if covers(z0.len() as int, y.len() as int, sof_u, dof_u, act, bs, k2, i) {
                let z2: int = k2 / ts;
                let t2: int = k2 % ts;
                lemma_fundamental_div_mod(k2, ts);
                lemma_mod_bound(k2, ts);
                lemma_div_is_ordered(0, k2, ts);
                assert(z2 < d) by {
                    assert((d - 1) * ts + (ts - 1) == n - 1) by (nonlinear_arith)
                        requires
                            n == d * ts,
                    ;
                    lemma_fundamental_div_mod_converse(n - 1, ts, d - 1, ts - 1);
                    lemma_div_is_ordered(k2, n - 1, ts);
                }
                lemma_ps3_slice_base_eq(z2, w, h, bpp, sb, d);
                let m2: int = morton_i(t2, wt, ht);
                assert(z2 * sb + bs * m2 <= i < z2 * sb + bs * m2 + bs);
                assert(i == sb * z2 + (bs * m2 + (i - z2 * sb - bs * m2)) && 0 <= bs * m2 + (i
                    - z2 * sb - bs * m2) < sb) by (nonlinear_arith)
                    requires
                        z2 * sb + bs * m2 <= i < z2 * sb + bs * m2 + bs,
                        0 <= m2 < ts,
                        bs >= 1,
                        sb == ts * bs,
                ;
                lemma_fundamental_div_mod_converse(i, sb, z2, bs * m2 + (i - z2 * sb - bs * m2));
                assert(z2 == zi);
                assert(rem == m2 * bs + (i - z2 * sb - bs * m2) && 0 <= i - z2 * sb - bs * m2
                    < bs) by (nonlinear_arith)
                    requires
                        rem == bs * m2 + (i - z2 * sb - bs * m2),
                        z2 * sb + bs * m2 <= i < z2 * sb + bs * m2 + bs,
                ;
                lemma_fundamental_div_mod_converse(rem, bs, m2, i - z2 * sb - bs * m2);
                assert(m2 == j);
                assert(morton_i(t2, wt, ht) == morton_i(tt, wt, ht));
                assert(t2 == tt);
                assert(k2 == ts * z2 + t2);
                assert(k2 == k) by (nonlinear_arith)
                    requires
                        k2 == ts * z2 + t2,
                        k == zi * ts + tt,
                        z2 == zi,
                        t2 == tt,
                ;
            }
        }
        lemma_scatter_hit(z0, y, sof_u, dof_u, act, bs, n, k, i);
        let i2: int = k * bs + b;
        assert(zz[i] == y[i2]);
        lemma_fundamental_div_mod_converse(i2, bs, k, b);
        assert(0 <= i2 < n * bs) by (nonlinear_arith)
            requires
                0 <= k < n,
                0 <= b < bs,
                i2 == k * bs + b,
                bs >= 1,
        ;
        assert(y[i2] == x[(i2 / bs / ts) * sb + bs * morton_i(i2 / bs % ts, wt, ht) + (i2
            % bs)]);
        lemma_fundamental_div_mod_converse(k, ts, zi, tt);
        assert(x[zi * sb + bs * j + b] == x[i]) by (nonlinear_arith)
            requires
                i == sb * zi + rem,
                rem == bs * j + b,
                x[zi * sb + bs * j + b] == x[zi * sb + bs * j + b],
                sb * zi == zi * sb,
        ;
    }
    assert(zz =~= x);
    assert(zz.len() == x.len());
}

/// The byte offset where depth slice `z` starts, when the linear stride of
/// one slice equals the block grid`s byte size (always so for one slice).
pub(crate) proof fn lemma_ps3_slice_base_eq(z: int, w: int, h: int, bpp: int, sb: int, d: int)
    requires
        0 <= z < d,
        d == 1 || w * h * bpp == 8 * sb,
    ensures
        slice_base(z, w, h, bpp) == z * sb,
{
    if d == 1 {
        lemma_slice_base_zero(z, w, h, bpp);
        assert(z * sb == 0) by (nonlinear_arith)
            requires
                z == 0,
        ;
    } else {
        assert(z * w * h * bpp == 8 * (z * sb)) by (nonlinear_arith)
            requires
                w * h * bpp == 8 * sb,
        ;
        lemma_fundamental_div_mod_converse(8 * (z * sb), 8, z * sb, 0);
    }
}

/// Slice zero starts at byte offset zero.
proof fn lemma_slice_base_zero(z: int, w: int, h: int, bpp: int)
    requires
        z == 0,
    ensures
        slice_base(z, w, h, bpp) == 0,
{
    assert(z * w == 0) by (nonlinear_arith)
        requires
            z == 0,
    ;
    assert(z * w * h == 0) by (nonlinear_arith)
        requires
            z * w == 0,
    ;
    assert(z * w * h * bpp == 0) by (nonlinear_arith)
        requires
            z * w * h == 0,
    ;
}

} // verus!
