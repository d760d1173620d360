//! The vendor-B driver surface: the two-stage byte-order transform applied
//! around the tiled address translation, and the engine's directional entry
//! points.

use vstd::prelude::*;
use vstd::arithmetic::div_mod::{
    lemma_div_is_ordered, lemma_fundamental_div_mod, lemma_fundamental_div_mod_converse,
    lemma_mod_bound,
};
use crate::swizzle::blocks::{lemma_scatter_len, scatter, write_block};
use crate::swizzle::{Deswizzler, Format, SwizzleError, Swizzler};

verus! {

/// Every adjacent pair of bytes exchanged — the 16-bit endianness fix.  A
/// trailing unpaired byte stays in place.
pub open spec fn swap2_spec(s: Seq<u8>) -> Seq<u8> {
    Seq::new(
        s.len(),
        |i: int|
            if i % 2 == 0 {
                if i + 1 < s.len() {
                    s[i + 1]
                } else {
                    s[i]
                }
            } else {
                s[i - 1]
            },
    )
}

/// Every complete 4-byte group rotated one position left; a trailing
/// incomplete group stays in place.
pub open spec fn rot4_spec(s: Seq<u8>) -> Seq<u8> {
    Seq::new(
        s.len(),
        |i: int|
            if i - i % 4 + 4 <= s.len() {
                if i % 4 == 3 {
                    s[i - 3]
                } else {
                    s[i + 1]
                }
            } else {
                s[i]
            },
    )
}

/// Swaps every adjacent pair of bytes of the buffer in place.
pub fn swap_byte_order_x360(image_data: &mut Vec<u8>)
    ensures
        final(image_data)@.len() == old(image_data)@.len(),
        final(image_data)@ == swap2_spec(old(image_data)@),
{
    let mut i: usize = 0;
    while image_data.len() - i >= 2
        invariant
            i <= image_data.len(),
            i % 2 == 0,
            image_data@.len() == old(image_data)@.len(),
            forall|j: int|
                0 <= j < image_data@.len() ==> image_data@[j] == (if j < i {
                    if j % 2 == 0 {
                        old(image_data)@[j + 1]
                    } else {
                        old(image_data)@[j - 1]
                    }
                } else {
                    old(image_data)@[j]
                }),
        decreases image_data.len() - i,
    {
        let a: u8 = image_data[i];
        let b: u8 = image_data[i + 1];
        image_data.set(i, b);
        image_data.set(i + 1, a);
        i = i + 2;
    }
    assert(image_data@ =~= swap2_spec(old(image_data)@));
}

/// Rotates every complete 4-byte group of the buffer one position left in
/// place: `[a, b, c, d]` becomes `[b, c, d, a]`.
pub fn rotate_groups_x360(image_data: &mut Vec<u8>)
    ensures
        final(image_data)@.len() == old(image_data)@.len(),
        final(image_data)@ == rot4_spec(old(image_data)@),
{
    let mut g: usize = 0;
    while image_data.len() - g >= 4
        invariant
            g <= image_data.len(),
            g % 4 == 0,
            image_data@.len() == old(image_data)@.len(),
            forall|j: int|
                0 <= j < image_data@.len() ==> image_data@[j] == (if j < g {
                    if j % 4 == 3 {
                        old(image_data)@[j - 3]
                    } else {
                        old(image_data)@[j + 1]
                    }
                } else {
                    old(image_data)@[j]
                }),
        decreases image_data.len() - g,
    {
        let a: u8 = image_data[g];
        let b: u8 = image_data[g + 1];
        let c: u8 = image_data[g + 2];
        let d: u8 = image_data[g + 3];
        image_data.set(g, b);
        image_data.set(g + 1, c);
        image_data.set(g + 2, d);
        image_data.set(g + 3, a);
        proof {
            lemma_fundamental_div_mod_converse(g as int, 4, g as int / 4, 0);
            lemma_fundamental_div_mod_converse(g as int + 1, 4, g as int / 4, 1);
            lemma_fundamental_div_mod_converse(g as int + 2, 4, g as int / 4, 2);
            lemma_fundamental_div_mod_converse(g as int + 3, 4, g as int / 4, 3);
            lemma_fundamental_div_mod_converse(g as int + 4, 4, g as int / 4 + 1, 0);
        }
        g = g + 4;
    }
    proof {
        let fin = image_data@;
        let orig = old(image_data)@;
        assert forall|j: int| 0 <= j < fin.len() implies fin[j] == rot4_spec(orig)[j] by {
            if g <= j {
                lemma_floor4_at_least(j, g as int);
            }
        }
    }
    assert(image_data@ =~= rot4_spec(old(image_data)@));
}

/// A position at or past a 4-aligned bound floors to a group start at or
/// past that bound.
pub(crate) proof fn lemma_floor4_at_least(j: int, g: int)
    requires
        0 <= g <= j,
        g % 4 == 0,
    ensures
        j - j % 4 >= g,
{
    lemma_fundamental_div_mod(j, 4);
    lemma_mod_bound(j, 4);
    lemma_fundamental_div_mod(g, 4);
    assert(4 * (j / 4) >= 4 * (g / 4)) by {
        lemma_div_is_ordered(g, j, 4);
    }
}

/// The byte-order law: the transform pair (pair swap before the tiling step,
/// 4-byte rotation after it) that the encode pass applies is undone by the
/// decode pass applying the same pair.  The incomplete tail, which the
/// rotation leaves alone and the swap touches at most as one whole pair, is
/// restored as well, so no length restriction is needed.
pub proof fn lemma_byte_order_round_trip(s: Seq<u8>)
    ensures
        rot4_spec(swap2_spec(rot4_spec(swap2_spec(s)))) == s,
{
    let s1 = swap2_spec(s);
    let s2 = rot4_spec(s1);
    let s3 = swap2_spec(s2);
    let s4 = rot4_spec(s3);
    let len: int = s.len() as int;
    lemma_fundamental_div_mod(len, 4);
    lemma_mod_bound(len, 4);
    let tail: int = len - len % 4;
    assert forall|i: int| 0 <= i < len implies s4[i] == s[i] by {
        let q: int = i / 4;
        let r: int = i % 4;
        lemma_fundamental_div_mod(i, 4);
        lemma_mod_bound(i, 4);
        lemma_fundamental_div_mod(i, 2);
        lemma_mod_bound(i, 2);
        if i < tail {
            assert(4 * q + 4 <= len) by {
                lemma_fundamental_div_mod_converse(tail - 1, 4, len / 4 - 1, 3);
                lemma_div_is_ordered(i, tail - 1, 4);
            }
            if r == 0 {
                lemma_fundamental_div_mod_converse(i, 2, 2 * q, 0);
                lemma_fundamental_div_mod_converse(i + 1, 2, 2 * q, 1);
            } else if r == 1 {
                lemma_fundamental_div_mod_converse(i + 1, 2, 2 * q + 1, 0);
                lemma_fundamental_div_mod_converse(i + 2, 4, q, 3);
                lemma_fundamental_div_mod_converse(i + 2, 2, 2 * q + 1, 1);
                lemma_fundamental_div_mod_converse(i - 1, 2, 2 * q, 0);
                lemma_fundamental_div_mod_converse(i - 1, 4, q, 0);
            } else if r == 2 {
                lemma_fundamental_div_mod_converse(i, 2, 2 * q + 1, 0);
                lemma_fundamental_div_mod_converse(i + 1, 2, 2 * q + 1, 1);
            } else {
                lemma_fundamental_div_mod_converse(i - 3, 2, 2 * q, 0);
                lemma_fundamental_div_mod_converse(i - 2, 4, q, 1);
                lemma_fundamental_div_mod_converse(i - 1, 2, 2 * q + 1, 0);
            }
        } else {
            // Inside the incomplete tail the rotations are the identity and
            // the swap moves bytes only between tail positions, so two swap
            // passes cancel.
            assert(i - i % 4 + 4 > len) by {
                lemma_fundamental_div_mod_converse(tail, 4, len / 4, 0);
                lemma_floor4_at_least(i, tail);
            }
            if i % 2 == 0 {
                if i + 1 < len {
                    lemma_fundamental_div_mod_converse(i + 1, 4, q, r + 1);
                    lemma_fundamental_div_mod_converse(i + 1, 2, i / 2, 1);
                    assert((i + 1) - (i + 1) % 4 + 4 > len);
                }
            } else {
                assert(i - 1 >= tail) by {
                    if i - 1 < tail {
                        lemma_fundamental_div_mod_converse(i, 4, len / 4, 0);
                    }
                }
                lemma_fundamental_div_mod_converse(i - 1, 4, q, r - 1);
                lemma_fundamental_div_mod_converse(i - 1, 2, i / 2, 0);
                assert((i - 1) - (i - 1) % 4 + 4 > len);
            }
        }
    }
    assert(s4 =~= s);
}

/// A position below a 4-aligned bound keeps its whole group below it.
pub(crate) proof fn lemma_group4_below(j: int, a: int)
    requires
        0 <= j < a,
        a % 4 == 0,
    ensures
        (j - j % 4) + 3 < a,
{
    lemma_fundamental_div_mod(j, 4);
    lemma_mod_bound(j, 4);
    lemma_fundamental_div_mod(a, 4);
    lemma_div_is_ordered(j, a - 1, 4);
    lemma_fundamental_div_mod_converse(a - 1, 4, a / 4 - 1, 3);
}

/// A 4-aligned bound is also pair-aligned.
pub(crate) proof fn lemma_aligned4_even(a: int)
    requires
        a % 4 == 0,
    ensures
        a % 2 == 0,
{
    lemma_fundamental_div_mod(a, 4);
    lemma_fundamental_div_mod_converse(a, 2, 2 * (a / 4), 0);
}

/// A position at or past a pair-aligned bound floors to a pair start at or
/// past that bound.
pub(crate) proof fn lemma_floor2_at_least(j: int, g: int)
    requires
        0 <= g <= j,
        g % 2 == 0,
    ensures
        j - j % 2 >= g,
{
    lemma_fundamental_div_mod(j, 2);
    lemma_mod_bound(j, 2);
    lemma_fundamental_div_mod(g, 2);
    assert(2 * (j / 2) >= 2 * (g / 2)) by {
        lemma_div_is_ordered(g, j, 2);
    }
}

/// A position below a pair-aligned bound keeps its whole pair below it.
pub(crate) proof fn lemma_pair2_below(j: int, a: int)
    requires
        0 <= j < a,
        a % 2 == 0,
    ensures
        (j - j % 2) + 1 < a,
{
    lemma_fundamental_div_mod(j, 2);
    lemma_mod_bound(j, 2);
    lemma_fundamental_div_mod(a, 2);
    lemma_div_is_ordered(j, a - 1, 2);
    lemma_fundamental_div_mod_converse(a - 1, 2, a / 2 - 1, 1);
}

/// The pair swap alone is an involution.
pub proof fn lemma_swap2_involution(s: Seq<u8>)
    ensures
        swap2_spec(swap2_spec(s)) == s,
{
    let s1 = swap2_spec(s);
    let s2 = swap2_spec(s1);
    assert forall|i: int| 0 <= i < s.len() implies s2[i] == s[i] by {
        lemma_fundamental_div_mod(i, 2);
        lemma_mod_bound(i, 2);
        if i % 2 == 0 {
            if i + 1 < s.len() {
                lemma_fundamental_div_mod_converse(i + 1, 2, i / 2, 1);
            }
        } else {
            lemma_fundamental_div_mod_converse(i - 1, 2, i / 2, 0);
        }
    }
    assert(s2 =~= s);
}

/// The 4-byte rotation passes through a block copy whose offsets and block
/// size are 4-aligned in buffers of whole 4-byte groups.
pub(crate) proof fn lemma_rot4_write_block(d: Seq<u8>, s: Seq<u8>, so: int, dofs: int, bs: int)
    requires
        d.len() as int % 4 == 0,
        s.len() as int % 4 == 0,
        so % 4 == 0,
        dofs % 4 == 0,
        bs % 4 == 0,
        bs >= 0,
    ensures
        rot4_spec(write_block(d, s, so, dofs, bs)) == write_block(
            rot4_spec(d),
            rot4_spec(s),
            so,
            dofs,
            bs,
        ),
{
    let wb = write_block(d, s, so, dofs, bs);
    let lhs = rot4_spec(wb);
    let rhs = write_block(rot4_spec(d), rot4_spec(s), so, dofs, bs);
    if 0 <= so && so + bs <= s.len() && 0 <= dofs && dofs + bs <= d.len() {
        assert forall|i: int| 0 <= i < d.len() implies lhs[i] == rhs[i] by {
            lemma_fundamental_div_mod(i, 4);
            lemma_mod_bound(i, 4);
            let q: int = i / 4;
            lemma_group4_below(i, d.len() as int);
            lemma_fundamental_div_mod(so, 4);
            lemma_fundamental_div_mod(dofs, 4);
            if dofs <= i < dofs + bs {
                lemma_floor4_at_least(i, dofs);
                lemma_group4_below(i, dofs + bs);
                let ii: int = so + i - dofs;
                lemma_fundamental_div_mod_converse(ii, 4, so / 4 - dofs / 4 + q, i % 4);
                lemma_group4_below(ii, s.len() as int);
            } else if i < dofs {
                lemma_group4_below(i, dofs);
            } else {
                lemma_floor4_at_least(i, dofs + bs);
            }
        }
        assert(lhs =~= rhs);
    } else {
    }
}

/// The pair swap passes through a block copy whose offsets and block size
/// are 4-aligned in buffers of whole 4-byte groups.
pub(crate) proof fn lemma_swap2_write_block(d: Seq<u8>, s: Seq<u8>, so: int, dofs: int, bs: int)
    requires
        d.len() as int % 4 == 0,
        s.len() as int % 4 == 0,
        so % 4 == 0,
        dofs % 4 == 0,
        bs % 4 == 0,
        bs >= 0,
    ensures
        swap2_spec(write_block(d, s, so, dofs, bs)) == write_block(
            swap2_spec(d),
            swap2_spec(s),
            so,
            dofs,
            bs,
        ),
{
    let wb = write_block(d, s, so, dofs, bs);
    let lhs = swap2_spec(wb);
    let rhs = write_block(swap2_spec(d), swap2_spec(s), so, dofs, bs);
    lemma_aligned4_even(d.len() as int);
    lemma_aligned4_even(s.len() as int);
    lemma_aligned4_even(so);
    lemma_aligned4_even(dofs);
    lemma_aligned4_even(bs);
    if 0 <= so && so + bs <= s.len() && 0 <= dofs && dofs + bs <= d.len() {
        assert forall|i: int| 0 <= i < d.len() implies lhs[i] == rhs[i] by {
            lemma_fundamental_div_mod(i, 2);
            lemma_mod_bound(i, 2);
            let q: int = i / 2;
            lemma_pair2_below(i, d.len() as int);
            lemma_fundamental_div_mod(so, 2);
            lemma_fundamental_div_mod(dofs, 2);
            lemma_fundamental_div_mod_converse(dofs + bs, 2, dofs / 2 + bs / 2, 0);
            lemma_fundamental_div_mod(bs, 2);
            if dofs <= i < dofs + bs {
                lemma_floor2_at_least(i, dofs);
                lemma_pair2_below(i, dofs + bs);
                let ii: int = so + i - dofs;
                lemma_fundamental_div_mod_converse(ii, 2, so / 2 - dofs / 2 + q, i % 2);
                lemma_pair2_below(ii, s.len() as int);
            } else if i < dofs {
                lemma_pair2_below(i, dofs);
            } else {
                lemma_floor2_at_least(i, dofs + bs);
            }
        }
        assert(lhs =~= rhs);
    } else {
    }
}

/// The 4-byte rotation passes through a whole traversal whose offsets are
/// all 4-aligned.
pub(crate) proof fn lemma_rot4_scatter(
    d: Seq<u8>,
    s: Seq<u8>,
    sof: spec_fn(int) -> int,
    dof: spec_fn(int) -> int,
    act: spec_fn(int) -> bool,
    bs: int,
    n: int,
)
    requires
        d.len() as int % 4 == 0,
        s.len() as int % 4 == 0,
        bs % 4 == 0,
        bs >= 0,
        forall|k: int| 0 <= k < n && act(k) ==> #[trigger] sof(k) % 4 == 0 && dof(k) % 4 == 0,
    ensures
        rot4_spec(scatter(d, s, sof, dof, act, bs, n)) == scatter(
            rot4_spec(d),
            rot4_spec(s),
            sof,
            dof,
            act,
            bs,
            n,
        ),
    decreases n,
{
    if n > 0 {
        lemma_rot4_scatter(d, s, sof, dof, act, bs, n - 1);
        if act(n - 1) {
            lemma_scatter_len(d, s, sof, dof, act, bs, n - 1);
            lemma_rot4_write_block(
                scatter(d, s, sof, dof, act, bs, n - 1),
                s,
                sof(n - 1),
                dof(n - 1),
                bs,
            );
        }
    }
}

/// The pair swap passes through a whole traversal whose offsets are all
/// 4-aligned.
pub(crate) proof fn lemma_swap2_scatter(
    d: Seq<u8>,
    s: Seq<u8>,
    sof: spec_fn(int) -> int,
    dof: spec_fn(int) -> int,
    act: spec_fn(int) -> bool,
    bs: int,
    n: int,
)
    requires
        d.len() as int % 4 == 0,
        s.len() as int % 4 == 0,
        bs % 4 == 0,
        bs >= 0,
        forall|k: int| 0 <= k < n && act(k) ==> #[trigger] sof(k) % 4 == 0 && dof(k) % 4 == 0,
    ensures
        swap2_spec(scatter(d, s, sof, dof, act, bs, n)) == scatter(
            swap2_spec(d),
            swap2_spec(s),
            sof,
            dof,
            act,
            bs,
            n,
        ),
    decreases n,
{
    if n > 0 {
        lemma_swap2_scatter(d, s, sof, dof, act, bs, n - 1);
        if act(n - 1) {
            lemma_scatter_len(d, s, sof, dof, act, bs, n - 1);
            lemma_swap2_write_block(
                scatter(d, s, sof, dof, act, bs, n - 1),
                s,
                sof(n - 1),
                dof(n - 1),
                bs,
            );
        }
    }
}

/// The vendor-B tiling engine's driver type.
pub struct Xbox360;

impl Swizzler for Xbox360 {
    fn swizzle<T: Format>(
        source: &Vec<u8>,
        dest: &mut Vec<u8>,
        dimensions: (usize, usize, usize),
        format: T,
        align_resolution: bool,
    ) -> (r: Result<(), SwizzleError>)
        ensures
            final(dest)@ == crate::swizzle::x360::x360_result(
                old(dest)@,
                source@,
                dimensions.0 as int / format.spec_pixel_block_size() as int,
                dimensions.1 as int / format.spec_pixel_block_size() as int,
                dimensions.2 as int,
                format.spec_block_size() as int,
                format.spec_x360_swap(),
                false,
            ),
    {
        crate::swizzle::x360::do_swizzle(
            source,
            dest,
            dimensions,
            format,
            false,
            align_resolution,
        );
        Ok(())
    }
}

impl Deswizzler for Xbox360 {
    fn deswizzle<T: Format>(
        source: &Vec<u8>,
        dest: &mut Vec<u8>,
        dimensions: (usize, usize, usize),
        format: T,
        align_resolution: bool,
    ) -> (r: Result<(), SwizzleError>)
        ensures
            final(dest)@ == crate::swizzle::x360::x360_result(
                old(dest)@,
                source@,
                dimensions.0 as int / format.spec_pixel_block_size() as int,
                dimensions.1 as int / format.spec_pixel_block_size() as int,
                dimensions.2 as int,
                format.spec_block_size() as int,
                format.spec_x360_swap(),
                true,
            ),
    {
        crate::swizzle::x360::do_swizzle(source, dest, dimensions, format, true, align_resolution);
        Ok(())
    }
}

} // verus!
