//! The mathematical model of the Z-order (Morton) index mapper: a recursive
//! bit-interleaving function, its inverse, and the lemmas that make the pair
//! a bijection on power-of-two grids.

use vstd::prelude::*;
use vstd::arithmetic::div_mod::*;
use vstd::arithmetic::mul::*;

verus! {

/// True when `n` is a power of two (1, 2, 4, ...).
pub open spec fn is_pow2(n: int) -> bool
    decreases n,
{
    if n < 1 {
        false
    } else if n == 1 {
        true
    } else {
        n % 2 == 0 && is_pow2(n / 2)
    }
}

/// The smallest power of two that is at least `n` (and at least 1).
pub open spec fn next_pow2_spec(n: int) -> int
    decreases n,
{
    if n <= 1 {
        1
    } else {
        2 * next_pow2_spec((n + 1) / 2)
    }
}

/// The coordinate pair that the Z-order mapper produces for linear index `t`
/// under bounds `(mx, my)`.  Bits of `t` are handed out alternately to the x
/// and y coordinate, from the least significant bit up; an axis stops
/// consuming bits once its bound has been halved down to 1.
pub open spec fn zorder(t: nat, mx: nat, my: nat) -> (nat, nat)
    decreases mx + my,
{
    if mx > 1 && my > 1 {
        let r = zorder(t / 4, mx / 2, my / 2);
        (2 * r.0 + t % 2, 2 * r.1 + (t / 2) % 2)
    } else if mx > 1 {
        let r = zorder(t / 2, mx / 2, my);
        (2 * r.0 + t % 2, r.1)
    } else if my > 1 {
        let r = zorder(t / 2, mx, my / 2);
        (r.0, 2 * r.1 + t % 2)
    } else {
        (0, 0)
    }
}

/// The flat row-major index `y * mx + x` of the Z-order coordinate for `t`.
pub open spec fn morton_spec(t: nat, mx: nat, my: nat) -> nat {
    zorder(t, mx, my).1 * mx + zorder(t, mx, my).0
}

/// `morton_spec` over `int` arguments, as the engine contracts use it.
pub open spec fn morton_i(t: int, mx: int, my: int) -> int {
    morton_spec(t as nat, mx as nat, my as nat) as int
}

/// The bit-interleaving inverse of `zorder`: rebuilds the linear index from a
/// coordinate pair, consuming coordinate bits in the same alternation.
pub open spec fn zinterleave(x: nat, y: nat, mx: nat, my: nat) -> nat
    decreases mx + my,
{
    if mx > 1 && my > 1 {
        4 * zinterleave(x / 2, y / 2, mx / 2, my / 2) + (x % 2) + 2 * (y % 2)
    } else if mx > 1 {
        2 * zinterleave(x / 2, y, mx / 2, my) + x % 2
    } else if my > 1 {
        2 * zinterleave(x, y / 2, mx, my / 2) + y % 2
    } else {
        0
    }
}

/// The linear index that the Z-order mapper sends to flat grid cell `idx`,
/// on a power-of-two grid.
pub open spec fn morton_inv(idx: int, mx: int, my: int) -> int {
    zinterleave((idx % mx) as nat, (idx / mx) as nat, mx as nat, my as nat) as int
}

pub proof fn lemma_pow2_pos(n: int)
    requires
        is_pow2(n),
    ensures
        n >= 1,
{
}

/// Two distinct powers of two are at least a factor of two apart.
pub proof fn lemma_pow2_double(p: int, q: int)
    requires
        is_pow2(p),
        is_pow2(q),
        p < q,
    ensures
        2 * p <= q,
    decreases p,
{
    if p == 1 {
        lemma_pow2_pos(q / 2);
    } else {
        lemma_pow2_double(p / 2, q / 2);
        lemma_fundamental_div_mod(p, 2);
        lemma_fundamental_div_mod(q, 2);
    }
}

pub proof fn lemma_next_pow2_props(n: int)
    ensures
        is_pow2(next_pow2_spec(n)),
        next_pow2_spec(n) >= n,
        next_pow2_spec(n) >= 1,
    decreases (if n <= 1 { 0int } else { n }),
{
    if n <= 1 {
    } else {
        let m: int = (n + 1) / 2;
        lemma_next_pow2_props(m);
        let p: int = next_pow2_spec(m);
        lemma_div_multiples_vanish(p, 2);
        lemma_fundamental_div_mod(n + 1, 2);
    }
}

pub proof fn lemma_next_pow2_minimal(n: int, q: int)
    requires
        is_pow2(q),
        q >= n,
    ensures
        next_pow2_spec(n) <= q,
    decreases (if n <= 1 { 0int } else { n }),
{
    if n <= 1 {
        lemma_pow2_pos(q);
    } else {
        let m: int = (n + 1) / 2;
        lemma_fundamental_div_mod(n, 2);
        lemma_fundamental_div_mod(n + 1, 2);
        lemma_div_is_ordered(n, q, 2);
        if n % 2 == 0 {
            lemma_fundamental_div_mod_converse(n + 1, 2, n / 2, 1);
        } else {
            lemma_div_is_ordered(n + 1, q, 2);
        }
        lemma_next_pow2_minimal(m, q / 2);
    }
}

pub proof fn lemma_next_pow2_of_pow2(n: int)
    requires
        is_pow2(n),
    ensures
        next_pow2_spec(n) == n,
{
    lemma_next_pow2_props(n);
    lemma_next_pow2_minimal(n, n);
}

/// How `t` splits over two successive halvings.
proof fn lemma_split4(t: int)
    requires
        t >= 0,
    ensures
        t / 4 == (t / 2) / 2,
        t % 4 == (t % 2) + 2 * ((t / 2) % 2),
{
    lemma_fundamental_div_mod(t, 2);
    lemma_fundamental_div_mod(t / 2, 2);
    lemma_fundamental_div_mod_converse(t, 4, (t / 2) / 2, (t % 2) + 2 * ((t / 2) % 2));
}

/// Each Z-order coordinate stays inside its bound; an exhausted axis stays
/// at zero.
pub proof fn lemma_zorder_bounds(t: nat, mx: nat, my: nat)
    ensures
        mx >= 1 ==> zorder(t, mx, my).0 < mx,
        mx == 0 ==> zorder(t, mx, my).0 == 0,
        my >= 1 ==> zorder(t, mx, my).1 < my,
        my == 0 ==> zorder(t, mx, my).1 == 0,
    decreases mx + my,
{
    if mx > 1 && my > 1 {
        lemma_zorder_bounds(t / 4, mx / 2, my / 2);
        lemma_fundamental_div_mod(mx as int, 2);
        lemma_fundamental_div_mod(my as int, 2);
    } else if mx > 1 {
        lemma_zorder_bounds(t / 2, mx / 2, my);
        lemma_fundamental_div_mod(mx as int, 2);
    } else if my > 1 {
        lemma_zorder_bounds(t / 2, mx, my / 2);
        lemma_fundamental_div_mod(my as int, 2);
    } else {
    }
}

/// On a power-of-two grid, `zinterleave` recovers the linear index from the
/// Z-order coordinate.
pub proof fn lemma_zorder_zinterleave(t: nat, mx: nat, my: nat)
    requires
        is_pow2(mx as int),
        is_pow2(my as int),
        t < mx * my,
    ensures
        zinterleave(zorder(t, mx, my).0, zorder(t, mx, my).1, mx, my) == t,
    decreases mx + my,
{
    if mx > 1 && my > 1 {
        let a: int = mx as int / 2;
        let b: int = my as int / 2;
        lemma_fundamental_div_mod(mx as int, 2);
        lemma_fundamental_div_mod(my as int, 2);
        assert(mx as int * my as int == 4 * (a * b)) by (nonlinear_arith)
            requires
                mx as int == 2 * a,
                my as int == 2 * b,
        ;
        assert((4 * (a * b) - 1) / 4 == a * b - 1) by {
            lemma_fundamental_div_mod_converse(4 * (a * b) - 1, 4, a * b - 1, 3);
        }
        lemma_div_is_ordered(t as int, 4 * (a * b) - 1, 4);
        lemma_zorder_zinterleave(t / 4, mx / 2, my / 2);
        let r = zorder(t / 4, mx / 2, my / 2);
        lemma_fundamental_div_mod_converse(
            2 * (r.0 as int) + (t as int) % 2,
            2,
            r.0 as int,
            (t as int) % 2,
        );
        lemma_fundamental_div_mod_converse(
            2 * (r.1 as int) + ((t as int) / 2) % 2,
            2,
            r.1 as int,
            ((t as int) / 2) % 2,
        );
        lemma_split4(t as int);
        lemma_fundamental_div_mod(t as int, 4);
    } else if mx > 1 {
        let a: int = mx as int / 2;
        lemma_fundamental_div_mod(mx as int, 2);
        lemma_pow2_pos(my as int);
        assert(t < mx) by {
            assert(my == 1);
            assert(mx as int * my as int == mx as int) by (nonlinear_arith)
                requires
                    my as int == 1,
            ;
        }
        assert((2 * a - 1) / 2 == a - 1) by {
            lemma_fundamental_div_mod_converse(2 * a - 1, 2, a - 1, 1);
        }
        lemma_div_is_ordered(t as int, 2 * a - 1, 2);
        lemma_zorder_zinterleave(t / 2, mx / 2, my);
        let r = zorder(t / 2, mx / 2, my);
        lemma_fundamental_div_mod_converse(
            2 * (r.0 as int) + (t as int) % 2,
            2,
            r.0 as int,
            (t as int) % 2,
        );
        lemma_fundamental_div_mod(t as int, 2);
    } else if my > 1 {
        let b: int = my as int / 2;
        lemma_fundamental_div_mod(my as int, 2);
        lemma_pow2_pos(mx as int);
        assert(t < my) by {
            assert(mx == 1);
            assert(mx as int * my as int == my as int) by (nonlinear_arith)
                requires
                    mx as int == 1,
            ;
        }
        assert((2 * b - 1) / 2 == b - 1) by {
            lemma_fundamental_div_mod_converse(2 * b - 1, 2, b - 1, 1);
        }
        lemma_div_is_ordered(t as int, 2 * b - 1, 2);
        lemma_zorder_zinterleave(t / 2, mx, my / 2);
        let r = zorder(t / 2, mx, my / 2);
        lemma_fundamental_div_mod_converse(
            2 * (r.1 as int) + (t as int) % 2,
            2,
            r.1 as int,
            (t as int) % 2,
        );
        lemma_fundamental_div_mod(t as int, 2);
    } else {
        lemma_pow2_pos(mx as int);
        lemma_pow2_pos(my as int);
    }
}

/// On a power-of-two grid, `zorder` recovers the coordinate that
/// `zinterleave` encodes, and the encoding stays below `mx * my`.
pub proof fn lemma_zinterleave_zorder(x: nat, y: nat, mx: nat, my: nat)
    requires
        is_pow2(mx as int),
        is_pow2(my as int),
        x < mx,
        y < my,
    ensures
        zinterleave(x, y, mx, my) < mx * my,
        zorder(zinterleave(x, y, mx, my), mx, my).0 == x,
        zorder(zinterleave(x, y, mx, my), mx, my).1 == y,
    decreases mx + my,
{
    if mx > 1 && my > 1 {
        let a: int = mx as int / 2;
        let b: int = my as int / 2;
        lemma_fundamental_div_mod(mx as int, 2);
        lemma_fundamental_div_mod(my as int, 2);
        assert((2 * a - 1) / 2 == a - 1) by {
            lemma_fundamental_div_mod_converse(2 * a - 1, 2, a - 1, 1);
        }
        assert((2 * b - 1) / 2 == b - 1) by {
            lemma_fundamental_div_mod_converse(2 * b - 1, 2, b - 1, 1);
        }
        lemma_div_is_ordered(x as int, 2 * a - 1, 2);
        lemma_div_is_ordered(y as int, 2 * b - 1, 2);
        lemma_zinterleave_zorder(x / 2, y / 2, mx / 2, my / 2);
        let w: int = zinterleave(x / 2, y / 2, mx / 2, my / 2) as int;
        let c: int = (x as int) % 2 + 2 * ((y as int) % 2);
        let v: int = 4 * w + c;
        assert(mx as int * my as int == 4 * (a * b)) by (nonlinear_arith)
            requires
                mx as int == 2 * a,
                my as int == 2 * b,
        ;
        lemma_fundamental_div_mod_converse(v, 4, w, c);
        lemma_fundamental_div_mod_converse(c, 2, (y as int) % 2, (x as int) % 2);
        lemma_fundamental_div_mod(c, 2);
        lemma_fundamental_div_mod_converse(v, 2, 2 * w + c / 2, c % 2);
        lemma_fundamental_div_mod_converse(v / 2, 2, w, (y as int) % 2);
        lemma_fundamental_div_mod(x as int, 2);
        lemma_fundamental_div_mod(y as int, 2);
    } else if mx > 1 {
        let a: int = mx as int / 2;
        lemma_fundamental_div_mod(mx as int, 2);
        lemma_pow2_pos(my as int);
        assert((2 * a - 1) / 2 == a - 1) by {
            lemma_fundamental_div_mod_converse(2 * a - 1, 2, a - 1, 1);
        }
        lemma_div_is_ordered(x as int, 2 * a - 1, 2);
        lemma_zinterleave_zorder(x / 2, y, mx / 2, my);
        let w: int = zinterleave(x / 2, y, mx / 2, my) as int;
        let v: int = 2 * w + (x as int) % 2;
        lemma_fundamental_div_mod_converse(v, 2, w, (x as int) % 2);
        lemma_fundamental_div_mod(x as int, 2);
        assert(v < mx * my) by {
            assert(my == 1);
            assert(mx as int * my as int == mx as int) by (nonlinear_arith)
                requires
                    my as int == 1,
            ;
        }
    } else if my > 1 {
        let b: int = my as int / 2;
        lemma_fundamental_div_mod(my as int, 2);
        lemma_pow2_pos(mx as int);
        assert((2 * b - 1) / 2 == b - 1) by {
            lemma_fundamental_div_mod_converse(2 * b - 1, 2, b - 1, 1);
        }
        lemma_div_is_ordered(y as int, 2 * b - 1, 2);
        lemma_zinterleave_zorder(x, y / 2, mx, my / 2);
        let w: int = zinterleave(x, y / 2, mx, my / 2) as int;
        let v: int = 2 * w + (y as int) % 2;
        lemma_fundamental_div_mod_converse(v, 2, w, (y as int) % 2);
        lemma_fundamental_div_mod(y as int, 2);
        assert(v < mx * my) by {
            assert(mx == 1);
            assert(mx as int * my as int == my as int) by (nonlinear_arith)
                requires
                    mx as int == 1,
            ;
        }
    } else {
        lemma_pow2_pos(mx as int);
        lemma_pow2_pos(my as int);
    }
}

/// The Z-order mapper never sends two distinct in-range linear indices to
/// the same grid cell of a power-of-two grid.
pub proof fn lemma_morton_injective(t1: int, t2: int, mx: int, my: int)
    requires
        is_pow2(mx),
        is_pow2(my),
        0 <= t1 < mx * my,
        0 <= t2 < mx * my,
        morton_i(t1, mx, my) == morton_i(t2, mx, my),
    ensures
        t1 == t2,
{
    lemma_pow2_pos(mx);
    lemma_pow2_pos(my);
    let z1 = zorder(t1 as nat, mx as nat, my as nat);
    let z2 = zorder(t2 as nat, mx as nat, my as nat);
    lemma_zorder_bounds(t1 as nat, mx as nat, my as nat);
    lemma_zorder_bounds(t2 as nat, mx as nat, my as nat);
    let m: int = morton_i(t1, mx, my);
    lemma_fundamental_div_mod_converse(m, mx, z1.1 as int, z1.0 as int);
    lemma_fundamental_div_mod_converse(m, mx, z2.1 as int, z2.0 as int);
    lemma_zorder_zinterleave(t1 as nat, mx as nat, my as nat);
    lemma_zorder_zinterleave(t2 as nat, mx as nat, my as nat);
}

/// Every cell of a power-of-two grid is reached: `morton_inv` names the
/// in-range linear index the mapper sends there.
pub proof fn lemma_morton_inv(idx: int, mx: int, my: int)
    requires
        is_pow2(mx),
        is_pow2(my),
        0 <= idx < mx * my,
    ensures
        0 <= morton_inv(idx, mx, my) < mx * my,
        morton_i(morton_inv(idx, mx, my), mx, my) == idx,
{
    lemma_pow2_pos(mx);
    lemma_pow2_pos(my);
    let xc: int = idx % mx;
    let yc: int = idx / mx;
    lemma_fundamental_div_mod(idx, mx);
    lemma_mod_bound(idx, mx);
    assert(yc < my) by {
        assert(mx * my - 1 == (my - 1) * mx + (mx - 1)) by (nonlinear_arith);
        lemma_fundamental_div_mod_converse(mx * my - 1, mx, my - 1, mx - 1);
        lemma_div_is_ordered(idx, mx * my - 1, mx);
    }
    assert(yc >= 0) by {
        lemma_div_is_ordered(0, idx, mx);
    }
    lemma_zinterleave_zorder(xc as nat, yc as nat, mx as nat, my as nat);
}

/// The Z-order mapper law: on a grid whose extents are powers of two the
/// mapper is a bijection from the linear indices `0 .. mx * my` onto the
/// flat cell indices of the grid, with `morton_inv` as its inverse.
pub proof fn lemma_morton_bijective(mx: int, my: int)
    requires
        is_pow2(mx),
        is_pow2(my),
    ensures
        forall|t: int| 0 <= t < mx * my ==> 0 <= #[trigger] morton_i(t, mx, my) < mx * my,
        forall|t1: int, t2: int|
            0 <= t1 < mx * my && 0 <= t2 < mx * my && #[trigger] morton_i(t1, mx, my)
                == #[trigger] morton_i(t2, mx, my) ==> t1 == t2,
        forall|idx: int|
            0 <= idx < mx * my ==> 0 <= #[trigger] morton_inv(idx, mx, my) < mx * my && morton_i(
                morton_inv(idx, mx, my),
                mx,
                my,
            ) == idx,
{
    lemma_pow2_pos(mx);
    lemma_pow2_pos(my);
    assert forall|t: int| 0 <= t < mx * my implies 0 <= #[trigger] morton_i(t, mx, my) < mx
        * my by {
        lemma_zorder_bounds(t as nat, mx as nat, my as nat);
        let z = zorder(t as nat, mx as nat, my as nat);
        lemma_mul_inequality(z.1 as int, my - 1, mx);
        assert((my - 1) * mx == mx * my - mx) by (nonlinear_arith);
    }
    assert forall|t1: int, t2: int|
        0 <= t1 < mx * my && 0 <= t2 < mx * my && #[trigger] morton_i(t1, mx, my)
            == #[trigger] morton_i(t2, mx, my) implies t1 == t2 by {
        lemma_morton_injective(t1, t2, mx, my);
    }
    assert forall|idx: int| 0 <= idx < mx * my implies 0 <= #[trigger] morton_inv(idx, mx, my)
        < mx * my && morton_i(morton_inv(idx, mx, my), mx, my) == idx by {
        lemma_morton_inv(idx, mx, my);
    }
}

/// Restores the Z-order loop invariant over one iteration of the mapper's
/// bit-consuming loop.
pub(crate) proof fn lemma_morton_loop_step(
    code0: int,
    mx0: int,
    my0: int,
    rx0: int,
    ry0: int,
    bx0: int,
    by0: int,
    x: int,
    y: int,
    code1: int,
    mx1: int,
    my1: int,
    rx1: int,
    ry1: int,
    bx1: int,
    by1: int,
    t: int,
)
    requires
        t >= 0,
        x >= 0,
        y >= 0,
        code0 >= 0,
        mx0 >= 0,
        my0 >= 0,
        bx0 >= 1,
        by0 >= 1,
        0 <= rx0 < bx0,
        0 <= ry0 < by0,
        mx0 * bx0 <= x,
        my0 * by0 <= y,
        zorder(t as nat, x as nat, y as nat).0 as int == rx0 + bx0 * (zorder(
            code0 as nat,
            mx0 as nat,
            my0 as nat,
        ).0 as int),
        zorder(t as nat, x as nat, y as nat).1 as int == ry0 + by0 * (zorder(
            code0 as nat,
            mx0 as nat,
            my0 as nat,
        ).1 as int),
        mx0 > 1 || my0 > 1,
        rx1 == (if mx0 > 1 {
            rx0 + bx0 * (code0 % 2)
        } else {
            rx0
        }),
        bx1 == (if mx0 > 1 {
            2 * bx0
        } else {
            bx0
        }),
        mx1 == (if mx0 > 1 {
            mx0 / 2
        } else {
            mx0
        }),
        ry1 == (if my0 > 1 {
            ry0 + by0 * ((if mx0 > 1 {
                code0 / 2
            } else {
                code0
            }) % 2)
        } else {
            ry0
        }),
        by1 == (if my0 > 1 {
            2 * by0
        } else {
            by0
        }),
        my1 == (if my0 > 1 {
            my0 / 2
        } else {
            my0
        }),
        code1 == (if my0 > 1 {
            (if mx0 > 1 {
                code0 / 2
            } else {
                code0
            }) / 2
        } else {
            if mx0 > 1 {
                code0 / 2
            } else {
                code0
            }
        }),
    ensures
        0 <= rx1 < bx1,
        0 <= ry1 < by1,
        mx1 * bx1 <= x,
        my1 * by1 <= y,
        zorder(t as nat, x as nat, y as nat).0 as int == rx1 + bx1 * (zorder(
            code1 as nat,
            mx1 as nat,
            my1 as nat,
        ).0 as int),
        zorder(t as nat, x as nat, y as nat).1 as int == ry1 + by1 * (zorder(
            code1 as nat,
            mx1 as nat,
            my1 as nat,
        ).1 as int),
{
    if mx0 > 1 && my0 > 1 {
        lemma_split4(code0);
        let r = zorder(code0 as nat / 4, mx0 as nat / 2, my0 as nat / 2);
        assert(zorder(code0 as nat, mx0 as nat, my0 as nat).0 == 2 * r.0 + code0 as nat % 2);
        assert(zorder(code0 as nat, mx0 as nat, my0 as nat).1 == 2 * r.1 + (code0 as nat / 2)
            % 2);
        assert(bx0 * (2 * (r.0 as int) + code0 % 2) == bx0 * (code0 % 2) + (2 * bx0) * (
        r.0 as int)) by (nonlinear_arith);
        assert(by0 * (2 * (r.1 as int) + (code0 / 2) % 2) == by0 * ((code0 / 2) % 2) + (2 * by0)
            * (r.1 as int)) by (nonlinear_arith);
        lemma_mul_inequality(code0 % 2, 1, bx0);
        lemma_mul_is_commutative(code0 % 2, bx0);
        lemma_mul_inequality((code0 / 2) % 2, 1, by0);
        lemma_mul_is_commutative((code0 / 2) % 2, by0);
        lemma_fundamental_div_mod(mx0, 2);
        lemma_fundamental_div_mod(my0, 2);
        assert((mx0 / 2) * (2 * bx0) == (2 * (mx0 / 2)) * bx0) by (nonlinear_arith);
        lemma_mul_inequality(2 * (mx0 / 2), mx0, bx0);
        assert((my0 / 2) * (2 * by0) == (2 * (my0 / 2)) * by0) by (nonlinear_arith);
        lemma_mul_inequality(2 * (my0 / 2), my0, by0);
    } else if mx0 > 1 {
        let r = zorder(code0 as nat / 2, mx0 as nat / 2, my0 as nat);
        assert(zorder(code0 as nat, mx0 as nat, my0 as nat).0 == 2 * r.0 + code0 as nat % 2);
        assert(zorder(code0 as nat, mx0 as nat, my0 as nat).1 == r.1);
        assert(bx0 * (2 * (r.0 as int) + code0 % 2) == bx0 * (code0 % 2) + (2 * bx0) * (
        r.0 as int)) by (nonlinear_arith);
        lemma_mul_inequality(code0 % 2, 1, bx0);
        lemma_mul_is_commutative(code0 % 2, bx0);
        lemma_fundamental_div_mod(mx0, 2);
        assert((mx0 / 2) * (2 * bx0) == (2 * (mx0 / 2)) * bx0) by (nonlinear_arith);
        lemma_mul_inequality(2 * (mx0 / 2), mx0, bx0);
    } else {
        let r = zorder(code0 as nat / 2, mx0 as nat, my0 as nat / 2);
        assert(zorder(code0 as nat, mx0 as nat, my0 as nat).1 == 2 * r.1 + code0 as nat % 2);
        assert(zorder(code0 as nat, mx0 as nat, my0 as nat).0 == r.0);
        assert(by0 * (2 * (r.1 as int) + code0 % 2) == by0 * (code0 % 2) + (2 * by0) * (
        r.1 as int)) by (nonlinear_arith);
        lemma_mul_inequality(code0 % 2, 1, by0);
        lemma_mul_is_commutative(code0 % 2, by0);
        lemma_fundamental_div_mod(my0, 2);
        assert((my0 / 2) * (2 * by0) == (2 * (my0 / 2)) * by0) by (nonlinear_arith);
        lemma_mul_inequality(2 * (my0 / 2), my0, by0);
    }
}

} // verus!
