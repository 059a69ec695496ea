//! Exponentiation by squaring and the extended Euclidean algorithm.

use core::ops::Mul;
use vstd::arithmetic::div_mod::{
    lemma_div_pos_is_pos, lemma_fundamental_div_mod, lemma_mod_bound, lemma_mod_multiples_basic,
    lemma_small_mod,
};
use vstd::prelude::*;
use vstd::std_specs::ops::MulSpec;

verus! {

/// `element` raised to the power `k`, multiplied up from the left:
/// `element` for `k` up to 1, and the power `k - 1` times `element` above.
pub open spec fn power_of<T: Mul<Output = T>>(element: T, k: nat) -> T
    decreases k,
{
    if k <= 1 {
        element
    } else {
        power_of(element, (k - 1) as nat).mul_spec(element)
    }
}

/// Whether the power `i` of `element` may be multiplied by the power `j` and
/// the product is the power `i + j`.
pub open spec fn power_times_power<T: Mul<Output = T>>(element: T, i: nat, j: nat) -> bool {
    &&& power_of(element, i).mul_req(power_of(element, j))
    &&& power_of(element, i).mul_spec(power_of(element, j)) == power_of(element, i + j)
}

/// Whether the powers of `element` up to the power `limit` can be multiplied
/// with each other, and multiply as powers do.
pub open spec fn powers_multiply<T: Mul<Output = T>>(element: T, limit: nat) -> bool {
    forall|i: nat, j: nat|
        1 <= i && 1 <= j && i + j <= limit ==> #[trigger] power_times_power(element, i, j)
}

/// Raises `element` to `power`, which is at least 1, by repeated squaring:
/// the number of multiplications is logarithmic in `power`.
pub fn binary_exponentiation<T: Copy + Mul<Output = T>>(element: T, power: u64) -> (result: T)
    requires
        power > 0,
        T::obeys_mul_spec(),
        powers_multiply(element, power as nat),
    ensures
        result == power_of(element, power as nat),
    decreases power,
{
    if power == 1 {
        return element;
    }
    if power == 2 {
        assert(power_times_power(element, 1, 1));
        return element * element;
    }
    let ghost half = (power / 2) as nat;
    let half_power = binary_exponentiation(element, power / 2);
    assert(power_times_power(element, half, half));
    let half_power_squared = half_power * half_power;
    if power % 2 == 0 {
        half_power_squared
    } else {
        assert(power_times_power(element, 1, half + half));
        element * half_power_squared
    }
}

/// Whether `d` is a positive number that divides both `a` and `b`.
pub open spec fn common_divisor(d: int, a: int, b: int) -> bool {
    d > 0 && a % d == 0 && b % d == 0
}

/// Whether `g` is the greatest common divisor of `a` and `b`: a common
/// divisor of the two that no other exceeds.
pub open spec fn is_gcd(g: int, a: int, b: int) -> bool {
    &&& common_divisor(g, a, b)
    &&& forall|d: int| #[trigger] common_divisor(d, a, b) ==> d <= g
}

/// What divides `u` and `w` divides `u * x + w * y`.
proof fn lemma_divides_combination(d: int, u: int, w: int, x: int, y: int)
    requires
        d > 0,
        u % d == 0,
        w % d == 0,
    ensures
        (u * x + w * y) % d == 0,
{
    lemma_fundamental_div_mod(u, d);
    lemma_fundamental_div_mod(w, d);
    let (ku, kw) = (u / d, w / d);
    assert(u * x + w * y == d * (ku * x + kw * y)) by (nonlinear_arith)
        requires
            u == d * ku,
            w == d * kw,
    ;
    lemma_mod_multiples_basic(ku * x + kw * y, d);
    assert(d * (ku * x + kw * y) == (ku * x + kw * y) * d) by (nonlinear_arith);
}

/// What the extended Euclidean algorithm arrives at from the remainders
/// `(r, r1)` with the coefficients `(x, x1)` and `(y, y1)`: where `r1` is 0,
/// `r` with `x` and `y`; else what it arrives at from `r1` and the remainder
/// of `r` by `r1`, with the coefficients one step on.
pub open spec fn euclid(r: int, r1: int, x: int, x1: int, y: int, y1: int) -> (int, int, int)
    decreases r1,
{
    if r1 <= 0 {
        (r, x, y)
    } else {
        let q = r / r1;
        euclid(r1, r % r1, x1, x - q * x1, y1, y - q * y1)
    }
}

/// One step of the extended Euclidean algorithm on the absolute values
/// `(u, u1)` of one pair of coefficients, with remainders `(r, r1)` and target
/// `t`: the next pair is `(u1, u + q * u1)`, it is bounded by `t` as the pair
/// before it, and so is the product that the step computes on the way.
proof fn lemma_euclid_step(u: int, u1: int, q: int, r: int, r1: int, t: int)
    requires
        u >= 0,
        u1 >= 0,
        r > 0,
        r1 > 0,
        q == r / r1,
        u1 * r + u * r1 == t,
    ensures
        q >= 0,
        0 <= r - q * r1 < r1,
        0 <= q * u1 <= t,
        u + q * u1 <= t,
        q * (-u1) == -(q * u1),
        (u + q * u1) * r1 + u1 * (r - q * r1) == t,
        u1 <= t,
        r - q * r1 == r % r1,
        r % r1 == 0 ==> u1 * r1 <= t,
{
    let rem = r % r1;
    lemma_fundamental_div_mod(r, r1);
    lemma_mod_bound(r, r1);
    lemma_div_pos_is_pos(r, r1);
    assert(r - q * r1 == rem) by (nonlinear_arith)
        requires
            r == r1 * q + rem,
    ;
    assert((u + q * u1) * r1 + u1 * rem == u1 * r + u * r1) by (nonlinear_arith)
        requires
            r == r1 * q + rem,
    ;
    assert(0 <= q * u1 && q * (-u1) == -(q * u1)) by (nonlinear_arith)
        requires
            q >= 0,
            u1 >= 0,
    ;
    assert(u1 <= t) by (nonlinear_arith)
        requires
            u1 * r + u * r1 == t,
            r >= 1,
            r1 >= 1,
            u >= 0,
            u1 >= 0,
    ;
    assert(u + q * u1 <= t) by (nonlinear_arith)
        requires
            (u + q * u1) * r1 + u1 * rem == t,
            r1 >= 1,
            rem >= 0,
            u1 >= 0,
            u + q * u1 >= 0,
    ;
    if rem == 0 {
        assert(u1 * r1 <= t) by (nonlinear_arith)
            requires
                u1 * r + u * r1 == t,
                r == r1 * q,
                r >= 1,
                r1 >= 1,
                u >= 0,
                u1 >= 0,
        ;
    }
}

/// Computes the greatest common divisor `g` of the positive numbers `a` and
/// `b` by the extended Euclidean algorithm, and leaves in `x` and `y` the
/// coefficients that the algorithm arrives at, whatever they held before:
/// numbers with `a * x + b * y = g`, `g * x` no greater than `b` and `g * y`
/// no greater than `a` in absolute value.
pub fn extended_euclidean_gcd(a: i32, b: i32, x: &mut i32, y: &mut i32) -> (g: i32)
    requires
        a > 0,
        b > 0,
    ensures
        is_gcd(g as int, a as int, b as int),
        a * *final(x) + b * *final(y) == g,
        (g as int, *final(x) as int, *final(y) as int) == euclid(a as int, b as int, 1, 0, 0, 1),
        -b <= g * *final(x) <= b,
        -a <= g * *final(y) <= a,
        -b <= *final(x) <= b,
        -a <= *final(y) <= a,
{
    *x = 1;
    *y = 0;
    let mut x1: i32 = 0;
    let mut y1: i32 = 1;
    let mut a1: i32 = a;
    let mut b1: i32 = b;
    // The coefficients alternate in sign from step to step, and `x` and `y1`
    // have the one sign where `x1` and `y` have the other: `up` says which,
    // `ux`, `ux1`, `uy` and `uy1` are the absolute values.
    let ghost mut up: bool = true;
    let ghost mut ux: int = 1;
    let ghost mut ux1: int = 0;
    let ghost mut uy: int = 0;
    let ghost mut uy1: int = 1;
    while b1 != 0
        invariant
            a > 0,
            b > 0,
            a1 > 0,
            b1 >= 0,
            a1 == a * *x + b * *y,
            b1 == a * x1 + b * y1,
            ux >= 0 && ux1 >= 0 && uy >= 0 && uy1 >= 0,
            ux <= b && uy <= a,
            *x == if up { ux } else { -ux },
            x1 == if up { -ux1 } else { ux1 },
            *y == if up { -uy } else { uy },
            y1 == if up { uy1 } else { -uy1 },
            ux1 * a1 + ux * b1 == b,
            uy1 * a1 + uy * b1 == a,
            b1 == 0 ==> ux * a1 <= b && uy * a1 <= a,
            euclid(a1 as int, b1 as int, *x as int, x1 as int, *y as int, y1 as int) == euclid(
                a as int,
                b as int,
                1,
                0,
                0,
                1,
            ),
            forall|d: int| #[trigger]
                common_divisor(d, a1 as int, b1 as int) ==> common_divisor(d, a as int, b as int),
        decreases b1,
    {
        let q: i32 = a1 / b1;
        let ghost px = *x as int;
        let ghost py = *y as int;
        let ghost (px1, py1, pa1, pb1) = (x1 as int, y1 as int, a1 as int, b1 as int);
        proof {
            lemma_euclid_step(ux, ux1, q as int, pa1, pb1, b as int);
            lemma_euclid_step(uy, uy1, q as int, pa1, pb1, a as int);
            assert(a * (px - q * px1) + b * (py - q * py1) == pa1 - q * pb1) by (nonlinear_arith)
                requires
                    pa1 == a * px + b * py,
                    pb1 == a * px1 + b * py1,
            ;
            assert forall|d: int| #[trigger]
                common_divisor(d, pb1, pa1 - q * pb1) implies common_divisor(
                d,
                a as int,
                b as int,
            ) by {
                lemma_divides_combination(d, pa1 - q * pb1, pb1, 1, q as int);
                assert((pa1 - q * pb1) * 1 + pb1 * q == pa1) by (nonlinear_arith);
                assert(common_divisor(d, pa1, pb1));
            }
        }
        let next_x1 = *x - q * x1;
        *x = x1;
        x1 = next_x1;
        let next_y1 = *y - q * y1;
        *y = y1;
        y1 = next_y1;
        let next_b1 = a1 - q * b1;
        a1 = b1;
        b1 = next_b1;
        proof {
            let (nx1, ny1) = (ux + q * ux1, uy + q * uy1);
            ux = ux1;
            ux1 = nx1;
            uy = uy1;
            uy1 = ny1;
            up = !up;
        }
    }
    proof {
        let g = a1 as int;
        assert(g * ux == ux * g && g * (-ux) == -(ux * g) && g * uy == uy * g && g * (-uy) == -(uy
            * g)) by (nonlinear_arith);
        assert(g % g == 0) by {
            lemma_mod_multiples_basic(1, g);
        }
        assert(0int % g == 0) by {
            lemma_small_mod(0, g as nat);
        }
        assert(common_divisor(g, g, b1 as int));
        assert forall|d: int| #[trigger] common_divisor(d, a as int, b as int) implies d <= g by {
            lemma_divides_combination(d, a as int, b as int, *x as int, *y as int);
            if d > g {
                lemma_small_mod(g as nat, d as nat);
            }
        }
    }
    a1
}

} // verus!
