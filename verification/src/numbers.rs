//! Numbers as the machine's 64-bit binary floating point has them: rounded to 53
//! significant bits, to the nearest, and to even where two are equally near.

use vstd::prelude::*;

verus! {

/// Two to the power of 53: the significant bits of a number.
pub const SIGNIFICANT: u64 = 0x20_0000_0000_0000;

/// The integer nearest to `n / d`; of two, the even one.
pub open spec fn half_even(n: int, d: int) -> int {
    let q = n / d;
    let r = n % d;
    if 2 * r < d || (2 * r == d && q % 2 == 0) {
        q
    } else {
        q + 1
    }
}

/// The distance between neighbouring numbers of 53 significant bits around `n`,
/// where it is at least `u`.
pub open spec fn spacing(n: int, u: int) -> int
    decreases n - u,
{
    if u > 0 && n >= u * SIGNIFICANT {
        spacing(n, 2 * u)
    } else {
        u
    }
}

/// The number of 53 significant bits that is nearest to an integer.
pub open spec fn nearest(n: int) -> int {
    let u = spacing(n, 1);
    half_even(n, u) * u
}

/// `a` times the power of two that brings `a / b` up to 53 bits, if it has fewer.
pub open spec fn scaled_up(a: int, b: int) -> int
    decreases b * SIGNIFICANT - a,
{
    if 0 < a && 2 * a < b * SIGNIFICANT {
        scaled_up(2 * a, b)
    } else {
        a
    }
}

/// `b` times the power of two that brings `a / b` down to 53 bits, if it has
/// more.
pub open spec fn scaled_down(a: int, b: int) -> int
    decreases a - b,
{
    if 0 < b && a >= b * SIGNIFICANT {
        scaled_down(a, 2 * b)
    } else {
        b
    }
}

/// What part `a` is of `b`, in percent, as floating point comes to it: `a` and
/// `b` are rounded, then the quotient is, then a hundred times that, and last to
/// a whole number.
pub open spec fn percent(a: int, b: int) -> int {
    let x = nearest(a);
    let y = nearest(b);
    if x == 0 || y == 0 {
        0
    } else {
        let up = scaled_up(x, y);
        let down = scaled_down(x, y);
        let quotient = half_even(up, down);
        let hundredfold = nearest(100 * quotient);
        half_even(hundredfold * (down / y), up / x)
    }
}

proof fn lemma_half_even_bound(n: int, d: int)
    requires
        n >= 0,
        d > 0,
    ensures
        0 <= half_even(n, d) <= n / d + 1,
        n < d ==> n / d == 0,
        half_even(n, d) * d <= n + d,
{
    vstd::arithmetic::div_mod::lemma_fundamental_div_mod(n, d);
    vstd::arithmetic::div_mod::lemma_div_pos_is_pos(n, d);
    assert((n / d + 1) * d == d * (n / d) + d) by (nonlinear_arith);
    assert((n / d) * d == d * (n / d)) by (nonlinear_arith);
    if n < d {
        vstd::arithmetic::div_mod::lemma_basic_div(n, d);
    }
}

/// The integer nearest to `n / d`; of two, the even one.
pub fn divide(n: u128, d: u128) -> (r: u128)
    requires
        0 < d <= 0x4000_0000_0000_0000_0000_0000_0000_0000,
        n < 0x8000_0000_0000_0000_0000_0000_0000_0000,
    ensures
        r == half_even(n as int, d as int),
{
    let q: u128 = n / d;
    let m: u128 = n % d;
    proof {
        vstd::arithmetic::div_mod::lemma_fundamental_div_mod(n as int, d as int);
        vstd::arithmetic::div_mod::lemma_div_is_ordered_by_denominator(n as int, 1, d as int);
    }
    if 2 * m < d || (2 * m == d && q % 2 == 0) {
        q
    } else {
        q + 1
    }
}

pub proof fn lemma_spacing(n: int, u: int)
    requires
        0 <= n,
        0 < u,
    ensures
        spacing(n, u) >= u,
        spacing(n, u) == u || spacing(n, u) * SIGNIFICANT <= 2 * n,
        n < spacing(n, u) * SIGNIFICANT,
    decreases n - u,
{
    if n >= u * SIGNIFICANT {
        lemma_spacing(n, 2 * u);
    }
}

proof fn lemma_nearest_bound(n: int)
    requires
        0 <= n,
    ensures
        0 <= nearest(n) <= 2 * n,
        n > 0 ==> nearest(n) > 0,
{
    let u = spacing(n, 1);
    lemma_spacing(n, 1);
    lemma_half_even_bound(n, u);
    vstd::arithmetic::div_mod::lemma_fundamental_div_mod(n, u);
    let h = half_even(n, u);
    assert(h * u >= 0) by (nonlinear_arith)
        requires
            h >= 0,
            u > 0,
    ;
    if u == 1 {
        assert(n / 1 == n);
        assert(h == n);
        assert(h * u == n);
    } else {
        assert(n / u >= 1) by (nonlinear_arith)
            requires
                n >= u,
                u > 0,
        ;
        assert(h * u >= u) by (nonlinear_arith)
            requires
                h >= 1,
                u > 0,
        ;
    }
}

/// The number of 53 significant bits that is nearest to an integer.
pub fn round(n: u128) -> (r: u128)
    requires
        n <= 0x10_0000_0000_0000_0000_0000_0000,
    ensures
        r == nearest(n as int),
        r <= 2 * n,
{
    let mut u: u128 = 1;
    while n >= u * SIGNIFICANT as u128
        invariant
            0 < u,
            u * SIGNIFICANT <= 0x20_0000_0000_0000_0000_0000_0000,
            n <= 0x10_0000_0000_0000_0000_0000_0000,
            spacing(n as int, 1) == spacing(n as int, u as int),
        decreases n - u,
    {
        u = 2 * u;
    }
    proof {
        lemma_nearest_bound(n as int);
    }
    let h: u128 = divide(n, u);
    h * u
}

/// What part `a` is of `b`, in percent and rounded to a whole number.
pub fn percentage(a: u64, b: u64) -> (r: u128)
    ensures
        r == percent(a as int, b as int),
{
    let x: u128 = round(a as u128);
    let y: u128 = round(b as u128);
    if x == 0 || y == 0 {
        return 0;
    }
    let mut up: u128 = x;
    let mut times: u128 = 1;
    let limit: u128 = y * SIGNIFICANT as u128;
    while 2 * up < limit
        invariant
            0 < x <= 0x2_0000_0000_0000_0000,
            0 < y <= 0x2_0000_0000_0000_0000,
            limit == y * SIGNIFICANT,
            0 < up,
            up == x * times,
            up == x || up < limit,
            scaled_up(x as int, y as int) == scaled_up(up as int, y as int),
        decreases limit - up,
    {
        assert(2 * up == x * (2 * times)) by (nonlinear_arith)
            requires
                up == x * times,
        ;
        assert(2 * times <= x * (2 * times)) by (nonlinear_arith)
            requires
                x >= 1,
        ;
        up = 2 * up;
        times = 2 * times;
    }
    let mut down: u128 = y;
    let mut parts: u128 = 1;
    while x >= down * SIGNIFICANT as u128
        invariant
            0 < x <= 0x2_0000_0000_0000_0000,
            0 < y <= 0x2_0000_0000_0000_0000,
            0 < down,
            down == y * parts,
            down == y || down * SIGNIFICANT <= 2 * x,
            scaled_down(x as int, y as int) == scaled_down(x as int, down as int),
        decreases x - down,
    {
        assert(2 * down == y * (2 * parts)) by (nonlinear_arith)
            requires
                down == y * parts,
        ;
        assert(2 * parts <= y * (2 * parts)) by (nonlinear_arith)
            requires
                y >= 1,
        ;
        down = 2 * down;
        parts = 2 * parts;
    }
    proof {
        assert(up < down * SIGNIFICANT);
        lemma_half_even_bound(up as int, down as int);
        assert((up as int) / (down as int) < SIGNIFICANT) by (nonlinear_arith)
            requires
                up < down * SIGNIFICANT,
                down > 0,
        ;
        vstd::arithmetic::div_mod::lemma_div_multiples_vanish(parts as int, y as int);
        vstd::arithmetic::div_mod::lemma_div_multiples_vanish(times as int, x as int);
        assert(parts <= y * parts) by (nonlinear_arith)
            requires
                y >= 1,
        ;
        assert(times <= x * times) by (nonlinear_arith)
            requires
                x >= 1,
        ;
        assert(times >= 1) by (nonlinear_arith)
            requires
                up == x * times,
                up > 0,
                times >= 0,
        ;
    }
    let quotient: u128 = divide(up, down);
    let hundredfold: u128 = round(100 * quotient);
    proof {
        if down == y {
            assert(parts == 1) by (nonlinear_arith)
                requires
                    y == y * parts,
                    y > 0,
            ;
        } else {
            assert(parts <= 0x1_0000);
        }
        assert(hundredfold * parts < 0x8000_0000_0000_0000_0000_0000_0000_0000) by (nonlinear_arith)
            requires
                hundredfold <= 0x200_0000_0000_0000_0000,
                parts <= 0x1_0000,
        ;
    }
    divide(hundredfold * parts, times)
}

} // verus!
