//! Rounding of exact rationals to binary64 (53 significant bits, ties to
//! even), stated over integers, and the facts the size parser needs.

use vstd::prelude::*;
use vstd::arithmetic::power2::{
    pow2, lemma_pow2_adds, lemma_pow2_pos, lemma_pow2_strictly_increases, lemma_pow2_unfold,
};
use vstd::arithmetic::div_mod::{
    lemma_fundamental_div_mod, lemma_fundamental_div_mod_converse_div,
    lemma_fundamental_div_mod_converse_mod,
};
use crate::util::round_half_even;
use crate::bigdec::{
    all_digits, compare_half, dval, lemma_dval_bound, lemma_dval_concat, lemma_dval_zero,
    lemma_pow10_pos, mul_pow2, pow10, pow2_u64, Half,
};

verus! {

/// `floor(log2(num / den))` for positive `num` and `den`.
pub open spec fn ilog2_ratio(num: nat, den: nat) -> int
    decreases (if num < den {
        1int
    } else {
        0int
    }), (if num < den {
        den - num
    } else {
        num - den
    }),
{
    if num == 0 || den == 0 {
        0
    } else if num >= 2 * den {
        1 + ilog2_ratio(num, 2 * den)
    } else if num < den {
        ilog2_ratio(2 * num, den) - 1
    } else {
        0
    }
}

/// `2^e <= num / den < 2^(e + 1)`.
pub open spec fn is_ilog2(num: nat, den: nat, e: int) -> bool {
    if e >= 0 {
        pow2(e as nat) * den <= num < 2 * pow2(e as nat) * den
    } else {
        den <= num * pow2((-e) as nat) < 2 * den
    }
}

/// `num / den` rounded to the nearest binary64 value (53 significant bits,
/// ties to even), multiplied by `2^k`, and truncated toward zero.
/// The value is kept in units of `2^-s`, `s = 52 - floor(log2(num / den))`.
pub open spec fn scaled_double_floor(num: nat, den: nat, k: nat) -> nat {
    if num == 0 || den == 0 {
        0
    } else {
        let s = 52 - ilog2_ratio(num, den);
        if s >= 0 {
            let m = round_half_even(num * pow2(s as nat), den);
            if k >= s {
                m * pow2((k - s) as nat)
            } else {
                m / pow2((s - k) as nat)
            }
        } else {
            let m = round_half_even(num, den * pow2((-s) as nat));
            m * pow2((k - s) as nat)
        }
    }
}

/// A non-negative number converted to `u64` the way `as u64` converts a
/// float: values above `u64::MAX` become `u64::MAX`.
pub open spec fn saturate_u64(v: nat) -> u64 {
    if v > u64::MAX {
        u64::MAX
    } else {
        v as u64
    }
}

pub proof fn lemma_ilog2(num: nat, den: nat)
    requires
        num > 0,
        den > 0,
    ensures
        is_ilog2(num, den, ilog2_ratio(num, den)),
        num >= den <==> ilog2_ratio(num, den) >= 0,
    decreases (if num < den {
        1int
    } else {
        0int
    }), (if num < den {
        den - num
    } else {
        num - den
    }),
{
    if num >= 2 * den {
        lemma_ilog2(num, 2 * den);
        let e = ilog2_ratio(num, 2 * den);
        assert(e >= 0);
        lemma_pow2_unfold((e + 1) as nat);
        let p = pow2(e as nat);
        assert(pow2((e + 1) as nat) == 2 * p);
        assert(pow2((e + 1) as nat) * den <= num < 2 * pow2((e + 1) as nat) * den) by (
        nonlinear_arith)
            requires
                p * (2 * den) <= num < 2 * p * (2 * den),
                pow2((e + 1) as nat) == 2 * p,
        ;
        assert(ilog2_ratio(num, den) == e + 1);
    } else if num < den {
        lemma_ilog2(2 * num, den);
        let e = ilog2_ratio(2 * num, den);
        if 2 * num >= den {
            assert(e == 0);
            assert(pow2(1) == 2) by {
                lemma_pow2_unfold(1);
                assert(pow2(0) == 1) by {
                    vstd::arithmetic::power2::lemma2_to64();
                }
            }
            assert(ilog2_ratio(num, den) == -1);
            assert(num * pow2(1) == 2 * num) by (nonlinear_arith)
                requires
                    pow2(1) == 2,
            ;
        } else {
            assert(e < 0);
            lemma_pow2_unfold((-e + 1) as nat);
            assert((-(e - 1)) as nat == (-e + 1) as nat);
            let p = pow2((-e) as nat);
            assert(den <= num * pow2((-(e - 1)) as nat) < 2 * den) by (nonlinear_arith)
                requires
                    den <= (2 * num) * p < 2 * den,
                    pow2((-(e - 1)) as nat) == 2 * p,
            ;
            assert(ilog2_ratio(num, den) == e - 1);
        }
    } else {
        assert(pow2(0) == 1) by {
            vstd::arithmetic::power2::lemma2_to64();
        }
        assert(pow2(0) * den <= num < 2 * pow2(0) * den) by (nonlinear_arith)
            requires
                pow2(0) == 1,
                den <= num < 2 * den,
        ;
    }
}

/// `floor(log2(x))` is the only `e` with `2^e <= x < 2^(e+1)`.
pub proof fn lemma_ilog2_unique(num: nat, den: nat, e1: int, e2: int)
    requires
        num > 0,
        den > 0,
        is_ilog2(num, den, e1),
        is_ilog2(num, den, e2),
    ensures
        e1 == e2,
{
    lemma_ilog2_lt(num, den, e1, e2);
    lemma_ilog2_lt(num, den, e2, e1);
}

proof fn lemma_ilog2_lt(num: nat, den: nat, a: int, b: int)
    requires
        num > 0,
        den > 0,
        is_ilog2(num, den, a),
        is_ilog2(num, den, b),
    ensures
        b <= a,
{
    if a >= b {
    } else if a >= 0 {
        lemma_pow2_unfold((a + 1) as nat);
        if a + 1 < b {
            lemma_pow2_strictly_increases((a + 1) as nat, b as nat);
        }
        let pa1 = pow2((a + 1) as nat);
        let pb = pow2(b as nat);
        assert(pa1 <= pb);
        assert(false) by (nonlinear_arith)
            requires
                num < pa1 * den,
                pb * den <= num,
                pa1 <= pb,
                den > 0,
        ;
    } else if b >= 0 {
        let pa = pow2((-a) as nat);
        lemma_pow2_unfold((-a) as nat);
        lemma_pow2_pos((-a - 1) as nat);
        assert(pa >= 2);
        assert(pow2(b as nat) >= 1) by {
            lemma_pow2_pos(b as nat);
        }
        assert(false) by (nonlinear_arith)
            requires
                num * pa < 2 * den,
                pa >= 2,
                pow2(b as nat) * den <= num,
                pow2(b as nat) >= 1,
                den > 0,
        ;
    } else {
        let pa = pow2((-a) as nat);
        let pb = pow2((-b) as nat);
        lemma_pow2_unfold((-b + 1) as nat);
        if -b + 1 < -a {
            lemma_pow2_strictly_increases((-b + 1) as nat, (-a) as nat);
        }
        let pb1 = pow2((-b + 1) as nat);
        assert(pb1 == 2 * pb);
        assert(pb1 <= pa);
        assert(false) by (nonlinear_arith)
            requires
                num * pa < 2 * den,
                den <= num * pb,
                pb1 == 2 * pb,
                pb1 <= pa,
        ;
    }
}

/// Multiplying by `2^k` adds `k` to the binary logarithm.
pub proof fn lemma_ilog2_scale(num: nat, den: nat, k: nat)
    requires
        num > 0,
        den > 0,
    ensures
        ilog2_ratio(num * pow2(k), den) == ilog2_ratio(num, den) + k,
{
    lemma_ilog2(num, den);
    lemma_pow2_pos(k);
    let e = ilog2_ratio(num, den);
    let pk = pow2(k);
    assert(num * pk > 0) by (nonlinear_arith)
        requires
            num > 0,
            pk > 0,
    ;
    lemma_ilog2(num * pk, den);
    assert(is_ilog2(num * pk, den, e + k)) by {
        if e >= 0 {
            lemma_pow2_adds(e as nat, k);
            let pe = pow2(e as nat);
            assert(pow2((e + k) as nat) == pe * pk);
            assert(pow2((e + k) as nat) * den <= num * pk < 2 * pow2((e + k) as nat) * den) by (
            nonlinear_arith)
                requires
                    pe * den <= num < 2 * pe * den,
                    pow2((e + k) as nat) == pe * pk,
                    pk > 0,
            ;
        } else if e + k >= 0 {
            let pn = pow2((-e) as nat);
            lemma_pow2_adds((-e) as nat, (e + k) as nat);
            let pm = pow2((e + k) as nat);
            assert(pn * pm == pk);
            lemma_pow2_pos((e + k) as nat);
            assert(pm * den <= num * pk < 2 * pm * den) by (nonlinear_arith)
                requires
                    den <= num * pn < 2 * den,
                    pn * pm == pk,
                    pm > 0,
            ;
        } else {
            let pn = pow2((-e) as nat);
            lemma_pow2_adds((-(e + k)) as nat, k);
            let pm = pow2((-(e + k)) as nat);
            assert(pm * pk == pn);
            assert(den <= (num * pk) * pm < 2 * den) by (nonlinear_arith)
                requires
                    den <= num * pn < 2 * den,
                    pm * pk == pn,
            ;
        }
    }
    lemma_ilog2_unique(num * pk, den, ilog2_ratio(num * pk, den), e + k);
}

/// Rounding `a / b` is unchanged when both are multiplied by `c`.
pub proof fn lemma_rhe_scale(a: nat, b: nat, c: nat)
    requires
        b > 0,
        c > 0,
    ensures
        round_half_even(a * c, b * c) == round_half_even(a, b),
{
    let q = a / b;
    let r = a % b;
    lemma_fundamental_div_mod(a as int, b as int);
    assert(b * c > 0) by (nonlinear_arith)
        requires
            b > 0,
            c > 0,
    ;
    assert(a * c == q * (b * c) + r * c) by (nonlinear_arith)
        requires
            a == b * q + r,
    ;
    assert(r * c < b * c) by (nonlinear_arith)
        requires
            r < b,
            c > 0,
    ;
    lemma_fundamental_div_mod_converse_div((a * c) as int, (b * c) as int, q as int, (r * c) as int);
    lemma_fundamental_div_mod_converse_mod((a * c) as int, (b * c) as int, q as int, (r * c) as int);
    assert((2 * (r * c) > b * c) == (2 * r > b)) by (nonlinear_arith)
        requires
            c > 0,
    ;
    assert((2 * (r * c) == b * c) == (2 * r == b)) by (nonlinear_arith)
        requires
            c > 0,
    ;
}

/// Rounding to binary64 commutes with scaling by `2^k`.
pub proof fn lemma_scaled_double_floor(num: nat, den: nat, k: nat)
    requires
        den > 0,
    ensures
        scaled_double_floor(num, den, k) == scaled_double_floor(num * pow2(k), den, 0),
{
    if num == 0 {
        assert(num * pow2(k) == 0);
        return;
    }
    lemma_pow2_pos(k);
    let pk = pow2(k);
    let y = num * pk;
    assert(y > 0) by (nonlinear_arith)
        requires
            y == num * pk,
            num > 0,
            pk > 0,
    ;
    lemma_ilog2_scale(num, den, k);
    let sx = 52 - ilog2_ratio(num, den);
    let sy = 52 - ilog2_ratio(y, den);
    assert(sy == sx - k);
    assert(pow2(0) == 1) by {
        vstd::arithmetic::power2::lemma2_to64();
    }
    if sx >= 0 {
        let px = pow2(sx as nat);
        let mx = round_half_even(num * px, den);
        if sy >= 0 {
            let py = pow2(sy as nat);
            lemma_pow2_adds(k, sy as nat);
            assert(pk * py == px);
            assert(y * py == num * px) by (nonlinear_arith)
                requires
                    y == num * pk,
                    pk * py == px,
            ;
            if sy == 0 {
                assert(mx * pow2(0) == mx) by (nonlinear_arith)
                    requires
                        pow2(0) == 1,
                ;
                assert(y * pow2(0) == y) by (nonlinear_arith)
                    requires
                        pow2(0) == 1,
                ;
            }
        } else {
            let d = (k - sx) as nat;
            let pd = pow2(d);
            lemma_pow2_adds(sx as nat, d);
            assert(px * pd == pk);
            lemma_pow2_pos(d);
            assert(y == (num * px) * pd) by (nonlinear_arith)
                requires
                    y == num * pk,
                    px * pd == pk,
            ;
            lemma_rhe_scale(num * px, den, pd);
            assert((-sy) as nat == d);
            assert(((0 - sy) as nat) == d);
        }
    } else {
        let px = pow2((-sx) as nat);
        lemma_pow2_pos((-sx) as nat);
        lemma_pow2_adds((-sx) as nat, k);
        assert((-sy) as nat == ((-sx) as nat) + k);
        assert(pow2((-sy) as nat) == px * pk);
        assert(den * pow2((-sy) as nat) == (den * px) * pk) by (nonlinear_arith)
            requires
                pow2((-sy) as nat) == px * pk,
        ;
        assert(den * px > 0) by (nonlinear_arith)
            requires
                den > 0,
                px > 0,
        ;
        lemma_rhe_scale(num, den * px, pk);
        assert((k - sx) as nat == (0 - sy) as nat);
    }
}


/// When `n / d` has integer part `i` with `2^b <= i < 2^(b+1)`, its binary
/// logarithm is `b`.
proof fn lemma_ilog2_of_floor(n: nat, d: nat, i: nat, rho: nat, b: nat)
    requires
        d > 0,
        n == i * d + rho,
        rho < d,
        pow2(b) <= i < 2 * pow2(b),
    ensures
        ilog2_ratio(n, d) == b,
        n > 0,
{
    lemma_pow2_pos(b);
    let p = pow2(b);
    assert(p * d <= n < 2 * p * d) by (nonlinear_arith)
        requires
            n == i * d + rho,
            rho < d,
            p <= i < 2 * p,
            d > 0,
    ;
    assert(n > 0) by (nonlinear_arith)
        requires
            p * d <= n,
            p > 0,
            d > 0,
    ;
    assert(is_ilog2(n, d, b as int));
    lemma_ilog2(n, d);
    lemma_ilog2_unique(n, d, ilog2_ratio(n, d), b as int);
}

/// Rounding when the integer part `i` has at least 54 bits: the last
/// `b - 52` bits of `i` are rounded away, the fraction `rho / d` only
/// breaking ties.
pub proof fn lemma_round_large(n: nat, d: nat, i: nat, rho: nat, b: nat)
    requires
        d > 0,
        n == i * d + rho,
        rho < d,
        b >= 53,
        pow2(b) <= i < 2 * pow2(b),
    ensures
        ({
            let u = pow2((b - 52) as nat);
            let q = i / u;
            let r = i % u;
            let up = 2 * r > u || (2 * r == u && (rho > 0 || q % 2 == 1));
            &&& scaled_double_floor(n, d, 0) == (if up {
                q + 1
            } else {
                q
            }) * u
            &&& q >= pow2(52)
            &&& pow2(52) * u == pow2(b)
        }),
{
    lemma_ilog2_of_floor(n, d, i, rho, b);
    let e = (b - 52) as nat;
    let u = pow2(e);
    lemma_pow2_pos(e);
    lemma_pow2_unfold(e);
    let h = pow2((e - 1) as nat);
    assert(u == 2 * h);
    let q = i / u;
    let r = i % u;
    lemma_fundamental_div_mod(i as int, u as int);
    assert(i == q * u + r);
    let du = d * u;
    assert(du > 0) by (nonlinear_arith)
        requires
            du == d * u,
            d > 0,
            u > 0,
    ;
    assert(n == q * du + (r * d + rho)) by (nonlinear_arith)
        requires
            n == i * d + rho,
            i == q * u + r,
            du == d * u,
    ;
    assert(r * d + rho < du) by (nonlinear_arith)
        requires
            r < u,
            rho < d,
            du == d * u,
    ;
    lemma_fundamental_div_mod_converse_div(n as int, du as int, q as int, (r * d + rho) as int);
    lemma_fundamental_div_mod_converse_mod(n as int, du as int, q as int, (r * d + rho) as int);
    let rem = r * d + rho;
    assert(n / du == q);
    assert(n % du == rem);
    if 2 * r > u {
        assert(2 * rem > du) by (nonlinear_arith)
            requires
                2 * r >= u + 1,
                rem == r * d + rho,
                du == d * u,
                d > 0,
        ;
    } else if 2 * r == u {
        assert(2 * rem == du + 2 * rho) by (nonlinear_arith)
            requires
                2 * r == u,
                rem == r * d + rho,
                du == d * u,
        ;
    } else {
        assert(2 * rem < du) by (nonlinear_arith)
            requires
                2 * r < u,
                u == 2 * h,
                rem == r * d + rho,
                du == d * u,
                rho < d,
        ;
    }
    assert((0 - (52 - b)) as nat == e);
    assert((-(52 - b)) as nat == e);
    lemma_pow2_adds(52, e);
    assert(52 + e == b);
    let p52 = pow2(52);
    assert(q >= p52) by (nonlinear_arith)
        requires
            i == q * u + r,
            r < u,
            p52 * u == pow2(b),
            pow2(b) <= i,
            u > 0,
    ;
}

/// Rounding when the integer part `i` has at most 53 bits: `t = 2^(52-b)`
/// units per one, the fraction scaled by `t` being `g + rr / d`.
pub proof fn lemma_round_mid(n: nat, d: nat, i: nat, rho: nat, b: nat, g: nat, rr: nat)
    requires
        d > 0,
        n == i * d + rho,
        rho < d,
        b <= 52,
        pow2(b) <= i < 2 * pow2(b),
        rho * pow2((52 - b) as nat) == g * d + rr,
        rr < d,
    ensures
        ({
            let t = pow2((52 - b) as nat);
            let m0 = i * t + g;
            let up = 2 * rr > d || (2 * rr == d && m0 % 2 == 1);
            scaled_double_floor(n, d, 0) == (if up {
                m0 + 1
            } else {
                m0
            }) / t
        }),
{
    lemma_ilog2_of_floor(n, d, i, rho, b);
    let s = (52 - b) as nat;
    let t = pow2(s);
    lemma_pow2_pos(s);
    let m0 = i * t + g;
    assert(n * t == m0 * d + rr) by (nonlinear_arith)
        requires
            n == i * d + rho,
            rho * t == g * d + rr,
            m0 == i * t + g,
    ;
    lemma_fundamental_div_mod_converse_div((n * t) as int, d as int, m0 as int, rr as int);
    lemma_fundamental_div_mod_converse_mod((n * t) as int, d as int, m0 as int, rr as int);
    assert((n * t) / d == m0);
    assert((n * t) % d == rr);
    let m = round_half_even(n * t, d);
    let up = 2 * rr > d || (2 * rr == d && m0 % 2 == 1);
    assert(m == if up {
        m0 + 1
    } else {
        m0
    });
    if s > 0 {
        assert(scaled_double_floor(n, d, 0) == m / t);
    }
    if s == 0 {
        assert(t == 1) by {
            vstd::arithmetic::power2::lemma2_to64();
        }
        assert(m * pow2(0) == m) by (nonlinear_arith)
            requires
                pow2(0) == 1,
        ;
        assert(m / t == m) by (nonlinear_arith)
            requires
                t == 1,
        ;
    }
}

/// Rounding when `n / d < 1`: with `n * 2^53 == g * d + rr`, the value
/// reaches one exactly when `g + rr / d` rounds to `2^53`.
pub proof fn lemma_round_small(n: nat, d: nat, g: nat, rr: nat)
    requires
        d > 0,
        n < d,
        n * pow2(53) == g * d + rr,
        rr < d,
    ensures
        ({
            let up = 2 * rr > d || (2 * rr == d && g % 2 == 1);
            scaled_double_floor(n, d, 0) == (if up {
                g + 1
            } else {
                g
            }) / pow2(53)
        }),
{
    vstd::arithmetic::power2::lemma2_to64();
    vstd::arithmetic::power2::lemma2_to64_rest();
    let p53 = pow2(53);
    if n == 0 {
        assert(g == 0 && rr == 0) by (nonlinear_arith)
            requires
                0 == g * d + rr,
                d > 0,
        ;
        assert(0nat / p53 == 0);
        return;
    }
    lemma_ilog2(n, d);
    let e = ilog2_ratio(n, d);
    assert(e < 0);
    let s = 52 - e;
    if 2 * n >= d {
        assert(n * pow2(1) == 2 * n) by (nonlinear_arith)
            requires
                pow2(1) == 2,
        ;
        assert(is_ilog2(n, d, -1));
        lemma_ilog2_unique(n, d, e, -1);
        assert(s == 53);
        lemma_fundamental_div_mod_converse_div((n * p53) as int, d as int, g as int, rr as int);
        lemma_fundamental_div_mod_converse_mod((n * p53) as int, d as int, g as int, rr as int);
    } else {
        if e == -1 {
            assert(n * pow2(1) == 2 * n) by (nonlinear_arith)
                requires
                    pow2(1) == 2,
            ;
        }
        assert(e <= -2);
        let pe = pow2((-e) as nat);
        let ps = pow2(s as nat);
        lemma_pow2_adds((-e) as nat, 52);
        assert(ps == pe * pow2(52));
        assert(pow2(54) <= ps) by {
            if 54 < s {
                vstd::arithmetic::power2::lemma_pow2_strictly_increases(54, s as nat);
            }
        }
        let a = n * ps;
        assert(is_ilog2(n, d, e));
        assert(n * pe < 2 * d);
        let p52 = pow2(52);
        assert(a == (n * pe) * p52) by (nonlinear_arith)
            requires
                ps == pe * p52,
                a == n * ps,
        ;
        assert((n * pe) * p52 < (2 * d) * p52) by (nonlinear_arith)
            requires
                n * pe < 2 * d,
                p52 > 0,
        ;
        assert(a < p53 * d) by (nonlinear_arith)
            requires
                a < (2 * d) * p52,
                p53 == 2 * p52,
        ;
        let m = round_half_even(a, d);
        lemma_fundamental_div_mod(a as int, d as int);
        assert(a / d < p53) by (nonlinear_arith)
            requires
                a < p53 * d,
                a == d * (a / d) + a % d,
                a % d >= 0,
                d > 0,
        ;
        assert(m <= p53);
        assert(m / ps == 0) by (nonlinear_arith)
            requires
                m <= p53,
                p53 < pow2(54),
                pow2(54) <= ps,
        ;
        assert(g * d < p52 * d) by (nonlinear_arith)
            requires
                n * p53 == g * d + rr,
                p53 == 2 * p52,
                2 * n < d,
                p52 > 0,
        ;
        assert(g < p52) by (nonlinear_arith)
            requires
                g * d < p52 * d,
                d > 0,
        ;
        let gu: nat = if 2 * rr > d || (2 * rr == d && g % 2 == 1) { g + 1 } else { g };
        assert(gu / p53 == 0) by (nonlinear_arith)
            requires
                gu <= g + 1,
                g < pow2(52),
                p53 == 2 * pow2(52),
        ;
    }
}

/// A number whose integer part reaches `2^64` rounds to at least `2^64`.
pub proof fn lemma_round_huge(n: nat, d: nat, i: nat, rho: nat)
    requires
        d > 0,
        n == i * d + rho,
        rho < d,
        i >= pow2(64),
    ensures
        scaled_double_floor(n, d, 0) >= pow2(64),
{
    vstd::arithmetic::power2::lemma2_to64();
    assert(n >= d) by (nonlinear_arith)
        requires
            n == i * d + rho,
            i >= 1,
    ;
    lemma_ilog2(n, d);
    let b = ilog2_ratio(n, d);
    assert(b >= 0);
    let bn = b as nat;
    let p = pow2(bn);
    assert(p <= i < 2 * p) by (nonlinear_arith)
        requires
            p * d <= n < 2 * p * d,
            n == i * d + rho,
            rho < d,
            d > 0,
    ;
    if bn < 64 {
        lemma_pow2_unfold(bn + 1);
        if bn + 1 < 64 {
            vstd::arithmetic::power2::lemma_pow2_strictly_increases(bn + 1, 64);
        }
    }
    assert(bn >= 64);
    lemma_round_large(n, d, i, rho, bn);
    let u = pow2((bn - 52) as nat);
    let q = i / u;
    lemma_pow2_pos((bn - 52) as nat);
    if bn > 64 {
        vstd::arithmetic::power2::lemma_pow2_strictly_increases(64, bn);
    }
    assert(q * u >= pow2(52) * u) by (nonlinear_arith)
        requires
            q >= pow2(52),
            u > 0,
    ;
    assert((q + 1) * u >= q * u) by (nonlinear_arith)
        requires
            u > 0,
    ;
}


/// Whether some digit is not zero, that is whether the digits are worth
/// more than zero.
fn any_nonzero(digits: &Vec<u8>) -> (r: bool)
    ensures
        r == (dval(digits@) > 0),
{
    let n = digits.len();
    let mut i: usize = 0;
    while i < n
        invariant
            i <= n,
            n == digits@.len(),
            forall|j: int| 0 <= j < i ==> #[trigger] digits@[j] == 0,
        decreases n - i,
    {
        if digits[i] != 0 {
            proof {
                lemma_dval_zero(digits@);
            }
            return true;
        }
        i = i + 1;
    }
    proof {
        lemma_dval_zero(digits@);
    }
    false
}

/// Whether a fraction `rr / d` rounds up, given how `2 * rr` compares with
/// `d` and the parity of what it is added to.
fn rounds_up(h: Half, odd: bool) -> (up: bool)
    ensures
        up == (h == Half::Above || (h == Half::Exactly && odd)),
{
    match h {
        Half::Above => true,
        Half::Exactly => odd,
        Half::Below => false,
    }
}

/// `dval(a + b) * 2^k` split into whole units of `10^|b|` and the rest.
proof fn lemma_split(a: Seq<u8>, b: Seq<u8>, k: nat, c: nat, f: Seq<u8>)
    requires
        dval(b) * pow2(k) == c * pow10(b.len()) + dval(f),
    ensures
        dval(a + b) * pow2(k) == (dval(a) * pow2(k) + c) * pow10(b.len()) + dval(f),
{
    lemma_dval_concat(a, b);
    let d = pow10(b.len());
    let pk = pow2(k);
    assert(dval(a + b) * pk == (dval(a) * pk + c) * d + dval(f)) by (nonlinear_arith)
        requires
            dval(a + b) == dval(a) * d + dval(b),
            dval(b) * pk == c * d + dval(f),
    ;
}

/// The decimal number `a.b` (digits one per byte, `a` before the point and
/// `b` after it) rounded to the nearest binary64 value, multiplied by
/// `2^k`, truncated toward zero and saturated to `u64`, as
/// `("a.b".parse::<f64>() * 2^k) as u64` computes it.
#[verifier::loop_isolation(false)]
pub fn scaled_decimal_to_u64(int_digits: &Vec<u8>, frac_digits: &Vec<u8>, k: u32) -> (r: u64)
    requires
        all_digits(int_digits@),
        all_digits(frac_digits@),
        k <= 40,
    ensures
        r == saturate_u64(
            scaled_double_floor(
                dval(int_digits@ + frac_digits@),
                pow10(frac_digits@.len()),
                k as nat,
            ),
        ),
{
    let ghost a = int_digits@;
    let ghost bb = frac_digits@;
    let ghost d = pow10(bb.len());
    let ghost n = dval(a + bb) * pow2(k as nat);
    proof {
        lemma_pow10_pos(bb.len());
        lemma_scaled_double_floor(dval(a + bb), d, k as nat);
        vstd::arithmetic::power2::lemma2_to64();
        vstd::arithmetic::power2::lemma2_to64_rest();
        lemma_pow2_pos(k as nat);
        if k < 40 {
            vstd::arithmetic::power2::lemma_pow2_strictly_increases(k as nat, 40);
        }
    }
    let (c, fpart) = mul_pow2(frac_digits, k);
    let ghost rho = dval(fpart@);
    proof {
        lemma_split(a, bb, k as nat, c as nat, fpart@);
        lemma_dval_bound(fpart@);
    }
    let pk = pow2_u64(k);
    // The integer part of `a`, stopping once it reaches 2^64.
    let na = int_digits.len();
    let mut da: u128 = 0;
    let mut idx: usize = 0;
    while idx < na
        invariant
            idx <= na,
            na == a.len(),
            a == int_digits@,
            all_digits(a),
            da == dval(a.subrange(0, idx as int)),
            da < 0x1_0000_0000_0000_0000,
        decreases na - idx,
    {
        let dig = int_digits[idx];
        proof {
            assert(a.subrange(0, idx + 1).drop_last() =~= a.subrange(0, idx as int));
            assert(a.subrange(0, idx + 1).last() == dig);
        }
        da = da * 10 + dig as u128;
        idx = idx + 1;
        if da >= 0x1_0000_0000_0000_0000 {
            proof {
                let pre = a.subrange(0, idx as int);
                let rest = a.subrange(idx as int, na as int);
                assert(a =~= pre + rest);
                lemma_dval_concat(pre, rest);
                lemma_pow10_pos(rest.len());
                assert(dval(a) >= dval(pre)) by (nonlinear_arith)
                    requires
                        dval(a) == dval(pre) * pow10(rest.len()) + dval(rest),
                        pow10(rest.len()) >= 1,
                ;
                let i: nat = dval(a) * pow2(k as nat) + c as nat;
                assert(i >= pow2(64)) by (nonlinear_arith)
                    requires
                        i == dval(a) * pow2(k as nat) + c,
                        dval(a) >= pow2(64),
                        pow2(k as nat) >= 1,
                ;
                lemma_round_huge(n, d, i, rho);
            }
            return u64::MAX;
        }
    }
    proof {
        assert(a.subrange(0, na as int) =~= a);
    }
    assert(pk <= 0x100_0000_0000);
    assert(da * (pk as u128) <= 0xFFFF_FFFF_FFFF_FFFF * 0x100_0000_0000) by (nonlinear_arith)
        requires
            da < 0x1_0000_0000_0000_0000,
            pk <= 0x100_0000_0000,
    ;
    let i128v: u128 = da * (pk as u128) + c as u128;
    let ghost i: nat = dval(a) * pow2(k as nat) + c as nat;
    assert(i128v == i);
    if i128v >= 0x1_0000_0000_0000_0000 {
        proof {
            lemma_round_huge(n, d, i, rho);
        }
        return u64::MAX;
    }
    let iv = i128v as u64;
    if iv == 0 {
        let (g, rr) = mul_pow2(&fpart, 53);
        let up = rounds_up(compare_half(&rr), g % 2 == 1);
        let m = if up {
            g + 1
        } else {
            g
        };
        proof {
            lemma_dval_bound(rr@);
            assert(n == rho);
            lemma_round_small(n, d, g as nat, dval(rr@));
        }
        return m / 0x20_0000_0000_0000;
    }
    // The binary length of the integer part: 2^b <= iv < 2^(b+1).
    let mut p: u64 = 1;
    let mut b: u32 = 0;
    while p <= iv / 2
        invariant
            1 <= p <= iv,
            p == pow2(b as nat),
            b < 64,
        decreases iv - p,
    {
        proof {
            lemma_pow2_unfold((b + 1) as nat);
            if b + 1 < 64 {
            } else {
                vstd::arithmetic::power2::lemma2_to64();
            }
        }
        p = p * 2;
        b = b + 1;
        proof {
            if b >= 64 {
                vstd::arithmetic::power2::lemma_pow2_strictly_increases(64, b as nat);
            }
        }
    }
    assert(iv < 2 * p);
    if b >= 53 {
        let u = pow2_u64(b - 52);
        let q = iv / u;
        let r = iv % u;
        proof {
            if b - 52 < 11 {
                vstd::arithmetic::power2::lemma_pow2_strictly_increases((b - 52) as nat, 11);
            }
            if b - 52 > 1 {
                vstd::arithmetic::power2::lemma_pow2_strictly_increases(1, (b - 52) as nat);
            }
            assert(2 <= u <= 2048);
            lemma_fundamental_div_mod(iv as int, u as int);
            assert(q < 0x8000_0000_0000_0000) by (nonlinear_arith)
                requires
                    iv == u * q + r,
                    r >= 0,
                    u >= 2,
                    iv < 0x1_0000_0000_0000_0000,
            ;
        }
        let rho_pos = any_nonzero(&fpart);
        let up = 2 * r > u || (2 * r == u && (rho_pos || q % 2 == 1));
        let qu: u64 = if up {
            q + 1
        } else {
            q
        };
        assert(qu as u128 * u as u128 <= 0x8000_0000_0000_0000 * 2048) by (nonlinear_arith)
            requires
                qu <= 0x8000_0000_0000_0000,
                u <= 2048,
        ;
        let m: u128 = qu as u128 * u as u128;
        proof {
            lemma_round_large(n, d, i, rho, b as nat);
        }
        if m > 0xFFFF_FFFF_FFFF_FFFF {
            u64::MAX
        } else {
            m as u64
        }
    } else {
        let s = 52 - b;
        let t = pow2_u64(s);
        let (g, rr) = mul_pow2(&fpart, s);
        proof {
            lemma_pow2_adds((b + 1) as nat, s as nat);
            lemma_pow2_unfold((b + 1) as nat);
            lemma_pow2_pos(s as nat);
            assert(iv * t < (2 * p) * t) by (nonlinear_arith)
                requires
                    iv < 2 * p,
                    t > 0,
            ;
            assert((2 * p) * t == pow2(53));
            if s < 52 {
                vstd::arithmetic::power2::lemma_pow2_strictly_increases(s as nat, 52);
            }
        }
        let m0 = iv * t + g;
        let up = rounds_up(compare_half(&rr), m0 % 2 == 1);
        let m = if up {
            m0 + 1
        } else {
            m0
        };
        proof {
            lemma_dval_bound(rr@);
            lemma_round_mid(n, d, i, rho, b as nat, g as nat, dval(rr@));
        }
        m / t
    }
}

} // verus!
