//! Exact arithmetic on decimal digit strings of any length: their value,
//! multiplication by a power of two, and comparison with one half.

use vstd::prelude::*;
use vstd::arithmetic::power2::{pow2, lemma_pow2_unfold, lemma_pow2_pos};

verus! {

/// `10^n`.
pub open spec fn pow10(n: nat) -> nat
    decreases n,
{
    if n == 0 {
        1
    } else {
        10 * pow10((n - 1) as nat)
    }
}

/// Value of big-endian decimal digits.
pub open spec fn dval(s: Seq<u8>) -> nat
    decreases s.len(),
{
    if s.len() == 0 {
        0
    } else {
        dval(s.drop_last()) * 10 + s.last() as nat
    }
}

/// Every element is a decimal digit.
pub open spec fn all_digits(s: Seq<u8>) -> bool {
    forall|i: int| 0 <= i < s.len() ==> #[trigger] s[i] < 10
}

pub proof fn lemma_pow10_pos(n: nat)
    ensures
        pow10(n) >= 1,
    decreases n,
{
    if n > 0 {
        lemma_pow10_pos((n - 1) as nat);
    }
}

/// `dval(a + b) == dval(a) * 10^|b| + dval(b)`.
pub proof fn lemma_dval_concat(a: Seq<u8>, b: Seq<u8>)
    ensures
        dval(a + b) == dval(a) * pow10(b.len()) + dval(b),
    decreases b.len(),
{
    if b.len() == 0 {
        assert(a + b =~= a);
        assert(pow10(0) == 1);
        assert(dval(b) == 0);
        assert(dval(a) * pow10(b.len()) == dval(a)) by (nonlinear_arith)
            requires
                pow10(b.len()) == 1,
        ;
    } else {
        let bl = b.drop_last();
        lemma_dval_concat(a, bl);
        assert((a + b).drop_last() =~= a + bl);
        assert((a + b).last() == b.last());
        let p = pow10(bl.len());
        assert(pow10(b.len()) == 10 * p);
        assert(dval(a + b) == (dval(a) * p + dval(bl)) * 10 + b.last() as nat);
        assert(dval(a + b) == dval(a) * pow10(b.len()) + dval(b)) by (nonlinear_arith)
            requires
                dval(a + b) == (dval(a) * p + dval(bl)) * 10 + b.last() as nat,
                pow10(b.len()) == 10 * p,
                dval(b) == dval(bl) * 10 + b.last() as nat,
        ;
    }
}

/// A single digit is worth itself.
pub proof fn lemma_dval_single(d: u8)
    ensures
        dval(seq![d]) == d as nat,
{
    assert(seq![d].drop_last() =~= Seq::<u8>::empty());
    assert(seq![d].last() == d);
    assert(dval(Seq::<u8>::empty()) == 0);
}

/// The first digit and the rest: `dval(s) == s[0] * 10^(|s|-1) + dval(s[1..])`.
pub proof fn lemma_dval_first(s: Seq<u8>)
    requires
        s.len() > 0,
    ensures
        dval(s) == s[0] as nat * pow10((s.len() - 1) as nat) + dval(s.skip(1)),
{
    assert(s =~= seq![s[0]] + s.skip(1));
    lemma_dval_concat(seq![s[0]], s.skip(1));
    lemma_dval_single(s[0]);
}

/// Digits of length `n` are worth less than `10^n`.
pub proof fn lemma_dval_bound(s: Seq<u8>)
    requires
        all_digits(s),
    ensures
        dval(s) < pow10(s.len()),
    decreases s.len(),
{
    if s.len() > 0 {
        let t = s.drop_last();
        assert(all_digits(t)) by {
            assert forall|i: int| 0 <= i < t.len() implies #[trigger] t[i] < 10 by {
                assert(t[i] == s[i]);
            }
        }
        lemma_dval_bound(t);
        assert(s.last() < 10) by {
            assert(s[s.len() - 1] < 10);
        }
        assert(dval(s) < pow10(s.len())) by (nonlinear_arith)
            requires
                dval(s) == dval(t) * 10 + s.last() as nat,
                dval(t) < pow10(t.len()),
                s.last() < 10,
                pow10(s.len()) == 10 * pow10(t.len()),
        ;
    }
}

/// Digits are worth zero exactly when all of them are zero.
pub proof fn lemma_dval_zero(s: Seq<u8>)
    ensures
        dval(s) == 0 <==> forall|i: int| 0 <= i < s.len() ==> #[trigger] s[i] == 0,
    decreases s.len(),
{
    if s.len() > 0 {
        let t = s.drop_last();
        lemma_dval_zero(t);
        if dval(s) == 0 {
            assert forall|i: int| 0 <= i < s.len() implies #[trigger] s[i] == 0 by {
                if i < s.len() - 1 {
                    assert(s[i] == t[i]);
                }
            }
        }
        if forall|i: int| 0 <= i < s.len() ==> #[trigger] s[i] == 0 {
            assert forall|i: int| 0 <= i < t.len() implies #[trigger] t[i] == 0 by {
                assert(t[i] == s[i]);
            }
            assert(s[s.len() - 1] == 0);
        }
    }
}

/// `2^j` as a machine integer.
pub fn pow2_u64(j: u32) -> (t: u64)
    requires
        j < 64,
    ensures
        t == pow2(j as nat),
{
    let mut t: u64 = 1;
    let mut i: u32 = 0;
    proof {
        vstd::arithmetic::power2::lemma2_to64();
    }
    while i < j
        invariant
            i <= j < 64,
            t == pow2(i as nat),
        decreases j - i,
    {
        proof {
            lemma_pow2_unfold((i + 1) as nat);
            vstd::arithmetic::power2::lemma_pow2_strictly_increases((i + 1) as nat, 64);
            vstd::arithmetic::power2::lemma2_to64();
        }
        t = t * 2;
        i = i + 1;
    }
    t
}

/// Multiplies the number written by `digits` by `2^j`: the result is
/// `high * 10^len + dval(low)` with `low` as long as `digits`.
pub fn mul_pow2(digits: &Vec<u8>, j: u32) -> (r: (u64, Vec<u8>))
    requires
        j <= 54,
        all_digits(digits@),
    ensures
        r.1@.len() == digits@.len(),
        all_digits(r.1@),
        (r.0 as nat) < pow2(j as nat),
        dval(digits@) * pow2(j as nat) == r.0 as nat * pow10(digits@.len()) + dval(r.1@),
{
    let t = pow2_u64(j);
    proof {
        vstd::arithmetic::power2::lemma2_to64();
        if j < 54 {
            vstd::arithmetic::power2::lemma_pow2_strictly_increases(j as nat, 54);
        }
        assert(pow2(54) == 0x40_0000_0000_0000) by {
            lemma_pow2_unfold(54);
            lemma_pow2_unfold(53);
            lemma_pow2_unfold(52);
            lemma_pow2_unfold(51);
            lemma_pow2_unfold(50);
            lemma_pow2_unfold(49);
            lemma_pow2_unfold(48);
            lemma_pow2_unfold(47);
            lemma_pow2_unfold(46);
            lemma_pow2_unfold(45);
            lemma_pow2_unfold(44);
            lemma_pow2_unfold(43);
            lemma_pow2_unfold(42);
            lemma_pow2_unfold(41);
            lemma_pow2_unfold(40);
            lemma_pow2_unfold(39);
            lemma_pow2_unfold(38);
            lemma_pow2_unfold(37);
            lemma_pow2_unfold(36);
            lemma_pow2_unfold(35);
            lemma_pow2_unfold(34);
            lemma_pow2_unfold(33);
        }
        lemma_pow2_pos(j as nat);
    }
    assert(t <= 0x40_0000_0000_0000);
    let n = digits.len();
    let mut low: Vec<u8> = Vec::new();
    let mut z: usize = 0;
    while z < n
        invariant
            z <= n,
            n == digits@.len(),
            low@.len() == z,
            forall|k: int| 0 <= k < z ==> #[trigger] low@[k] == 0,
        decreases n - z,
    {
        low.push(0);
        z = z + 1;
    }
    let mut carry: u64 = 0;
    let mut i: usize = n;
    proof {
        assert(low@.skip(n as int) =~= Seq::<u8>::empty());
        assert(digits@.skip(n as int) =~= Seq::<u8>::empty());
        assert(dval(low@.skip(n as int)) == 0);
        assert(dval(digits@.skip(n as int)) == 0);
    }
    while i > 0
        invariant
            i <= n,
            n == digits@.len(),
            low@.len() == n,
            all_digits(digits@),
            t == pow2(j as nat),
            1 <= t <= 0x40_0000_0000_0000,
            carry < t,
            forall|k: int| i <= k < n ==> #[trigger] low@[k] < 10,
            dval(low@.skip(i as int)) + carry * pow10((n - i) as nat) == dval(
                digits@.skip(i as int),
            ) * t,
        decreases i,
    {
        let ghost old_low = low@;
        let ghost old_carry = carry;
        let d = digits[i - 1] as u64;
        assert(d < 10);
        assert(d * t + carry < 11 * 0x40_0000_0000_0000) by (nonlinear_arith)
            requires
                d < 10,
                t <= 0x40_0000_0000_0000,
                carry < t,
        ;
        let v = d * t + carry;
        low.set(i - 1, (v % 10) as u8);
        carry = v / 10;
        assert(carry < t) by (nonlinear_arith)
            requires
                carry == v / 10,
                v == d * t + old_carry,
                d < 10,
                old_carry < t,
        ;
        proof {
            let p = pow10((n - i) as nat);
            assert(low@.skip(i - 1) =~= seq![low@[i - 1]] + old_low.skip(i as int));
            assert(digits@.skip(i - 1) =~= seq![digits@[i - 1]] + digits@.skip(i as int));
            lemma_dval_concat(seq![low@[i - 1]], old_low.skip(i as int));
            lemma_dval_concat(seq![digits@[i - 1]], digits@.skip(i as int));
            lemma_dval_single(low@[i - 1]);
            lemma_dval_single(digits@[i - 1]);
            assert(old_low.skip(i as int).len() == n - i);
            assert(pow10((n - (i - 1)) as nat) == 10 * p);
            assert(dval(low@.skip(i - 1)) + carry * pow10((n - (i - 1)) as nat) == dval(
                digits@.skip(i - 1),
            ) * t) by (nonlinear_arith)
                requires
                    dval(low@.skip(i - 1)) == (v % 10) * p + dval(old_low.skip(i as int)),
                    dval(digits@.skip(i - 1)) == d * p + dval(digits@.skip(i as int)),
                    dval(old_low.skip(i as int)) + old_carry * p == dval(digits@.skip(i as int))
                        * t,
                    v == d * t + old_carry,
                    carry == v / 10,
                    pow10((n - (i - 1)) as nat) == 10 * p,
            ;
        }
        i = i - 1;
    }
    proof {
        assert(low@.skip(0) =~= low@);
        assert(digits@.skip(0) =~= digits@);
        assert(all_digits(low@)) by {
            assert forall|k: int| 0 <= k < low@.len() implies #[trigger] low@[k] < 10 by {}
        }
    }
    (carry, low)
}

/// How twice a number compares with a power of ten.
#[derive(Debug, Clone, Copy, PartialEq, Eq, Structural)]
pub enum Half {
    Below,
    Exactly,
    Above,
}

/// Compares `dval(r) / 10^|r|` with one half.
pub fn compare_half(r: &Vec<u8>) -> (h: Half)
    requires
        all_digits(r@),
    ensures
        h == Half::Below <==> 2 * dval(r@) < pow10(r@.len()),
        h == Half::Exactly <==> 2 * dval(r@) == pow10(r@.len()),
        h == Half::Above <==> 2 * dval(r@) > pow10(r@.len()),
{
    if r.len() == 0 {
        return Half::Below;
    }
    let n = r.len();
    let mut rest_zero = true;
    let mut i: usize = 1;
    while i < n
        invariant
            1 <= i <= n,
            n == r@.len(),
            rest_zero == forall|k: int| 1 <= k < i ==> #[trigger] r@[k] == 0,
        decreases n - i,
    {
        if r[i] != 0 {
            rest_zero = false;
        }
        i = i + 1;
    }
    proof {
        let rest = r@.skip(1);
        lemma_dval_first(r@);
        lemma_dval_zero(rest);
        assert(all_digits(rest)) by {
            assert forall|k: int| 0 <= k < rest.len() implies #[trigger] rest[k] < 10 by {
                assert(rest[k] == r@[k + 1]);
            }
        }
        lemma_dval_bound(rest);
        assert(rest_zero == (dval(rest) == 0)) by {
            if rest_zero {
                assert forall|k: int| 0 <= k < rest.len() implies #[trigger] rest[k] == 0 by {
                    assert(rest[k] == r@[k + 1]);
                }
            } else {
                let k = choose|k: int| 1 <= k < n && #[trigger] r@[k] != 0;
                assert(rest[k - 1] == r@[k]);
            }
        }
        let p = pow10((n - 1) as nat);
        assert(pow10(n as nat) == 10 * p);
        assert(r@[0] < 10);
        assert(dval(r@) == r@[0] as nat * p + dval(rest));
        assert(dval(rest) < p);
        assert(r@[0] < 5 ==> 2 * dval(r@) < pow10(n as nat)) by (nonlinear_arith)
            requires
                dval(r@) == r@[0] as nat * p + dval(rest),
                dval(rest) < p,
                pow10(n as nat) == 10 * p,
        ;
        lemma_pow10_pos((n - 1) as nat);
        assert(r@[0] > 5 ==> 2 * dval(r@) > pow10(n as nat)) by (nonlinear_arith)
            requires
                dval(r@) == r@[0] as nat * p + dval(rest),
                pow10(n as nat) == 10 * p,
                p >= 1,
        ;
        assert(r@[0] == 5 ==> 2 * dval(r@) == pow10(n as nat) + 2 * dval(rest)) by (
        nonlinear_arith)
            requires
                dval(r@) == r@[0] as nat * p + dval(rest),
                pow10(n as nat) == 10 * p,
        ;
    }
    if r[0] < 5 {
        Half::Below
    } else if r[0] > 5 {
        Half::Above
    } else if rest_zero {
        Half::Exactly
    } else {
        Half::Above
    }
}

} // verus!
