//! Exact division of a product that may not fit in a machine word.

use vstd::prelude::*;
use vstd::arithmetic::div_mod::{lemma_div_is_ordered, lemma_fundamental_div_mod_converse};
use vstd::arithmetic::power2::{
    lemma2_to64, lemma2_to64_rest, lemma_pow2_adds, lemma_pow2_strictly_increases, lemma_pow2_unfold, pow2,
};

verus! {

/// Distributes a product over the halving of its second factor.
proof fn lemma_product_by_halves(a: int, b: int)
    ensures
        a * b == 2 * (a * (b / 2)) + (b % 2) * a,
{
    let h = b / 2;
    let bit = b % 2;
    assert(a * (2 * h + bit) == 2 * (a * h) + bit * a) by (nonlinear_arith);
}

/// A product of naturals does not shrink when its second factor grows.
proof fn lemma_product_grows(a: int, b1: int, b2: int)
    requires
        0 <= a,
        0 <= b1 <= b2,
    ensures
        0 <= a * b1 <= a * b2,
{
    assert(0 <= a * b1 <= a * b2) by (nonlinear_arith)
        requires
            0 <= a,
            0 <= b1 <= b2,
    ;
}

/// Division with remainder is pinned by `x == q * d + r` with `0 <= r < d`.
pub proof fn lemma_quotient_unique(x: int, d: int, q: int, r: int)
    requires
        d > 0,
        0 <= r < d,
        x == q * d + r,
    ensures
        x / d == q,
        x % d == r,
{
    lemma_fundamental_div_mod_converse(x, d, q, r);
}

/// The quotient `n / d` rounded up.
pub open spec fn ceil_div(n: int, d: int) -> int {
    (n + d - 1) / d
}

/// Rounding a quotient up adds one exactly when the division leaves a remainder.
pub proof fn lemma_ceil_div(n: int, d: int)
    requires
        d > 0,
    ensures
        ceil_div(n, d) == n / d + if n % d == 0 { 0int } else { 1int },
        n <= ceil_div(n, d) * d < n + d,
{
    let q = n / d;
    let r = n % d;
    vstd::arithmetic::div_mod::lemma_fundamental_div_mod(n, d);
    if r == 0 {
        assert(n + d - 1 == q * d + (d - 1)) by (nonlinear_arith)
            requires
                n == d * q + r,
                r == 0,
        ;
        lemma_quotient_unique(n + d - 1, d, q, d - 1);
        assert(q * d == n) by (nonlinear_arith)
            requires
                n == d * q + r,
                r == 0,
        ;
    } else {
        assert(n + d - 1 == (q + 1) * d + (r - 1)) by (nonlinear_arith)
            requires
                n == d * q + r,
        ;
        lemma_quotient_unique(n + d - 1, d, q + 1, r - 1);
        assert((q + 1) * d == n + d - r) by (nonlinear_arith)
            requires
                n == d * q + r,
        ;
    }
}

/// Quotient and remainder of `a * b` divided by `c`, computed without ever
/// forming the product. Returns `None` exactly when the quotient exceeds
/// `u128::MAX`.
pub fn mul_div(a: u128, b: u128, c: u128) -> (r: Option<(u128, u128)>)
    requires
        c > 0,
    ensures
        match r {
            Some((q, rem)) => q == (a * b) / (c as int) && rem == (a * b) % (c as int),
            None => (a * b) / (c as int) > u128::MAX,
        },
    decreases b,
{
    if b == 0 {
        proof {
            assert(a * b == 0) by (nonlinear_arith)
                requires
                    b == 0,
            ;
            lemma_quotient_unique(a * b, c as int, 0, 0);
        }
        return Some((0, 0));
    }
    let half: Option<(u128, u128)> = mul_div(a, b / 2, c);
    let ghost whole: int = a * b;
    let ghost part: int = a * (b / 2);
    proof {
        lemma_product_by_halves(a as int, b as int);
        lemma_product_grows(a as int, (b / 2) as int, b as int);
    }
    let (q1, r1): (u128, u128) = match half {
        Some(pair) => pair,
        None => {
            proof {
                lemma_div_is_ordered(part, whole, c as int);
            }
            return None;
        },
    };
    proof {
        vstd::arithmetic::div_mod::lemma_fundamental_div_mod(part, c as int);
        assert(part == q1 * c + r1) by (nonlinear_arith)
            requires
                part == c * q1 + r1,
        ;
    }
    // Double the half: 2 * part == q2 * c + r2.
    let carry: u128 = if r1 >= c - r1 { 1 } else { 0 };
    let r2: u128 = if r1 >= c - r1 { r1 - (c - r1) } else { r1 + r1 };
    let ghost q2: int = 2 * q1 + carry;
    assert(2 * part == q2 * c + r2) by (nonlinear_arith)
        requires
            part == q1 * c + r1,
            q2 == 2 * q1 + carry,
            r2 == 2 * r1 - carry * c,
    ;
    // Add `a` once more when `b` is odd: whole == q3 * c + r3.
    let odd: bool = b % 2 == 1;
    let qa: u128 = if odd { a / c } else { 0 };
    let ra: u128 = if odd { a % c } else { 0 };
    let wrap: u128 = if ra >= c - r2 { 1 } else { 0 };
    let r3: u128 = if ra >= c - r2 { ra - (c - r2) } else { r2 + ra };
    let ghost q3: int = q2 + qa + wrap;
    proof {
        if odd {
            vstd::arithmetic::div_mod::lemma_fundamental_div_mod(a as int, c as int);
            assert((b % 2) * a == qa * c + ra) by (nonlinear_arith)
                requires
                    b % 2 == 1,
                    a == c * qa + ra,
            ;
        } else {
            assert((b % 2) * a == qa * c + ra) by (nonlinear_arith)
                requires
                    b % 2 == 0,
                    qa == 0,
                    ra == 0,
            ;
        }
        assert(whole == q3 * c + r3) by (nonlinear_arith)
            requires
                whole == 2 * part + (b % 2) * a,
                2 * part == q2 * c + r2,
                (b % 2) * a == qa * c + ra,
                q3 == q2 + qa + wrap,
                r3 == r2 + ra - wrap * c,
        ;
        lemma_quotient_unique(whole, c as int, q3, r3 as int);
    }
    let doubled: u128 = match q1.checked_mul(2) {
        Some(v) => v,
        None => {
            return None;
        },
    };
    let with_carry: u128 = match doubled.checked_add(carry) {
        Some(v) => v,
        None => {
            return None;
        },
    };
    let with_a: u128 = match with_carry.checked_add(qa) {
        Some(v) => v,
        None => {
            return None;
        },
    };
    match with_a.checked_add(wrap) {
        Some(q) => Some((q, r3)),
        None => None,
    }
}

/// The largest power of two that fits in a `u128`.
pub proof fn lemma_pow2_127()
    ensures
        pow2(127) == 0x8000_0000_0000_0000_0000_0000_0000_0000,
{
    lemma2_to64();
    lemma2_to64_rest();
    lemma_pow2_adds(64, 63);
}

/// Powers of two up to the 127th fit in a `u128`.
pub proof fn lemma_pow2_fits(k: nat)
    requires
        k <= 127,
    ensures
        1 <= pow2(k) <= 0x8000_0000_0000_0000_0000_0000_0000_0000,
{
    lemma_pow2_127();
    lemma2_to64();
    if k < 127 {
        lemma_pow2_strictly_increases(k, 127);
    }
    if k > 0 {
        lemma_pow2_strictly_increases(0, k);
    }
}

/// Two to the power of `k`.
pub fn power_of_two(k: u32) -> (p: u128)
    requires
        k <= 127,
    ensures
        p == pow2(k as nat),
{
    let mut p: u128 = 1;
    let mut i: u32 = 0;
    proof {
        lemma2_to64();
    }
    while i < k
        invariant
            i <= k,
            k <= 127,
            p == pow2(i as nat),
        decreases k - i,
    {
        proof {
            lemma_pow2_unfold((i + 1) as nat);
            lemma_pow2_fits((i + 1) as nat);
        }
        p = p * 2;
        i = i + 1;
    }
    p
}

} // verus!
