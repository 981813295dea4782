//! Small facts about numbers.

use vstd::prelude::*;

verus! {

/// Whether `n` is a power of two.
pub open spec fn is_pow2(n: int) -> bool
    decreases n,
{
    if n <= 0 {
        false
    } else if n == 1 {
        true
    } else {
        n % 2 == 0 && is_pow2(n / 2)
    }
}

/// Whether `n` is a power of two.
pub fn power_of_two(n: u64) -> (r: bool)
    ensures
        r == is_pow2(n as int),
{
    if n == 0 {
        return false;
    }
    let mut m: u64 = n;
    while m > 1
        invariant
            m >= 1,
            is_pow2(m as int) == is_pow2(n as int),
        decreases m,
    {
        if m % 2 != 0 {
            return false;
        }
        m = m / 2;
    }
    true
}

/// The least multiple of `b` from `c * b` on is a step further.
pub proof fn lemma_step(c: int, b: int)
    ensures
        (c + 1) * b == c * b + b,
{
    assert((c + 1) * b == c * b + b) by (nonlinear_arith);
}

/// Products grow with their first factor.
pub proof fn lemma_mono(a: int, c: int, b: int)
    requires
        a <= c,
        b >= 0,
    ensures
        a * b <= c * b,
{
    assert(a * b <= c * b) by (nonlinear_arith)
        requires
            a <= c,
            b >= 0,
    ;
}

/// `a / b`, rounded up.
pub open spec fn div_up(a: int, b: int) -> int {
    (a + b - 1) / b
}

/// The multiple of `b` that rounding up reaches covers `a`, and the one before
/// does not.
pub proof fn lemma_div_up(a: int, b: int)
    requires
        0 <= a,
        0 < b,
    ensures
        div_up(a, b) * b >= a,
        (div_up(a, b) - 1) * b < a,
        div_up(a, b) >= 0,
{
    let q = (a + b - 1) / b;
    vstd::arithmetic::div_mod::lemma_fundamental_div_mod(a + b - 1, b);
    assert(b * q == q * b) by (nonlinear_arith);
    lemma_step(q - 1, b);
    assert(q >= 0) by (nonlinear_arith)
        requires
            q == (a + b - 1) / b,
            a >= 0,
            b > 0,
    ;
}

/// `a / b`, rounded up.
pub fn div_ceil(a: u64, b: u64) -> (r: u64)
    requires
        b > 0,
    ensures
        r == div_up(a as int, b as int),
{
    let q: u64 = a / b;
    let m: u64 = a % b;
    proof {
        vstd::arithmetic::div_mod::lemma_fundamental_div_mod(a as int, b as int);
        let ai = a as int;
        let bi = b as int;
        let qi = q as int;
        let mi = m as int;
        assert(ai == bi * qi + mi);
        assert(bi * qi == qi * bi) by (nonlinear_arith);
        if mi == 0 {
            assert((ai + bi - 1) / bi == qi) by (nonlinear_arith)
                requires
                    ai == qi * bi,
                    bi > 0,
            ;
        } else {
            assert((ai + bi - 1) / bi == qi + 1) by (nonlinear_arith)
                requires
                    ai == qi * bi + mi,
                    0 < mi < bi,
            ;
            assert(qi < u64::MAX) by (nonlinear_arith)
                requires
                    ai == qi * bi + mi,
                    0 < mi < bi,
                    ai <= u64::MAX,
            ;
        }
    }
    if m == 0 {
        q
    } else {
        q + 1
    }
}

} // verus!
