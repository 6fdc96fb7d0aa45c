use vstd::prelude::*;
use crate::grid::{GridError, ceil_div, lemma_ceil_div_bounds};

verus! {

/// `base` raised to the `n`th power.
pub open spec fn power(base: int, n: nat) -> int
    decreases n,
{
    if n == 0 {
        1
    } else {
        base * power(base, (n - 1) as nat)
    }
}

/// A power of a positive base is positive.
pub proof fn lemma_power_positive(base: int, n: nat)
    requires
        base >= 1,
    ensures
        power(base, n) >= 1,
    decreases n,
{
    if n > 0 {
        lemma_power_positive(base, (n - 1) as nat);
        let p = power(base, (n - 1) as nat);
        assert(base * p >= 1) by (nonlinear_arith)
            requires base >= 1, p >= 1;
    }
}

/// The least `n` with `base^n >= v` (for `base >= 2`).
pub open spec fn ceil_log(v: int, base: int) -> nat
    decreases v,
{
    if v <= 1 || base < 2 {
        0
    } else {
        proof {
            lemma_ceil_div_bounds(v, base);
            let c = ceil_div(v, base);
            assert(c < v) by (nonlinear_arith)
                requires (c - 1) * base < v, base >= 2, v >= 2, c * base >= v;
            assert(c > 0) by (nonlinear_arith)
                requires c * base >= v, base >= 2, v >= 2;
        }
        1 + ceil_log(ceil_div(v, base), base)
    }
}

/// The smallest non-negative power of `base` that is at least `v`.
pub open spec fn next_power_spec(v: int, base: int) -> int {
    power(base, ceil_log(v, base))
}

pub open spec fn abs(v: int) -> int {
    if v < 0 {
        -v
    } else {
        v
    }
}

/// `base^ceil_log(v, base)` is the least power of `base` reaching `v`.
pub proof fn lemma_next_power_least(v: int, base: int)
    requires
        v >= 1,
        base >= 2,
    ensures
        next_power_spec(v, base) >= v,
        ceil_log(v, base) > 0 ==> power(base, (ceil_log(v, base) - 1) as nat) < v,
    decreases v,
{
    if v > 1 {
        lemma_ceil_div_bounds(v, base);
        let c = ceil_div(v, base);
        assert(c < v) by (nonlinear_arith)
            requires (c - 1) * base < v, base >= 2, v >= 2, c * base >= v;
        assert(c > 0) by (nonlinear_arith)
            requires c * base >= v, base >= 2, v >= 2;
        lemma_next_power_least(c, base);
        let n = ceil_log(c, base);
        assert(ceil_log(v, base) == n + 1);
        assert(power(base, n + 1) == base * power(base, n));
        let p = power(base, n);
        assert(base * p >= v) by (nonlinear_arith)
            requires p >= c, c * base >= v, base >= 2;
        if n > 0 {
            let p1 = power(base, (n - 1) as nat);
            assert(p == base * p1);
            assert(p < v) by (nonlinear_arith)
                requires p == base * p1, p1 < c, (c - 1) * base < v, base >= 2;
        } else {
            assert(p == 1);
        }
    }
}

/// The smallest non-negative integer power of `base` whose value is at least
/// `|value|`. Only the magnitude of `value` matters.
pub fn next_power(value: i64, base: i64) -> (r: Result<i64, GridError>)
    ensures
        value == 0 ==> r == Err::<i64, GridError>(GridError::InvalidMagnitude),
        value != 0 && base < 2 ==> r == Err::<i64, GridError>(GridError::InvalidBase),
        value != 0 && base >= 2 && next_power_spec(abs(value as int), base as int) > i64::MAX
            ==> r == Err::<i64, GridError>(GridError::Overflow),
        value != 0 && base >= 2 && next_power_spec(abs(value as int), base as int) <= i64::MAX
            ==> r == Ok::<i64, GridError>(next_power_spec(abs(value as int), base as int) as i64),
{
    if value == 0 {
        return Err(GridError::InvalidMagnitude);
    }
    if base < 2 {
        return Err(GridError::InvalidBase);
    }
    let ghost target = next_power_spec(abs(value as int), base as int);
    let b: i128 = base as i128;
    let mut m: i128 = if value < 0 {
        -(value as i128)
    } else {
        value as i128
    };
    let mut p: i128 = 1;
    assert(power(base as int, 0) == 1);
    while m > 1
        invariant
            b == base,
            base >= 2,
            value != 0,
            target == next_power_spec(abs(value as int), base as int),
            1 <= m <= 0x8000_0000_0000_0000,
            1 <= p <= i64::MAX,
            p * power(base as int, ceil_log(m as int, base as int)) == target,
        decreases m,
    {
        let q: i128 = m / b;
        let c: i128 = if m % b == 0 {
            q
        } else {
            q + 1
        };
        proof {
            lemma_ceil_div_bounds(m as int, base as int);
            assert(c == ceil_div(m as int, base as int));
            assert(c < m) by (nonlinear_arith)
                requires (c - 1) * base < m, base >= 2, m >= 2, c * base >= m;
            assert(c > 0) by (nonlinear_arith)
                requires c * base >= m, base >= 2, m >= 2;
            let n = ceil_log(c as int, base as int);
            assert(ceil_log(m as int, base as int) == n + 1);
            assert(power(base as int, n + 1) == base * power(base as int, n));
            lemma_power_positive(base as int, n);
            let pw = power(base as int, n);
            assert(p * (base * pw) == (p * base) * pw) by (nonlinear_arith);
            assert((p * base) * pw >= p * base) by (nonlinear_arith)
                requires pw >= 1, p >= 1, base >= 2;
            assert(p * base >= 2) by (nonlinear_arith)
                requires p >= 1, base >= 2;
            assert(p * base <= 0x7fff_ffff_ffff_ffff * 0x7fff_ffff_ffff_ffff) by (nonlinear_arith)
                requires 1 <= p <= 0x7fff_ffff_ffff_ffff, 2 <= base <= 0x7fff_ffff_ffff_ffff;
        }
        let next: i128 = p * b;
        if next > i64::MAX as i128 {
            assert(target > i64::MAX);
            return Err(GridError::Overflow);
        }
        m = c;
        p = next;
    }
    Ok(p as i64)
}

} // verus!
