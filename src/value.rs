use vstd::prelude::*;

verus! {

/// Fixed-point units in one whole unit: values carry four decimal places.
pub const SCALE: i64 = 10000;

/// Largest magnitude of a configured value, in fixed-point units.
pub const VALUE_LIMIT: i64 = 1_000_000_000_000;

/// `x` lies within the configured value range.
pub open spec fn in_limit(x: int) -> bool {
    -VALUE_LIMIT <= x <= VALUE_LIMIT
}

pub open spec fn abs(x: int) -> int {
    if x < 0 {
        -x
    } else {
        x
    }
}

pub open spec fn clamp(x: int, lo: int, hi: int) -> int {
    if x < lo {
        lo
    } else if x > hi {
        hi
    } else {
        x
    }
}

/// Integer division rounding toward zero, as Rust's `/` on integers does.
pub open spec fn quotient(a: int, b: int) -> int
    recommends
        b > 0,
{
    if a >= 0 {
        a / b
    } else {
        -((-a) / b)
    }
}

pub fn abs_i64(x: i64) -> (r: i64)
    requires
        x > i64::MIN,
    ensures
        r == abs(x as int),
{
    if x < 0 {
        -x
    } else {
        x
    }
}

pub fn clamp_i64(x: i64, lo: i64, hi: i64) -> (r: i64)
    ensures
        r == clamp(x as int, lo as int, hi as int),
{
    if x < lo {
        lo
    } else if x > hi {
        hi
    } else {
        x
    }
}

/// Division rounding toward zero.
pub fn quotient_i64(a: i64, b: i64) -> (r: i64)
    requires
        b > 0,
        a > i64::MIN,
    ensures
        r == quotient(a as int, b as int),
{
    if a >= 0 {
        a / b
    } else {
        -((-a) / b)
    }
}

/// A quotient by `b` of a value at most `b * m` in magnitude is at most `m`
/// in magnitude.
pub proof fn lemma_quotient_bounded(a: int, b: int, m: int)
    requires
        b > 0,
        m >= 0,
        abs(a) <= b * m,
    ensures
        abs(quotient(a, b)) <= m,
{
    let p = if a >= 0 { a } else { -a };
    assert(p / b <= m) by (nonlinear_arith)
        requires
            0 <= p <= b * m,
            b > 0,
    ;
    assert(p / b >= 0) by (nonlinear_arith)
        requires
            0 <= p,
            b > 0,
    ;
}

/// Division rounding toward zero by a positive divisor preserves order.
pub proof fn lemma_quotient_monotonic(a: int, b: int, d: int)
    requires
        a <= b,
        d > 0,
    ensures
        quotient(a, d) <= quotient(b, d),
{
    if a >= 0 {
        assert(a / d <= b / d) by (nonlinear_arith)
            requires
                0 <= a <= b,
                d > 0,
        ;
    } else if b >= 0 {
        assert((-a) / d >= 0) by (nonlinear_arith)
            requires
                -a > 0,
                d > 0,
        ;
        assert(b / d >= 0) by (nonlinear_arith)
            requires
                b >= 0,
                d > 0,
        ;
    } else {
        assert((-b) / d <= (-a) / d) by (nonlinear_arith)
            requires
                0 < -b <= -a,
                d > 0,
        ;
    }
}

} // verus!
