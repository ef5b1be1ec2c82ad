//! Saturating fixed-point arithmetic.
//!
//! A quantity is an `i64` counting micro-units: `FX_ONE` (1_000_000) stands
//! for the real value one. Every stored quantity is kept inside
//! `[-FX_MAX, FX_MAX]`; addition and multiplication saturate at those bounds,
//! the way float arithmetic saturates at its infinities. Multiplication and
//! division truncate toward zero.

use vstd::prelude::*;

verus! {

/// The fixed-point rendering of the real value one.
pub const FX_ONE: i64 = 1_000_000;

/// Largest magnitude a fixed-point quantity may take (one million, scaled).
pub const FX_MAX: i64 = 1_000_000_000_000;

pub open spec fn fx_abs(x: int) -> int {
    if x < 0 {
        -x
    } else {
        x
    }
}

/// Clamp an unbounded integer into the representable range.
pub open spec fn fx_clip(x: int) -> int {
    if x > FX_MAX {
        FX_MAX as int
    } else if x < -FX_MAX {
        -FX_MAX as int
    } else {
        x
    }
}

pub open spec fn fx_in_range(x: int) -> bool {
    -FX_MAX <= x <= FX_MAX
}

/// Saturating fixed-point addition.
pub open spec fn fx_add_v(a: int, b: int) -> int {
    fx_clip(a + b)
}

/// Saturating fixed-point multiplication: magnitudes are multiplied, scaled
/// back down by `FX_ONE` truncating toward zero, clamped, and given the sign
/// of the exact product.
pub open spec fn fx_mul_v(a: int, b: int) -> int {
    let m = (fx_abs(a) * fx_abs(b)) / (FX_ONE as int);
    let c = if m > FX_MAX {
        FX_MAX as int
    } else {
        m
    };
    if (a < 0) != (b < 0) {
        -c
    } else {
        c
    }
}

/// Truncating division of a fixed-point quantity by a positive count.
pub open spec fn fx_div_count_v(a: int, n: int) -> int {
    let m = fx_abs(a) / n;
    if a < 0 {
        -m
    } else {
        m
    }
}

/// Sum of a sequence under saturating addition, folded left to right.
pub open spec fn fx_sum_v(s: Seq<i64>) -> int
    decreases s.len(),
{
    if s.len() == 0 {
        0
    } else {
        fx_add_v(fx_sum_v(s.drop_last()), s.last() as int)
    }
}

pub proof fn lemma_fx_sum_in_range(s: Seq<i64>)
    ensures
        fx_in_range(fx_sum_v(s)),
    decreases s.len(),
{
    if s.len() > 0 {
        lemma_fx_sum_in_range(s.drop_last());
    }
}

/// Clamp an arbitrary `i64` into the representable range.
pub fn fx_clamp(x: i64) -> (r: i64)
    ensures
        r as int == fx_clip(x as int),
{
    if x > FX_MAX {
        FX_MAX
    } else if x < -FX_MAX {
        -FX_MAX
    } else {
        x
    }
}

/// Saturating fixed-point addition.
pub fn fx_add(a: i64, b: i64) -> (r: i64)
    requires
        fx_in_range(a as int),
        fx_in_range(b as int),
    ensures
        r as int == fx_add_v(a as int, b as int),
        fx_in_range(r as int),
{
    fx_clamp(a + b)
}

/// Saturating fixed-point multiplication.
pub fn fx_mul(a: i64, b: i64) -> (r: i64)
    requires
        fx_in_range(a as int),
        fx_in_range(b as int),
    ensures
        r as int == fx_mul_v(a as int, b as int),
        fx_in_range(r as int),
{
    let neg: bool = (a < 0) != (b < 0);
    let ma: u128 = (if a < 0 { -a } else { a }) as u128;
    let mb: u128 = (if b < 0 { -b } else { b }) as u128;
    proof {
        assert(ma as int * mb as int <= (FX_MAX as int) * (FX_MAX as int)) by (nonlinear_arith)
            requires
                0 <= ma as int <= FX_MAX as int,
                0 <= mb as int <= FX_MAX as int,
        ;
        assert(ma as int == fx_abs(a as int));
        assert(mb as int == fx_abs(b as int));
    }
    let p: u128 = (ma * mb) / (FX_ONE as u128);
    let c: u128 = if p > FX_MAX as u128 {
        FX_MAX as u128
    } else {
        p
    };
    if neg {
        -(c as i64)
    } else {
        c as i64
    }
}

/// Truncating division by a positive count.
pub fn fx_div_count(a: i64, n: usize) -> (r: i64)
    requires
        n > 0,
        fx_in_range(a as int),
    ensures
        r as int == fx_div_count_v(a as int, n as int),
        fx_in_range(r as int),
{
    let ma: u128 = (if a < 0 { -a } else { a }) as u128;
    let q: u128 = ma / (n as u128);
    proof {
        assert(ma / (n as u128) <= ma) by (nonlinear_arith)
            requires
                n as u128 >= 1,
        ;
    }
    if a < 0 {
        -(q as i64)
    } else {
        q as i64
    }
}

/// Sum a vector of fixed-point quantities with saturating addition.
pub fn fx_sum(v: &Vec<i64>) -> (r: i64)
    requires
        forall|i: int| 0 <= i < v@.len() ==> fx_in_range(v@[i] as int),
    ensures
        r as int == fx_sum_v(v@),
        fx_in_range(r as int),
{
    let mut acc: i64 = 0;
    let mut i: usize = 0;
    while i < v.len()
        invariant
            0 <= i <= v@.len(),
            forall|j: int| 0 <= j < v@.len() ==> fx_in_range(v@[j] as int),
            acc as int == fx_sum_v(v@.take(i as int)),
            fx_in_range(acc as int),
        decreases v@.len() - i,
    {
        proof {
            assert(v@.take(i as int + 1).drop_last() =~= v@.take(i as int));
            assert(v@.take(i as int + 1).last() == v@[i as int]);
        }
        acc = fx_add(acc, v[i]);
        i = i + 1;
    }
    proof {
        assert(v@.take(v@.len() as int) =~= v@);
    }
    acc
}

} // verus!
