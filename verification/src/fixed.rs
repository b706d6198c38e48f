//! Fixed-point scalar arithmetic.
//!
//! A scalar is an `i64` value `v` standing for the real number `v / SCALE`.
//! Every operation clamps its result to the representable range
//! `[-FX_MAX, FX_MAX]`; given bounded scalars (and, for division, a positive
//! divisor) no operation panics or overflows.

use vstd::prelude::*;
use vstd::arithmetic::div_mod::{lemma_div_pos_is_pos, lemma_div_is_ordered, lemma_fundamental_div_mod};
use vstd::arithmetic::mul::{lemma_mul_upper_bound, lemma_mul_nonnegative};

verus! {

/// One unit of the integer scale: the scalar `SCALE` stands for the real
/// number one.
pub const SCALE: i64 = 16777216;

/// Largest representable scalar magnitude (the real number 128).
pub const FX_MAX: i64 = 2147483648;

/// Smallest positive scalar; used as the epsilon guard of RMSProp.
pub const FX_EPS: i64 = 1;

/// A machine word is a valid scalar when it lies in the representable range.
pub open spec fn fx_bounded(v: i64) -> bool {
    -FX_MAX <= v && v <= FX_MAX
}

/// Every element of the sequence is a valid scalar.
pub open spec fn bounded_seq(s: Seq<i64>) -> bool {
    forall|i: int| 0 <= i < s.len() ==> fx_bounded(#[trigger] s[i])
}

/// Every element of every row is a valid scalar.
pub open spec fn bounded_mat(m: Seq<Seq<i64>>) -> bool {
    forall|i: int| 0 <= i < m.len() ==> bounded_seq(#[trigger] m[i])
}

pub open spec fn clamp_val(x: int) -> int {
    if x > FX_MAX as int {
        FX_MAX as int
    } else if x < -(FX_MAX as int) {
        -(FX_MAX as int)
    } else {
        x
    }
}

/// Saturating fixed-point sum.
pub open spec fn add_val(a: int, b: int) -> int {
    clamp_val(a + b)
}

/// Saturating fixed-point difference.
pub open spec fn sub_val(a: int, b: int) -> int {
    clamp_val(a - b)
}

pub open spec fn abs_int(x: int) -> int {
    if x >= 0 {
        x
    } else {
        -x
    }
}

/// Unclamped fixed-point product: `a * b / SCALE`, the quotient truncated
/// toward zero.
pub open spec fn tmul(a: int, b: int) -> int {
    if a * b >= 0 {
        (a * b) / (SCALE as int)
    } else {
        -((-(a * b)) / (SCALE as int))
    }
}

/// Saturating fixed-point product.
pub open spec fn mul_val(a: int, b: int) -> int {
    clamp_val(tmul(a, b))
}

/// Unclamped fixed-point quotient: `a * SCALE / b`, truncated toward zero.
/// Meaningful for positive `b` only.
pub open spec fn tdiv(a: int, b: int) -> int {
    if a >= 0 {
        (a * SCALE) / b
    } else {
        -(((-a) * SCALE) / b)
    }
}

/// Saturating fixed-point quotient.
pub open spec fn div_val(a: int, b: int) -> int {
    clamp_val(tdiv(a, b))
}

/// Integer square root, by the classical base-4 recursion.
pub open spec fn isqrt_spec(n: nat) -> nat
    decreases n,
{
    if n == 0 {
        0
    } else {
        let s = 2 * isqrt_spec(n / 4);
        if (s + 1) * (s + 1) <= n {
            s + 1
        } else {
            s
        }
    }
}

/// Fixed-point square root of a non-negative scalar: the integer square root
/// of `a * SCALE`, which stands for the real square root of `a / SCALE`.
pub open spec fn sqrt_val(a: int) -> int {
    isqrt_spec((a * SCALE) as nat) as int
}


/// Sign of a product, from the signs of its factors.
proof fn lemma_sign_product(a: int, b: int)
    by (nonlinear_arith)
    ensures
        (a * b > 0) ==> ((a > 0 && b > 0) || (a < 0 && b < 0)),
        (a * b < 0) ==> ((a > 0 && b < 0) || (a < 0 && b > 0)),
        (a * b == 0) ==> (a == 0 || b == 0),
{
}

/// The magnitude of a product is the product of the magnitudes.
proof fn lemma_abs_product(a: int, b: int)
    by (nonlinear_arith)
    ensures
        abs_int(a) * abs_int(b) == abs_int(a * b),
{
}

/// A number whose square is at most `b * b` is at most `b`.
proof fn lemma_sqrt_bound(x: int, b: int)
    by (nonlinear_arith)
    requires
        x >= 0,
        b >= 0,
        x * x <= b * b,
    ensures
        x <= b,
{
}

/// Squares of a doubled value.
proof fn lemma_double_square(r: int)
    by (nonlinear_arith)
    ensures
        (2 * r) * (2 * r) == 4 * (r * r),
        (2 * r + 2) * (2 * r + 2) == 4 * ((r + 1) * (r + 1)),
{
}

pub fn fx_add(a: i64, b: i64) -> (r: i64)
    requires
        fx_bounded(a),
        fx_bounded(b),
    ensures
        r == add_val(a as int, b as int),
        fx_bounded(r),
{
    let s: i64 = a + b;
    if s > FX_MAX {
        FX_MAX
    } else if s < -FX_MAX {
        -FX_MAX
    } else {
        s
    }
}

pub fn fx_sub(a: i64, b: i64) -> (r: i64)
    requires
        fx_bounded(a),
        fx_bounded(b),
    ensures
        r == sub_val(a as int, b as int),
        fx_bounded(r),
{
    let s: i64 = a - b;
    if s > FX_MAX {
        FX_MAX
    } else if s < -FX_MAX {
        -FX_MAX
    } else {
        s
    }
}

pub fn fx_mul(a: i64, b: i64) -> (r: i64)
    requires
        fx_bounded(a),
        fx_bounded(b),
    ensures
        r == mul_val(a as int, b as int),
        fx_bounded(r),
{
    let neg: bool = (a < 0) != (b < 0);
    let ma: u64 = if a < 0 {
        (-a) as u64
    } else {
        a as u64
    };
    let mb: u64 = if b < 0 {
        (-b) as u64
    } else {
        b as u64
    };
    proof {
        assert(ma == abs_int(a as int));
        assert(mb == abs_int(b as int));
        lemma_mul_upper_bound(ma as int, 0x80000000int, mb as int, 0x80000000int);
        lemma_abs_product(a as int, b as int);
    }
    let p: u64 = ma * mb;
    let q: u64 = p / 16777216u64;
    proof {
        lemma_div_pos_is_pos(p as int, SCALE as int);
        lemma_div_is_ordered(p as int, 0x4000000000000000int, SCALE as int);
        lemma_sign_product(a as int, b as int);
        if a as int * b as int >= 0 {
            assert(tmul(a as int, b as int) == q as int);
        } else {
            assert(tmul(a as int, b as int) == -(q as int));
        }
        if a as int * b as int == 0 {
            assert(abs_int(a as int * b as int) == 0);
            assert(q == 0);
        }
    }
    let qc: u64 = if q > 2147483648u64 {
        2147483648u64
    } else {
        q
    };
    if neg {
        -(qc as i64)
    } else {
        qc as i64
    }
}

pub fn fx_div(a: i64, b: i64) -> (r: i64)
    requires
        fx_bounded(a),
        1 <= b <= FX_MAX,
    ensures
        r == div_val(a as int, b as int),
        fx_bounded(r),
{
    let neg: bool = a < 0;
    let ma: u64 = if a < 0 {
        (-a) as u64
    } else {
        a as u64
    };
    let num: u64 = ma * 16777216u64;
    let q: u64 = num / (b as u64);
    proof {
        lemma_div_pos_is_pos(num as int, b as int);
        if a >= 0 {
            assert(tdiv(a as int, b as int) == q as int);
        } else {
            assert(tdiv(a as int, b as int) == -(q as int));
        }
    }
    let qc: u64 = if q > 2147483648u64 {
        2147483648u64
    } else {
        q
    };
    if neg {
        -(qc as i64)
    } else {
        qc as i64
    }
}

/// Integer square root on machine words.
fn isqrt(n: u64) -> (r: u64)
    requires
        n <= 0x1000000000000000,
    ensures
        r == isqrt_spec(n as nat),
        r * r <= n,
        n < (r + 1) * (r + 1),
        r <= 0x40000000,
    decreases n,
{
    if n == 0 {
        0
    } else {
        let h: u64 = n / 4;
        let sub: u64 = isqrt(h);
        proof {
            lemma_fundamental_div_mod(n as int, 4);
            assert(sub as int * sub as int <= 0x400000000000000int);
            lemma_sqrt_bound(sub as int, 0x20000000int);
        }
        let s: u64 = 2 * sub;
        proof {
            lemma_mul_upper_bound(s as int + 1, 0x40000001int, s as int + 1, 0x40000001int);
            lemma_double_square(sub as int);
            assert(4 * (sub as int * sub as int) <= 4 * h);
            assert(n as int <= 4 * (h as int) + 3);
            assert(h < (sub + 1) * (sub + 1));
            assert((n as int) < 4 * ((sub as int + 1) * (sub as int + 1)));
        }
        let c: u64 = (s + 1) * (s + 1);
        if c <= n {
            s + 1
        } else {
            s
        }
    }
}

/// Fixed-point square root of a non-negative scalar.
pub fn fx_sqrt(a: i64) -> (r: i64)
    requires
        0 <= a <= FX_MAX,
    ensures
        r == sqrt_val(a as int),
        0 <= r <= 0x40000000,
{
    let num: u64 = (a as u64) * 16777216u64;
    let r: u64 = isqrt(num);
    r as i64
}

/// A square is non-negative.
proof fn lemma_square_nonneg(a: int)
    by (nonlinear_arith)
    ensures
        a * a >= 0,
{
}

/// The fixed-point square of any scalar is non-negative.
pub proof fn lemma_mul_val_sq_nonneg(a: int)
    ensures
        mul_val(a, a) >= 0,
        tmul(a, a) >= 0,
{
    lemma_square_nonneg(a);
    lemma_div_pos_is_pos(a * a, SCALE as int);
}

/// A product of non-negative scalars is non-negative.
pub proof fn lemma_mul_val_nonneg(a: int, b: int)
    requires
        a >= 0,
        b >= 0,
    ensures
        mul_val(a, b) >= 0,
        tmul(a, b) >= 0,
{
    lemma_mul_nonnegative(a, b);
    lemma_div_pos_is_pos(a * b, SCALE as int);
}

/// A product of scalars at most one stays at most one.
pub proof fn lemma_mul_val_unit(a: int, b: int)
    requires
        0 <= a <= SCALE as int,
        0 <= b <= SCALE as int,
    ensures
        0 <= mul_val(a, b) <= SCALE as int,
        mul_val(a, b) == tmul(a, b),
{
    lemma_mul_nonnegative(a, b);
    lemma_div_pos_is_pos(a * b, SCALE as int);
    lemma_mul_upper_bound(a, SCALE as int, b, SCALE as int);
    lemma_div_is_ordered(a * b, SCALE as int * SCALE as int, SCALE as int);
    assert(SCALE as int * SCALE as int / (SCALE as int) == SCALE as int);
}

} // verus!
