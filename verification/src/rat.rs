//! Exact rational numbers.
//!
//! A `Rat` holds a numerator and a positive denominator, both `i64`.
//! Specification-level arithmetic works on `(int, int)` pairs, where the
//! second component is the denominator; two pairs denote the same rational
//! exactly when they cross-multiply equally.

use vstd::prelude::*;

verus! {

/// The value of a rational as a numerator/denominator pair of mathematical
/// integers. Well-formed pairs have a positive denominator.
pub open spec fn q_wf(a: (int, int)) -> bool {
    a.1 > 0
}

pub open spec fn q_zero() -> (int, int) {
    (0, 1)
}

pub open spec fn q_one() -> (int, int) {
    (1, 1)
}

/// `a` and `b` denote the same rational (cross-multiplication).
pub open spec fn q_eq(a: (int, int), b: (int, int)) -> bool {
    a.0 * b.1 == b.0 * a.1
}

/// `a <= b` as rationals; meaningful when both are well-formed.
pub open spec fn q_le(a: (int, int), b: (int, int)) -> bool {
    a.0 * b.1 <= b.0 * a.1
}

/// `a < b` as rationals; meaningful when both are well-formed.
pub open spec fn q_lt(a: (int, int), b: (int, int)) -> bool {
    a.0 * b.1 < b.0 * a.1
}

/// `a >= 0`; meaningful when `a` is well-formed.
pub open spec fn q_nonneg(a: (int, int)) -> bool {
    a.0 >= 0
}

/// `a > 0`; meaningful when `a` is well-formed.
pub open spec fn q_pos(a: (int, int)) -> bool {
    a.0 > 0
}

pub open spec fn q_add(a: (int, int), b: (int, int)) -> (int, int) {
    (a.0 * b.1 + b.0 * a.1, a.1 * b.1)
}

pub open spec fn q_sub(a: (int, int), b: (int, int)) -> (int, int) {
    (a.0 * b.1 - b.0 * a.1, a.1 * b.1)
}

pub open spec fn q_mul(a: (int, int), b: (int, int)) -> (int, int) {
    (a.0 * b.0, a.1 * b.1)
}

/// `a / b`; meaningful when `b.0 != 0`. The denominator keeps the sign of
/// `b.0`, so the result is well-formed whenever `b` is positive.
pub open spec fn q_div(a: (int, int), b: (int, int)) -> (int, int) {
    (a.0 * b.1, a.1 * b.0)
}

/// The pair with its sign moved off the denominator.
pub open spec fn q_sign_norm(p: (int, int)) -> (int, int) {
    if p.1 < 0 {
        (-p.0, -p.1)
    } else {
        p
    }
}

/// Both components sit inside the ranges an `i64` can store; when a raw
/// operation result satisfies this before reduction, the checked operations
/// below owe success.
pub open spec fn q_in_i64(p: (int, int)) -> bool {
    -0x8000_0000_0000_0000 <= p.0 <= 0x7fff_ffff_ffff_ffff && p.1 <= 0x7fff_ffff_ffff_ffff
}

/// The integer's magnitude.
pub open spec fn q_abs(x: int) -> int {
    if x < 0 {
        -x
    } else {
        x
    }
}

/// The pair's numerator magnitude is at most `bn` and its denominator is
/// positive and at most `bd`. Reduction only shrinks both, so the checked
/// operations keep any such bound their raw result has.
pub open spec fn q_bounded(p: (int, int), bn: int, bd: int) -> bool {
    -bn <= p.0 <= bn && 0 < p.1 <= bd
}

pub proof fn lemma_q_eq_trans(a: (int, int), b: (int, int), c: (int, int))
    by (nonlinear_arith)
    requires
        q_wf(a),
        q_wf(b),
        q_wf(c),
        q_eq(a, b),
        q_eq(b, c),
    ensures
        q_eq(a, c),
{
}

pub proof fn lemma_q_le_trans(a: (int, int), b: (int, int), c: (int, int))
    by (nonlinear_arith)
    requires
        q_wf(a),
        q_wf(b),
        q_wf(c),
        q_le(a, b),
        q_le(b, c),
    ensures
        q_le(a, c),
{
}

/// `<=` respects rational equality on both sides.
pub proof fn lemma_q_le_congruence(a: (int, int), a2: (int, int), b: (int, int), b2: (int, int))
    by (nonlinear_arith)
    requires
        q_wf(a),
        q_wf(a2),
        q_wf(b),
        q_wf(b2),
        q_eq(a, a2),
        q_eq(b, b2),
        q_le(a, b),
    ensures
        q_le(a2, b2),
{
}

pub proof fn lemma_q_add_wf(a: (int, int), b: (int, int))
    by (nonlinear_arith)
    requires
        q_wf(a),
        q_wf(b),
    ensures
        q_wf(q_add(a, b)),
        q_wf(q_sub(a, b)),
        q_wf(q_mul(a, b)),
{
}

/// Rearrangements of a product of two products; the building block for the
/// congruence proofs below.
pub proof fn lemma_mul_rearrange(x: int, y: int, z: int, w: int)
    by (nonlinear_arith)
    ensures
        (x * y) * (z * w) == (x * z) * (y * w),
        (x * y) * (z * w) == (x * w) * (y * z),
        (x * y) * (z * w) == (x * w) * (z * y),
{
}

/// Addition respects rational equality.
pub proof fn lemma_q_add_congruence(a: (int, int), a2: (int, int), b: (int, int), b2: (int, int))
    requires
        q_wf(a),
        q_wf(a2),
        q_wf(b),
        q_wf(b2),
        q_eq(a, a2),
        q_eq(b, b2),
    ensures
        q_eq(q_add(a, b), q_add(a2, b2)),
{
    vstd::arithmetic::mul::lemma_mul_is_distributive_add_other_way(
        a2.1 * b2.1,
        a.0 * b.1,
        b.0 * a.1,
    );
    lemma_mul_rearrange(a.0, b.1, a2.1, b2.1);
    lemma_mul_rearrange(b.0, a.1, a2.1, b2.1);
    // the two cross-terms, rewritten through `q_eq(a, a2)` and `q_eq(b, b2)`
    lemma_mul_rearrange(a2.0, a.1, b.1, b2.1);
    lemma_mul_rearrange(b2.0, b.1, a.1, a2.1);
    vstd::arithmetic::mul::lemma_mul_is_distributive_add_other_way(
        a.1 * b.1,
        a2.0 * b2.1,
        b2.0 * a2.1,
    );
    assert((a.0 * b.1 + b.0 * a.1) * (a2.1 * b2.1) == (a.0 * a2.1) * (b.1 * b2.1) + (b.0 * b2.1)
        * (a.1 * a2.1));
    assert((a2.0 * b2.1 + b2.0 * a2.1) * (a.1 * b.1) == (a2.0 * a.1) * (b2.1 * b.1) + (b2.0 * b.1)
        * (a2.1 * a.1)) by {
        lemma_mul_rearrange(a2.0, b2.1, a.1, b.1);
        lemma_mul_rearrange(b2.0, a2.1, a.1, b.1);
    };
    assert((a.0 * a2.1) * (b.1 * b2.1) == (a2.0 * a.1) * (b2.1 * b.1)) by {
        assert(b.1 * b2.1 == b2.1 * b.1) by (nonlinear_arith);
    };
    assert((b.0 * b2.1) * (a.1 * a2.1) == (b2.0 * b.1) * (a2.1 * a.1)) by {
        assert(a.1 * a2.1 == a2.1 * a.1) by (nonlinear_arith);
    };
}

/// Multiplication respects rational equality.
pub proof fn lemma_q_mul_congruence(a: (int, int), a2: (int, int), b: (int, int), b2: (int, int))
    by (nonlinear_arith)
    requires
        q_wf(a),
        q_wf(a2),
        q_wf(b),
        q_wf(b2),
        q_eq(a, a2),
        q_eq(b, b2),
    ensures
        q_eq(q_mul(a, b), q_mul(a2, b2)),
{
}

pub proof fn lemma_q_add_nonneg(a: (int, int), b: (int, int))
    by (nonlinear_arith)
    requires
        q_wf(a),
        q_wf(b),
        q_nonneg(a),
        q_nonneg(b),
    ensures
        q_nonneg(q_add(a, b)),
{
}

pub proof fn lemma_q_mul_nonneg(a: (int, int), b: (int, int))
    by (nonlinear_arith)
    requires
        q_wf(a),
        q_wf(b),
        q_nonneg(a),
        q_nonneg(b),
    ensures
        q_nonneg(q_mul(a, b)),
{
}

/// Multiplying by a non-negative rational preserves `<=`.
pub proof fn lemma_q_mul_le_nonneg(a: (int, int), b: (int, int), c: (int, int))
    by (nonlinear_arith)
    requires
        q_wf(a),
        q_wf(b),
        q_wf(c),
        q_le(a, b),
        q_nonneg(c),
    ensures
        q_le(q_mul(a, c), q_mul(b, c)),
        q_le(q_mul(c, a), q_mul(c, b)),
{
}


/// A rational at least as large as a positive one is positive.
pub proof fn lemma_q_pos_mono(a: (int, int), b: (int, int))
    by (nonlinear_arith)
    requires
        q_wf(a),
        q_wf(b),
        q_pos(a),
        q_le(a, b),
    ensures
        q_pos(b),
{
}

/// Positivity and non-negativity respect rational equality.
pub proof fn lemma_q_sign_congruence(a: (int, int), b: (int, int))
    by (nonlinear_arith)
    requires
        q_wf(a),
        q_wf(b),
        q_eq(a, b),
    ensures
        q_pos(a) == q_pos(b),
        q_nonneg(a) == q_nonneg(b),
{
}

/// The larger of two rationals; meaningful when both are well-formed.
pub open spec fn q_max(a: (int, int), b: (int, int)) -> (int, int) {
    if q_le(a, b) {
        b
    } else {
        a
    }
}

/// A sum with a positive contribution and no negative one is positive.
pub proof fn lemma_q_add_pos(a: (int, int), b: (int, int))
    by (nonlinear_arith)
    requires
        q_wf(a),
        q_wf(b),
        q_nonneg(a),
        q_nonneg(b),
        q_pos(a) || q_pos(b),
    ensures
        q_pos(q_add(a, b)),
{
}

pub proof fn lemma_q_mul_pos(a: (int, int), b: (int, int))
    by (nonlinear_arith)
    requires
        q_wf(a),
        q_wf(b),
        q_pos(a),
        q_pos(b),
    ensures
        q_pos(q_mul(a, b)),
{
}


/// Moving a factor through a nested product.
pub proof fn lemma_mul_shuffle(x: int, y: int, z: int)
    by (nonlinear_arith)
    ensures
        (x * y) * z == x * (y * z),
        (x * y) * z == y * (x * z),
{
}

/// Multiplication distributes over addition, up to rational equality.
pub proof fn lemma_q_mul_add_distrib(c: (int, int), a: (int, int), b: (int, int))
    requires
        q_wf(c),
        q_wf(a),
        q_wf(b),
    ensures
        q_eq(q_add(q_mul(c, a), q_mul(c, b)), q_mul(c, q_add(a, b))),
        q_wf(q_add(q_mul(c, a), q_mul(c, b))),
        q_wf(q_mul(c, q_add(a, b))),
{
    let lhs = q_add(q_mul(c, a), q_mul(c, b));
    let rhs = q_mul(c, q_add(a, b));
    assert(lhs.0 == c.1 * rhs.0) by {
        vstd::arithmetic::mul::lemma_mul_is_distributive_add(c.0, a.0 * b.1, b.0 * a.1);
        vstd::arithmetic::mul::lemma_mul_is_distributive_add(
            c.1,
            c.0 * (a.0 * b.1),
            c.0 * (b.0 * a.1),
        );
        lemma_mul_rearrange(c.0, a.0, c.1, b.1);
        lemma_mul_shuffle(c.0, c.1, a.0 * b.1);
        lemma_mul_rearrange(c.0, b.0, c.1, a.1);
        lemma_mul_shuffle(c.0, c.1, b.0 * a.1);
    };
    assert(lhs.1 == c.1 * rhs.1) by {
        lemma_mul_rearrange(c.1, a.1, c.1, b.1);
        lemma_mul_shuffle(c.1, c.1, a.1 * b.1);
    };
    assert(lhs.1 > 0 && rhs.1 > 0) by {
        vstd::arithmetic::mul::lemma_mul_strictly_positive(a.1, b.1);
        vstd::arithmetic::mul::lemma_mul_strictly_positive(c.1, a.1 * b.1);
        vstd::arithmetic::mul::lemma_mul_strictly_positive(c.1, a.1);
        vstd::arithmetic::mul::lemma_mul_strictly_positive(c.1, b.1);
        vstd::arithmetic::mul::lemma_mul_strictly_positive(c.1 * a.1, c.1 * b.1);
    };
    assert((c.1 * rhs.0) * rhs.1 == rhs.0 * (c.1 * rhs.1)) by (nonlinear_arith);
}

/// Properties of dividing by a positive rational.
pub proof fn lemma_q_div_props(a: (int, int), b: (int, int))
    by (nonlinear_arith)
    requires
        q_wf(a),
        q_wf(b),
        q_pos(b),
    ensures
        q_wf(q_div(a, b)),
        q_nonneg(a) == q_nonneg(q_div(a, b)),
        q_pos(a) == q_pos(q_div(a, b)),
{
}

/// `s * (c * (1/s)) == c` for positive `s`.
pub proof fn lemma_q_mul_div_cancel(s: (int, int), c: (int, int))
    by (nonlinear_arith)
    requires
        q_wf(s),
        q_wf(c),
        q_pos(s),
    ensures
        q_eq(q_mul(s, q_mul(c, q_div(q_one(), s))), c),
        q_wf(q_mul(c, q_div(q_one(), s))),
{
}

/// From `s * y == c` (with `s` positive) solve for `y` as `c * (1/s)`.
pub proof fn lemma_q_solve_scaled(s: (int, int), y: (int, int), c: (int, int))
    by (nonlinear_arith)
    requires
        q_wf(s),
        q_wf(y),
        q_wf(c),
        q_pos(s),
        q_eq(q_mul(s, y), c),
    ensures
        q_eq(y, q_mul(c, q_div(q_one(), s))),
{
}

/// `c <= r/w` exactly when `c*w <= r`, for positive `w`.
pub proof fn lemma_q_le_div_iff_mul(c: (int, int), r: (int, int), w: (int, int))
    by (nonlinear_arith)
    requires
        q_wf(c),
        q_wf(r),
        q_wf(w),
        q_pos(w),
    ensures
        q_le(c, q_div(r, w)) == q_le(q_mul(c, w), r),
        q_eq(c, q_div(r, w)) ==> q_eq(q_mul(c, w), r),
{
}

/// Reciprocals of equal rationals are equal.
pub proof fn lemma_q_inv_congruence(s: (int, int), t: (int, int))
    by (nonlinear_arith)
    requires
        q_eq(s, t),
    ensures
        q_eq(q_div(q_one(), s), q_div(q_one(), t)),
{
}

/// Division respects rational equality of the divisor.
pub proof fn lemma_q_div_congruence(a: (int, int), b: (int, int), b2: (int, int))
    by (nonlinear_arith)
    requires
        q_eq(b, b2),
    ensures
        q_eq(q_div(a, b), q_div(a, b2)),
{
}

/// The outer factors of a nested product may swap.
pub proof fn lemma_q_mul_comm3(d: (int, int), c: (int, int), v: (int, int))
    by (nonlinear_arith)
    requires
        q_wf(d),
        q_wf(c),
        q_wf(v),
    ensures
        q_eq(q_mul(d, q_mul(c, v)), q_mul(c, q_mul(d, v))),
        q_wf(q_mul(d, q_mul(c, v))),
        q_wf(q_mul(c, q_mul(d, v))),
{
}

/// A zero-valued rational is below any non-negative one.
pub proof fn lemma_q_zero_le(a: (int, int), b: (int, int))
    by (nonlinear_arith)
    requires
        q_wf(a),
        q_wf(b),
        a.0 == 0,
        q_nonneg(b),
    ensures
        q_le(a, b),
{
}





/// Addition of rationals commutes.
pub proof fn lemma_q_add_comm(a: (int, int), b: (int, int))
    requires
        q_wf(a),
        q_wf(b),
    ensures
        q_eq(q_add(a, b), q_add(b, a)),
        q_wf(q_add(a, b)),
        q_wf(q_add(b, a)),
{
    assert(a.1 * b.1 == b.1 * a.1 && a.1 * b.1 > 0) by (nonlinear_arith)
        requires
            a.1 > 0,
            b.1 > 0,
    ;
    assert((a.0 * b.1 + b.0 * a.1) * (b.1 * a.1) == (b.0 * a.1 + a.0 * b.1) * (a.1 * b.1))
        by (nonlinear_arith)
        requires
            a.1 * b.1 == b.1 * a.1,
    ;
}

/// Addition of rationals associates.
pub proof fn lemma_q_add_assoc(a: (int, int), b: (int, int), c: (int, int))
    requires
        q_wf(a),
        q_wf(b),
        q_wf(c),
    ensures
        q_eq(q_add(q_add(a, b), c), q_add(a, q_add(b, c))),
        q_wf(q_add(q_add(a, b), c)),
        q_wf(q_add(a, q_add(b, c))),
{
    let l = q_add(q_add(a, b), c);
    let rr = q_add(a, q_add(b, c));
    assert(l.0 == rr.0 && l.1 == rr.1 && l.1 > 0) by (nonlinear_arith)
        requires
            a.1 > 0,
            b.1 > 0,
            c.1 > 0,
            l == q_add(q_add(a, b), c),
            rr == q_add(a, q_add(b, c)),
    ;
}

/// Two sums of two rationals may regroup across each other.
pub proof fn lemma_q_add_exchange(a: (int, int), b: (int, int), c: (int, int), d: (int, int))
    requires
        q_wf(a),
        q_wf(b),
        q_wf(c),
        q_wf(d),
    ensures
        q_eq(q_add(q_add(a, b), q_add(c, d)), q_add(q_add(a, c), q_add(b, d))),
        q_wf(q_add(q_add(a, b), q_add(c, d))),
        q_wf(q_add(q_add(a, c), q_add(b, d))),
{
    lemma_q_add_wf(a, b);
    lemma_q_add_wf(c, d);
    lemma_q_add_wf(a, c);
    lemma_q_add_wf(b, d);
    lemma_q_add_wf(q_add(a, b), q_add(c, d));
    lemma_q_add_wf(q_add(a, c), q_add(b, d));
    // (a+b)+c regroups to (a+c)+b
    lemma_q_add_assoc(a, b, c);
    lemma_q_add_comm(b, c);
    lemma_q_add_wf(b, c);
    lemma_q_add_wf(c, b);
    lemma_q_add_congruence(q_add(b, c), q_add(c, b), a, a);
    lemma_q_add_comm(q_add(b, c), a);
    lemma_q_add_comm(q_add(c, b), a);
    lemma_q_add_assoc(a, c, b);
    lemma_q_add_wf(q_add(a, b), c);
    lemma_q_add_wf(q_add(a, c), b);
    lemma_q_add_wf(a, q_add(b, c));
    lemma_q_add_wf(a, q_add(c, b));
    lemma_q_eq_trans(q_add(q_add(a, b), c), q_add(a, q_add(b, c)), q_add(q_add(b, c), a));
    lemma_q_eq_trans(q_add(q_add(a, b), c), q_add(q_add(b, c), a), q_add(q_add(c, b), a));
    lemma_q_eq_trans(q_add(q_add(a, b), c), q_add(q_add(c, b), a), q_add(a, q_add(c, b)));
    lemma_q_eq_trans(q_add(q_add(a, b), c), q_add(a, q_add(c, b)), q_add(q_add(a, c), b));
    // push `d` through
    lemma_q_add_assoc(q_add(a, b), c, d);
    lemma_q_add_congruence(q_add(q_add(a, b), c), q_add(q_add(a, c), b), d, d);
    lemma_q_add_assoc(q_add(a, c), b, d);
    lemma_q_add_wf(q_add(q_add(a, b), c), d);
    lemma_q_add_wf(q_add(q_add(a, c), b), d);
    lemma_q_eq_trans(
        q_add(q_add(a, b), q_add(c, d)),
        q_add(q_add(q_add(a, b), c), d),
        q_add(q_add(q_add(a, c), b), d),
    );
    lemma_q_eq_trans(
        q_add(q_add(a, b), q_add(c, d)),
        q_add(q_add(q_add(a, c), b), d),
        q_add(q_add(a, c), q_add(b, d)),
    );
}

/// Adding respects `<=` on both operands.
pub proof fn lemma_q_le_add(a: (int, int), b: (int, int), c: (int, int), d: (int, int))
    by (nonlinear_arith)
    requires
        q_wf(a),
        q_wf(b),
        q_wf(c),
        q_wf(d),
        q_le(a, b),
        q_le(c, d),
    ensures
        q_le(q_add(a, c), q_add(b, d)),
{
}

/// A rational at least one, times a non-negative one, dominates it.
pub proof fn lemma_q_ge_one_mul(s: (int, int), y: (int, int))
    by (nonlinear_arith)
    requires
        q_wf(s),
        q_wf(y),
        q_le(q_one(), s),
        q_nonneg(y),
    ensures
        q_le(y, q_mul(s, y)),
        q_wf(q_mul(s, y)),
{
}

/// Multiplication of rationals commutes.
pub proof fn lemma_q_mul_comm(a: (int, int), b: (int, int))
    by (nonlinear_arith)
    requires
        q_wf(a),
        q_wf(b),
    ensures
        q_eq(q_mul(a, b), q_mul(b, a)),
        q_wf(q_mul(a, b)),
        q_wf(q_mul(b, a)),
{
}

/// Multiplication of rationals associates.
pub proof fn lemma_q_mul_assoc(a: (int, int), b: (int, int), c: (int, int))
    by (nonlinear_arith)
    requires
        q_wf(a),
        q_wf(b),
        q_wf(c),
    ensures
        q_eq(q_mul(q_mul(a, b), c), q_mul(a, q_mul(b, c))),
        q_wf(q_mul(q_mul(a, b), c)),
        q_wf(q_mul(a, q_mul(b, c))),
{
}

/// Adding a non-negative rational does not decrease a value.
pub proof fn lemma_q_le_add_nonneg(a: (int, int), b: (int, int))
    by (nonlinear_arith)
    requires
        q_wf(a),
        q_wf(b),
        q_nonneg(b),
    ensures
        q_le(a, q_add(a, b)),
{
}

/// Adding a zero-valued rational leaves the value unchanged.
pub proof fn lemma_q_add_zero(a: (int, int), b: (int, int))
    by (nonlinear_arith)
    requires
        q_wf(a),
        q_wf(b),
        q_eq(b, q_zero()),
    ensures
        q_eq(q_add(a, b), a),
{
}

/// `<` on rationals respects rational equality on both sides.
pub proof fn lemma_q_lt_congruence(a: (int, int), a2: (int, int), b: (int, int), b2: (int, int))
    by (nonlinear_arith)
    requires
        q_wf(a),
        q_wf(a2),
        q_wf(b),
        q_wf(b2),
        q_eq(a, a2),
        q_eq(b, b2),
        q_lt(a, b),
    ensures
        q_lt(a2, b2),
{
}

/// An exact rational with a positive `i64` denominator.
#[derive(Clone, Copy, Debug)]
pub struct Rat {
    n: i64,
    d: i64,
}

impl View for Rat {
    type V = (int, int);

    closed spec fn view(&self) -> (int, int) {
        (self.n as int, self.d as int)
    }
}

impl Rat {
    pub open spec fn wf(self) -> bool {
        q_wf(self@)
    }

    /// What is stored always fits storage: both view components are in
    /// `i64` range.
    pub proof fn lemma_view_in_i64(self)
        ensures
            q_in_i64(self@),
            -0x8000_0000_0000_0000 <= self@.0 <= 0x7fff_ffff_ffff_ffff,
            -0x8000_0000_0000_0000 <= self@.1 <= 0x7fff_ffff_ffff_ffff,
    {
    }

    /// The rational `0`.
    pub fn zero() -> (r: Rat)
        ensures
            r.wf(),
            r@ == q_zero(),
    {
        Rat { n: 0, d: 1 }
    }

    /// The rational `1`.
    pub fn one() -> (r: Rat)
        ensures
            r.wf(),
            r@ == q_one(),
    {
        Rat { n: 1, d: 1 }
    }

    /// The rational `n`.
    pub fn from_int(n: i64) -> (r: Rat)
        ensures
            r.wf(),
            r@ == (n as int, 1int),
    {
        Rat { n, d: 1 }
    }

    /// The rational `n / d`, reduced.
    pub fn new(n: i64, d: i64) -> (r: Rat)
        requires
            d > 0,
        ensures
            r.wf(),
            q_eq(r@, (n as int, d as int)),
    {
        let r = reduce(n as i128, d as i128);
        match r {
            Some(v) => v,
            None => {
                proof {
                    assert(false);
                }
                Rat { n: 0, d: 1 }
            },
        }
    }

    /// The numerator of the held (reduced) representation.
    pub fn numerator(&self) -> (r: i64)
        ensures
            r as int == self@.0,
    {
        self.n
    }

    /// The denominator of the held (reduced) representation.
    pub fn denominator(&self) -> (r: i64)
        ensures
            r as int == self@.1,
    {
        self.d
    }

    pub fn is_nonneg(&self) -> (r: bool)
        requires
            self.wf(),
        ensures
            r == q_nonneg(self@),
    {
        self.n >= 0
    }

    pub fn is_pos(&self) -> (r: bool)
        requires
            self.wf(),
        ensures
            r == q_pos(self@),
    {
        self.n > 0
    }

    pub fn le(&self, other: &Rat) -> (r: bool)
        requires
            self.wf(),
            other.wf(),
        ensures
            r == q_le(self@, other@),
    {
        proof {
            lemma_i64_products_fit(self.n as int, other.d as int);
            lemma_i64_products_fit(other.n as int, self.d as int);
        }
        let lhs: i128 = (self.n as i128) * (other.d as i128);
        let rhs: i128 = (other.n as i128) * (self.d as i128);
        lhs <= rhs
    }

    pub fn lt(&self, other: &Rat) -> (r: bool)
        requires
            self.wf(),
            other.wf(),
        ensures
            r == q_lt(self@, other@),
    {
        proof {
            lemma_i64_products_fit(self.n as int, other.d as int);
            lemma_i64_products_fit(other.n as int, self.d as int);
        }
        let lhs: i128 = (self.n as i128) * (other.d as i128);
        let rhs: i128 = (other.n as i128) * (self.d as i128);
        lhs < rhs
    }

    /// Exact equality of the denoted rationals.
    pub fn eq_val(&self, other: &Rat) -> (r: bool)
        requires
            self.wf(),
            other.wf(),
        ensures
            r == q_eq(self@, other@),
    {
        proof {
            lemma_i64_products_fit(self.n as int, other.d as int);
            lemma_i64_products_fit(other.n as int, self.d as int);
        }
        let lhs: i128 = (self.n as i128) * (other.d as i128);
        let rhs: i128 = (other.n as i128) * (self.d as i128);
        lhs == rhs
    }

    /// Exact addition; `None` when the reduced result leaves `i64` range,
    /// owed to succeed when the unreduced result already fits.
    pub fn checked_add(&self, other: &Rat) -> (r: Option<Rat>)
        requires
            self.wf(),
            other.wf(),
        ensures
            r matches Some(v) ==> v.wf() && q_eq(v@, q_add(self@, other@)),
            r matches Some(v) ==> q_bounded(
                v@,
                q_abs(q_add(self@, other@).0),
                q_add(self@, other@).1,
            ),
            q_in_i64(q_add(self@, other@)) ==> r is Some,
    {
        proof {
            lemma_i64_mul_den_fit(self.n as int, other.d as int);
            lemma_i64_mul_den_fit(other.n as int, self.d as int);
            lemma_i64_products_fit(self.d as int, other.d as int);
        }
        let p1: i128 = (self.n as i128) * (other.d as i128);
        let p2: i128 = (other.n as i128) * (self.d as i128);
        let num: i128 = match p1.checked_add(p2) {
            Some(s) => s,
            None => {
                proof {
                    // the two products are too far from the ends to overflow
                    assert(false);
                }
                return None;
            },
        };
        let den: i128 = (self.d as i128) * (other.d as i128);
        proof {
            vstd::arithmetic::mul::lemma_mul_strictly_positive(self.d as int, other.d as int);
        }
        reduce(num, den)
    }

    /// Exact subtraction; `None` when the reduced result leaves `i64` range,
    /// owed to succeed when the unreduced result already fits.
    pub fn checked_sub(&self, other: &Rat) -> (r: Option<Rat>)
        requires
            self.wf(),
            other.wf(),
        ensures
            r matches Some(v) ==> v.wf() && q_eq(v@, q_sub(self@, other@)),
            r matches Some(v) ==> q_bounded(
                v@,
                q_abs(q_sub(self@, other@).0),
                q_sub(self@, other@).1,
            ),
            q_in_i64(q_sub(self@, other@)) ==> r is Some,
    {
        proof {
            lemma_i64_mul_den_fit(self.n as int, other.d as int);
            lemma_i64_mul_den_fit(other.n as int, self.d as int);
            lemma_i64_products_fit(self.d as int, other.d as int);
        }
        let p1: i128 = (self.n as i128) * (other.d as i128);
        let p2: i128 = (other.n as i128) * (self.d as i128);
        let num: i128 = match p1.checked_sub(p2) {
            Some(s) => s,
            None => {
                proof {
                    // the two products are too far from the ends to overflow
                    assert(false);
                }
                return None;
            },
        };
        let den: i128 = (self.d as i128) * (other.d as i128);
        proof {
            vstd::arithmetic::mul::lemma_mul_strictly_positive(self.d as int, other.d as int);
        }
        reduce(num, den)
    }

    /// Exact multiplication; `None` when the reduced result leaves `i64`
    /// range, owed to succeed when the unreduced result already fits or
    /// either factor is zero.
    pub fn checked_mul(&self, other: &Rat) -> (r: Option<Rat>)
        requires
            self.wf(),
            other.wf(),
        ensures
            r matches Some(v) ==> v.wf() && q_eq(v@, q_mul(self@, other@)),
            r matches Some(v) ==> q_bounded(
                v@,
                q_abs(q_mul(self@, other@).0),
                q_mul(self@, other@).1,
            ),
            q_in_i64(q_mul(self@, other@)) ==> r is Some,
            self@.0 == 0 || other@.0 == 0 ==> r is Some,
    {
        proof {
            lemma_i64_products_fit(self.n as int, other.n as int);
            lemma_i64_products_fit(self.d as int, other.d as int);
            vstd::arithmetic::mul::lemma_mul_strictly_positive(self.d as int, other.d as int);
        }
        let num: i128 = (self.n as i128) * (other.n as i128);
        let den: i128 = (self.d as i128) * (other.d as i128);
        reduce(num, den)
    }

    /// Exact division; `None` when the reduced result leaves `i64` range,
    /// owed to succeed when the unreduced result already fits (its sign
    /// normalized onto the numerator) or the dividend is zero.
    pub fn checked_div(&self, other: &Rat) -> (r: Option<Rat>)
        requires
            self.wf(),
            other.wf(),
            other@.0 != 0,
        ensures
            r matches Some(v) ==> v.wf() && q_eq(v@, q_div(self@, other@)),
            r matches Some(v) ==> q_bounded(
                v@,
                q_abs(q_div(self@, other@).0),
                q_abs(q_div(self@, other@).1),
            ),
            q_in_i64(q_sign_norm(q_div(self@, other@))) ==> r is Some,
            self@.0 == 0 ==> (r matches Some(v) && v@ == (0int, 1int)),
    {
        proof {
            lemma_i64_products_fit(self.n as int, other.d as int);
            lemma_i64_products_fit(self.d as int, other.n as int);
        }
        let num: i128 = (self.n as i128) * (other.d as i128);
        let den: i128 = (self.d as i128) * (other.n as i128);
        proof {
            vstd::arithmetic::mul::lemma_mul_nonzero(self.d as int, other.n as int);
        }
        if den > 0 {
            let r = reduce(num, den);
            proof {
                if r is Some {
                    lemma_q_eq_negate(r->Some_0@, num as int, den as int);
                }
            }
            r
        } else {
            proof {
                vstd::arithmetic::mul::lemma_mul_strictly_positive(
                    self.d as int,
                    -(other.n as int),
                );
            }
            let r = reduce(-num, -den);
            proof {
                if r is Some {
                    lemma_q_eq_negate(r->Some_0@, num as int, den as int);
                }
            }
            r
        }
    }
}

/// Cross-multiplication equality is indifferent to negating both components.
proof fn lemma_q_eq_negate(v: (int, int), num: int, den: int)
    by (nonlinear_arith)
    requires
        q_eq(v, (-num, -den)) || q_eq(v, (num, den)),
    ensures
        q_eq(v, (num, den)),
{
}

/// Products of `i64`-range factors stay strictly inside `i128` range, far
/// enough from the ends that sums of two such products do as well.
proof fn lemma_i64_products_fit(x: int, y: int)
    by (nonlinear_arith)
    requires
        -0x8000_0000_0000_0000 <= x <= 0x7fff_ffff_ffff_ffff,
        -0x8000_0000_0000_0000 <= y <= 0x7fff_ffff_ffff_ffff,
    ensures
        -0x3fff_ffff_ffff_ffff_8000_0000_0000_0000 <= x * y
            <= 0x4000_0000_0000_0000_0000_0000_0000_0000,
{
}

/// A numerator times a positive denominator: the sum of two such products
/// cannot reach either end of the `i128` range.
proof fn lemma_i64_mul_den_fit(x: int, d: int)
    by (nonlinear_arith)
    requires
        -0x8000_0000_0000_0000 <= x <= 0x7fff_ffff_ffff_ffff,
        0 < d <= 0x7fff_ffff_ffff_ffff,
    ensures
        -0x3fff_ffff_ffff_ffff_8000_0000_0000_0000 <= x * d
            <= 0x3fff_ffff_ffff_ffff_0000_0000_0000_0001,
{
}

/// Greatest-common-divisor routine; the contract states only what reduction
/// needs: the result is positive and divides both arguments.
fn gcd_u128(a: u128, b: u128) -> (g: u128)
    requires
        a > 0 || b > 0,
    ensures
        g > 0,
        a as int % g as int == 0,
        b as int % g as int == 0,
        a > 0 ==> g <= a,
        b > 0 ==> g <= b,
    decreases b,
{
    if b == 0 {
        proof {
            vstd::arithmetic::div_mod::lemma_mod_self_0(a as int);
            vstd::arithmetic::div_mod::lemma_small_mod(0nat, a as nat);
        }
        a
    } else {
        let r: u128 = a % b;
        let g = gcd_u128(b, r);
        proof {
            vstd::arithmetic::div_mod::lemma_fundamental_div_mod(a as int, b as int);
            vstd::arithmetic::div_mod::lemma_fundamental_div_mod(a as int % b as int, g as int);
            vstd::arithmetic::div_mod::lemma_fundamental_div_mod(b as int, g as int);
            let q: int = a as int / b as int;
            let bq: int = b as int / g as int;
            let rq: int = (a as int % b as int) / g as int;
            assert(a as int == (q * bq + rq) * g as int) by (nonlinear_arith)
                requires
                    a as int == b as int * q + (a as int % b as int),
                    b as int == g as int * bq,
                    a as int % b as int == g as int * rq,
            ;
            vstd::arithmetic::div_mod::lemma_mod_multiples_basic(q * bq + rq, g as int);
            if a > 0 {
                assert(g <= a) by (nonlinear_arith)
                    requires
                        a as int == (q * bq + rq) * g as int,
                        a > 0,
                        g > 0,
                ;
            }
        }
        g
    }
}

/// Divide out a common factor and fit the result into `i64` fields; always
/// succeeds for inputs already in `i64` range.
#[verifier::rlimit(50)]
fn reduce(num: i128, den: i128) -> (r: Option<Rat>)
    requires
        den > 0,
        num > i128::MIN,
    ensures
        r matches Some(v) ==> v.wf() && q_eq(v@, (num as int, den as int)),
        r matches Some(v) ==> q_bounded(v@, q_abs(num as int), den as int),
        (-0x8000_0000_0000_0000 <= num <= 0x7fff_ffff_ffff_ffff && den
            <= 0x7fff_ffff_ffff_ffff) ==> r is Some,
        num == 0 ==> (r matches Some(v) && v@ == (0int, 1int)),
{
    let neg: bool = num < 0;
    let m: u128 = if neg {
        (-num) as u128
    } else {
        num as u128
    };
    let du: u128 = den as u128;
    if m == 0 {
        proof {
            assert(num == 0);
            assert(q_eq((0int, 1int), (num as int, den as int)));
            assert(q_bounded((0int, 1int), q_abs(num as int), den as int));
        }
        return Some(Rat { n: 0, d: 1 });
    }
    let g: u128 = gcd_u128(m, du);
    let mr: u128 = m / g;
    let dr: u128 = du / g;
    proof {
        vstd::arithmetic::div_mod::lemma_fundamental_div_mod(m as int, g as int);
        vstd::arithmetic::div_mod::lemma_fundamental_div_mod(du as int, g as int);
        assert(mr as int * du as int == m as int * dr as int && mr <= m && dr <= du && dr >= 1
            && mr >= 1) by (nonlinear_arith)
            requires
                m as int == g as int * (m as int / g as int),
                du as int == g as int * (du as int / g as int),
                mr as int == m as int / g as int,
                dr as int == du as int / g as int,
                g > 0,
                m > 0,
                du > 0,
        ;
    }
    if dr > 0x7fff_ffff_ffff_ffffu128 {
        return None;
    }
    if neg {
        if mr > 0x8000_0000_0000_0000u128 {
            return None;
        }
        let ni: i64 = if mr == 0x8000_0000_0000_0000u128 {
            i64::MIN
        } else {
            -(mr as i64)
        };
        let v = Rat { n: ni, d: dr as i64 };
        proof {
            assert(q_eq(v@, (num as int, den as int))) by (nonlinear_arith)
                requires
                    v@.0 == -(mr as int),
                    v@.1 == dr as int,
                    num as int == -(m as int),
                    den as int == du as int,
                    mr as int * du as int == m as int * dr as int,
            ;
        }
        Some(v)
    } else {
        if mr > 0x7fff_ffff_ffff_ffffu128 {
            return None;
        }
        let v = Rat { n: mr as i64, d: dr as i64 };
        proof {
            assert(q_eq(v@, (num as int, den as int))) by (nonlinear_arith)
                requires
                    v@.0 == mr as int,
                    v@.1 == dr as int,
                    num as int == m as int,
                    den as int == du as int,
                    mr as int * du as int == m as int * dr as int,
            ;
        }
        Some(v)
    }
}

} // verus!
