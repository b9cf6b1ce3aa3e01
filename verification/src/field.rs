//! Arithmetic in the prime field of order 2^64 - 2^32 + 1.
//!
//! Elements are kept as canonical residues: plain `u64` values below
//! [`FIELD_MODULUS`]. The computations themselves are done by winter-math's
//! `BaseElement`; the spec functions here state, value for value, what those
//! operations return on canonical residues.

use vstd::prelude::*;
use winter_math::fields::f64::BaseElement;
use winter_math::StarkField;

verus! {

/// The field modulus, 2^64 - 2^32 + 1.
pub const FIELD_MODULUS: u64 = 18446744069414584321;

/// A `u64` represents a field element when it is a canonical residue.
pub open spec fn is_elem(x: u64) -> bool {
    x < FIELD_MODULUS
}

/// Every entry of the sequence is a canonical residue.
pub open spec fn all_elems(s: Seq<u64>) -> bool {
    forall|i: int| 0 <= i < s.len() ==> is_elem(#[trigger] s[i])
}

/// Field addition on canonical residues.
pub open spec fn fadd(a: u64, b: u64) -> u64 {
    ((a + b) % (FIELD_MODULUS as int)) as u64
}

/// Field subtraction on canonical residues.
pub open spec fn fsub(a: u64, b: u64) -> u64 {
    ((a - b) % (FIELD_MODULUS as int)) as u64
}

/// Field multiplication on canonical residues.
pub open spec fn fmul(a: u64, b: u64) -> u64 {
    ((a * b) % (FIELD_MODULUS as int)) as u64
}

/// Additive inverse on canonical residues.
pub open spec fn fneg(a: u64) -> u64 {
    fsub(0, a)
}

/// What winter-math's field division returns: the product of `a` with the
/// multiplicative inverse of `b`. Stating the inverse in closed form would
/// take pages, so the quotient only carries a name here; `felt_div` pins it
/// down by the equation `fmul(fdiv(a, b), b) == a`.
pub uninterp spec fn fdiv(a: u64, b: u64) -> u64;

/// ONE is neutral for field multiplication on canonical residues.
pub proof fn lemma_fmul_one(x: u64)
    requires
        is_elem(x),
    ensures
        fmul(1u64, x) == x,
{
}

/// ZERO is neutral for field addition on canonical residues.
pub proof fn lemma_fadd_zero(x: u64)
    requires
        is_elem(x),
    ensures
        fadd(0u64, x) == x,
{
}

/// Adding the additive inverse of `y` subtracts `y`.
pub proof fn lemma_fadd_fneg_is_fsub(x: u64, y: u64)
    requires
        is_elem(x),
    ensures
        fadd(x, fneg(y)) == fsub(x, y),
{
    let m = FIELD_MODULUS as int;
    vstd::arithmetic::div_mod::lemma_add_mod_noop_right(x as int, 0 - y, m);
}

/// Multiplying by the additive inverse negates the product.
pub proof fn lemma_fmul_fneg(c: u64, t: u64)
    ensures
        fmul(fneg(c), t) == fneg(fmul(c, t)),
{
    let m = FIELD_MODULUS as int;
    vstd::arithmetic::div_mod::lemma_mul_mod_noop_left(0 - c, t as int, m);
    assert((0 - c as int) * t == 0 - (c as int) * t) by (nonlinear_arith);
    vstd::arithmetic::div_mod::lemma_sub_mod_noop_right(0, (c as int) * t, m);
}

/// Relies on winter-math's `BaseElement`: `new` reduces its argument modulo
/// the field modulus, `+` adds in the field, and `as_int` returns the
/// canonical value of the sum.
#[verifier::external_body]
pub(crate) fn felt_add(a: u64, b: u64) -> (r: u64)
    requires
        is_elem(a),
        is_elem(b),
    ensures
        r == fadd(a, b),
{
    (BaseElement::new(a) + BaseElement::new(b)).as_int()
}

/// Relies on winter-math's `BaseElement`: `-` subtracts in the field, and
/// `as_int` returns the canonical value of the difference.
#[verifier::external_body]
pub(crate) fn felt_sub(a: u64, b: u64) -> (r: u64)
    requires
        is_elem(a),
        is_elem(b),
    ensures
        r == fsub(a, b),
{
    (BaseElement::new(a) - BaseElement::new(b)).as_int()
}

/// Relies on winter-math's `BaseElement`: `*` multiplies in the field, and
/// `as_int` returns the canonical value of the product.
#[verifier::external_body]
pub(crate) fn felt_mul(a: u64, b: u64) -> (r: u64)
    requires
        is_elem(a),
        is_elem(b),
    ensures
        r == fmul(a, b),
{
    (BaseElement::new(a) * BaseElement::new(b)).as_int()
}

/// Relies on winter-math's `BaseElement`: `/` multiplies by `inv(b)`, and
/// `inv` returns the multiplicative inverse of a nonzero element, so the
/// quotient times `b` gives back `a`.
#[verifier::external_body]
pub(crate) fn felt_div(a: u64, b: u64) -> (r: u64)
    requires
        is_elem(a),
        is_elem(b),
        b != 0,
    ensures
        r == fdiv(a, b),
        is_elem(r),
        fmul(r, b) == a,
{
    (BaseElement::new(a) / BaseElement::new(b)).as_int()
}

/// Relies on rand's `random`: a value drawn from the thread-local generator.
/// Nothing can be promised of it.
pub assume_specification<T>[ rand::random::<T> ]() -> (r: T)
    where
        rand::distributions::Standard: rand::distributions::Distribution<T>,
;

/// Draws a uniformly random `u64` and reduces it to a canonical residue, as
/// winter-math's `BaseElement::new` would.
pub fn draw_element() -> (r: u64)
    ensures
        is_elem(r),
{
    let x: u64 = rand::random::<u64>();
    x % FIELD_MODULUS
}

} // verus!
