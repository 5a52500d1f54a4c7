use vstd::prelude::*;
use crate::frac::Frac;
use crate::frac::frac_add;
use crate::frac::frac_div;
use crate::frac::frac_eq;
use crate::frac::frac_le;
use crate::frac::frac_lt;
use crate::frac::frac_mul;
use crate::frac::frac_pow;
use crate::frac::frac_recip;
use crate::frac::frac_sub;

verus! {

/// `num_rational::Ratio` holds an exact rational as a pair of integers of
/// its type parameter, kept in reduced form with a positive denominator.
#[verifier::external_type_specification]
#[verifier::external_body]
#[verifier::reject_recursive_types(T)]
pub struct ExRatio<T>(num_rational::Ratio<T>);

/// `num_bigint::BigInt` is an arbitrary-precision signed integer.
#[verifier::external_type_specification]
#[verifier::external_body]
pub struct ExBigInt(num_bigint::BigInt);

/// The numerator held by an exact rational, in canonical form.
pub uninterp spec fn rat_num(r: num_rational::BigRational) -> int;

/// The denominator held by an exact rational; positive in canonical form.
pub uninterp spec fn rat_den(r: num_rational::BigRational) -> int;

/// The fraction held by an exact rational.
pub open spec fn rat_value(r: num_rational::BigRational) -> Frac {
    Frac { num: rat_num(r), den: rat_den(r) }
}

/// Relies on `num_rational::Ratio::new`: the exact value num/den,
/// canonicalized. A zero denominator would abort inside the crate, so it
/// is excluded here.
#[verifier::external_body]
pub(crate) fn rat_from_parts(num: u64, den: u64) -> (r: num_rational::BigRational)
    requires
        den > 0,
    ensures
        rat_num(r) * den == num * rat_den(r),
        rat_den(r) > 0,
{
    num_rational::BigRational::new(num.into(), den.into())
}

/// Relies on `num_rational::Ratio::from_integer`: the value zero, stored
/// as 0/1.
#[verifier::external_body]
pub(crate) fn rat_zero() -> (r: num_rational::BigRational)
    ensures
        rat_num(r) == 0,
        rat_den(r) == 1,
{
    num_rational::BigRational::from_integer(0.into())
}

/// Relies on `Clone` for `num_rational::Ratio`: an identical copy.
#[verifier::external_body]
pub(crate) fn rat_clone(a: &num_rational::BigRational) -> (r: num_rational::BigRational)
    ensures
        rat_num(r) == rat_num(*a),
        rat_den(r) == rat_den(*a),
{
    a.clone()
}

/// Relies on `num_rational::Ratio`'s addition: the exact sum,
/// canonicalized. The crate's arithmetic reduces through `Ratio::new`,
/// which aborts on a zero denominator, so only well-formed operands (a
/// positive denominator, as every value this library builds has) are
/// admitted.
#[verifier::external_body]
pub(crate) fn rat_add(a: &num_rational::BigRational, b: &num_rational::BigRational) -> (r:
    num_rational::BigRational)
    requires
        rat_den(*a) > 0,
        rat_den(*b) > 0,
    ensures
        frac_eq(rat_value(r), frac_add(rat_value(*a), rat_value(*b))),
        rat_den(r) > 0,
{
    a + b
}

/// Relies on `num_rational::Ratio`'s subtraction: the exact difference,
/// over well-formed operands as in `rat_add`.
#[verifier::external_body]
pub(crate) fn rat_sub(a: &num_rational::BigRational, b: &num_rational::BigRational) -> (r:
    num_rational::BigRational)
    requires
        rat_den(*a) > 0,
        rat_den(*b) > 0,
    ensures
        frac_eq(rat_value(r), frac_sub(rat_value(*a), rat_value(*b))),
        rat_den(r) > 0,
{
    a - b
}

/// Relies on `num_rational::Ratio`'s multiplication: the exact product,
/// over well-formed operands as in `rat_add`.
#[verifier::external_body]
pub(crate) fn rat_mul(a: &num_rational::BigRational, b: &num_rational::BigRational) -> (r:
    num_rational::BigRational)
    requires
        rat_den(*a) > 0,
        rat_den(*b) > 0,
    ensures
        frac_eq(rat_value(r), frac_mul(rat_value(*a), rat_value(*b))),
        rat_den(r) > 0,
{
    a * b
}

/// Relies on `num_rational::Ratio`'s division: the exact quotient, over
/// well-formed operands as in `rat_add`. Division by zero would abort
/// inside the crate, so it is excluded here.
#[verifier::external_body]
pub(crate) fn rat_div(a: &num_rational::BigRational, b: &num_rational::BigRational) -> (r:
    num_rational::BigRational)
    requires
        rat_den(*a) > 0,
        rat_den(*b) > 0,
        rat_num(*b) != 0,
    ensures
        frac_eq(rat_value(r), frac_div(rat_value(*a), rat_value(*b))),
        rat_den(r) > 0,
{
    a / b
}

/// Relies on `num_rational::Ratio::recip`: the exact reciprocal. The
/// reciprocal of zero would abort inside the crate, so it is excluded here.
#[verifier::external_body]
pub(crate) fn rat_recip(a: &num_rational::BigRational) -> (r: num_rational::BigRational)
    requires
        rat_num(*a) != 0,
    ensures
        frac_eq(rat_value(r), frac_recip(rat_value(*a))),
        rat_den(r) > 0,
{
    a.recip()
}

/// Relies on `num_rational::Ratio::pow`: the exact `e`-th power, over a
/// well-formed base as in `rat_add`. The exponent is bounded so that it
/// stays representable for the call.
#[verifier::external_body]
pub(crate) fn rat_pow(a: &num_rational::BigRational, e: u32) -> (r: num_rational::BigRational)
    requires
        rat_den(*a) > 0,
        e < 0x8000_0000,
    ensures
        frac_eq(rat_value(r), frac_pow(rat_value(*a), e as nat)),
        rat_den(r) > 0,
{
    a.pow(e as i32)
}

/// Relies on `Ord` for `num_rational::Ratio`, which orders by numeric
/// value; over positive denominators the cross-multiplied comparison
/// below is that numeric order, so only such operands are admitted.
#[verifier::external_body]
pub(crate) fn rat_lt(a: &num_rational::BigRational, b: &num_rational::BigRational) -> (r: bool)
    requires
        rat_den(*a) > 0,
        rat_den(*b) > 0,
    ensures
        r == frac_lt(rat_value(*a), rat_value(*b)),
{
    a < b
}

/// Relies on `Ord` for `num_rational::Ratio`, as `rat_lt`.
#[verifier::external_body]
pub(crate) fn rat_le(a: &num_rational::BigRational, b: &num_rational::BigRational) -> (r: bool)
    requires
        rat_den(*a) > 0,
        rat_den(*b) > 0,
    ensures
        r == frac_le(rat_value(*a), rat_value(*b)),
{
    a <= b
}

/// Relies on `PartialEq` for `num_rational::Ratio`: numeric equality,
/// which over positive denominators is the cross-multiplied value
/// equality below, so only such operands are admitted.
#[verifier::external_body]
pub(crate) fn rat_eq_exact(a: &num_rational::BigRational, b: &num_rational::BigRational) -> (r:
    bool)
    requires
        rat_den(*a) > 0,
        rat_den(*b) > 0,
    ensures
        r == frac_eq(rat_value(*a), rat_value(*b)),
{
    a == b
}

/// Relies on `Vec::sort_unstable` with `Ord` for `num_rational::Ratio`,
/// which orders by numeric value: the same values, in ascending order.
#[verifier::external_body]
pub(crate) fn rat_sort(v: &mut Vec<num_rational::BigRational>)
    requires
        forall|i: int| 0 <= i < old(v)@.len() ==> rat_den(#[trigger] old(v)@[i]) > 0,
    ensures
        final(v)@.len() == old(v)@.len(),
        final(v)@.to_multiset() == old(v)@.to_multiset(),
        forall|i: int, j: int|
            0 <= i < j < final(v)@.len() ==> frac_le(
                rat_value(#[trigger] final(v)@[i]),
                rat_value(#[trigger] final(v)@[j]),
            ),
        forall|i: int| 0 <= i < final(v)@.len() ==> rat_den(#[trigger] final(v)@[i]) > 0,
        (forall|i: int| 0 <= i < old(v)@.len() ==> rat_num(#[trigger] old(v)@[i]) > 0) ==> (forall|
            i: int,
        | 0 <= i < final(v)@.len() ==> rat_num(#[trigger] final(v)@[i]) > 0),
{
    v.sort_unstable()
}

} // verus!
