use vstd::prelude::*;

verus! {

/// A rational number modelled at the specification level as a fraction of
/// unbounded integers. A `Frac` need not be in lowest terms; two fractions
/// denote the same value when they agree under cross-multiplication.
pub ghost struct Frac {
    pub num: int,
    pub den: int,
}

pub open spec fn frac_new(num: int, den: int) -> Frac {
    Frac { num, den }
}

pub open spec fn frac_zero() -> Frac {
    Frac { num: 0, den: 1 }
}

pub open spec fn frac_one() -> Frac {
    Frac { num: 1, den: 1 }
}

/// A strictly positive value in well-formed representation.
pub open spec fn frac_pos(a: Frac) -> bool {
    a.num > 0 && a.den > 0
}

/// Value equality by cross-multiplication.
pub open spec fn frac_eq(a: Frac, b: Frac) -> bool {
    a.num * b.den == b.num * a.den
}

/// Value order by cross-multiplication; meaningful when both denominators
/// are positive.
pub open spec fn frac_lt(a: Frac, b: Frac) -> bool {
    a.num * b.den < b.num * a.den
}

pub open spec fn frac_le(a: Frac, b: Frac) -> bool {
    a.num * b.den <= b.num * a.den
}

pub open spec fn frac_add(a: Frac, b: Frac) -> Frac {
    Frac { num: a.num * b.den + b.num * a.den, den: a.den * b.den }
}

pub open spec fn frac_sub(a: Frac, b: Frac) -> Frac {
    Frac { num: a.num * b.den - b.num * a.den, den: a.den * b.den }
}

pub open spec fn frac_mul(a: Frac, b: Frac) -> Frac {
    Frac { num: a.num * b.num, den: a.den * b.den }
}

pub open spec fn frac_recip(a: Frac) -> Frac {
    Frac { num: a.den, den: a.num }
}

pub open spec fn frac_div(a: Frac, b: Frac) -> Frac {
    frac_mul(a, frac_recip(b))
}

pub open spec fn frac_pow(a: Frac, e: nat) -> Frac
    decreases e,
{
    if e == 0 {
        frac_one()
    } else {
        frac_mul(a, frac_pow(a, (e - 1) as nat))
    }
}

/// Value equality is transitive as long as the middle denominator is nonzero.
pub proof fn lemma_eq_trans(a: Frac, b: Frac, c: Frac)
    by (nonlinear_arith)
    requires
        frac_eq(a, b),
        frac_eq(b, c),
        b.den != 0,
    ensures
        frac_eq(a, c),
{
}

/// A fraction value-equal to a positive one is itself positive, given a
/// positive denominator.
pub proof fn lemma_eq_pos(a: Frac, b: Frac)
    by (nonlinear_arith)
    requires
        frac_eq(a, b),
        frac_pos(b),
        a.den > 0,
    ensures
        frac_pos(a),
{
}

pub proof fn lemma_pos_mul(a: Frac, b: Frac)
    by (nonlinear_arith)
    requires
        frac_pos(a),
        frac_pos(b),
    ensures
        frac_pos(frac_mul(a, b)),
{
}

pub proof fn lemma_pos_div(a: Frac, b: Frac)
    by (nonlinear_arith)
    requires
        frac_pos(a),
        frac_pos(b),
    ensures
        frac_pos(frac_div(a, b)),
{
}

/// Adding a positive value to a nonnegative one gives a positive value.
pub proof fn lemma_nonneg_add_pos(a: Frac, b: Frac)
    by (nonlinear_arith)
    requires
        a.num >= 0,
        a.den > 0,
        frac_pos(b),
    ensures
        frac_pos(frac_add(a, b)),
{
}

pub proof fn lemma_pos_pow(a: Frac, e: nat)
    requires
        frac_pos(a),
    ensures
        frac_pos(frac_pow(a, e)),
    decreases e,
{
    if e > 0 {
        lemma_pos_pow(a, (e - 1) as nat);
        lemma_pos_mul(a, frac_pow(a, (e - 1) as nat));
    }
}

/// A value equal to a product of positives is positive.
pub proof fn lemma_eq_pos_mul(r: Frac, a: Frac, b: Frac)
    requires
        frac_eq(r, frac_mul(a, b)),
        frac_pos(a),
        frac_pos(b),
        r.den > 0,
    ensures
        frac_pos(r),
{
    lemma_pos_mul(a, b);
    lemma_eq_pos(r, frac_mul(a, b));
}

/// A value equal to a nonnegative value plus a positive one is positive.
pub proof fn lemma_eq_pos_add(r: Frac, a: Frac, b: Frac)
    requires
        frac_eq(r, frac_add(a, b)),
        a.num >= 0,
        a.den > 0,
        frac_pos(b),
        r.den > 0,
    ensures
        frac_pos(r),
{
    lemma_nonneg_add_pos(a, b);
    lemma_eq_pos(r, frac_add(a, b));
}

/// Multiplication respects value equality.
pub proof fn lemma_mul_congruence(a: Frac, a2: Frac, b: Frac, b2: Frac)
    requires
        frac_eq(a, a2),
        frac_eq(b, b2),
    ensures
        frac_eq(frac_mul(a, b), frac_mul(a2, b2)),
{
    assert((a.num * b.num) * (a2.den * b2.den) == (a.num * a2.den) * (b.num * b2.den))
        by (nonlinear_arith);
    assert((a2.num * a.den) * (b2.num * b.den) == (a2.num * b2.num) * (a.den * b.den))
        by (nonlinear_arith);
}

/// A value equal to a product whose second factor is the value one equals
/// the first factor.
pub proof fn lemma_eq_mul_one(r: Frac, a: Frac, b: Frac)
    requires
        frac_eq(r, frac_mul(a, b)),
        frac_eq(b, frac_one()),
        a.den != 0,
        b.den != 0,
    ensures
        frac_eq(r, a),
{
    lemma_mul_congruence(a, a, b, frac_one());
    assert(frac_eq(frac_mul(a, frac_one()), a));
    assert(frac_mul(a, b).den != 0) by (nonlinear_arith)
        requires
            a.den != 0,
            b.den != 0,
            frac_mul(a, b).den == a.den * b.den,
    ;
    assert(frac_mul(a, frac_one()).den != 0);
    lemma_eq_trans(r, frac_mul(a, b), frac_mul(a, frac_one()));
    lemma_eq_trans(r, frac_mul(a, frac_one()), a);
}

/// Powers respect value equality.
pub proof fn lemma_pow_congruence(a: Frac, b: Frac, e: nat)
    requires
        frac_eq(a, b),
    ensures
        frac_eq(frac_pow(a, e), frac_pow(b, e)),
    decreases e,
{
    if e > 0 {
        lemma_pow_congruence(a, b, (e - 1) as nat);
        lemma_mul_congruence(a, b, frac_pow(a, (e - 1) as nat), frac_pow(b, (e - 1) as nat));
    }
}

/// Powers keep a nonzero denominator.
pub proof fn lemma_pow_den_nonzero(a: Frac, e: nat)
    requires
        a.den != 0,
    ensures
        frac_pow(a, e).den != 0,
    decreases e,
{
    if e > 0 {
        lemma_pow_den_nonzero(a, (e - 1) as nat);
        assert(a.den * frac_pow(a, (e - 1) as nat).den != 0) by (nonlinear_arith)
            requires
                a.den != 0,
                frac_pow(a, (e - 1) as nat).den != 0,
        ;
    }
}

/// Powers of one base multiply by adding exponents.
pub proof fn lemma_pow_add(a: Frac, e1: nat, e2: nat)
    requires
        a.den != 0,
    ensures
        frac_eq(frac_mul(frac_pow(a, e1), frac_pow(a, e2)), frac_pow(a, (e1 + e2) as nat)),
    decreases e1,
{
    lemma_pow_den_nonzero(a, e2);
    if e1 == 0 {
        assert(frac_eq(frac_mul(frac_one(), frac_pow(a, e2)), frac_pow(a, e2)));
    } else {
        lemma_pow_add(a, (e1 - 1) as nat, e2);
        lemma_pow_den_nonzero(a, (e1 - 1) as nat);
        lemma_pow_den_nonzero(a, (e1 - 1 + e2) as nat);
        let p1 = frac_pow(a, (e1 - 1) as nat);
        let p2 = frac_pow(a, e2);
        let prest = frac_pow(a, (e1 - 1 + e2) as nat);
        assert(frac_eq(frac_mul(frac_mul(a, p1), p2), frac_mul(a, frac_mul(p1, p2))))
            by (nonlinear_arith);
        lemma_mul_congruence(a, a, frac_mul(p1, p2), prest);
        assert(frac_mul(a, frac_mul(p1, p2)).den != 0) by (nonlinear_arith)
            requires
                a.den != 0,
                p1.den != 0,
                p2.den != 0,
                frac_mul(a, frac_mul(p1, p2)).den == a.den * (p1.den * p2.den),
        ;
        lemma_eq_trans(
            frac_mul(frac_mul(a, p1), p2),
            frac_mul(a, frac_mul(p1, p2)),
            frac_mul(a, prest),
        );
        assert(frac_mul(a, prest) == frac_pow(a, (e1 + e2) as nat));
        assert(frac_mul(a, prest).den != 0) by (nonlinear_arith)
            requires
                a.den != 0,
                prest.den != 0,
                frac_mul(a, prest).den == a.den * prest.den,
        ;
    }
}

/// The power of one half is one over the matching power of two.
pub proof fn lemma_half_pow(e: nat)
    ensures
        frac_pow(frac_new(1, 2), e).num == 1,
        frac_pow(frac_new(1, 2), e).den == vstd::arithmetic::power2::pow2(e),
    decreases e,
{
    vstd::arithmetic::power2::lemma_pow2_pos(e);
    if e > 0 {
        lemma_half_pow((e - 1) as nat);
        vstd::arithmetic::power2::lemma_pow2_unfold(e);
    } else {
        vstd::arithmetic::power2::lemma2_to64();
    }
}

/// A running sum of a repeated value advances by one multiple per step.
pub proof fn lemma_acc_step(t2: Frac, t: Frac, c: Frac, p: Frac, k: int)
    requires
        frac_eq(t2, frac_add(t, c)),
        frac_eq(t, frac_mul(frac_new(k, 1), p)),
        frac_eq(c, p),
        t.den > 0,
        c.den > 0,
        p.den > 0,
    ensures
        frac_eq(t2, frac_mul(frac_new(k + 1, 1), p)),
{
    lemma_add_congruence(t, frac_mul(frac_new(k, 1), p), c, p);
    assert(frac_eq(frac_add(frac_mul(frac_new(k, 1), p), p), frac_mul(frac_new(k + 1, 1), p)))
        by (nonlinear_arith);
    assert(frac_add(t, c).den != 0) by (nonlinear_arith)
        requires
            t.den > 0,
            c.den > 0,
            frac_add(t, c).den == t.den * c.den,
    ;
    assert(frac_add(frac_mul(frac_new(k, 1), p), p).den != 0) by (nonlinear_arith)
        requires
            p.den > 0,
            frac_add(frac_mul(frac_new(k, 1), p), p).den == (1 * p.den) * p.den,
    ;
    lemma_eq_trans(t2, frac_add(t, c), frac_add(frac_mul(frac_new(k, 1), p), p));
    lemma_eq_trans(
        t2,
        frac_add(frac_mul(frac_new(k, 1), p), p),
        frac_mul(frac_new(k + 1, 1), p),
    );
}

/// Addition respects value equality.
pub proof fn lemma_add_congruence(a: Frac, a2: Frac, b: Frac, b2: Frac)
    requires
        frac_eq(a, a2),
        frac_eq(b, b2),
    ensures
        frac_eq(frac_add(a, b), frac_add(a2, b2)),
{
    assert((a.num * b.den + b.num * a.den) * (a2.den * b2.den) == (a.num * b.den) * (a2.den
        * b2.den) + (b.num * a.den) * (a2.den * b2.den)) by (nonlinear_arith);
    assert((a.num * b.den) * (a2.den * b2.den) == (a.num * a2.den) * (b.den * b2.den))
        by (nonlinear_arith);
    assert((a2.num * a.den) * (b.den * b2.den) == (a2.num * b2.den) * (a.den * b.den))
        by (nonlinear_arith);
    assert((b.num * a.den) * (a2.den * b2.den) == (b.num * b2.den) * (a.den * a2.den))
        by (nonlinear_arith);
    assert((b2.num * b.den) * (a.den * a2.den) == (b2.num * a2.den) * (a.den * b.den))
        by (nonlinear_arith);
    assert((a2.num * b2.den + b2.num * a2.den) * (a.den * b.den) == (a2.num * b2.den) * (a.den
        * b.den) + (b2.num * a2.den) * (a.den * b.den)) by (nonlinear_arith);
}

/// Subtraction respects value equality.
pub proof fn lemma_sub_congruence(a: Frac, a2: Frac, b: Frac, b2: Frac)
    requires
        frac_eq(a, a2),
        frac_eq(b, b2),
    ensures
        frac_eq(frac_sub(a, b), frac_sub(a2, b2)),
{
    assert((a.num * b.den - b.num * a.den) * (a2.den * b2.den) == (a.num * b.den) * (a2.den
        * b2.den) - (b.num * a.den) * (a2.den * b2.den)) by (nonlinear_arith);
    assert((a.num * b.den) * (a2.den * b2.den) == (a.num * a2.den) * (b.den * b2.den))
        by (nonlinear_arith);
    assert((a2.num * a.den) * (b.den * b2.den) == (a2.num * b2.den) * (a.den * b.den))
        by (nonlinear_arith);
    assert((b.num * a.den) * (a2.den * b2.den) == (b.num * b2.den) * (a.den * a2.den))
        by (nonlinear_arith);
    assert((b2.num * b.den) * (a.den * a2.den) == (b2.num * a2.den) * (a.den * b.den))
        by (nonlinear_arith);
    assert((a2.num * b2.den - b2.num * a2.den) * (a.den * b.den) == (a2.num * b2.den) * (a.den
        * b.den) - (b2.num * a2.den) * (a.den * b.den)) by (nonlinear_arith);
}

/// Division respects value equality.
pub proof fn lemma_div_congruence(a: Frac, a2: Frac, b: Frac, b2: Frac)
    requires
        frac_eq(a, a2),
        frac_eq(b, b2),
    ensures
        frac_eq(frac_div(a, b), frac_div(a2, b2)),
{
    assert((a.num * b.den) * (a2.den * b2.num) == (a.num * a2.den) * (b2.num * b.den))
        by (nonlinear_arith);
    assert((a2.num * a.den) * (b.num * b2.den) == (a2.num * b2.den) * (a.den * b.num))
        by (nonlinear_arith);
}

/// Order is transitive over positive denominators.
pub proof fn lemma_le_trans(a: Frac, b: Frac, c: Frac)
    requires
        frac_le(a, b),
        frac_le(b, c),
        a.den > 0,
        b.den > 0,
        c.den > 0,
    ensures
        frac_le(a, c),
{
    assert((a.num * c.den) * b.den <= (c.num * a.den) * b.den) by (nonlinear_arith)
        requires
            a.num * b.den <= b.num * a.den,
            b.num * c.den <= c.num * b.den,
            a.den > 0,
            b.den > 0,
            c.den > 0,
    ;
    assert(((a.num * c.den) * b.den <= (c.num * a.den) * b.den && b.den > 0) ==> a.num * c.den
        <= c.num * a.den) by (nonlinear_arith);
}

/// Strict order absorbs a non-strict step on the right.
pub proof fn lemma_lt_le_trans(a: Frac, b: Frac, c: Frac)
    requires
        frac_lt(a, b),
        frac_le(b, c),
        a.den > 0,
        b.den > 0,
        c.den > 0,
    ensures
        frac_lt(a, c),
{
    assert((a.num * c.den) * b.den < (c.num * a.den) * b.den) by (nonlinear_arith)
        requires
            a.num * b.den < b.num * a.den,
            b.num * c.den <= c.num * b.den,
            a.den > 0,
            b.den > 0,
            c.den > 0,
    ;
    assert(((a.num * c.den) * b.den < (c.num * a.den) * b.den && b.den > 0) ==> a.num * c.den
        < c.num * a.den) by (nonlinear_arith);
}

/// Strict order absorbs a non-strict step on the left.
pub proof fn lemma_le_lt_trans(a: Frac, b: Frac, c: Frac)
    requires
        frac_le(a, b),
        frac_lt(b, c),
        a.den > 0,
        b.den > 0,
        c.den > 0,
    ensures
        frac_lt(a, c),
{
    assert((a.num * c.den) * b.den < (c.num * a.den) * b.den) by (nonlinear_arith)
        requires
            a.num * b.den <= b.num * a.den,
            b.num * c.den < c.num * b.den,
            a.den > 0,
            b.den > 0,
            c.den > 0,
    ;
    assert(((a.num * c.den) * b.den < (c.num * a.den) * b.den && b.den > 0) ==> a.num * c.den
        < c.num * a.den) by (nonlinear_arith);
}

/// A value strictly between 0 and 1 keeps that property across value-equal
/// representations with positive denominators.
pub proof fn lemma_unit_interval(a: Frac, n: int, d: int)
    by (nonlinear_arith)
    requires
        frac_eq(a, frac_new(n, d)),
        a.den > 0,
        0 < n < d,
    ensures
        0 < a.num < a.den,
{
}

} // verus!
