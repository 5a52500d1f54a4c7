use vstd::prelude::*;
use crate::frac::Frac;
use crate::frac::frac_eq;
use crate::frac::frac_mul;
use crate::frac::frac_add;
use crate::frac::frac_div;
use crate::frac::frac_new;
use crate::frac::frac_zero;
use crate::frac::frac_one;
use crate::frac::frac_pos;
use crate::frac::frac_pow;
use crate::frac::frac_sub;
use crate::frac::lemma_acc_step;
use crate::frac::lemma_eq_mul_one;
use crate::frac::lemma_eq_pos;
use crate::frac::lemma_eq_trans;
use crate::frac::lemma_eq_pos_add;
use crate::frac::lemma_eq_pos_mul;
use crate::frac::lemma_mul_congruence;
use crate::frac::lemma_half_pow;
use crate::frac::lemma_pos_pow;
use crate::frac::lemma_pow_add;
use crate::frac::lemma_pow_congruence;
use crate::frac::lemma_pow_den_nonzero;
use crate::frac::lemma_sub_congruence;
use crate::exact::rat_add;
use crate::exact::rat_den;
use crate::exact::rat_from_parts;
use crate::exact::rat_mul;
use crate::exact::rat_num;
use crate::exact::rat_pow;
use crate::exact::rat_sub;
use crate::exact::rat_value;
use crate::exact::rat_zero;
use crate::params::ParameterSet;
use crate::params::RatioTable;
use crate::params::lemma_half_ratio_one;
use crate::params::lemma_sub_one;

verus! {

/// The reflected binary Gray code of an index.
pub open spec fn gray_u64(x: u64) -> u64 {
    x ^ (x >> 1u64)
}

/// The inverse Gray code: a prefix XOR over all bit positions, folded into
/// six doubling steps.
pub open spec fn gray_inverse(w: u64) -> u64 {
    let a = w ^ (w >> 1u64);
    let b = a ^ (a >> 2u64);
    let c = b ^ (b >> 4u64);
    let d = c ^ (c >> 8u64);
    let e = d ^ (d >> 16u64);
    e ^ (e >> 32u64)
}

/// Whether bit `j` of `x` is set.
pub open spec fn bit_is(x: u64, j: nat) -> bool {
    x & (1u64 << (j as u64)) != 0
}

/// The number of set bits of `x` below position `j`.
pub open spec fn pop_below(x: u64, j: nat) -> nat
    decreases j,
{
    if j == 0 {
        0
    } else {
        pop_below(x, (j - 1) as nat) + (if bit_is(x, (j - 1) as nat) {
            1nat
        } else {
            0nat
        })
    }
}

/// The per-cell observation factor of the line model: `m` when cell `j`'s
/// hidden value agrees with the observed bit, `1 - m` otherwise.
pub open spec fn match_factor(m: Frac, h: u64, w: u64, j: nat) -> Frac {
    if bit_is(h, j) == bit_is(w, j) {
        m
    } else {
        frac_sub(frac_one(), m)
    }
}

/// The product of the observation factors of cells `0 .. j`.
pub open spec fn match_weight(m: Frac, h: u64, w: u64, j: nat) -> Frac
    decreases j,
{
    if j == 0 {
        frac_one()
    } else {
        frac_mul(match_weight(m, h, w, (j - 1) as nat), match_factor(m, h, w, (j - 1) as nat))
    }
}

/// The neighbor-correlation factor at position `j >= 1`: `s` when cells
/// `j` and `j - 1` agree, `1 - s` otherwise.
pub open spec fn chain_factor(s: Frac, h: u64, j: nat) -> Frac {
    if bit_is(h, j) == bit_is(h, (j - 1) as nat) {
        s
    } else {
        frac_sub(frac_one(), s)
    }
}

/// The product of the neighbor factors at positions `1 .. j` (inclusive).
pub open spec fn chain_weight(s: Frac, h: u64, j: nat) -> Frac
    decreases j,
{
    if j == 0 {
        frac_one()
    } else {
        frac_mul(chain_weight(s, h, (j - 1) as nat), chain_factor(s, h, j))
    }
}

/// The joint probability of hidden state `h` and output word `w` under
/// the line model: the uniform prior on cell 0, the `n - 1` neighbor
/// factors, and the `n` observation factors.
pub open spec fn joint_weight(s: Frac, m: Frac, n: nat, h: u64, w: u64) -> Frac {
    frac_mul(
        frac_mul(frac_new(1, 2), chain_weight(s, h, (n - 1) as nat)),
        match_weight(m, h, w, n),
    )
}

/// The hidden state the Gray walk holds after `k` of its `2^n` flips:
/// the Gray code of `k`, with the final clamped flip returning to zero.
pub open spec fn walk_state(n: nat, k: nat) -> u64 {
    if k == vstd::arithmetic::power2::pow2(n) {
        0u64
    } else {
        gray_u64(k as u64)
    }
}

/// The joint weight of output word `w` summed over the first `count`
/// hidden states the Gray walk visits.
pub open spec fn walk_sum(s: Frac, m: Frac, n: nat, w: u64, count: nat) -> Frac
    decreases count,
{
    if count == 0 {
        frac_zero()
    } else {
        frac_add(
            walk_sum(s, m, n, w, (count - 1) as nat),
            joint_weight(s, m, n, walk_state(n, count), w),
        )
    }
}

/// The exact marginal probability of output word `w`: the joint weight
/// summed over all `2^n` hidden states. The Gray walk visits every state
/// exactly once (`lemma_full_walk_words`), so this enumeration covers the
/// whole hidden space.
pub open spec fn marginal(s: Frac, m: Frac, n: nat, w: u64) -> Frac {
    walk_sum(s, m, n, w, vstd::arithmetic::power2::pow2(n))
}


/// Rearranging a four-way product by exchanging the middle groups.
proof fn lemma_prod_swap(x1: int, x2: int, x3: int, x4: int)
    by (nonlinear_arith)
    ensures
        (x1 * x2) * (x3 * x4) == (x1 * x3) * (x2 * x4),
{
}

/// Swapping which of two factors is folded in first does not change the
/// value.
proof fn lemma_swap_factor(p: Frac, f: Frac, g: Frac)
    ensures
        frac_eq(frac_mul(frac_mul(p, g), f), frac_mul(frac_mul(p, f), g)),
{
    assert(((p.num * g.num) * f.num) * ((p.den * f.den) * g.den) == ((p.num * f.num) * g.num) * ((
    p.den * g.den) * f.den)) by (nonlinear_arith);
}

/// Appending one equal factor to both sides preserves a cross relation.
proof fn lemma_mul_both(a: Frac, b: Frac, u: Frac, v: Frac, f: Frac)
    requires
        frac_eq(frac_mul(a, u), frac_mul(b, v)),
    ensures
        frac_eq(frac_mul(frac_mul(a, f), u), frac_mul(frac_mul(b, f), v)),
{
    assert((((a.num * f.num) * u.num) * ((b.den * f.den) * v.den)) == (((a.num * u.num) * (b.den
        * v.den))) * (f.num * f.den)) by (nonlinear_arith);
    assert((((b.num * f.num) * v.num) * ((a.den * f.den) * u.den)) == (((b.num * v.num) * (a.den
        * u.den))) * (f.num * f.den)) by (nonlinear_arith);
}

/// Extending a one-factor cross relation with a second swapped pair.
proof fn lemma_two_swap(a: Frac, b: Frac, u: Frac, v: Frac, p: Frac, q: Frac)
    requires
        frac_eq(frac_mul(a, u), frac_mul(b, v)),
    ensures
        frac_eq(
            frac_mul(frac_mul(a, q), frac_mul(u, p)),
            frac_mul(frac_mul(b, p), frac_mul(v, q)),
        ),
{
    assert((a.num * q.num) * (u.num * p.num) == (a.num * u.num) * (q.num * p.num))
        by (nonlinear_arith);
    assert((b.den * p.den) * (v.den * q.den) == (b.den * v.den) * (q.den * p.den))
        by (nonlinear_arith);
    lemma_prod_swap(a.num * u.num, q.num * p.num, b.den * v.den, q.den * p.den);
    assert((b.num * p.num) * (v.num * q.num) == (b.num * v.num) * (q.num * p.num))
        by (nonlinear_arith);
    assert((a.den * q.den) * (u.den * p.den) == (a.den * u.den) * (q.den * p.den))
        by (nonlinear_arith);
    lemma_prod_swap(b.num * v.num, q.num * p.num, a.den * u.den, q.den * p.den);
}

/// One more factor folds into a product characterization.
proof fn lemma_mul_acc(c: Frac, cur: Frac, base: Frac, acc: Frac, f: Frac)
    requires
        frac_eq(c, frac_mul(cur, f)),
        frac_eq(cur, frac_mul(base, acc)),
        cur.den > 0,
        f.den > 0,
        base.den != 0,
        acc.den != 0,
    ensures
        frac_eq(c, frac_mul(base, frac_mul(acc, f))),
{
    lemma_mul_congruence(cur, frac_mul(base, acc), f, f);
    assert(frac_eq(frac_mul(frac_mul(base, acc), f), frac_mul(base, frac_mul(acc, f))))
        by (nonlinear_arith);
    assert(frac_mul(cur, f).den != 0) by (nonlinear_arith)
        requires
            cur.den > 0,
            f.den > 0,
            frac_mul(cur, f).den == cur.den * f.den,
    ;
    assert(frac_mul(frac_mul(base, acc), f).den != 0) by (nonlinear_arith)
        requires
            base.den != 0,
            acc.den != 0,
            f.den > 0,
            frac_mul(frac_mul(base, acc), f).den == (base.den * acc.den) * f.den,
    ;
    lemma_eq_trans(c, frac_mul(cur, f), frac_mul(frac_mul(base, acc), f));
    lemma_eq_trans(c, frac_mul(frac_mul(base, acc), f), frac_mul(base, frac_mul(acc, f)));
}

/// The product of two quotients is the quotient of the products.
proof fn lemma_div_mul(x: Frac, y: Frac, a1: Frac, b1: Frac, a2: Frac, b2: Frac)
    requires
        frac_eq(x, frac_div(a1, b1)),
        frac_eq(y, frac_div(a2, b2)),
    ensures
        frac_eq(frac_mul(x, y), frac_div(frac_mul(a1, a2), frac_mul(b1, b2))),
{
    assert(((x.num * y.num) * ((a1.den * a2.den) * (b1.num * b2.num))) == ((x.num * (a1.den
        * b1.num)) * (y.num * (a2.den * b2.num)))) by (nonlinear_arith);
    assert((((a1.num * a2.num) * (b1.den * b2.den)) * (x.den * y.den)) == (((a1.num * b1.den)
        * x.den) * ((a2.num * b2.den) * y.den))) by (nonlinear_arith);
}

/// Two cross relations combine into one over the joint weight's shape.
proof fn lemma_joint_reweight(cp: Frac, c: Frac, oc: Frac, nc: Frac, mp: Frac, mm: Frac, om: Frac, nm: Frac)
    requires
        frac_eq(frac_mul(cp, oc), frac_mul(c, nc)),
        frac_eq(frac_mul(mp, om), frac_mul(mm, nm)),
    ensures
        frac_eq(
            frac_mul(frac_mul(frac_mul(frac_new(1, 2), cp), mp), frac_mul(oc, om)),
            frac_mul(frac_mul(frac_mul(frac_new(1, 2), c), mm), frac_mul(nc, nm)),
        ),
{
    let gl = (((1 * cp.num) * mp.num) * (oc.num * om.num)) * (((2 * c.den) * mm.den) * (nc.den
        * nm.den));
    let gr = (((1 * c.num) * mm.num) * (nc.num * nm.num)) * (((2 * cp.den) * mp.den) * (oc.den
        * om.den));
    let el = ((cp.num * oc.num) * (c.den * nc.den)) * ((mp.num * om.num) * (mm.den * nm.den));
    let er = ((c.num * nc.num) * (cp.den * oc.den)) * ((mm.num * nm.num) * (mp.den * om.den));
    assert((cp.num * mp.num) * (oc.num * om.num) == (cp.num * oc.num) * (mp.num * om.num))
        by (nonlinear_arith);
    assert((c.den * mm.den) * (nc.den * nm.den) == (c.den * nc.den) * (mm.den * nm.den))
        by (nonlinear_arith);
    lemma_prod_swap(cp.num * oc.num, mp.num * om.num, c.den * nc.den, mm.den * nm.den);
    assert(((1 * cp.num) * mp.num) * (oc.num * om.num) == (cp.num * mp.num) * (oc.num * om.num));
    assert(((2 * c.den) * mm.den) * (nc.den * nm.den) == 2 * ((c.den * mm.den) * (nc.den
        * nm.den))) by (nonlinear_arith);
    assert(((cp.num * mp.num) * (oc.num * om.num)) * (2 * ((c.den * mm.den) * (nc.den * nm.den)))
        == 2 * (((cp.num * mp.num) * (oc.num * om.num)) * ((c.den * mm.den) * (nc.den
        * nm.den)))) by (nonlinear_arith);
    assert(gl == 2 * el);
    assert((c.num * mm.num) * (nc.num * nm.num) == (c.num * nc.num) * (mm.num * nm.num))
        by (nonlinear_arith);
    assert((cp.den * mp.den) * (oc.den * om.den) == (cp.den * oc.den) * (mp.den * om.den))
        by (nonlinear_arith);
    lemma_prod_swap(c.num * nc.num, mm.num * nm.num, cp.den * oc.den, mp.den * om.den);
    assert(((1 * c.num) * mm.num) * (nc.num * nm.num) == (c.num * mm.num) * (nc.num * nm.num));
    assert(((2 * cp.den) * mp.den) * (oc.den * om.den) == 2 * ((cp.den * mp.den) * (oc.den
        * om.den))) by (nonlinear_arith);
    assert(((c.num * mm.num) * (nc.num * nm.num)) * (2 * ((cp.den * mp.den) * (oc.den * om.den)))
        == 2 * (((c.num * mm.num) * (nc.num * nm.num)) * ((cp.den * mp.den) * (oc.den
        * om.den)))) by (nonlinear_arith);
    assert(gr == 2 * er);
    assert(el == er) by (nonlinear_arith)
        requires
            (cp.num * oc.num) * (c.den * nc.den) == (c.num * nc.num) * (cp.den * oc.den),
            (mp.num * om.num) * (mm.den * nm.den) == (mm.num * nm.num) * (mp.den * om.den),
            el == ((cp.num * oc.num) * (c.den * nc.den)) * ((mp.num * om.num) * (mm.den
                * nm.den)),
            er == ((c.num * nc.num) * (cp.den * oc.den)) * ((mm.num * nm.num) * (mp.den
                * om.den)),
    ;
}

/// A value reached by multiplying with the new-over-old factor quotient
/// equals the reweighted target.
proof fn lemma_apply_reweight(x: Frac, j: Frac, jp: Frac, acc: Frac, oldf: Frac, newf: Frac)
    requires
        frac_eq(x, frac_mul(j, acc)),
        frac_eq(acc, frac_div(newf, oldf)),
        frac_eq(frac_mul(jp, oldf), frac_mul(j, newf)),
        x.den > 0,
        j.den > 0,
        jp.den > 0,
        acc.den != 0,
        frac_pos(oldf),
        newf.den > 0,
    ensures
        frac_eq(x, jp),
{
    lemma_mul_congruence(j, j, acc, frac_div(newf, oldf));
    assert(frac_mul(j, acc).den != 0) by (nonlinear_arith)
        requires
            j.den > 0,
            acc.den != 0,
            frac_mul(j, acc).den == j.den * acc.den,
    ;
    lemma_eq_trans(x, frac_mul(j, acc), frac_mul(j, frac_div(newf, oldf)));
    assert((j.num * (newf.num * oldf.den)) * jp.den == (j.num * newf.num) * (jp.den * oldf.den))
        by (nonlinear_arith);
    assert(jp.num * (j.den * (newf.den * oldf.num)) == (jp.num * oldf.num) * (j.den * newf.den))
        by (nonlinear_arith);
    assert(frac_eq(frac_mul(j, frac_div(newf, oldf)), jp));
    assert(frac_mul(j, frac_div(newf, oldf)).den != 0) by (nonlinear_arith)
        requires
            j.den > 0,
            newf.den > 0,
            oldf.num > 0,
            frac_mul(j, frac_div(newf, oldf)).den == j.den * (newf.den * oldf.num),
    ;
    lemma_eq_trans(x, frac_mul(j, frac_div(newf, oldf)), jp);
}

/// Flipping one bit leaves every other bit unchanged and toggles its own.
proof fn lemma_flip_bit_is(h: u64, t: nat, j: nat)
    requires
        t < 64,
        j < 64,
    ensures
        j != t ==> bit_is(h ^ (1u64 << (t as u64)), j) == bit_is(h, j),
        j == t ==> bit_is(h ^ (1u64 << (t as u64)), j) == !bit_is(h, j),
{
    let tt = t as u64;
    let jj = j as u64;
    assert(jj != tt && tt <= 63 && jj <= 63 ==> ((h ^ (1u64 << tt)) & (1u64 << jj) != 0) == (h & (
    1u64 << jj) != 0)) by (bit_vector);
    assert(jj == tt && tt <= 63 ==> ((h ^ (1u64 << tt)) & (1u64 << jj) != 0) == !(h & (1u64 << jj)
        != 0)) by (bit_vector);
}

/// Flipping hidden bit `t` multiplies the observation product by the
/// changed cell's new factor in place of its old one.
proof fn lemma_match_flip(m: Frac, h: u64, t: nat, w: u64, j: nat)
    requires
        t < 64,
        j <= 64,
    ensures
        j <= t ==> match_weight(m, h ^ (1u64 << (t as u64)), w, j) == match_weight(m, h, w, j),
        j > t ==> frac_eq(
            frac_mul(
                match_weight(m, h ^ (1u64 << (t as u64)), w, j),
                match_factor(m, h, w, t),
            ),
            frac_mul(
                match_weight(m, h, w, j),
                match_factor(m, h ^ (1u64 << (t as u64)), w, t),
            ),
        ),
    decreases j,
{
    let hp = h ^ (1u64 << (t as u64));
    if j > 0 {
        lemma_match_flip(m, h, t, w, (j - 1) as nat);
        lemma_flip_bit_is(h, t, (j - 1) as nat);
        if j <= t {
            assert(match_factor(m, hp, w, (j - 1) as nat) == match_factor(m, h, w, (j - 1) as nat));
        } else if j == t + 1 {
            lemma_flip_bit_is(h, t, t);
            lemma_swap_factor(
                match_weight(m, h, w, t),
                match_factor(m, h, w, t),
                match_factor(m, hp, w, t),
            );
        } else {
            assert(match_factor(m, hp, w, (j - 1) as nat) == match_factor(m, h, w, (j - 1) as nat));
            lemma_mul_both(
                match_weight(m, hp, w, (j - 1) as nat),
                match_weight(m, h, w, (j - 1) as nat),
                match_factor(m, h, w, t),
                match_factor(m, hp, w, t),
                match_factor(m, h, w, (j - 1) as nat),
            );
        }
    }
}

/// The observation product only compares the two words bitwise, so it is
/// symmetric in them.
proof fn lemma_match_symm(m: Frac, a: u64, b: u64, j: nat)
    ensures
        match_weight(m, a, b, j) == match_weight(m, b, a, j),
    decreases j,
{
    if j > 0 {
        lemma_match_symm(m, a, b, (j - 1) as nat);
    }
}

/// Flipping hidden bit `t >= 1` exchanges the neighbor factor at position
/// `t`, and from position `t + 1` on also the one there.
proof fn lemma_chain_flip(s: Frac, h: u64, t: nat, j: nat)
    requires
        1 <= t < 64,
        j <= 63,
    ensures
        j < t ==> chain_weight(s, h ^ (1u64 << (t as u64)), j) == chain_weight(s, h, j),
        j == t ==> frac_eq(
            frac_mul(chain_weight(s, h ^ (1u64 << (t as u64)), j), chain_factor(s, h, t)),
            frac_mul(chain_weight(s, h, j), chain_factor(s, h ^ (1u64 << (t as u64)), t)),
        ),
        j > t ==> frac_eq(
            frac_mul(
                chain_weight(s, h ^ (1u64 << (t as u64)), j),
                frac_mul(chain_factor(s, h, t), chain_factor(s, h, t + 1)),
            ),
            frac_mul(
                chain_weight(s, h, j),
                frac_mul(
                    chain_factor(s, h ^ (1u64 << (t as u64)), t),
                    chain_factor(s, h ^ (1u64 << (t as u64)), t + 1),
                ),
            ),
        ),
    decreases j,
{
    let hp = h ^ (1u64 << (t as u64));
    if j > 0 {
        lemma_chain_flip(s, h, t, (j - 1) as nat);
        lemma_flip_bit_is(h, t, j);
        lemma_flip_bit_is(h, t, (j - 1) as nat);
        if j < t {
            assert(chain_factor(s, hp, j) == chain_factor(s, h, j));
        } else if j == t {
            assert(chain_weight(s, hp, (j - 1) as nat) == chain_weight(s, h, (j - 1) as nat));
            lemma_swap_factor(
                chain_weight(s, h, (t - 1) as nat),
                chain_factor(s, h, t),
                chain_factor(s, hp, t),
            );
        } else if j == t + 1 {
            lemma_two_swap(
                chain_weight(s, hp, t),
                chain_weight(s, h, t),
                chain_factor(s, h, t),
                chain_factor(s, hp, t),
                chain_factor(s, h, t + 1),
                chain_factor(s, hp, t + 1),
            );
        } else {
            assert(chain_factor(s, hp, j) == chain_factor(s, h, j));
            lemma_mul_both(
                chain_weight(s, hp, (j - 1) as nat),
                chain_weight(s, h, (j - 1) as nat),
                frac_mul(chain_factor(s, h, t), chain_factor(s, h, t + 1)),
                frac_mul(chain_factor(s, hp, t), chain_factor(s, hp, t + 1)),
                chain_factor(s, h, j),
            );
        }
    }
}

/// Flipping hidden bit 0 exchanges only the neighbor factor at position 1.
proof fn lemma_chain_flip_zero(s: Frac, h: u64, j: nat)
    requires
        j <= 63,
    ensures
        j == 0 ==> chain_weight(s, h ^ 1u64, j) == chain_weight(s, h, j),
        j >= 1 ==> frac_eq(
            frac_mul(chain_weight(s, h ^ 1u64, j), chain_factor(s, h, 1)),
            frac_mul(chain_weight(s, h, j), chain_factor(s, h ^ 1u64, 1)),
        ),
    decreases j,
{
    let hp = h ^ 1u64;
    assert(1u64 << 0u64 == 1u64) by (bit_vector);
    if j > 0 {
        lemma_chain_flip_zero(s, h, (j - 1) as nat);
        lemma_flip_bit_is(h, 0, j);
        lemma_flip_bit_is(h, 0, (j - 1) as nat);
        if j == 1 {
            lemma_flip_bit_is(h, 0, 0);
            lemma_swap_factor(chain_weight(s, h, 0), chain_factor(s, h, 1), chain_factor(s, hp, 1));
        } else {
            assert(chain_factor(s, hp, j) == chain_factor(s, h, j));
            lemma_mul_both(
                chain_weight(s, hp, (j - 1) as nat),
                chain_weight(s, h, (j - 1) as nat),
                chain_factor(s, h, 1),
                chain_factor(s, hp, 1),
                chain_factor(s, h, j),
            );
        }
    }
}


/// Both model weights are positive for rates strictly inside (0, 1).
proof fn lemma_weights_pos(s: Frac, m: Frac, h: u64, w: u64, j: nat)
    requires
        frac_pos(s),
        frac_pos(frac_sub(frac_one(), s)),
        frac_pos(m),
        frac_pos(frac_sub(frac_one(), m)),
    ensures
        frac_pos(chain_weight(s, h, j)),
        frac_pos(match_weight(m, h, w, j)),
    decreases j,
{
    if j > 0 {
        lemma_weights_pos(s, m, h, w, (j - 1) as nat);
        crate::frac::lemma_pos_mul(chain_weight(s, h, (j - 1) as nat), chain_factor(s, h, j));
        crate::frac::lemma_pos_mul(
            match_weight(m, h, w, (j - 1) as nat),
            match_factor(m, h, w, (j - 1) as nat),
        );
    }
}

/// For the all-zero hidden state every neighbor pair agrees, so the chain
/// weight is the plain power of the stay rate.
proof fn lemma_chain_zero(s: Frac, j: nat)
    requires
        j <= 63,
        frac_pos(s),
    ensures
        frac_eq(chain_weight(s, 0u64, j), frac_pow(s, j)),
    decreases j,
{
    if j > 0 {
        lemma_chain_zero(s, (j - 1) as nat);
        let jj = j as u64;
        let j1 = (j - 1) as u64;
        assert(0u64 & (1u64 << jj) == 0 && 0u64 & (1u64 << j1) == 0) by (bit_vector);
        lemma_pow_den_nonzero(s, (j - 1) as nat);
        lemma_mul_congruence(
            chain_weight(s, 0u64, (j - 1) as nat),
            frac_pow(s, (j - 1) as nat),
            s,
            s,
        );
        assert(frac_eq(frac_mul(frac_pow(s, (j - 1) as nat), s), frac_pow(s, j)))
            by (nonlinear_arith)
            requires
                frac_mul(frac_pow(s, (j - 1) as nat), s).num == frac_pow(s, (j - 1) as nat).num
                    * s.num,
                frac_mul(frac_pow(s, (j - 1) as nat), s).den == frac_pow(s, (j - 1) as nat).den
                    * s.den,
                frac_pow(s, j).num == s.num * frac_pow(s, (j - 1) as nat).num,
                frac_pow(s, j).den == s.den * frac_pow(s, (j - 1) as nat).den,
        ;
        assert(frac_mul(frac_pow(s, (j - 1) as nat), s).den != 0) by (nonlinear_arith)
            requires
                frac_pow(s, (j - 1) as nat).den != 0,
                s.den > 0,
                frac_mul(frac_pow(s, (j - 1) as nat), s).den == frac_pow(s, (j - 1) as nat).den
                    * s.den,
        ;
        lemma_eq_trans(
            chain_weight(s, 0u64, j),
            frac_mul(frac_pow(s, (j - 1) as nat), s),
            frac_pow(s, j),
        );
    }
}

/// With hidden state zero and output word zero every cell matches, so the
/// observation weight is the plain power of the match rate.
proof fn lemma_match_zero(m: Frac, j: nat)
    requires
        j <= 64,
        frac_pos(m),
    ensures
        frac_eq(match_weight(m, 0u64, 0u64, j), frac_pow(m, j)),
    decreases j,
{
    if j > 0 {
        lemma_match_zero(m, (j - 1) as nat);
        let j1 = (j - 1) as u64;
        assert(0u64 & (1u64 << j1) == 0) by (bit_vector);
        lemma_pow_den_nonzero(m, (j - 1) as nat);
        lemma_mul_congruence(
            match_weight(m, 0u64, 0u64, (j - 1) as nat),
            frac_pow(m, (j - 1) as nat),
            m,
            m,
        );
        assert(frac_eq(frac_mul(frac_pow(m, (j - 1) as nat), m), frac_pow(m, j)))
            by (nonlinear_arith)
            requires
                frac_mul(frac_pow(m, (j - 1) as nat), m).num == frac_pow(m, (j - 1) as nat).num
                    * m.num,
                frac_mul(frac_pow(m, (j - 1) as nat), m).den == frac_pow(m, (j - 1) as nat).den
                    * m.den,
                frac_pow(m, j).num == m.num * frac_pow(m, (j - 1) as nat).num,
                frac_pow(m, j).den == m.den * frac_pow(m, (j - 1) as nat).den,
        ;
        assert(frac_mul(frac_pow(m, (j - 1) as nat), m).den != 0) by (nonlinear_arith)
            requires
                frac_pow(m, (j - 1) as nat).den != 0,
                m.den > 0,
                frac_mul(frac_pow(m, (j - 1) as nat), m).den == frac_pow(m, (j - 1) as nat).den
                    * m.den,
        ;
        lemma_eq_trans(
            match_weight(m, 0u64, 0u64, j),
            frac_mul(frac_pow(m, (j - 1) as nat), m),
            frac_pow(m, j),
        );
    }
}

/// Decoding a Gray code recovers the index, so the Gray code is injective.
pub proof fn lemma_gray_decode(x: u64)
    by (bit_vector)
    ensures
        gray_inverse(gray_u64(x)) == x,
{
}

/// Every word is the Gray code of its decoded index, and decoding keeps
/// the word's range, so the Gray walk over `0 .. 2^n` visits every n-bit
/// word.
pub proof fn lemma_gray_encode(w: u64, n: u64)
    by (bit_vector)
    requires
        n <= 63,
        w < (1u64 << n),
    ensures
        gray_u64(gray_inverse(w)) == w,
        gray_inverse(w) < (1u64 << n),
{
}

/// Consecutive Gray codes differ in exactly one bit.
pub proof fn lemma_gray_adjacent(i: u64)
    by (bit_vector)
    requires
        i < 0xffff_ffff_ffff_ffff,
    ensures
        ({
            let d = gray_u64(i) ^ gray_u64((i + 1) as u64);
            d != 0 && d & ((d - 1) as u64) == 0
        }),
{
}

/// The Gray code of an n-bit index is an n-bit word.
pub proof fn lemma_gray_in_range(x: u64, n: u64)
    by (bit_vector)
    requires
        n <= 63,
        x < (1u64 << n),
    ensures
        gray_u64(x) < (1u64 << n),
{
}

/// Flipping the lowest set bit of `k` in the Gray code of `k - 1` yields
/// the Gray code of `k`.
proof fn lemma_gray_step(j: u64, k: u64, t: u64)
    by (bit_vector)
    requires
        k == j + 1,
        t <= 63,
        (k >> t) & 1u64 == 1u64,
        k & (((1u64 << t) - 1) as u64) == 0,
    ensures
        gray_u64(j) ^ (1u64 << t) == gray_u64(k),
{
}

/// A set bit of a value below 2^n lies below position n.
proof fn lemma_bit_below(k: u64, n: u64, t: u64)
    by (bit_vector)
    requires
        n <= 63,
        t <= 63,
        k < (1u64 << n),
        (k >> t) & 1u64 == 1u64,
    ensures
        t < n,
{
}

/// The only set bit of 2^n is at position n.
proof fn lemma_bit_of_power(k: u64, n: u64, t: u64)
    by (bit_vector)
    requires
        n <= 63,
        t <= 63,
        k == 1u64 << n,
        (k >> t) & 1u64 == 1u64,
    ensures
        t == n,
{
}

/// The Gray walk's closing flip: the Gray code of the all-ones index is the
/// single top bit, so flipping that bit returns to zero.
proof fn lemma_gray_wrap(n: u64)
    by (bit_vector)
    requires
        1 <= n <= 63,
    ensures
        gray_u64(((1u64 << n) - 1) as u64) ^ (1u64 << ((n - 1) as u64)) == 0,
{
}

/// The word sequence of a full walk is the standard reflected binary Gray
/// code: consecutive words differ in exactly one bit, and the sequence
/// visits every n-bit word exactly once.
pub proof fn lemma_full_walk_words(words: Seq<u64>, n: u64)
    requires
        1 <= n <= 63,
        words.len() == (1u64 << n),
        forall|i: int| 0 <= i < words.len() ==> #[trigger] words[i] == gray_u64(i as u64),
    ensures
        forall|i: int, j: int|
            0 <= i < j < words.len() ==> #[trigger] words[i] != #[trigger] words[j],
        forall|w: u64|
            w < (1u64 << n) ==> (#[trigger] gray_inverse(w)) < words.len() && words[gray_inverse(
                w,
            ) as int] == w,
        forall|i: int|
            0 <= i && i + 1 < words.len() ==> (#[trigger] (words[i] ^ words[i + 1])) != 0 && (
            words[i] ^ words[i + 1]) & (((words[i] ^ words[i + 1]) - 1) as u64) == 0,
{
    assert forall|i: int, j: int| 0 <= i < j < words.len() implies #[trigger] words[i]
        != #[trigger] words[j] by {
        if words[i] == words[j] {
            lemma_gray_decode(i as u64);
            lemma_gray_decode(j as u64);
        }
    }
    assert forall|w: u64| w < (1u64 << n) implies (#[trigger] gray_inverse(w)) < words.len()
        && words[gray_inverse(w) as int] == w by {
        lemma_gray_encode(w, n);
    }
    assert forall|i: int| 0 <= i && i + 1 < words.len() implies (#[trigger] (words[i] ^ words[i
        + 1])) != 0 && (words[i] ^ words[i + 1]) & (((words[i] ^ words[i + 1]) - 1) as u64)
        == 0 by {
        lemma_gray_adjacent(i as u64);
    }
}

/// Whether bit `ind` of `num` is set.
pub fn is_set(num: u64, ind: u32) -> (r: bool)
    requires
        ind < 64,
    ensures
        r == (num & (1u64 << (ind as u64)) != 0),
{
    num & (1 << ind) != 0
}

/// The position of the lowest set bit of a nonzero word.
pub fn lowest_set_bit(k: u64) -> (t: u32)
    requires
        k != 0,
    ensures
        t < 64,
        (k >> (t as u64)) & 1u64 == 1u64,
        k & (((1u64 << (t as u64)) - 1) as u64) == 0,
{
    let mut t: u32 = 0;
    proof {
        assert(k >> 0u64 == k && k & (((1u64 << 0u64) - 1) as u64) == 0) by (bit_vector);
    }
    while (k >> t) & 1 == 0
        invariant
            t < 64,
            k != 0,
            (k >> (t as u64)) != 0,
            k & (((1u64 << (t as u64)) - 1) as u64) == 0,
        decreases 64 - t,
    {
        proof {
            let tt = t as u64;
            assert(((k >> tt) & 1u64 == 0 && (k >> tt) != 0) ==> (tt < 63 && (k >> (
            (tt + 1) as u64)) != 0)) by (bit_vector);
            assert(((k >> tt) & 1u64 == 0 && k & (((1u64 << tt) - 1) as u64) == 0 && tt < 63) ==> k & (((
            1u64 << ((tt + 1) as u64)) - 1) as u64) == 0) by (bit_vector);
        }
        t += 1;
    }
    proof {
        let tt = t as u64;
        assert(((k >> tt) & 1u64 != 0) ==> ((k >> tt) & 1u64 == 1u64)) by (bit_vector);
    }
    t
}

/// One output word together with its exact marginal probability mass.
pub struct ProbabilityEntry {
    /// An n-bit observed word.
    pub word: u64,
    /// The exact probability of observing that word, summed over all 2^n
    /// hidden states.
    pub probability: num_rational::BigRational,
}

impl ProbabilityEntry {
    /// Every probability the engine produces is strictly positive, held in
    /// canonical representation.
    pub open spec fn wf(&self) -> bool {
        frac_pos(rat_value(self.probability))
    }
}

/// All four update ratios carry the value one: the degenerate uniform
/// configuration, in which every single-bit flip leaves the walk's weight
/// unchanged.
pub open spec fn unit_ratios(ratios: &RatioTable) -> bool {
    &&& frac_eq(rat_value(ratios.stay_over_switch), frac_one())
    &&& frac_eq(rat_value(ratios.switch_over_stay), frac_one())
    &&& frac_eq(rat_value(ratios.mismatch_over_match), frac_one())
    &&& frac_eq(rat_value(ratios.match_over_mismatch), frac_one())
}

/// One weight update with a value-one factor keeps the weight's value.
proof fn lemma_keep_value(newv: crate::frac::Frac, curv: crate::frac::Frac, factor: crate::frac::Frac, target: crate::frac::Frac)
    requires
        frac_eq(newv, frac_mul(curv, factor)),
        frac_eq(factor, frac_one()),
        frac_eq(curv, target),
        curv.den > 0,
        factor.den > 0,
    ensures
        frac_eq(newv, target),
{
    lemma_eq_mul_one(newv, curv, factor);
    lemma_eq_trans(newv, curv, target);
}

/// The probability-table engine: for output-word indices `start ..
/// start + distance`, produce the exact marginal probability of each
/// output word, walking both the output words and the hidden states in
/// Gray-code order so that every weight update is one or two ratio
/// multiplications.
///
/// The words come out as the reflected binary Gray codes of the successive
/// indices, and the Gray walk over the hidden states provably returns to
/// the all-zero state after every outer step, so the state-return check of
/// the enumeration is discharged once and for all here rather than at run
/// time.
#[verifier::rlimit(100)]
pub fn compute(start: u64, distance: u64, params: &ParameterSet, ratios: &RatioTable) -> (res: Vec<
    ProbabilityEntry,
>)
    requires
        params.wf(),
        ratios.wf(),
        ratios.consistent_with(params),
        start + distance <= (1u64 << (params.bit_count as u64)),
    ensures
        res@.len() == distance,
        forall|i: int|
            0 <= i < res@.len() ==> (#[trigger] res@[i]).word == gray_u64((start + i) as u64),
        forall|i: int| 0 <= i < res@.len() ==> (#[trigger] res@[i]).wf(),
        forall|i: int|
            0 <= i < res@.len() ==> (#[trigger] res@[i]).word < (1u64 << (params.bit_count as u64)),
        (frac_eq(rat_value(params.stay_rate), frac_new(1, 2)) && frac_eq(
            rat_value(params.state_match),
            frac_new(1, 2),
        )) ==> forall|i: int|
            0 <= i < res@.len() ==> frac_eq(
                rat_value((#[trigger] res@[i]).probability),
                frac_new(1, (1u64 << (params.bit_count as u64)) as int),
            ),
        start == 0 ==> forall|i: int|
            0 <= i < res@.len() ==> frac_eq(
                rat_value((#[trigger] res@[i]).probability),
                marginal(
                    rat_value(params.stay_rate),
                    rat_value(params.state_match),
                    params.bit_count as nat,
                    gray_u64((start + i) as u64),
                ),
            ),
{
    let n: u32 = params.bit_count;
    let two_n: u64 = 1u64 << n;
    let ghost half = frac_new(1, 2);
    let ghost uniform = frac_eq(rat_value(params.stay_rate), half) && frac_eq(
        rat_value(params.state_match),
        half,
    );
    let ghost pw = frac_pow(half, (2 * params.bit_count) as nat);
    let ghost s_val = rat_value(params.stay_rate);
    let ghost m_val = rat_value(params.state_match);
    let ghost nn = params.bit_count as nat;
    let ghost track = start == 0;
    proof {
        lemma_pos_pow(half, (2 * params.bit_count) as nat);
        vstd::bits::lemma_u64_pow2_no_overflow(nn);
        vstd::bits::lemma_u64_shl_is_mul(1u64, n as u64);
        if uniform {
            lemma_half_ratio_one(rat_value(ratios.stay_over_switch), rat_value(params.stay_rate));
            lemma_half_ratio_one(rat_value(ratios.switch_over_stay), rat_value(params.stay_rate));
            lemma_half_ratio_one(
                rat_value(ratios.match_over_mismatch),
                rat_value(params.state_match),
            );
            lemma_half_ratio_one(
                rat_value(ratios.mismatch_over_match),
                rat_value(params.state_match),
            );
        }
    }
    let mut res: Vec<ProbabilityEntry> = Vec::new();
    if distance == 0 {
        return res;
    }
    let mut state: u64 = 0;
    let mut output: u64 = start ^ (start >> 1);

    // Count the set bits of `start`: the discrepancy count between the
    // all-zero hidden state and the starting output word. All set bits of
    // `start` lie below n.
    let mut discrepancies: u32 = 0;
    let mut bi: u32 = 0;
    while bi < n
        invariant
            bi <= n,
            discrepancies <= bi,
            n <= 63,
            start == 0 ==> discrepancies == 0,
        decreases n - bi,
    {
        proof {
            let b = bi as u64;
            assert(0u64 & (1u64 << b) == 0) by (bit_vector);
        }
        if is_set(start, bi) {
            discrepancies += 1;
        }
        bi += 1;
    }

    // The closed-form joint probability of (hidden state 0, the starting
    // output word): (1/2) * stay^(n-1) * match^(n - d) * (1 - match)^d.
    let one = rat_from_parts(1, 1);
    let mismatch_rate = rat_sub(&one, &params.state_match);
    proof {
        lemma_sub_one(rat_value(one), rat_value(params.state_match), rat_value(mismatch_rate));
    }
    let c0 = rat_from_parts(1, 2);
    proof {
        lemma_eq_pos(rat_value(c0), frac_new(1, 2));
    }
    let p_stay = rat_pow(&params.stay_rate, n - 1);
    let p_match = rat_pow(&params.state_match, n - discrepancies);
    let p_mismatch = rat_pow(&mismatch_rate, discrepancies);
    proof {
        lemma_pos_pow(rat_value(params.stay_rate), (n - 1) as nat);
        lemma_eq_pos(rat_value(p_stay), frac_pow(rat_value(params.stay_rate), (n - 1) as nat));
        lemma_pos_pow(rat_value(params.state_match), (n - discrepancies) as nat);
        lemma_eq_pos(
            rat_value(p_match),
            frac_pow(rat_value(params.state_match), (n - discrepancies) as nat),
        );
        lemma_pos_pow(rat_value(mismatch_rate), discrepancies as nat);
        lemma_eq_pos(
            rat_value(p_mismatch),
            frac_pow(rat_value(mismatch_rate), discrepancies as nat),
        );
    }
    let c1 = rat_mul(&c0, &p_stay);
    proof {
        lemma_eq_pos_mul(rat_value(c1), rat_value(c0), rat_value(p_stay));
    }
    let c2 = rat_mul(&c1, &p_match);
    proof {
        lemma_eq_pos_mul(rat_value(c2), rat_value(c1), rat_value(p_match));
    }
    let mut current = rat_mul(&c2, &p_mismatch);
    proof {
        lemma_eq_pos_mul(rat_value(current), rat_value(c2), rat_value(p_mismatch));
        assert(two_n >= 2 && start < two_n && two_n <= 0x8000_0000_0000_0000) by (bit_vector)
            requires
                1 <= n <= 63,
                two_n == 1u64 << (n as u64),
                start + distance <= two_n,
                distance >= 1,
        ;
        if uniform {
            let s = rat_value(params.stay_rate);
            let m = rat_value(params.state_match);
            let vmr = rat_value(mismatch_rate);
            let e1 = (n - 1) as nat;
            let e2 = (n - discrepancies) as nat;
            let e3 = discrepancies as nat;
            // the complement of one half is one half
            lemma_sub_congruence(rat_value(one), frac_one(), m, half);
            assert(frac_sub(frac_one(), half) == half);
            assert(frac_sub(rat_value(one), m).den != 0) by (nonlinear_arith)
                requires
                    rat_den(one) > 0,
                    rat_den(params.state_match) > 0,
                    frac_sub(rat_value(one), m).den == rat_den(one) * rat_den(
                        params.state_match,
                    ),
            ;
            lemma_eq_trans(vmr, frac_sub(rat_value(one), m), half);
            // each power collapses to the matching power of one half
            lemma_pow_congruence(s, half, e1);
            lemma_pos_pow(s, e1);
            lemma_eq_trans(rat_value(p_stay), frac_pow(s, e1), frac_pow(half, e1));
            lemma_pow_congruence(m, half, e2);
            lemma_pos_pow(m, e2);
            lemma_eq_trans(rat_value(p_match), frac_pow(m, e2), frac_pow(half, e2));
            lemma_pow_congruence(vmr, half, e3);
            lemma_pos_pow(vmr, e3);
            lemma_eq_trans(rat_value(p_mismatch), frac_pow(vmr, e3), frac_pow(half, e3));
            // fold the product into a single power of one half
            lemma_pow_den_nonzero(half, e1);
            lemma_pow_den_nonzero(half, e2);
            lemma_pow_den_nonzero(half, e3);
            lemma_pow_den_nonzero(half, n as nat);
            lemma_pow_den_nonzero(half, (n as nat + e2) as nat);
            lemma_mul_congruence(rat_value(c0), half, rat_value(p_stay), frac_pow(half, e1));
            assert(frac_pow(half, n as nat) == frac_mul(half, frac_pow(half, e1)));
            assert(frac_mul(rat_value(c0), rat_value(p_stay)).den != 0) by (nonlinear_arith)
                requires
                    rat_den(c0) > 0,
                    rat_den(p_stay) > 0,
                    frac_mul(rat_value(c0), rat_value(p_stay)).den == rat_den(c0) * rat_den(
                        p_stay,
                    ),
            ;
            lemma_eq_trans(
                rat_value(c1),
                frac_mul(rat_value(c0), rat_value(p_stay)),
                frac_pow(half, n as nat),
            );
            lemma_mul_congruence(
                rat_value(c1),
                frac_pow(half, n as nat),
                rat_value(p_match),
                frac_pow(half, e2),
            );
            lemma_pow_add(half, n as nat, e2);
            assert(frac_mul(rat_value(c1), rat_value(p_match)).den != 0) by (nonlinear_arith)
                requires
                    rat_den(c1) > 0,
                    rat_den(p_match) > 0,
                    frac_mul(rat_value(c1), rat_value(p_match)).den == rat_den(c1) * rat_den(
                        p_match,
                    ),
            ;
            assert(frac_mul(frac_pow(half, n as nat), frac_pow(half, e2)).den != 0)
                by (nonlinear_arith)
                requires
                    frac_pow(half, n as nat).den != 0,
                    frac_pow(half, e2).den != 0,
                    frac_mul(frac_pow(half, n as nat), frac_pow(half, e2)).den == frac_pow(
                        half,
                        n as nat,
                    ).den * frac_pow(half, e2).den,
            ;
            lemma_eq_trans(
                rat_value(c2),
                frac_mul(rat_value(c1), rat_value(p_match)),
                frac_mul(frac_pow(half, n as nat), frac_pow(half, e2)),
            );
            lemma_eq_trans(
                rat_value(c2),
                frac_mul(frac_pow(half, n as nat), frac_pow(half, e2)),
                frac_pow(half, (n as nat + e2) as nat),
            );
            lemma_mul_congruence(
                rat_value(c2),
                frac_pow(half, (n as nat + e2) as nat),
                rat_value(p_mismatch),
                frac_pow(half, e3),
            );
            lemma_pow_add(half, (n as nat + e2) as nat, e3);
            assert(frac_mul(rat_value(c2), rat_value(p_mismatch)).den != 0) by (nonlinear_arith)
                requires
                    rat_den(c2) > 0,
                    rat_den(p_mismatch) > 0,
                    frac_mul(rat_value(c2), rat_value(p_mismatch)).den == rat_den(c2) * rat_den(
                        p_mismatch,
                    ),
            ;
            assert(frac_mul(frac_pow(half, (n as nat + e2) as nat), frac_pow(half, e3)).den != 0)
                by (nonlinear_arith)
                requires
                    frac_pow(half, (n as nat + e2) as nat).den != 0,
                    frac_pow(half, e3).den != 0,
                    frac_mul(frac_pow(half, (n as nat + e2) as nat), frac_pow(half, e3)).den
                        == frac_pow(half, (n as nat + e2) as nat).den * frac_pow(half, e3).den,
            ;
            lemma_eq_trans(
                rat_value(current),
                frac_mul(rat_value(c2), rat_value(p_mismatch)),
                frac_mul(frac_pow(half, (n as nat + e2) as nat), frac_pow(half, e3)),
            );
            lemma_eq_trans(
                rat_value(current),
                frac_mul(frac_pow(half, (n as nat + e2) as nat), frac_pow(half, e3)),
                frac_pow(half, (n as nat + e2 + e3) as nat),
            );
            assert((n as nat + e2 + e3) as nat == (2 * params.bit_count) as nat);
            assert(frac_eq(rat_value(current), pw));
        }
        if track {
            assert((0u64 ^ (0u64 >> 1u64)) == 0 && gray_u64(0u64) == 0) by (bit_vector);
            assert(frac_pos(s_val) && frac_pos(frac_sub(frac_one(), s_val)) && frac_pos(m_val)
                && frac_pos(frac_sub(frac_one(), m_val))) by (nonlinear_arith)
                requires
                    s_val.num == rat_num(params.stay_rate),
                    s_val.den == rat_den(params.stay_rate),
                    0 < rat_num(params.stay_rate) < rat_den(params.stay_rate),
                    frac_sub(frac_one(), s_val).num == 1 * s_val.den - s_val.num * 1,
                    frac_sub(frac_one(), s_val).den == 1 * s_val.den,
                    m_val.num == rat_num(params.state_match),
                    m_val.den == rat_den(params.state_match),
                    0 < rat_num(params.state_match) < rat_den(params.state_match),
                    frac_sub(frac_one(), m_val).num == 1 * m_val.den - m_val.num * 1,
                    frac_sub(frac_one(), m_val).den == 1 * m_val.den,
            ;
            lemma_chain_zero(s_val, (n - 1) as nat);
            lemma_match_zero(m_val, n as nat);
            lemma_pow_den_nonzero(s_val, (n - 1) as nat);
            lemma_pow_den_nonzero(m_val, n as nat);
            lemma_weights_pos(s_val, m_val, 0u64, 0u64, (n - 1) as nat);
            lemma_weights_pos(s_val, m_val, 0u64, 0u64, n as nat);
            lemma_eq_trans(
                rat_value(p_stay),
                frac_pow(s_val, (n - 1) as nat),
                chain_weight(s_val, 0u64, (n - 1) as nat),
            );
            assert(frac_eq(rat_value(p_match), frac_pow(m_val, n as nat)));
            lemma_eq_trans(
                rat_value(p_match),
                frac_pow(m_val, n as nat),
                match_weight(m_val, 0u64, 0u64, n as nat),
            );
            lemma_mul_congruence(
                rat_value(c0),
                frac_new(1, 2),
                rat_value(p_stay),
                chain_weight(s_val, 0u64, (n - 1) as nat),
            );
            assert(frac_mul(rat_value(c0), rat_value(p_stay)).den != 0) by (nonlinear_arith)
                requires
                    rat_den(c0) > 0,
                    rat_den(p_stay) > 0,
                    frac_mul(rat_value(c0), rat_value(p_stay)).den == rat_den(c0) * rat_den(
                        p_stay,
                    ),
            ;
            lemma_eq_trans(
                rat_value(c1),
                frac_mul(rat_value(c0), rat_value(p_stay)),
                frac_mul(frac_new(1, 2), chain_weight(s_val, 0u64, (n - 1) as nat)),
            );
            lemma_mul_congruence(
                rat_value(c1),
                frac_mul(frac_new(1, 2), chain_weight(s_val, 0u64, (n - 1) as nat)),
                rat_value(p_match),
                match_weight(m_val, 0u64, 0u64, n as nat),
            );
            assert(frac_mul(rat_value(c1), rat_value(p_match)).den != 0) by (nonlinear_arith)
                requires
                    rat_den(c1) > 0,
                    rat_den(p_match) > 0,
                    frac_mul(rat_value(c1), rat_value(p_match)).den == rat_den(c1) * rat_den(
                        p_match,
                    ),
            ;
            lemma_eq_trans(
                rat_value(c2),
                frac_mul(rat_value(c1), rat_value(p_match)),
                joint_weight(s_val, m_val, nn, 0u64, 0u64),
            );
            assert(frac_eq(rat_value(p_mismatch), frac_one()));
            lemma_eq_mul_one(rat_value(current), rat_value(c2), rat_value(p_mismatch));
            lemma_eq_trans(
                rat_value(current),
                rat_value(c2),
                joint_weight(s_val, m_val, nn, 0u64, 0u64),
            );
        }
    }

    let mut step: u64 = start + 1;
    while step <= start + distance
        invariant
            params.wf(),
            ratios.wf(),
            ratios.consistent_with(params),
            n == params.bit_count,
            1 <= n <= 63,
            two_n == 1u64 << (n as u64),
            start + distance <= two_n,
            distance >= 1,
            two_n <= 0x8000_0000_0000_0000,
            start + 1 <= step <= start + distance + 1,
            res@.len() == step - start - 1,
            forall|i: int|
                0 <= i < res@.len() ==> (#[trigger] res@[i]).word == gray_u64((start + i) as u64),
            forall|i: int| 0 <= i < res@.len() ==> (#[trigger] res@[i]).wf(),
            forall|i: int| 0 <= i < res@.len() ==> (#[trigger] res@[i]).word < two_n,
            state == 0,
            step <= start + distance ==> output == gray_u64((step - 1) as u64),
            frac_pos(rat_value(current)),
            frac_pos(pw),
            pw == frac_pow(frac_new(1, 2), (2 * params.bit_count) as nat),
            uniform == (frac_eq(rat_value(params.stay_rate), frac_new(1, 2)) && frac_eq(
                rat_value(params.state_match),
                frac_new(1, 2),
            )),
            uniform ==> unit_ratios(ratios),
            uniform ==> frac_eq(rat_value(current), pw),
            uniform ==> forall|i: int|
                0 <= i < res@.len() ==> frac_eq(
                    rat_value((#[trigger] res@[i]).probability),
                    frac_new(1, two_n as int),
                ),
            s_val == rat_value(params.stay_rate),
            m_val == rat_value(params.state_match),
            nn == params.bit_count as nat,
            track == (start == 0),
            vstd::arithmetic::power2::pow2(nn) == two_n,
            track ==> frac_eq(
                rat_value(current),
                joint_weight(s_val, m_val, nn, 0u64, output),
            ),
            track ==> forall|i: int|
                0 <= i < res@.len() ==> frac_eq(
                    rat_value((#[trigger] res@[i]).probability),
                    marginal(s_val, m_val, nn, gray_u64((start + i) as u64)),
                ),
        decreases start + distance + 1 - step,
    {
        proof {
            lemma_gray_in_range((step - 1) as u64, n as u64);
            assert(gray_u64(0u64) == 0) by (bit_vector);
        }
        let mut total = rat_zero();
        proof {
            if uniform {
                assert(frac_eq(rat_value(total), frac_mul(frac_new(0, 1), pw)))
                    by (nonlinear_arith)
                    requires
                        rat_num(total) == 0,
                        rat_den(total) == 1,
                        frac_mul(frac_new(0, 1), pw).num == 0 * pw.num,
                        frac_mul(frac_new(0, 1), pw).den == 1 * pw.den,
                ;
            }
        }
        let mut k: u64 = 1;
        while k <= two_n
            invariant
                params.wf(),
                ratios.wf(),
                ratios.consistent_with(params),
                n == params.bit_count,
                1 <= n <= 63,
                two_n == 1u64 << (n as u64),
                two_n <= 0x8000_0000_0000_0000,
                1 <= k <= two_n + 1,
                k <= two_n ==> state == gray_u64((k - 1) as u64),
                k == two_n + 1 ==> state == 0,
                frac_pos(rat_value(current)),
                rat_den(total) > 0,
                rat_num(total) >= 0,
                k > 1 ==> rat_num(total) > 0,
                frac_pos(pw),
                uniform ==> unit_ratios(ratios),
                uniform ==> frac_eq(rat_value(current), pw),
                uniform ==> frac_eq(
                    rat_value(total),
                    frac_mul(frac_new(k - 1, 1), pw),
                ),
                s_val == rat_value(params.stay_rate),
                m_val == rat_value(params.state_match),
                nn == params.bit_count as nat,
                vstd::arithmetic::power2::pow2(nn) == two_n,
                track ==> frac_eq(
                    rat_value(current),
                    joint_weight(s_val, m_val, nn, state, output),
                ),
                track ==> frac_eq(
                    rat_value(total),
                    walk_sum(s_val, m_val, nn, output, (k - 1) as nat),
                ),
            decreases two_n + 1 - k,
        {
            let tz = lowest_set_bit(k);
            let flip: u32 = if tz < n - 1 {
                tz
            } else {
                n - 1
            };
            proof {
                if k < two_n {
                    lemma_bit_below(k, n as u64, tz as u64);
                    lemma_gray_step((k - 1) as u64, k, tz as u64);
                } else {
                    lemma_bit_of_power(k, n as u64, tz as u64);
                    lemma_gray_wrap(n as u64);
                }
            }
            let ghost h = state;
            let ghost cur0v = rat_value(current);
            let ghost mut acc = frac_one();
            let ghost mut newp = frac_one();
            let ghost mut oldp = frac_one();
            proof {
                if track {
                    assert(frac_eq(rat_value(current), frac_mul(cur0v, acc))) by (nonlinear_arith)
                        requires
                            cur0v == rat_value(current),
                            acc == frac_one(),
                            frac_mul(cur0v, acc).num == cur0v.num * 1,
                            frac_mul(cur0v, acc).den == cur0v.den * 1,
                            frac_eq(rat_value(current), frac_mul(cur0v, acc)) == (cur0v.num
                                * (cur0v.den * 1) == (cur0v.num * 1) * cur0v.den),
                    ;
                    assert(frac_eq(acc, frac_div(newp, oldp)));
                }
            }
            let curbit = is_set(state, flip);
            if flip > 0 {
                let factor = if curbit == is_set(state, flip - 1) {
                    &ratios.switch_over_stay
                } else {
                    &ratios.stay_over_switch
                };
                let c = rat_mul(&current, factor);
                proof {
                    lemma_eq_pos_mul(rat_value(c), rat_value(current), rat_value(*factor));
                    if uniform {
                        lemma_keep_value(rat_value(c), rat_value(current), rat_value(*factor), pw);
                    }
                    if track {
                        let t_ = flip as nat;
                        lemma_flip_bit_is(h, t_, t_);
                        lemma_flip_bit_is(h, t_, (t_ - 1) as nat);
                        assert((t_ as u64) == (flip as u64) && (((t_ - 1) as nat) as u64) == ((
                        flip - 1) as u64));
                        assert(bit_is(h, t_) == curbit);
                        let nf = chain_factor(s_val, h ^ (1u64 << (t_ as u64)), t_);
                        let of = chain_factor(s_val, h, t_);
                        assert(frac_eq(rat_value(*factor), frac_div(nf, of)));
                        lemma_mul_acc(rat_value(c), rat_value(current), cur0v, acc, rat_value(*factor));
                        lemma_div_mul(acc, rat_value(*factor), newp, oldp, nf, of);
                        assert(frac_pos(s_val) && frac_pos(frac_sub(frac_one(), s_val)))
                            by (nonlinear_arith)
                            requires
                                s_val.num == rat_num(params.stay_rate),
                                s_val.den == rat_den(params.stay_rate),
                                0 < rat_num(params.stay_rate) < rat_den(params.stay_rate),
                                frac_sub(frac_one(), s_val).num == 1 * s_val.den - s_val.num * 1,
                                frac_sub(frac_one(), s_val).den == 1 * s_val.den,
                        ;
                        assert(frac_pos(nf) && frac_pos(of));
                        crate::frac::lemma_pos_mul(newp, nf);
                        crate::frac::lemma_pos_mul(oldp, of);
                        assert(frac_mul(acc, rat_value(*factor)).den != 0) by (nonlinear_arith)
                            requires
                                acc.den != 0,
                                rat_den(*factor) > 0,
                                frac_mul(acc, rat_value(*factor)).den == acc.den * rat_den(
                                    *factor,
                                ),
                        ;
                        acc = frac_mul(acc, rat_value(*factor));
                        newp = frac_mul(newp, nf);
                        oldp = frac_mul(oldp, of);
                    }
                }
                current = c;
            }
            if flip < n - 1 {
                let factor = if curbit == is_set(state, flip + 1) {
                    &ratios.switch_over_stay
                } else {
                    &ratios.stay_over_switch
                };
                let c = rat_mul(&current, factor);
                proof {
                    lemma_eq_pos_mul(rat_value(c), rat_value(current), rat_value(*factor));
                    if uniform {
                        lemma_keep_value(rat_value(c), rat_value(current), rat_value(*factor), pw);
                    }
                    if track {
                        let t_ = flip as nat;
                        lemma_flip_bit_is(h, t_, t_);
                        lemma_flip_bit_is(h, t_, t_ + 1);
                        assert((t_ as u64) == (flip as u64) && ((t_ + 1) as u64) == ((flip
                            + 1) as u64));
                        assert(bit_is(h, t_) == curbit);
                        let nf = chain_factor(s_val, h ^ (1u64 << (t_ as u64)), t_ + 1);
                        let of = chain_factor(s_val, h, t_ + 1);
                        assert(frac_eq(rat_value(*factor), frac_div(nf, of)));
                        lemma_mul_acc(rat_value(c), rat_value(current), cur0v, acc, rat_value(*factor));
                        lemma_div_mul(acc, rat_value(*factor), newp, oldp, nf, of);
                        assert(frac_pos(s_val) && frac_pos(frac_sub(frac_one(), s_val)))
                            by (nonlinear_arith)
                            requires
                                s_val.num == rat_num(params.stay_rate),
                                s_val.den == rat_den(params.stay_rate),
                                0 < rat_num(params.stay_rate) < rat_den(params.stay_rate),
                                frac_sub(frac_one(), s_val).num == 1 * s_val.den - s_val.num * 1,
                                frac_sub(frac_one(), s_val).den == 1 * s_val.den,
                        ;
                        assert(frac_pos(nf) && frac_pos(of));
                        crate::frac::lemma_pos_mul(newp, nf);
                        crate::frac::lemma_pos_mul(oldp, of);
                        assert(frac_mul(acc, rat_value(*factor)).den != 0) by (nonlinear_arith)
                            requires
                                acc.den != 0,
                                rat_den(*factor) > 0,
                                frac_mul(acc, rat_value(*factor)).den == acc.den * rat_den(
                                    *factor,
                                ),
                        ;
                        acc = frac_mul(acc, rat_value(*factor));
                        newp = frac_mul(newp, nf);
                        oldp = frac_mul(oldp, of);
                    }
                }
                current = c;
            }
            let factor = if curbit == is_set(output, flip) {
                &ratios.mismatch_over_match
            } else {
                &ratios.match_over_mismatch
            };
            let c = rat_mul(&current, factor);
            proof {
                lemma_eq_pos_mul(rat_value(c), rat_value(current), rat_value(*factor));
                if uniform {
                    lemma_keep_value(rat_value(c), rat_value(current), rat_value(*factor), pw);
                }
                if track {
                    let t_ = flip as nat;
                    lemma_flip_bit_is(h, t_, t_);
                    assert((t_ as u64) == (flip as u64));
                    assert(bit_is(h, t_) == curbit);
                    let nf = match_factor(m_val, h ^ (1u64 << (t_ as u64)), output, t_);
                    let of = match_factor(m_val, h, output, t_);
                    assert(frac_eq(rat_value(*factor), frac_div(nf, of)));
                    lemma_mul_acc(rat_value(c), rat_value(current), cur0v, acc, rat_value(*factor));
                    lemma_div_mul(acc, rat_value(*factor), newp, oldp, nf, of);
                    assert(frac_pos(m_val) && frac_pos(frac_sub(frac_one(), m_val)))
                        by (nonlinear_arith)
                        requires
                            m_val.num == rat_num(params.state_match),
                            m_val.den == rat_den(params.state_match),
                            0 < rat_num(params.state_match) < rat_den(params.state_match),
                            frac_sub(frac_one(), m_val).num == 1 * m_val.den - m_val.num * 1,
                            frac_sub(frac_one(), m_val).den == 1 * m_val.den,
                    ;
                    assert(frac_pos(nf) && frac_pos(of));
                    crate::frac::lemma_pos_mul(newp, nf);
                    crate::frac::lemma_pos_mul(oldp, of);
                    assert(frac_mul(acc, rat_value(*factor)).den != 0) by (nonlinear_arith)
                        requires
                            acc.den != 0,
                            rat_den(*factor) > 0,
                            frac_mul(acc, rat_value(*factor)).den == acc.den * rat_den(*factor),
                    ;
                    acc = frac_mul(acc, rat_value(*factor));
                    newp = frac_mul(newp, nf);
                    oldp = frac_mul(oldp, of);
                }
            }
            current = c;
            state = state ^ (1u64 << flip);
            proof {
                if track {
                    let t_ = flip as nat;
                    let hp = state;
                    assert(hp == h ^ (1u64 << (t_ as u64)));
                    lemma_weights_pos(s_val, m_val, h, output, (nn - 1) as nat);
                    lemma_weights_pos(s_val, m_val, h, output, nn);
                    lemma_weights_pos(s_val, m_val, hp, output, (nn - 1) as nat);
                    lemma_weights_pos(s_val, m_val, hp, output, nn);
                    lemma_match_flip(m_val, h, t_, output, nn);
                    if flip > 0 && flip < n - 1 {
                        lemma_chain_flip(s_val, h, t_, (nn - 1) as nat);
                        lemma_joint_reweight(
                            chain_weight(s_val, hp, (nn - 1) as nat),
                            chain_weight(s_val, h, (nn - 1) as nat),
                            frac_mul(chain_factor(s_val, h, t_), chain_factor(s_val, h, t_ + 1)),
                            frac_mul(chain_factor(s_val, hp, t_), chain_factor(s_val, hp, t_ + 1)),
                            match_weight(m_val, hp, output, nn),
                            match_weight(m_val, h, output, nn),
                            match_factor(m_val, h, output, t_),
                            match_factor(m_val, hp, output, t_),
                        );
                    } else if flip > 0 {
                        lemma_chain_flip(s_val, h, t_, (nn - 1) as nat);
                        lemma_joint_reweight(
                            chain_weight(s_val, hp, (nn - 1) as nat),
                            chain_weight(s_val, h, (nn - 1) as nat),
                            chain_factor(s_val, h, t_),
                            chain_factor(s_val, hp, t_),
                            match_weight(m_val, hp, output, nn),
                            match_weight(m_val, h, output, nn),
                            match_factor(m_val, h, output, t_),
                            match_factor(m_val, hp, output, t_),
                        );
                    } else if flip < n - 1 {
                        assert(1u64 << 0u64 == 1u64) by (bit_vector);
                        lemma_chain_flip_zero(s_val, h, (nn - 1) as nat);
                        lemma_joint_reweight(
                            chain_weight(s_val, hp, (nn - 1) as nat),
                            chain_weight(s_val, h, (nn - 1) as nat),
                            chain_factor(s_val, h, 1),
                            chain_factor(s_val, hp, 1),
                            match_weight(m_val, hp, output, nn),
                            match_weight(m_val, h, output, nn),
                            match_factor(m_val, h, output, t_),
                            match_factor(m_val, hp, output, t_),
                        );
                    } else {
                        assert(1u64 << 0u64 == 1u64) by (bit_vector);
                        lemma_joint_reweight(
                            chain_weight(s_val, hp, (nn - 1) as nat),
                            chain_weight(s_val, h, (nn - 1) as nat),
                            frac_one(),
                            frac_one(),
                            match_weight(m_val, hp, output, nn),
                            match_weight(m_val, h, output, nn),
                            match_factor(m_val, h, output, t_),
                            match_factor(m_val, hp, output, t_),
                        );
                    }
                    crate::frac::lemma_pos_mul(
                        frac_new(1, 2),
                        chain_weight(s_val, h, (nn - 1) as nat),
                    );
                    crate::frac::lemma_pos_mul(
                        frac_mul(frac_new(1, 2), chain_weight(s_val, h, (nn - 1) as nat)),
                        match_weight(m_val, h, output, nn),
                    );
                    crate::frac::lemma_pos_mul(
                        frac_new(1, 2),
                        chain_weight(s_val, hp, (nn - 1) as nat),
                    );
                    crate::frac::lemma_pos_mul(
                        frac_mul(frac_new(1, 2), chain_weight(s_val, hp, (nn - 1) as nat)),
                        match_weight(m_val, hp, output, nn),
                    );
                    lemma_mul_congruence(
                        cur0v,
                        joint_weight(s_val, m_val, nn, h, output),
                        acc,
                        acc,
                    );
                    assert(frac_mul(cur0v, acc).den != 0) by (nonlinear_arith)
                        requires
                            cur0v.den > 0,
                            acc.den > 0,
                            frac_mul(cur0v, acc).den == cur0v.den * acc.den,
                    ;
                    lemma_eq_trans(
                        rat_value(current),
                        frac_mul(cur0v, acc),
                        frac_mul(joint_weight(s_val, m_val, nn, h, output), acc),
                    );
                    lemma_apply_reweight(
                        rat_value(current),
                        joint_weight(s_val, m_val, nn, h, output),
                        joint_weight(s_val, m_val, nn, hp, output),
                        acc,
                        oldp,
                        newp,
                    );
                }
            }
            let t = rat_add(&total, &current);
            proof {
                lemma_eq_pos_add(rat_value(t), rat_value(total), rat_value(current));
                if uniform {
                    lemma_acc_step(
                        rat_value(t),
                        rat_value(total),
                        rat_value(current),
                        pw,
                        k - 1,
                    );
                }
                if track {
                    assert(state == walk_state(nn, k as nat));
                    crate::frac::lemma_add_congruence(
                        rat_value(total),
                        walk_sum(s_val, m_val, nn, output, (k - 1) as nat),
                        rat_value(current),
                        joint_weight(s_val, m_val, nn, state, output),
                    );
                    assert(frac_add(rat_value(total), rat_value(current)).den != 0)
                        by (nonlinear_arith)
                        requires
                            rat_den(total) > 0,
                            rat_den(current) > 0,
                            frac_add(rat_value(total), rat_value(current)).den == rat_den(total)
                                * rat_den(current),
                    ;
                    lemma_eq_trans(
                        rat_value(t),
                        frac_add(rat_value(total), rat_value(current)),
                        walk_sum(s_val, m_val, nn, output, k as nat),
                    );
                }
            }
            total = t;
            k += 1;
        }
        // The inner Gray walk has returned to the all-zero hidden state:
        // the enumeration's correctness invariant, proved rather than
        // asserted at run time.
        assert(state == 0);
        proof {
            if track {
                assert(frac_eq(
                    rat_value(total),
                    marginal(s_val, m_val, nn, output),
                ));
            }
            if uniform {
                vstd::arithmetic::power2::lemma_pow2_adds(n as nat, n as nat);
                vstd::bits::lemma_u64_pow2_no_overflow(n as nat);
                vstd::bits::lemma_u64_shl_is_mul(1u64, n as u64);
                lemma_half_pow((2 * params.bit_count) as nat);
                assert(frac_eq(frac_mul(frac_new(two_n as int, 1), pw), frac_new(1, two_n as int)))
                    by (nonlinear_arith)
                    requires
                        pw.num == 1,
                        pw.den == vstd::arithmetic::power2::pow2((2 * n) as nat),
                        two_n as int == vstd::arithmetic::power2::pow2(n as nat),
                        vstd::arithmetic::power2::pow2((2 * n) as nat)
                            == vstd::arithmetic::power2::pow2(n as nat)
                            * vstd::arithmetic::power2::pow2(n as nat),
                        frac_mul(frac_new(two_n as int, 1), pw).num == two_n as int * pw.num,
                        frac_mul(frac_new(two_n as int, 1), pw).den == 1 * pw.den,
                ;
                assert(frac_mul(frac_new(two_n as int, 1), pw).den != 0) by (nonlinear_arith)
                    requires
                        pw.den > 0,
                        frac_mul(frac_new(two_n as int, 1), pw).den == 1 * pw.den,
                ;
                lemma_eq_trans(
                    rat_value(total),
                    frac_mul(frac_new(two_n as int, 1), pw),
                    frac_new(1, two_n as int),
                );
            }
        }
        res.push(ProbabilityEntry { word: output, probability: total });

        // Advance the output word to the next Gray code and fold the
        // changed bit's match factor into the running weight.
        let tz = lowest_set_bit(step);
        let flip: u32 = if tz < n - 1 {
            tz
        } else {
            n - 1
        };
        proof {
            if step < two_n {
                lemma_bit_below(step, n as u64, tz as u64);
                lemma_gray_step((step - 1) as u64, step, tz as u64);
            }
        }
        let factor = if is_set(output, flip) {
            &ratios.match_over_mismatch
        } else {
            &ratios.mismatch_over_match
        };
        let c = rat_mul(&current, factor);
        proof {
            lemma_eq_pos_mul(rat_value(c), rat_value(current), rat_value(*factor));
            if uniform {
                lemma_keep_value(rat_value(c), rat_value(current), rat_value(*factor), pw);
            }
            if track {
                let t_ = flip as nat;
                let wp = output ^ (1u64 << flip);
                let tb = t_ as u64;
                assert(0u64 & (1u64 << tb) == 0) by (bit_vector);
                lemma_flip_bit_is(output, t_, t_);
                lemma_match_symm(m_val, 0u64, output, nn);
                lemma_match_symm(m_val, 0u64, wp, nn);
                lemma_match_flip(m_val, output, t_, 0u64, nn);
                let nf = match_factor(m_val, 0u64, wp, t_);
                let of = match_factor(m_val, 0u64, output, t_);
                assert((bit_is(output, t_) == bit_is(0u64, t_)) == (bit_is(0u64, t_) == bit_is(
                    output,
                    t_,
                )));
                assert((bit_is(wp, t_) == bit_is(0u64, t_)) == (bit_is(0u64, t_) == bit_is(
                    wp,
                    t_,
                )));
                assert(match_factor(m_val, output, 0u64, t_) == of);
                assert(match_factor(m_val, wp, 0u64, t_) == nf);
                assert((t_ as u64) == (flip as u64));
                assert(bit_is(output, t_) == (output & (1u64 << (flip as u64)) != 0));
                assert(frac_eq(rat_value(*factor), frac_div(nf, of)));
                assert(frac_pos(s_val) && frac_pos(frac_sub(frac_one(), s_val)) && frac_pos(m_val)
                    && frac_pos(frac_sub(frac_one(), m_val))) by (nonlinear_arith)
                    requires
                        s_val.num == rat_num(params.stay_rate),
                        s_val.den == rat_den(params.stay_rate),
                        0 < rat_num(params.stay_rate) < rat_den(params.stay_rate),
                        frac_sub(frac_one(), s_val).num == 1 * s_val.den - s_val.num * 1,
                        frac_sub(frac_one(), s_val).den == 1 * s_val.den,
                        m_val.num == rat_num(params.state_match),
                        m_val.den == rat_den(params.state_match),
                        0 < rat_num(params.state_match) < rat_den(params.state_match),
                        frac_sub(frac_one(), m_val).num == 1 * m_val.den - m_val.num * 1,
                        frac_sub(frac_one(), m_val).den == 1 * m_val.den,
                ;
                assert(frac_pos(nf) && frac_pos(of));
                lemma_weights_pos(s_val, m_val, 0u64, output, (nn - 1) as nat);
                lemma_weights_pos(s_val, m_val, 0u64, output, nn);
                lemma_weights_pos(s_val, m_val, 0u64, wp, nn);
                lemma_joint_reweight(
                    chain_weight(s_val, 0u64, (nn - 1) as nat),
                    chain_weight(s_val, 0u64, (nn - 1) as nat),
                    frac_one(),
                    frac_one(),
                    match_weight(m_val, 0u64, wp, nn),
                    match_weight(m_val, 0u64, output, nn),
                    of,
                    nf,
                );
                crate::frac::lemma_pos_mul(
                    frac_new(1, 2),
                    chain_weight(s_val, 0u64, (nn - 1) as nat),
                );
                crate::frac::lemma_pos_mul(
                    frac_mul(frac_new(1, 2), chain_weight(s_val, 0u64, (nn - 1) as nat)),
                    match_weight(m_val, 0u64, output, nn),
                );
                crate::frac::lemma_pos_mul(
                    frac_mul(frac_new(1, 2), chain_weight(s_val, 0u64, (nn - 1) as nat)),
                    match_weight(m_val, 0u64, wp, nn),
                );
                lemma_mul_congruence(
                    rat_value(current),
                    joint_weight(s_val, m_val, nn, 0u64, output),
                    rat_value(*factor),
                    rat_value(*factor),
                );
                assert(frac_mul(rat_value(current), rat_value(*factor)).den != 0)
                    by (nonlinear_arith)
                    requires
                        rat_den(current) > 0,
                        rat_den(*factor) > 0,
                        frac_mul(rat_value(current), rat_value(*factor)).den == rat_den(current)
                            * rat_den(*factor),
                ;
                lemma_eq_trans(
                    rat_value(c),
                    frac_mul(rat_value(current), rat_value(*factor)),
                    frac_mul(joint_weight(s_val, m_val, nn, 0u64, output), rat_value(*factor)),
                );
                lemma_apply_reweight(
                    rat_value(c),
                    joint_weight(s_val, m_val, nn, 0u64, output),
                    joint_weight(s_val, m_val, nn, 0u64, wp),
                    rat_value(*factor),
                    of,
                    nf,
                );
            }
        }
        current = c;
        output = output ^ (1u64 << flip);
        step += 1;
    }
    res
}

} // verus!
