use vstd::prelude::*;
use crate::frac::Frac;
use crate::frac::frac_div;
use crate::frac::frac_eq;
use crate::frac::frac_new;
use crate::frac::frac_one;
use crate::frac::frac_pos;
use crate::frac::frac_recip;
use crate::frac::frac_sub;
use crate::frac::lemma_div_congruence;
use crate::frac::lemma_eq_pos;
use crate::frac::lemma_eq_trans;
use crate::frac::lemma_pos_div;
use crate::frac::lemma_sub_congruence;
use crate::frac::lemma_unit_interval;
use crate::exact::rat_den;
use crate::exact::rat_div;
use crate::exact::rat_from_parts;
use crate::exact::rat_num;
use crate::exact::rat_recip;
use crate::exact::rat_sub;
use crate::exact::rat_value;

verus! {

/// The one recoverable error: a configuration rejected at construction
/// time, before any computation begins.
#[derive(Clone, Copy, Debug, PartialEq, Eq, Structural)]
pub enum ParamError {
    InvalidParameter,
}

/// Validated configuration: cell count, the two model rates, and the
/// histogram resolution. Immutable after construction.
pub struct ParameterSet {
    /// Number of cells n; the output space has 2^n words.
    pub bit_count: u32,
    /// Probability that a cell equals its neighbor, strictly inside (0, 1).
    pub stay_rate: num_rational::BigRational,
    /// Probability that a cell's observed bit matches its hidden value,
    /// strictly inside (0, 1).
    pub state_match: num_rational::BigRational,
    /// Number of equal-width histogram bins; at least 1.
    pub buckets: usize,
}

impl ParameterSet {
    /// Validity established by `new` and relied on by every consumer.
    pub open spec fn wf(&self) -> bool {
        &&& 1 <= self.bit_count <= 63
        &&& self.buckets >= 1
        &&& rat_den(self.stay_rate) > 0
        &&& 0 < rat_num(self.stay_rate) < rat_den(self.stay_rate)
        &&& rat_den(self.state_match) > 0
        &&& 0 < rat_num(self.state_match) < rat_den(self.state_match)
    }

    /// Construct-and-validate. The rates are given as integer fractions;
    /// construction succeeds exactly when the cell count lies in
    /// [1, 63], both rates lie strictly between 0 and 1, and at least one
    /// bucket is asked for.
    pub fn new(
        bit_count: u32,
        stay_num: u64,
        stay_den: u64,
        match_num: u64,
        match_den: u64,
        buckets: usize,
    ) -> (r: Result<ParameterSet, ParamError>)
        ensures
            r is Ok <==> (1 <= bit_count <= 63 && 0 < stay_num < stay_den && 0 < match_num
                < match_den && buckets >= 1),
            r is Err ==> r->Err_0 == ParamError::InvalidParameter,
            r is Ok ==> (r->Ok_0).wf(),
            r is Ok ==> (r->Ok_0).bit_count == bit_count && (r->Ok_0).buckets == buckets,
            r is Ok ==> frac_eq(
                rat_value((r->Ok_0).stay_rate),
                frac_new(stay_num as int, stay_den as int),
            ),
            r is Ok ==> frac_eq(
                rat_value((r->Ok_0).state_match),
                frac_new(match_num as int, match_den as int),
            ),
    {
        if !(1 <= bit_count && bit_count <= 63) {
            return Err(ParamError::InvalidParameter);
        }
        if !(0 < stay_num && stay_num < stay_den) {
            return Err(ParamError::InvalidParameter);
        }
        if !(0 < match_num && match_num < match_den) {
            return Err(ParamError::InvalidParameter);
        }
        if buckets < 1 {
            return Err(ParamError::InvalidParameter);
        }
        let stay_rate = rat_from_parts(stay_num, stay_den);
        let state_match = rat_from_parts(match_num, match_den);
        proof {
            lemma_unit_interval(rat_value(stay_rate), stay_num as int, stay_den as int);
            lemma_unit_interval(rat_value(state_match), match_num as int, match_den as int);
        }
        Ok(ParameterSet { bit_count, stay_rate, state_match, buckets })
    }
}

/// Four exact ratio constants derived once from a `ParameterSet`; every
/// single-bit flip of the engine's walk updates its running weight by a
/// multiplication with one or two of them.
pub struct RatioTable {
    /// stay / (1 - stay).
    pub stay_over_switch: num_rational::BigRational,
    /// (1 - stay) / stay.
    pub switch_over_stay: num_rational::BigRational,
    /// (1 - match) / match.
    pub mismatch_over_match: num_rational::BigRational,
    /// match / (1 - match).
    pub match_over_mismatch: num_rational::BigRational,
}

impl RatioTable {
    /// All four ratios are strictly positive, in canonical representation.
    pub open spec fn wf(&self) -> bool {
        &&& frac_pos(rat_value(self.stay_over_switch))
        &&& frac_pos(rat_value(self.switch_over_stay))
        &&& frac_pos(rat_value(self.mismatch_over_match))
        &&& frac_pos(rat_value(self.match_over_mismatch))
    }

    /// The four values, expressed in terms of the parameters they were
    /// derived from.
    pub open spec fn consistent_with(&self, ps: &ParameterSet) -> bool {
        let s = rat_value(ps.stay_rate);
        let m = rat_value(ps.state_match);
        &&& frac_eq(rat_value(self.stay_over_switch), frac_div(s, frac_sub(frac_one(), s)))
        &&& frac_eq(rat_value(self.switch_over_stay), frac_div(frac_sub(frac_one(), s), s))
        &&& frac_eq(rat_value(self.mismatch_over_match), frac_div(frac_sub(frac_one(), m), m))
        &&& frac_eq(rat_value(self.match_over_mismatch), frac_div(m, frac_sub(frac_one(), m)))
    }

    /// Derive the ratio table. Degenerate rates (exactly 0 or 1), which
    /// would divide by zero here, are already excluded by `ParameterSet`
    /// validation, so derivation is total.
    pub fn derive(ps: &ParameterSet) -> (r: RatioTable)
        requires
            ps.wf(),
        ensures
            r.wf(),
            r.consistent_with(ps),
    {
        let one = rat_from_parts(1, 1);
        let ghost s = rat_value(ps.stay_rate);
        let ghost m = rat_value(ps.state_match);
        let switch_rate = rat_sub(&one, &ps.stay_rate);
        let mismatch_rate = rat_sub(&one, &ps.state_match);
        proof {
            assert(frac_eq(rat_value(one), frac_one()));
            lemma_sub_one(rat_value(one), s, rat_value(switch_rate));
            lemma_sub_one(rat_value(one), m, rat_value(mismatch_rate));
        }
        let stay_over_switch = rat_div(&ps.stay_rate, &switch_rate);
        let match_over_mismatch = rat_div(&ps.state_match, &mismatch_rate);
        proof {
            lemma_div_fix(s, rat_value(switch_rate), rat_value(stay_over_switch));
            lemma_div_fix(m, rat_value(mismatch_rate), rat_value(match_over_mismatch));
        }
        let switch_over_stay = rat_recip(&stay_over_switch);
        let mismatch_over_match = rat_recip(&match_over_mismatch);
        proof {
            lemma_recip_fix(s, rat_value(stay_over_switch), rat_value(switch_over_stay));
            lemma_recip_fix(m, rat_value(match_over_mismatch), rat_value(mismatch_over_match));
        }
        RatioTable { stay_over_switch, switch_over_stay, mismatch_over_match, match_over_mismatch }
    }
}

/// With a rate of exactly one half, both of its likelihood ratios carry
/// the value one.
pub(crate) proof fn lemma_half_ratio_one(v: Frac, s: Frac)
    requires
        v.den > 0,
        s.den > 0,
        0 < s.num < s.den,
        frac_eq(s, frac_new(1, 2)),
        frac_eq(v, frac_div(s, frac_sub(frac_one(), s))) || frac_eq(
            v,
            frac_div(frac_sub(frac_one(), s), s),
        ),
    ensures
        frac_eq(v, frac_one()),
{
    let d = frac_sub(frac_one(), s);
    assert(s.num * d.den == s.den * d.num && d.num * s.den == d.den * s.num && s.den * d.num != 0
        && d.den * s.num != 0) by (nonlinear_arith)
        requires
            s.num * 2 == s.den,
            0 < s.num,
            d.num == s.den - s.num,
            d.den == s.den,
    ;
    if frac_eq(v, frac_div(s, d)) {
        lemma_eq_trans(v, frac_div(s, d), frac_one());
    } else {
        lemma_eq_trans(v, frac_div(d, s), frac_one());
    }
}

/// The exact complement of a rate strictly inside (0, 1) is itself strictly
/// inside (0, 1): both components of its representation are positive and
/// its value is 1 - rate.
pub(crate) proof fn lemma_sub_one(one_rep: Frac, rate: Frac, diff: Frac)
    requires
        frac_eq(one_rep, frac_one()),
        one_rep.den > 0,
        frac_eq(diff, frac_sub(one_rep, rate)),
        diff.den > 0,
        rate.den > 0,
        0 < rate.num < rate.den,
    ensures
        frac_pos(diff),
        frac_eq(diff, frac_sub(frac_one(), rate)),
{
    assert(frac_eq(frac_sub(one_rep, rate), frac_sub(frac_one(), rate))) by {
        lemma_sub_congruence(one_rep, frac_one(), rate, rate);
    }
    assert(frac_eq(diff, frac_sub(frac_one(), rate))) by {
        assert(frac_sub(one_rep, rate).den != 0) by (nonlinear_arith)
            requires
                one_rep.den > 0,
                rate.den > 0,
                frac_sub(one_rep, rate).den == one_rep.den * rate.den,
        ;
        lemma_eq_trans(diff, frac_sub(one_rep, rate), frac_sub(frac_one(), rate));
    }
    assert(frac_pos(frac_sub(frac_one(), rate)));
    lemma_eq_pos(diff, frac_sub(frac_one(), rate));
}

/// Transfers the quotient's characterization from the computed complement
/// back to the defining formula over the rate alone.
proof fn lemma_div_fix(rate: Frac, diff: Frac, quot: Frac)
    requires
        frac_eq(diff, frac_sub(frac_one(), rate)),
        frac_eq(quot, frac_div(rate, diff)),
        quot.den > 0,
        diff.den > 0,
        frac_pos(diff),
        rate.den > 0,
        0 < rate.num < rate.den,
    ensures
        frac_eq(quot, frac_div(rate, frac_sub(frac_one(), rate))),
        frac_pos(quot),
{
    lemma_div_congruence(rate, rate, diff, frac_sub(frac_one(), rate));
    assert(frac_div(rate, diff).den != 0) by (nonlinear_arith)
        requires
            rate.den > 0,
            diff.num > 0,
            frac_div(rate, diff).den == rate.den * diff.num,
    ;
    lemma_eq_trans(quot, frac_div(rate, diff), frac_div(rate, frac_sub(frac_one(), rate)));
    lemma_pos_div(rate, diff);
    lemma_eq_pos(quot, frac_div(rate, diff));
}

/// The reciprocal of a quotient of positives is the reversed quotient.
proof fn lemma_recip_fix(rate: Frac, quot: Frac, rec: Frac)
    requires
        frac_eq(quot, frac_div(rate, frac_sub(frac_one(), rate))),
        frac_eq(rec, frac_recip(quot)),
        frac_pos(quot),
        rec.den > 0,
        rate.den > 0,
        0 < rate.num < rate.den,
    ensures
        frac_eq(rec, frac_div(frac_sub(frac_one(), rate), rate)),
        frac_pos(rec),
{
    let diff = frac_sub(frac_one(), rate);
    assert(frac_eq(frac_recip(quot), frac_div(diff, rate))) by (nonlinear_arith)
        requires
            frac_eq(quot, frac_div(rate, diff)),
            frac_recip(quot).num == quot.den,
            frac_recip(quot).den == quot.num,
            frac_div(rate, diff).num == rate.num * diff.den,
            frac_div(rate, diff).den == rate.den * diff.num,
            frac_div(diff, rate).num == diff.num * rate.den,
            frac_div(diff, rate).den == diff.den * rate.num,
    ;
    lemma_eq_trans(rec, frac_recip(quot), frac_div(diff, rate));
    assert(frac_pos(frac_recip(quot)));
    lemma_eq_pos(rec, frac_recip(quot));
}

} // verus!
