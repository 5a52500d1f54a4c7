use vstd::prelude::*;
use crate::frac::Frac;
use crate::frac::frac_add;
use crate::frac::frac_div;
use crate::frac::frac_eq;
use crate::frac::frac_le;
use crate::frac::frac_lt;
use crate::frac::frac_new;
use crate::frac::frac_pos;
use crate::frac::frac_sub;
use crate::frac::frac_mul;
use crate::frac::frac_one;
use crate::frac::frac_zero;
use crate::frac::lemma_acc_step;
use crate::frac::lemma_add_congruence;
use crate::frac::lemma_div_congruence;
use crate::frac::lemma_eq_pos;
use crate::frac::lemma_eq_pos_add;
use crate::frac::lemma_eq_trans;
use crate::frac::lemma_le_lt_trans;
use crate::frac::lemma_le_trans;
use crate::frac::lemma_lt_le_trans;
use crate::frac::lemma_pos_div;
use crate::exact::rat_add;
use crate::exact::rat_clone;
use crate::exact::rat_den;
use crate::exact::rat_div;
use crate::exact::rat_eq_exact;
use crate::exact::rat_from_parts;
use crate::exact::rat_le;
use crate::exact::rat_lt;
use crate::exact::rat_num;
use crate::exact::rat_sort;
use crate::exact::rat_sub;
use crate::exact::rat_value;
use crate::exact::rat_zero;
use crate::engine::ProbabilityEntry;

verus! {

/// The exact sum of a sequence of fraction values.
pub open spec fn sum_values(s: Seq<Frac>) -> Frac
    decreases s.len(),
{
    if s.len() == 0 {
        frac_zero()
    } else {
        frac_add(sum_values(s.drop_last()), s.last())
    }
}

/// The sum of a sequence of bucket counts.
pub open spec fn sum_counts(s: Seq<u64>) -> int
    decreases s.len(),
{
    if s.len() == 0 {
        0
    } else {
        sum_counts(s.drop_last()) + s.last()
    }
}

/// The paired normalization of two probabilities: the less probable
/// branch's share of the pair's mass, a value in (0, 1/2].
pub open spec fn pair_normal(a: Frac, b: Frac) -> Frac {
    frac_div(if frac_lt(b, a) { b } else { a }, frac_add(a, b))
}

/// How many entries of a sequence hold the given value.
pub open spec fn count_matching(s: Seq<Frac>, p: Frac) -> int
    decreases s.len(),
{
    if s.len() == 0 {
        0
    } else {
        count_matching(s.drop_last(), p) + (if frac_eq(s.last(), p) {
            1int
        } else {
            0int
        })
    }
}

proof fn lemma_count_matching_zero(s: Seq<Frac>, p: Frac)
    requires
        forall|i: int| 0 <= i < s.len() ==> !frac_eq(#[trigger] s[i], p),
    ensures
        count_matching(s, p) == 0,
    decreases s.len(),
{
    if s.len() > 0 {
        assert(forall|i: int|
            0 <= i < s.drop_last().len() ==> #[trigger] s.drop_last()[i] == s[i]);
        lemma_count_matching_zero(s.drop_last(), p);
    }
}

/// The width of one histogram bin: the value span divided by the bucket
/// count.
pub open spec fn bin_width(vals: Seq<Frac>, buckets: int) -> Frac {
    frac_div(frac_sub(vals.last(), vals[0]), frac_new(buckets, 1))
}

/// The lower boundary of bin `k`: the least value plus `k` bin widths.
pub open spec fn bin_lower(vals: Seq<Frac>, buckets: int, k: int) -> Frac {
    frac_add(vals[0], frac_mul(frac_new(k, 1), bin_width(vals, buckets)))
}

/// Whether a value lies in bin `k`: on or above the bin's lower boundary
/// and, except in the final slot, strictly below the next one.
pub open spec fn in_bin(vals: Seq<Frac>, buckets: int, k: int, x: Frac) -> bool {
    frac_le(bin_lower(vals, buckets, k), x) && (k < buckets ==> frac_lt(
        x,
        bin_lower(vals, buckets, k + 1),
    ))
}

/// How many entries of a sequence lie in bin `k`.
pub open spec fn count_in_bin(s: Seq<Frac>, vals: Seq<Frac>, buckets: int, k: int) -> int
    decreases s.len(),
{
    if s.len() == 0 {
        0
    } else {
        count_in_bin(s.drop_last(), vals, buckets, k) + (if in_bin(vals, buckets, k, s.last()) {
            1int
        } else {
            0int
        })
    }
}

/// A bin boundary has a positive denominator whenever the span's pieces do.
proof fn lemma_boundary_den(lo: Frac, w: Frac, k: int)
    by (nonlinear_arith)
    requires
        lo.den > 0,
        w.den > 0,
    ensures
        frac_add(lo, frac_mul(frac_new(k, 1), w)).den > 0,
{
}

/// Adding one width to a bin boundary reaches the next boundary.
#[verifier::rlimit(60)]
proof fn lemma_boundary_step(t2: Frac, t: Frac, lo: Frac, w: Frac, k: int)
    requires
        frac_eq(t2, frac_add(t, w)),
        frac_eq(t, frac_add(lo, frac_mul(frac_new(k, 1), w))),
        t.den > 0,
        lo.den > 0,
        w.den > 0,
    ensures
        frac_eq(t2, frac_add(lo, frac_mul(frac_new(k + 1, 1), w))),
{
    lemma_add_congruence(t, frac_add(lo, frac_mul(frac_new(k, 1), w)), w, w);
    let a = frac_add(lo, frac_mul(frac_new(k, 1), w));
    let x = frac_add(a, w);
    let y = frac_add(lo, frac_mul(frac_new(k + 1, 1), w));
    let p = lo.num;
    let q = lo.den;
    let m = w.num;
    let d = w.den;
    let u = (k + 1) * m;
    assert(x.num == p * d * d + u * (q * d)) by (nonlinear_arith)
        requires
            x.num == (p * d + (k * m) * q) * d + m * (q * d),
            u == (k + 1) * m,
    ;
    assert(x.den == q * d * d) by (nonlinear_arith)
        requires
            x.den == (q * d) * d,
    ;
    assert((p * d * d + u * (q * d)) * (q * d) == (p * d + u * q) * (q * d * d))
        by (nonlinear_arith);
    assert(x.num * y.den == y.num * x.den);
    assert(frac_eq(x, y));
    assert(frac_add(t, w).den != 0) by (nonlinear_arith)
        requires
            t.den > 0,
            w.den > 0,
            frac_add(t, w).den == t.den * w.den,
    ;
    assert(frac_add(frac_add(lo, frac_mul(frac_new(k, 1), w)), w).den != 0) by (nonlinear_arith)
        requires
            lo.den > 0,
            w.den > 0,
            frac_add(frac_add(lo, frac_mul(frac_new(k, 1), w)), w).den == (lo.den * (1 * w.den))
                * w.den,
    ;
    lemma_eq_trans(t2, frac_add(t, w), frac_add(frac_add(lo, frac_mul(frac_new(k, 1), w)), w));
    lemma_eq_trans(
        t2,
        frac_add(frac_add(lo, frac_mul(frac_new(k, 1), w)), w),
        frac_add(lo, frac_mul(frac_new(k + 1, 1), w)),
    );
}

/// With a nonnegative width, bin boundaries are monotone in the index.
proof fn lemma_boundary_mono(lo: Frac, w: Frac, k1: int, k2: int)
    by (nonlinear_arith)
    requires
        k1 <= k2,
        lo.den > 0,
        w.den > 0,
        w.num >= 0,
    ensures
        frac_le(
            frac_add(lo, frac_mul(frac_new(k1, 1), w)),
            frac_add(lo, frac_mul(frac_new(k2, 1), w)),
        ),
{
}

/// The probability values of a table, as a sequence of fractions.
pub open spec fn table_values(entries: Seq<ProbabilityEntry>) -> Seq<Frac> {
    entries.map_values(|e: ProbabilityEntry| rat_value(e.probability))
}

proof fn lemma_sum_counts_nonneg(s: Seq<u64>)
    ensures
        sum_counts(s) >= 0,
    decreases s.len(),
{
    if s.len() > 0 {
        lemma_sum_counts_nonneg(s.drop_last());
    }
}

proof fn lemma_sum_counts_update(s: Seq<u64>, i: int, v: u64)
    requires
        0 <= i < s.len(),
    ensures
        sum_counts(s.update(i, v)) == sum_counts(s) + v - s[i],
    decreases s.len(),
{
    if i == s.len() - 1 {
        assert(s.update(i, v).drop_last() =~= s.drop_last());
    } else {
        assert(s.update(i, v).drop_last() =~= s.drop_last().update(i, v));
        lemma_sum_counts_update(s.drop_last(), i, v);
    }
}

proof fn lemma_sum_counts_bound(s: Seq<u64>, i: int)
    requires
        0 <= i < s.len(),
    ensures
        s[i] <= sum_counts(s),
    decreases s.len(),
{
    if i == s.len() - 1 {
        lemma_sum_counts_nonneg(s.drop_last());
    } else {
        lemma_sum_counts_bound(s.drop_last(), i);
    }
}

/// The exact total probability mass of a table: expected to be exactly 1
/// over a full output space, and reported so that any deviation exposes an
/// engine defect.
pub fn total_probability(entries: &Vec<ProbabilityEntry>) -> (r: num_rational::BigRational)
    requires
        forall|i: int| 0 <= i < entries@.len() ==> (#[trigger] entries@[i]).wf(),
    ensures
        frac_eq(rat_value(r), sum_values(table_values(entries@))),
        rat_den(r) > 0,
{
    let ghost vals = table_values(entries@);
    let mut acc = rat_zero();
    let mut i: usize = 0;
    while i < entries.len()
        invariant
            forall|k: int| 0 <= k < entries@.len() ==> (#[trigger] entries@[k]).wf(),
            i <= entries@.len(),
            vals == table_values(entries@),
            frac_eq(rat_value(acc), sum_values(vals.subrange(0, i as int))),
            rat_den(acc) > 0,
        decreases entries@.len() - i,
    {
        let next = rat_add(&acc, &entries[i].probability);
        proof {
            let prefix = vals.subrange(0, i as int);
            let prefix2 = vals.subrange(0, i + 1);
            assert(prefix2.drop_last() =~= prefix);
            assert(prefix2.last() == rat_value(entries@[i as int].probability));
            lemma_add_congruence(
                rat_value(acc),
                sum_values(prefix),
                rat_value(entries@[i as int].probability),
                rat_value(entries@[i as int].probability),
            );
            assert(frac_add(rat_value(acc), rat_value(entries@[i as int].probability)).den != 0)
                by (nonlinear_arith)
                requires
                    rat_den(acc) > 0,
                    rat_den(entries@[i as int].probability) > 0,
                    frac_add(rat_value(acc), rat_value(entries@[i as int].probability)).den
                        == rat_den(acc) * rat_den(entries@[i as int].probability),
            ;
            lemma_eq_trans(
                rat_value(next),
                frac_add(rat_value(acc), rat_value(entries@[i as int].probability)),
                sum_values(prefix2),
            );
        }
        acc = next;
        i += 1;
    }
    proof {
        assert(vals.subrange(0, vals.len() as int) =~= vals);
    }
    acc
}

/// Consume the table in consecutive pairs and return, for each pair, the
/// exact share of the less probable member in the pair's total mass.
pub fn paired_normalization(entries: &Vec<ProbabilityEntry>) -> (r: Vec<
    num_rational::BigRational,
>)
    requires
        entries@.len() % 2 == 0,
        forall|i: int| 0 <= i < entries@.len() ==> (#[trigger] entries@[i]).wf(),
    ensures
        r@.len() == entries@.len() / 2,
        forall|j: int|
            0 <= j < r@.len() ==> frac_eq(
                rat_value(#[trigger] r@[j]),
                pair_normal(
                    rat_value(entries@[2 * j].probability),
                    rat_value(entries@[2 * j + 1].probability),
                ),
            ),
        forall|j: int| 0 <= j < r@.len() ==> frac_pos(rat_value(#[trigger] r@[j])),
{
    let mut r: Vec<num_rational::BigRational> = Vec::new();
    let len = entries.len();
    let half = len / 2;
    let mut j: usize = 0;
    while j < half
        invariant
            entries@.len() % 2 == 0,
            len == entries@.len(),
            half == entries@.len() / 2,
            forall|k: int| 0 <= k < entries@.len() ==> (#[trigger] entries@[k]).wf(),
            j <= half,
            r@.len() == j,
            forall|k: int|
                0 <= k < r@.len() ==> frac_eq(
                    rat_value(#[trigger] r@[k]),
                    pair_normal(
                        rat_value(entries@[2 * k].probability),
                        rat_value(entries@[2 * k + 1].probability),
                    ),
                ),
            forall|k: int| 0 <= k < r@.len() ==> frac_pos(rat_value(#[trigger] r@[k])),
        decreases half - j,
    {
        let a = &entries[2 * j].probability;
        let b = &entries[2 * j + 1].probability;
        let sp = rat_add(a, b);
        proof {
            lemma_eq_pos_add(rat_value(sp), rat_value(*a), rat_value(*b));
        }
        let less = if rat_lt(b, a) {
            b
        } else {
            a
        };
        let q = rat_div(less, &sp);
        proof {
            let ghost va = rat_value(*a);
            let ghost vb = rat_value(*b);
            let ghost vmin = if frac_lt(vb, va) {
                vb
            } else {
                va
            };
            lemma_div_congruence(vmin, vmin, rat_value(sp), frac_add(va, vb));
            assert(frac_div(vmin, rat_value(sp)).den != 0) by (nonlinear_arith)
                requires
                    vmin.den > 0,
                    rat_num(sp) > 0,
                    frac_div(vmin, rat_value(sp)).den == vmin.den * rat_num(sp),
            ;
            lemma_eq_trans(rat_value(q), frac_div(vmin, rat_value(sp)), pair_normal(va, vb));
            lemma_pos_div(vmin, rat_value(sp));
            lemma_eq_pos(rat_value(q), frac_div(vmin, rat_value(sp)));
        }
        r.push(q);
        j += 1;
    }
    r
}

/// Bucket the sorted normalized values into `buckets` equal-width bins
/// spanning [min, max]; the extra final slot collects the values that sit
/// on or above the upper bound. Each value is counted in exactly the bin
/// whose boundaries enclose it, and the counts add up to the number of
/// values.
pub fn histogram_counts(values: &Vec<num_rational::BigRational>, buckets: usize) -> (r: Vec<u64>)
    requires
        1 <= buckets < usize::MAX,
        values@.len() >= 1,
        forall|i: int| 0 <= i < values@.len() ==> rat_den(#[trigger] values@[i]) > 0,
        forall|i: int| 0 <= i < values@.len() ==> rat_num(#[trigger] values@[i]) > 0,
        forall|i: int, j: int|
            0 <= i < j < values@.len() ==> frac_le(
                rat_value(#[trigger] values@[i]),
                rat_value(#[trigger] values@[j]),
            ),
    ensures
        r@.len() == buckets + 1,
        sum_counts(r@) == values@.len(),
        forall|k: int|
            0 <= k <= buckets ==> #[trigger] r@[k] == count_in_bin(
                values@.map_values(|x: num_rational::BigRational| rat_value(x)),
                values@.map_values(|x: num_rational::BigRational| rat_value(x)),
                buckets as int,
                k,
            ),
{
    let ghost vals = values@.map_values(|x: num_rational::BigRational| rat_value(x));
    let ghost bkt = buckets as int;
    let ghost w = bin_width(vals, bkt);
    let mut counts: Vec<u64> = Vec::new();
    while counts.len() < buckets + 1
        invariant
            counts@.len() <= buckets + 1,
            sum_counts(counts@) == 0,
            forall|k: int| 0 <= k < counts@.len() ==> #[trigger] counts@[k] == 0,
            buckets < usize::MAX,
        decreases buckets + 1 - counts@.len(),
    {
        proof {
            assert(counts@.push(0u64).drop_last() =~= counts@);
        }
        counts.push(0);
    }
    let lo = rat_clone(&values[0]);
    let width_den = rat_from_parts(buckets as u64, 1);
    proof {
        lemma_eq_pos(rat_value(width_den), frac_new(buckets as int, 1));
    }
    let hi = rat_clone(&values[values.len() - 1]);
    let diff = rat_sub(&hi, &lo);
    let width = rat_div(&diff, &width_den);
    proof {
        assert(vals[0] == rat_value(values@[0]));
        assert(vals.last() == rat_value(values@[values@.len() - 1]));
        // the computed width carries the bin width's value
        lemma_div_congruence(
            rat_value(diff),
            frac_sub(vals.last(), vals[0]),
            rat_value(width_den),
            frac_new(bkt, 1),
        );
        assert(frac_div(rat_value(diff), rat_value(width_den)).den != 0) by (nonlinear_arith)
            requires
                rat_den(diff) > 0,
                rat_num(width_den) > 0,
                frac_div(rat_value(diff), rat_value(width_den)).den == rat_den(diff) * rat_num(
                    width_den,
                ),
        ;
        lemma_eq_trans(
            rat_value(width),
            frac_div(rat_value(diff), rat_value(width_den)),
            w,
        );
        assert(w.den > 0) by (nonlinear_arith)
            requires
                vals.last().den > 0,
                vals[0].den > 0,
                bkt >= 1,
                w.den == (vals.last().den * vals[0].den) * bkt,
        ;
        assert(w.num >= 0);
    }
    let mut cur = rat_add(&lo, &width);
    proof {
        lemma_add_congruence(rat_value(lo), vals[0], rat_value(width), w);
        assert(frac_add(vals[0], rat_value(width)).den != 0) by (nonlinear_arith)
            requires
                vals[0].den > 0,
                rat_den(width) > 0,
                frac_add(vals[0], rat_value(width)).den == vals[0].den * rat_den(width),
        ;
        lemma_eq_trans(rat_value(cur), frac_add(vals[0], rat_value(width)), frac_add(vals[0], w));
        assert(frac_add(vals[0], w) == bin_lower(vals, bkt, 1));
    }
    let mut c: u64 = 0;
    let mut vi: usize = 0;
    while vi < values.len()
        invariant
            forall|i: int| 0 <= i < values@.len() ==> rat_den(#[trigger] values@[i]) > 0,
            forall|i: int, j: int|
                0 <= i < j < values@.len() ==> frac_le(
                    rat_value(#[trigger] values@[i]),
                    rat_value(#[trigger] values@[j]),
                ),
            vals == values@.map_values(|x: num_rational::BigRational| rat_value(x)),
            forall|i: int| 0 <= i < vals.len() ==> #[trigger] vals[i] == rat_value(values@[i]),
            vals.len() >= 1,
            bkt == buckets as int,
            w == bin_width(vals, bkt),
            w.den > 0,
            w.num >= 0,
            vi <= values@.len(),
            values@.len() <= usize::MAX,
            c <= buckets,
            1 <= buckets < usize::MAX,
            counts@.len() == buckets + 1,
            sum_counts(counts@) == vi,
            forall|k: int|
                0 <= k <= bkt ==> #[trigger] counts@[k] == count_in_bin(
                    vals.subrange(0, vi as int),
                    vals,
                    bkt,
                    k,
                ),
            rat_den(cur) > 0,
            rat_den(width) > 0,
            frac_eq(rat_value(width), w),
            frac_eq(rat_value(cur), bin_lower(vals, bkt, c + 1)),
            vi == 0 ==> c == 0,
            vi > 0 ==> frac_le(bin_lower(vals, bkt, c as int), vals[vi - 1]),
        decreases values@.len() - vi,
    {
        let ghost prefix = vals.subrange(0, vi as int);
        let ghost prefix2 = vals.subrange(0, vi + 1);
        proof {
            assert(prefix2.drop_last() =~= prefix);
            assert(prefix2.last() == vals[vi as int]);
            lemma_boundary_den(vals[0], w, c as int);
            if vi > 0 {
                lemma_le_trans(bin_lower(vals, bkt, c as int), vals[vi - 1], vals[vi as int]);
            } else {
                assert(frac_le(bin_lower(vals, bkt, 0), vals[0])) by (nonlinear_arith)
                    requires
                        vals[0].den > 0,
                        w.den > 0,
                        bin_lower(vals, bkt, 0).num == vals[0].num * (1 * w.den) + (0 * w.num)
                            * vals[0].den,
                        bin_lower(vals, bkt, 0).den == vals[0].den * (1 * w.den),
                ;
            }
        }
        while c < buckets as u64 && rat_le(&cur, &values[vi])
            invariant
                forall|i: int| 0 <= i < values@.len() ==> rat_den(#[trigger] values@[i]) > 0,
                vals == values@.map_values(|x: num_rational::BigRational| rat_value(x)),
                forall|i: int|
                    0 <= i < vals.len() ==> #[trigger] vals[i] == rat_value(values@[i]),
                vals.len() >= 1,
                bkt == buckets as int,
                w == bin_width(vals, bkt),
                w.den > 0,
                vi < values@.len(),
                c <= buckets,
                1 <= buckets < usize::MAX,
                rat_den(cur) > 0,
                rat_den(width) > 0,
                frac_eq(rat_value(width), w),
                frac_eq(rat_value(cur), bin_lower(vals, bkt, c + 1)),
                frac_le(bin_lower(vals, bkt, c as int), vals[vi as int]),
            decreases buckets - c,
        {
            proof {
                lemma_boundary_den(vals[0], w, c + 1);
                lemma_le_trans(
                    bin_lower(vals, bkt, c + 1),
                    rat_value(cur),
                    vals[vi as int],
                );
            }
            c = c + 1;
            let cur2 = rat_add(&cur, &width);
            proof {
                lemma_add_congruence(rat_value(cur), rat_value(cur), rat_value(width), w);
                assert(frac_add(rat_value(cur), rat_value(width)).den != 0) by (nonlinear_arith)
                    requires
                        rat_den(cur) > 0,
                        rat_den(width) > 0,
                        frac_add(rat_value(cur), rat_value(width)).den == rat_den(cur) * rat_den(
                            width,
                        ),
                ;
                lemma_eq_trans(
                    rat_value(cur2),
                    frac_add(rat_value(cur), rat_value(width)),
                    frac_add(rat_value(cur), w),
                );
                lemma_boundary_step(rat_value(cur2), rat_value(cur), vals[0], w, c as int);
            }
            cur = cur2;
        }
        proof {
            lemma_boundary_den(vals[0], w, c as int);
            lemma_boundary_den(vals[0], w, c + 1);
            // the current value lies in bin c
            if (c as int) < bkt {
                assert(frac_lt(vals[vi as int], rat_value(cur)));
                lemma_lt_le_trans(
                    vals[vi as int],
                    rat_value(cur),
                    bin_lower(vals, bkt, c + 1),
                );
            }
            assert(in_bin(vals, bkt, c as int, vals[vi as int]));
            // and in no other bin
            assert forall|k: int| 0 <= k <= bkt && k != c as int implies !in_bin(
                vals,
                bkt,
                k,
                vals[vi as int],
            ) by {
                lemma_boundary_den(vals[0], w, k);
                lemma_boundary_den(vals[0], w, k + 1);
                if k < c as int {
                    lemma_boundary_mono(vals[0], w, k + 1, c as int);
                    lemma_le_trans(
                        bin_lower(vals, bkt, k + 1),
                        bin_lower(vals, bkt, c as int),
                        vals[vi as int],
                    );
                } else {
                    lemma_boundary_mono(vals[0], w, c + 1, k);
                    lemma_lt_le_trans(
                        vals[vi as int],
                        bin_lower(vals, bkt, c + 1),
                        bin_lower(vals, bkt, k),
                    );
                }
            }
        }
        let ci = c as usize;
        let current_count = counts[ci];
        proof {
            lemma_sum_counts_bound(counts@, ci as int);
            lemma_sum_counts_update(counts@, ci as int, (current_count + 1) as u64);
        }
        let ghost old_counts = counts@;
        counts[ci] = current_count + 1;
        proof {
            assert forall|k: int| 0 <= k <= bkt implies #[trigger] counts@[k] == count_in_bin(
                prefix2,
                vals,
                bkt,
                k,
            ) by {
                if k != c as int {
                    assert(counts@[k] == old_counts[k]);
                }
            }
        }
        vi += 1;
    }
    proof {
        assert(vals.subrange(0, vals.len() as int) =~= vals);
    }
    counts
}

/// Run-length encode the sorted normalized values: each distinct exact
/// value with its true multiplicity over the input, keys strictly
/// ascending, every input value accounted for. Distinguished from the
/// histogram, which merges by proximity rather than equality.
pub fn multiplicities(values: &Vec<num_rational::BigRational>) -> (r: Vec<
    (num_rational::BigRational, u64),
>)
    requires
        forall|i: int| 0 <= i < values@.len() ==> rat_den(#[trigger] values@[i]) > 0,
        forall|i: int, j: int|
            0 <= i < j < values@.len() ==> frac_le(
                rat_value(#[trigger] values@[i]),
                rat_value(#[trigger] values@[j]),
            ),
    ensures
        sum_counts(r@.map_values(|p: (num_rational::BigRational, u64)| p.1)) == values@.len(),
        forall|i: int| 0 <= i < r@.len() ==> (#[trigger] r@[i]).1 >= 1,
        forall|i: int, j: int|
            0 <= i < j < r@.len() ==> frac_lt(
                rat_value((#[trigger] r@[i]).0),
                rat_value((#[trigger] r@[j]).0),
            ),
        forall|k: int|
            0 <= k < r@.len() ==> (#[trigger] r@[k]).1 == count_matching(
                values@.map_values(|x: num_rational::BigRational| rat_value(x)),
                rat_value(r@[k].0),
            ),
        forall|i: int|
            0 <= i < values@.len() ==> exists|k: int|
                0 <= k < r@.len() && frac_eq(
                    rat_value(#[trigger] values@[i]),
                    rat_value((#[trigger] r@[k]).0),
                ),
        values@.len() == 0 ==> r@.len() == 0,
        values@.len() > 0 ==> r@.len() >= 1,
{
    let mut r: Vec<(num_rational::BigRational, u64)> = Vec::new();
    let len = values.len();
    let ghost vals = values@.map_values(|x: num_rational::BigRational| rat_value(x));
    let mut vi: usize = 0;
    while vi < len
        invariant
            forall|i: int| 0 <= i < values@.len() ==> rat_den(#[trigger] values@[i]) > 0,
            forall|i: int, j: int|
                0 <= i < j < values@.len() ==> frac_le(
                    rat_value(#[trigger] values@[i]),
                    rat_value(#[trigger] values@[j]),
                ),
            vi <= values@.len(),
            len == values@.len(),
            vals == values@.map_values(|x: num_rational::BigRational| rat_value(x)),
            forall|i: int| 0 <= i < vals.len() ==> #[trigger] vals[i] == rat_value(values@[i]),
            sum_counts(r@.map_values(|p: (num_rational::BigRational, u64)| p.1)) == vi,
            forall|i: int| 0 <= i < r@.len() ==> (#[trigger] r@[i]).1 >= 1,
            forall|i: int, j: int|
                0 <= i < j < r@.len() ==> frac_lt(
                    rat_value((#[trigger] r@[i]).0),
                    rat_value((#[trigger] r@[j]).0),
                ),
            forall|i: int| 0 <= i < r@.len() ==> rat_den((#[trigger] r@[i]).0) > 0,
            forall|k: int|
                0 <= k < r@.len() ==> (#[trigger] r@[k]).1 == count_matching(
                    vals.subrange(0, vi as int),
                    rat_value(r@[k].0),
                ),
            forall|i: int|
                0 <= i < vi ==> exists|k: int|
                    0 <= k < r@.len() && frac_eq(
                        #[trigger] vals[i],
                        rat_value((#[trigger] r@[k]).0),
                    ),
            vi == 0 ==> r@.len() == 0,
            vi > 0 ==> r@.len() >= 1 && frac_le(
                rat_value(r@[r@.len() - 1].0),
                rat_value(values@[vi - 1]),
            ),
        decreases values@.len() - vi,
    {
        let ghost old_r = r@;
        let ghost old_counts = r@.map_values(|p: (num_rational::BigRational, u64)| p.1);
        let ghost prefix = vals.subrange(0, vi as int);
        let ghost prefix2 = vals.subrange(0, vi + 1);
        proof {
            assert(prefix2.drop_last() =~= prefix);
            assert(prefix2.last() == vals[vi as int]);
        }
        let v = rat_clone(&values[vi]);
        let rlen = r.len();
        if rlen > 0 && rat_eq_exact(&r[rlen - 1].0, &v) {
            let key = rat_clone(&r[rlen - 1].0);
            let cnt = r[rlen - 1].1;
            proof {
                lemma_sum_counts_bound(old_counts, rlen - 1);
            }
            r[rlen - 1] = (key, cnt + 1);
            proof {
                let new_counts = r@.map_values(|p: (num_rational::BigRational, u64)| p.1);
                assert(new_counts =~= old_counts.update(rlen - 1, (cnt + 1) as u64));
                lemma_sum_counts_update(old_counts, rlen - 1, (cnt + 1) as u64);
                assert forall|k: int| 0 <= k < r@.len() implies rat_value((#[trigger] r@[k]).0)
                    == rat_value(old_r[k].0) by {}
                assert forall|k: int| 0 <= k < r@.len() implies (#[trigger] r@[k]).1
                    == count_matching(prefix2, rat_value(r@[k].0)) by {
                    if k < rlen - 1 {
                        lemma_lt_le_trans(
                            rat_value(old_r[k].0),
                            rat_value(old_r[rlen - 1].0),
                            vals[vi as int],
                        );
                        assert(!frac_eq(prefix2.last(), rat_value(r@[k].0)));
                    } else {
                        assert(frac_eq(prefix2.last(), rat_value(r@[k].0)));
                    }
                }
                assert forall|i: int| 0 <= i < vi + 1 implies exists|k: int|
                    0 <= k < r@.len() && frac_eq(
                        #[trigger] vals[i],
                        rat_value((#[trigger] r@[k]).0),
                    ) by {
                    if i < vi {
                        let k0 = choose|k0: int|
                            0 <= k0 < old_r.len() && frac_eq(
                                vals[i],
                                rat_value((old_r[k0]).0),
                            );
                        assert(0 <= k0 < r@.len() && frac_eq(vals[i], rat_value((r@[k0]).0)));
                    } else {
                        assert(frac_eq(vals[i], rat_value((r@[rlen - 1]).0)));
                    }
                }
            }
        } else {
            proof {
                if rlen > 0 {
                    lemma_le_trans(
                        rat_value(old_r[rlen - 1].0),
                        rat_value(values@[vi - 1]),
                        rat_value(values@[vi as int]),
                    );
                }
                let new_counts = r@.push((v, 1u64)).map_values(
                    |p: (num_rational::BigRational, u64)| p.1,
                );
                assert(new_counts =~= old_counts.push(1u64));
                assert(old_counts.push(1u64).drop_last() =~= old_counts);
            }
            r.push((v, 1));
            proof {
                assert forall|k: int| 0 <= k < rlen implies frac_lt(
                    rat_value((#[trigger] old_r[k]).0),
                    vals[vi as int],
                ) by {
                    if k < rlen - 1 {
                        lemma_lt_le_trans(
                            rat_value(old_r[k].0),
                            rat_value(old_r[rlen - 1].0),
                            vals[vi as int],
                        );
                    }
                }
                assert forall|i: int, j: int| 0 <= i < j < r@.len() implies frac_lt(
                    rat_value((#[trigger] r@[i]).0),
                    rat_value((#[trigger] r@[j]).0),
                ) by {
                    assert(r@[i] == old_r[i]);
                    if j < rlen {
                        assert(r@[j] == old_r[j]);
                    } else {
                        assert(rat_value((r@[j]).0) == vals[vi as int]);
                    }
                }
                assert forall|k: int| 0 <= k < r@.len() implies (#[trigger] r@[k]).1
                    == count_matching(prefix2, rat_value(r@[k].0)) by {
                    if k < rlen {
                        assert(r@[k] == old_r[k]);
                        assert(!frac_eq(prefix2.last(), rat_value(r@[k].0)));
                    } else {
                        assert(rat_value((r@[k]).0) == vals[vi as int]);
                        assert forall|i: int| 0 <= i < prefix.len() implies !frac_eq(
                            #[trigger] prefix[i],
                            rat_value((r@[k]).0),
                        ) by {
                            let k0 = choose|k0: int|
                                0 <= k0 < old_r.len() && frac_eq(
                                    vals[i],
                                    rat_value((old_r[k0]).0),
                                );
                            lemma_le_lt_trans(
                                vals[i],
                                rat_value(old_r[k0].0),
                                vals[vi as int],
                            );
                        }
                        lemma_count_matching_zero(prefix, rat_value((r@[k]).0));
                        assert(frac_eq(prefix2.last(), rat_value(r@[k].0)));
                    }
                }
                assert forall|i: int| 0 <= i < vi + 1 implies exists|k: int|
                    0 <= k < r@.len() && frac_eq(
                        #[trigger] vals[i],
                        rat_value((#[trigger] r@[k]).0),
                    ) by {
                    if i < vi {
                        let k0 = choose|k0: int|
                            0 <= k0 < old_r.len() && frac_eq(
                                vals[i],
                                rat_value((old_r[k0]).0),
                            );
                        assert(0 <= k0 < r@.len() && frac_eq(vals[i], rat_value((r@[k0]).0)));
                    } else {
                        assert(frac_eq(vals[i], rat_value((r@[rlen as int]).0)));
                    }
                }
            }
        }
        vi += 1;
    }
    proof {
        assert(vals.subrange(0, vals.len() as int) =~= vals);
        assert forall|i: int| 0 <= i < values@.len() implies exists|k: int|
            0 <= k < r@.len() && frac_eq(
                rat_value(#[trigger] values@[i]),
                rat_value((#[trigger] r@[k]).0),
            ) by {
            let k0 = choose|k0: int|
                0 <= k0 < r@.len() && frac_eq(#[trigger] vals[i], rat_value((#[trigger] r@[k0]).0));
            assert(0 <= k0 < r@.len() && frac_eq(rat_value(values@[i]), rat_value((r@[k0]).0)));
        }
    }
    r
}

/// All distributional statistics derived from a finished probability
/// table: the exact total mass, the sorted paired-normalization values,
/// the histogram bucket counts, and the exact-value multiplicities.
/// Rebuilt from scratch for every run, never mutated incrementally.
pub struct DistributionStatistics {
    /// The exact sum of all probabilities; exactly 1 over a full table.
    pub total: num_rational::BigRational,
    /// The paired-normalization values, sorted ascending.
    pub normalized: Vec<num_rational::BigRational>,
    /// Bucket counts over [min, max] of the normalized values; the final
    /// extra slot holds the values sitting exactly on the upper bound.
    pub histogram: Vec<u64>,
    /// Each distinct exact normalized value with its multiplicity, keys
    /// strictly ascending.
    pub multiplicity: Vec<(num_rational::BigRational, u64)>,
}

/// Derive every statistic from a probability table. The histogram's
/// counts always sum to the number of pairs, and the multiplicity counts
/// do too.
pub fn derive_statistics(entries: &Vec<ProbabilityEntry>, buckets: usize) -> (r:
    DistributionStatistics)
    requires
        entries@.len() >= 2,
        entries@.len() % 2 == 0,
        1 <= buckets < usize::MAX,
        forall|i: int| 0 <= i < entries@.len() ==> (#[trigger] entries@[i]).wf(),
    ensures
        frac_eq(rat_value(r.total), sum_values(table_values(entries@))),
        r.normalized@.len() == entries@.len() / 2,
        forall|i: int, j: int|
            0 <= i < j < r.normalized@.len() ==> frac_le(
                rat_value(#[trigger] r.normalized@[i]),
                rat_value(#[trigger] r.normalized@[j]),
            ),
        r.histogram@.len() == buckets + 1,
        sum_counts(r.histogram@) == entries@.len() / 2,
        forall|k: int|
            0 <= k <= buckets ==> #[trigger] r.histogram@[k] == count_in_bin(
                r.normalized@.map_values(|x: num_rational::BigRational| rat_value(x)),
                r.normalized@.map_values(|x: num_rational::BigRational| rat_value(x)),
                buckets as int,
                k,
            ),
        sum_counts(r.multiplicity@.map_values(|p: (num_rational::BigRational, u64)| p.1))
            == entries@.len() / 2,
        forall|i: int| 0 <= i < r.multiplicity@.len() ==> (#[trigger] r.multiplicity@[i]).1 >= 1,
        forall|i: int, j: int|
            0 <= i < j < r.multiplicity@.len() ==> frac_lt(
                rat_value((#[trigger] r.multiplicity@[i]).0),
                rat_value((#[trigger] r.multiplicity@[j]).0),
            ),
        forall|k: int|
            0 <= k < r.multiplicity@.len() ==> (#[trigger] r.multiplicity@[k]).1
                == count_matching(
                r.normalized@.map_values(|x: num_rational::BigRational| rat_value(x)),
                rat_value(r.multiplicity@[k].0),
            ),
        forall|i: int|
            0 <= i < r.normalized@.len() ==> exists|k: int|
                0 <= k < r.multiplicity@.len() && frac_eq(
                    rat_value(#[trigger] r.normalized@[i]),
                    rat_value((#[trigger] r.multiplicity@[k]).0),
                ),
        exists|pn: Seq<num_rational::BigRational>|
            (#[trigger] pn.len()) == entries@.len() / 2 && r.normalized@.to_multiset()
                == pn.to_multiset() && (forall|j: int|
                0 <= j < pn.len() ==> frac_eq(
                    rat_value(#[trigger] pn[j]),
                    pair_normal(
                        rat_value(entries@[2 * j].probability),
                        rat_value(entries@[2 * j + 1].probability),
                    ),
                )),
{
    let total = total_probability(entries);
    let mut normalized = paired_normalization(entries);
    let ghost pre = normalized@;
    rat_sort(&mut normalized);
    let histogram = histogram_counts(&normalized, buckets);
    let multiplicity = multiplicities(&normalized);
    let r = DistributionStatistics { total, normalized, histogram, multiplicity };
    proof {
        assert forall|i: int| 0 <= i < r.normalized@.len() implies exists|k: int|
            0 <= k < r.multiplicity@.len() && frac_eq(
                rat_value(#[trigger] r.normalized@[i]),
                rat_value((#[trigger] r.multiplicity@[k]).0),
            ) by {
            let k0 = choose|k0: int|
                0 <= k0 < r.multiplicity@.len() && frac_eq(
                    rat_value(r.normalized@[i]),
                    rat_value((#[trigger] r.multiplicity@[k0]).0),
                );
            assert(0 <= k0 < r.multiplicity@.len() && frac_eq(
                rat_value(r.normalized@[i]),
                rat_value((r.multiplicity@[k0]).0),
            ));
        }
        assert(pre.len() == entries@.len() / 2 && r.normalized@.to_multiset()
            == pre.to_multiset() && (forall|j: int|
            0 <= j < pre.len() ==> frac_eq(
                rat_value(#[trigger] pre[j]),
                pair_normal(
                    rat_value(entries@[2 * j].probability),
                    rat_value(entries@[2 * j + 1].probability),
                ),
            )));
    }
    r
}


/// The denominator of a sum of well-formed fractions stays positive.
proof fn lemma_sum_den_pos(s: Seq<Frac>)
    requires
        forall|i: int| 0 <= i < s.len() ==> (#[trigger] s[i]).den > 0,
    ensures
        sum_values(s).den > 0,
    decreases s.len(),
{
    if s.len() > 0 {
        lemma_sum_den_pos(s.drop_last());
        assert(sum_values(s.drop_last()).den * s.last().den > 0) by (nonlinear_arith)
            requires
                sum_values(s.drop_last()).den > 0,
                s.last().den > 0,
        ;
    }
}

/// A sequence of value-equal fractions sums to the count times the value.
pub proof fn lemma_sum_constant(s: Seq<Frac>, p: Frac)
    requires
        p.den > 0,
        forall|i: int| 0 <= i < s.len() ==> (#[trigger] s[i]).den > 0,
        forall|i: int| 0 <= i < s.len() ==> frac_eq(#[trigger] s[i], p),
    ensures
        frac_eq(sum_values(s), frac_mul(frac_new(s.len() as int, 1), p)),
    decreases s.len(),
{
    if s.len() == 0 {
        assert(frac_eq(frac_zero(), frac_mul(frac_new(0, 1), p))) by (nonlinear_arith)
            requires
                frac_mul(frac_new(0, 1), p).num == 0 * p.num,
                frac_mul(frac_new(0, 1), p).den == 1 * p.den,
        ;
    } else {
        lemma_sum_constant(s.drop_last(), p);
        lemma_sum_den_pos(s.drop_last());
        lemma_acc_step(
            sum_values(s),
            sum_values(s.drop_last()),
            s.last(),
            p,
            s.len() - 1,
        );
    }
}

/// Over a full table of the degenerate uniform configuration, in which
/// every output word carries probability one over the word count, the
/// probabilities sum to exactly one.
pub proof fn lemma_uniform_sum_is_one(entries: Seq<ProbabilityEntry>, n: u64)
    requires
        1 <= n <= 63,
        entries.len() == (1u64 << n),
        forall|i: int|
            0 <= i < entries.len() ==> rat_den((#[trigger] entries[i]).probability) > 0,
        forall|i: int|
            0 <= i < entries.len() ==> frac_eq(
                rat_value((#[trigger] entries[i]).probability),
                frac_new(1, (1u64 << n) as int),
            ),
    ensures
        frac_eq(sum_values(table_values(entries)), frac_one()),
{
    let p = frac_new(1, (1u64 << n) as int);
    let vals = table_values(entries);
    assert((1u64 << n) >= 1) by (bit_vector)
        requires
            n <= 63,
    ;
    assert(forall|i: int|
        0 <= i < vals.len() ==> #[trigger] vals[i] == rat_value(entries[i].probability));
    lemma_sum_constant(vals, p);
    assert(frac_eq(frac_mul(frac_new(vals.len() as int, 1), p), frac_one()) && frac_mul(
        frac_new(vals.len() as int, 1),
        p,
    ).den != 0) by (nonlinear_arith)
        requires
            vals.len() == (1u64 << n),
            (1u64 << n) >= 1,
            p.num == 1,
            p.den == (1u64 << n) as int,
            frac_mul(frac_new(vals.len() as int, 1), p).num == vals.len() as int * p.num,
            frac_mul(frac_new(vals.len() as int, 1), p).den == 1 * p.den,
    ;
    lemma_eq_trans(
        sum_values(vals),
        frac_mul(frac_new(vals.len() as int, 1), p),
        frac_one(),
    );
}

} // verus!
