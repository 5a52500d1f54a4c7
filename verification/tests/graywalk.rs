use graywalk::engine::ProbabilityEntry;
use graywalk::engine::compute;
use graywalk::engine::is_set;
use graywalk::engine::lowest_set_bit;
use graywalk::params::ParamError;
use graywalk::params::ParameterSet;
use graywalk::params::RatioTable;
use graywalk::stats::derive_statistics;
use graywalk::stats::histogram_counts;
use graywalk::stats::multiplicities;
use graywalk::stats::total_probability;
use num_bigint::BigInt;
use num_rational::BigRational;
use num_traits::ToPrimitive;

fn rat(n: i64, d: i64) -> BigRational {
    BigRational::new(BigInt::from(n), BigInt::from(d))
}

fn setup(n: u32, sn: u64, sd: u64, mn: u64, md: u64, buckets: usize) -> (ParameterSet, RatioTable) {
    let ps = ParameterSet::new(n, sn, sd, mn, md, buckets).unwrap();
    let rt = RatioTable::derive(&ps);
    (ps, rt)
}

fn full_table(n: u32, sn: u64, sd: u64, mn: u64, md: u64) -> Vec<ProbabilityEntry> {
    let (ps, rt) = setup(n, sn, sd, mn, md, 4);
    compute(0, 1u64 << n, &ps, &rt)
}

/// Direct evaluation of the line model: for every output word, sum the
/// joint probability over all hidden states, with no incremental tricks.
fn brute_force_marginals(n: u32, stay: &BigRational, mat: &BigRational) -> Vec<(u64, BigRational)> {
    let one = BigRational::from_integer(BigInt::from(1));
    let half = rat(1, 2);
    let mut out = Vec::new();
    for idx in 0..(1u64 << n) {
        let w = idx ^ (idx >> 1);
        let mut sum = BigRational::from_integer(BigInt::from(0));
        for h in 0..(1u64 << n) {
            let mut p = half.clone();
            for j in 1..n {
                let same = ((h >> j) & 1) == ((h >> (j - 1)) & 1);
                p = p * if same { stay.clone() } else { one.clone() - stay.clone() };
            }
            for j in 0..n {
                let m = ((h >> j) & 1) == ((w >> j) & 1);
                p = p * if m { mat.clone() } else { one.clone() - mat.clone() };
            }
            sum = sum + p;
        }
        out.push((w, sum));
    }
    out
}

#[test]
fn probabilities_sum_to_one() {
    for (n, sn, sd, mn, md) in [(1, 1, 2, 3, 4), (2, 1, 2, 3, 4), (3, 2, 3, 999, 1000), (4, 1, 7, 5, 9)] {
        let table = full_table(n, sn, sd, mn, md);
        assert_eq!(table.len(), 1usize << n);
        let total = total_probability(&table);
        assert_eq!(total, BigRational::from_integer(BigInt::from(1)));
    }
}

#[test]
fn words_follow_gray_order() {
    let table = full_table(3, 2, 3, 3, 4);
    let words: Vec<u64> = table.iter().map(|e| e.word).collect();
    assert_eq!(words, vec![0, 1, 3, 2, 6, 7, 5, 4]);
    for n in 1..7u32 {
        let table = full_table(n, 2, 3, 3, 4);
        let mut seen = vec![false; 1 << n];
        for pair in table.windows(2) {
            let d = pair[0].word ^ pair[1].word;
            assert!(d != 0 && d & (d - 1) == 0);
        }
        for e in table.iter() {
            assert!(!seen[e.word as usize]);
            seen[e.word as usize] = true;
        }
        assert!(seen.iter().all(|s| *s));
    }
}

#[test]
fn degenerate_rates_give_uniform_table() {
    let n = 3u32;
    let table = full_table(n, 1, 2, 1, 2);
    let expected = rat(1, 1 << n);
    for e in table.iter() {
        assert_eq!(e.probability, expected);
    }
    let mut entropy = 0.0f64;
    for e in table.iter() {
        let p = e.probability.to_f64().unwrap();
        entropy += p * p.log2();
    }
    assert_eq!(-entropy, n as f64);
}

#[test]
fn repeated_runs_are_bit_identical() {
    let a = full_table(4, 2, 3, 999, 1000);
    let b = full_table(4, 2, 3, 999, 1000);
    assert_eq!(a.len(), b.len());
    for (x, y) in a.iter().zip(b.iter()) {
        assert_eq!(x.word, y.word);
        assert_eq!(x.probability, y.probability);
    }
}

#[test]
fn statistics_derivation_is_idempotent() {
    let table = full_table(4, 2, 3, 9, 10);
    let s1 = derive_statistics(&table, 8);
    let s2 = derive_statistics(&table, 8);
    assert_eq!(s1.total, s2.total);
    assert_eq!(s1.normalized, s2.normalized);
    assert_eq!(s1.histogram, s2.histogram);
    assert_eq!(s1.multiplicity, s2.multiplicity);
}

#[test]
fn two_cell_scenario_matches_analytic_values() {
    let (ps, rt) = setup(2, 1, 2, 3, 4, 4);
    let table = compute(0, 4, &ps, &rt);
    let reference = brute_force_marginals(2, &rat(1, 2), &rat(3, 4));
    assert_eq!(table.len(), reference.len());
    for (e, (w, p)) in table.iter().zip(reference.iter()) {
        assert_eq!(e.word, *w);
        assert_eq!(&e.probability, p);
    }
    // With no spatial correlation the four words split into symmetric
    // pairs of identical mass; numerically each pair carries 1/4 + 1/4.
    assert_eq!(table[0].probability, table[3].probability);
    assert_eq!(table[1].probability, table[2].probability);
    for e in table.iter() {
        let p = e.probability.to_f64().unwrap();
        assert!((p - 0.25).abs() < 1e-9);
    }
}

#[test]
fn engine_matches_direct_model_evaluation() {
    let (ps, rt) = setup(3, 2, 3, 999, 1000, 4);
    let table = compute(0, 8, &ps, &rt);
    let reference = brute_force_marginals(3, &rat(2, 3), &rat(999, 1000));
    for (e, (w, p)) in table.iter().zip(reference.iter()) {
        assert_eq!(e.word, *w);
        assert_eq!(&e.probability, p);
    }
}

#[test]
fn single_cell_boundary() {
    // One cell: the a-priori-uniform hidden bit makes both readings
    // equally likely, whatever the match rate; the per-state weights are
    // the plain match/mismatch factors and the pair sums to 1.
    let table = full_table(1, 1, 2, 3, 4);
    assert_eq!(table.len(), 2);
    assert_eq!(table[0].word, 0);
    assert_eq!(table[1].word, 1);
    let reference = brute_force_marginals(1, &rat(1, 2), &rat(3, 4));
    assert_eq!(table[0].probability, reference[0].1);
    assert_eq!(table[1].probability, reference[1].1);
    assert_eq!(table[0].probability, rat(1, 2));
    assert_eq!(table[1].probability, rat(1, 2));
}

#[test]
fn histogram_counts_sum_to_pair_count() {
    for (n, buckets) in [(2u32, 3usize), (3, 4), (4, 7), (5, 32)] {
        let table = full_table(n, 2, 3, 9, 10);
        let stats = derive_statistics(&table, buckets);
        assert_eq!(stats.histogram.len(), buckets + 1);
        let total: u64 = stats.histogram.iter().sum();
        assert_eq!(total, 1u64 << (n - 1));
    }
}

#[test]
fn histogram_handles_all_equal_values() {
    // The uniform table gives identical normalized values; the counts
    // must still add up to the number of pairs.
    let table = full_table(3, 1, 2, 1, 2);
    let stats = derive_statistics(&table, 5);
    let total: u64 = stats.histogram.iter().sum();
    assert_eq!(total, 4);
}

#[test]
fn normalized_values_are_sorted_and_bounded() {
    let table = full_table(4, 2, 3, 9, 10);
    let stats = derive_statistics(&table, 8);
    assert_eq!(stats.normalized.len(), 8);
    for pair in stats.normalized.windows(2) {
        assert!(pair[0] <= pair[1]);
    }
    let half = rat(1, 2);
    for v in stats.normalized.iter() {
        assert!(v > &BigRational::from_integer(BigInt::from(0)));
        assert!(v <= &half);
    }
}

#[test]
fn multiplicities_count_each_value() {
    let table = full_table(3, 1, 2, 3, 4);
    let stats = derive_statistics(&table, 4);
    let total: u64 = stats.multiplicity.iter().map(|p| p.1).sum();
    assert_eq!(total, 4);
    for pair in stats.multiplicity.windows(2) {
        assert!(pair[0].0 < pair[1].0);
    }
    for (_, count) in stats.multiplicity.iter() {
        assert!(*count >= 1);
    }
    // The uniform table collapses to a single entry of multiplicity 4.
    let uniform = full_table(3, 1, 2, 1, 2);
    let ustats = derive_statistics(&uniform, 4);
    assert_eq!(ustats.multiplicity.len(), 1);
    assert_eq!(ustats.multiplicity[0].0, rat(1, 2));
    assert_eq!(ustats.multiplicity[0].1, 4);
}

#[test]
fn invalid_parameters_are_rejected() {
    assert!(matches!(ParameterSet::new(0, 1, 2, 1, 2, 4), Err(ParamError::InvalidParameter)));
    assert!(matches!(ParameterSet::new(64, 1, 2, 1, 2, 4), Err(ParamError::InvalidParameter)));
    assert!(matches!(ParameterSet::new(4, 0, 2, 1, 2, 4), Err(ParamError::InvalidParameter)));
    assert!(matches!(ParameterSet::new(4, 2, 2, 1, 2, 4), Err(ParamError::InvalidParameter)));
    assert!(matches!(ParameterSet::new(4, 3, 2, 1, 2, 4), Err(ParamError::InvalidParameter)));
    assert!(matches!(ParameterSet::new(4, 1, 2, 0, 2, 4), Err(ParamError::InvalidParameter)));
    assert!(matches!(ParameterSet::new(4, 1, 2, 5, 5, 4), Err(ParamError::InvalidParameter)));
    assert!(matches!(ParameterSet::new(4, 1, 2, 1, 2, 0), Err(ParamError::InvalidParameter)));
    assert!(ParameterSet::new(12, 2, 3, 999, 1000, 32).is_ok());
}

#[test]
fn ratio_table_holds_the_four_ratios() {
    let (ps, rt) = setup(4, 2, 3, 3, 4, 4);
    assert_eq!(rt.stay_over_switch, rat(2, 1));
    assert_eq!(rt.switch_over_stay, rat(1, 2));
    assert_eq!(rt.match_over_mismatch, rat(3, 1));
    assert_eq!(rt.mismatch_over_match, rat(1, 3));
    assert_eq!(ps.stay_rate, rat(2, 3));
    assert_eq!(ps.state_match, rat(3, 4));
}

#[test]
fn bit_helpers_behave() {
    assert!(is_set(0b1010, 1));
    assert!(!is_set(0b1010, 0));
    assert!(is_set(1u64 << 63, 63));
    assert_eq!(lowest_set_bit(1), 0);
    assert_eq!(lowest_set_bit(0b1010), 1);
    assert_eq!(lowest_set_bit(1u64 << 63), 63);
}

#[test]
fn partial_range_walk() {
    // A walk over a sub-range must agree with the corresponding slice of
    // the full table.
    let (ps, rt) = setup(3, 2, 3, 3, 4, 4);
    let full = compute(0, 8, &ps, &rt);
    let part = compute(1, 3, &ps, &rt);
    assert_eq!(part.len(), 3);
    for (i, e) in part.iter().enumerate() {
        assert_eq!(e.word, full[1 + i].word);
        assert_eq!(e.probability, full[1 + i].probability);
    }
}

#[test]
fn histogram_walk_places_values_in_bins() {
    let values = vec![rat(1, 4), rat(1, 4), rat(1, 2), rat(3, 4), rat(1, 1)];
    // lo = 1/4, hi = 1, width = 1/4: bin edges at 1/2, 3/4, 1.
    let counts = histogram_counts(&values, 3);
    assert_eq!(counts, vec![2, 1, 1, 1]);
}

#[test]
fn multiplicities_group_distinct_values() {
    let values = vec![rat(1, 4), rat(1, 4), rat(1, 3), rat(1, 2), rat(1, 2), rat(1, 2)];
    let m = multiplicities(&values);
    assert_eq!(m.len(), 3);
    assert_eq!(m[0], (rat(1, 4), 2));
    assert_eq!(m[1], (rat(1, 3), 1));
    assert_eq!(m[2], (rat(1, 2), 3));
}
