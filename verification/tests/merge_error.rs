use fast_quantiles::{rank_to_quantile, Ratio, Summary};
use ordered_float::NotNan;
use rand::{Rng, SeedableRng};
use rand_pcg::Pcg64;

type OrderedF64 = NotNan<f64>;

/// Draws `num` values around `value`, in a random order, such that `value` is at the
/// given quantile of them.
fn random_values(quantile: Ratio, value: f64, num: usize, seed: u64) -> Vec<OrderedF64> {
    assert!(num > 0);
    let rank = fast_quantiles::quantile_to_rank(quantile, num as u64).unwrap() as usize;
    let mut remaining_lesser = rank - 1;
    let mut remaining = num - 1;
    let mut published_value = false;
    let mut rng = Pcg64::seed_from_u64(seed);
    let mut values = Vec::with_capacity(num);
    while remaining > 0 || !published_value {
        if !published_value {
            let remaining_ratio = 1. / (remaining + 1) as f64;
            if rng.gen::<f64>() < remaining_ratio {
                published_value = true;
                values.push(NotNan::from(value));
                continue;
            }
        }
        let ratio = remaining_lesser as f64 / remaining as f64;
        remaining -= 1;
        if rng.gen::<f64>() >= ratio {
            values.push(NotNan::from(value + rng.gen::<f64>()));
        } else {
            remaining_lesser -= 1;
            let mut r: f64 = rng.gen();
            while r == 0. {
                r = rng.gen();
            }
            values.push(NotNan::from(value - r));
        }
    }
    values
}

fn consume(
    values: Vec<OrderedF64>,
    summaries: &mut [&mut Summary<OrderedF64>],
) -> Vec<OrderedF64> {
    let mut sorted = Vec::new();
    let n = summaries.len();
    for (i, value) in values.into_iter().enumerate() {
        sorted.push(value);
        summaries[i % n].insert_one(value);
    }
    sorted.sort();
    sorted
}

fn check_all_ranks(s: Summary<OrderedF64>, values: Vec<OrderedF64>, epsilon: f64) -> f64 {
    let mut max_error = (0f64, 0u64, 0u64);
    let num = s.len();
    assert_eq!(num, values.len() as u64);

    for desired_rank in 1..=num {
        let queried = s
            .query(rank_to_quantile(desired_rank, num).unwrap())
            .unwrap()
            .unwrap();
        let got_rank = (values.iter().position(|v| *v == queried).unwrap() + 1) as u64;
        let error = (got_rank as f64 - desired_rank as f64) / num as f64;
        if error.abs() > max_error.0.abs() {
            max_error = (error, desired_rank, got_rank)
        }
        assert!(
            error.abs() <= epsilon,
            "desired_rank={}, queried={}, got_rank={}, error={}, summary={:?}",
            desired_rank,
            queried.into_inner(),
            got_rank,
            error,
            s.samples_spec()
        );
    }
    println!("max_error={:?}", max_error);

    assert_eq!(s.query(Ratio::new(0, 1)).unwrap().as_ref(), values.first());
    assert_eq!(s.query(Ratio::new(1, 1)).unwrap().as_ref(), values.last());

    max_error.0
}

fn new_summary(num: u64, den: u64) -> Summary<OrderedF64> {
    Summary::new(Ratio::new(num, den)).unwrap()
}

#[test]
fn check_max_error() {
    fn check(num: u64, den: u64, len: usize) {
        let mut s = new_summary(num, den);
        let values = consume(random_values(Ratio::new(1, 2), 17., len, 17), &mut [&mut s]);
        check_all_ranks(s, values, num as f64 / den as f64);
    }

    check(1, 10, 10);
    check(1, 10, 100);
    check(1, 10, 1000);

    check(2, 10, 10);
    check(2, 10, 100);
    check(2, 10, 1000);

    check(1, 100, 10);
    check(1, 100, 100);
    check(1, 100, 1000);
}

#[test]
fn check_merge_error() {
    // This test will consume from a generator into two Summary structures
    // then merge them. The final max error will be measured
    let mut s1 = new_summary(1, 10);
    let mut s2 = new_summary(1, 10);
    let gen = random_values(Ratio::new(1, 2), 17., 10_000, 17);
    let values = consume(gen, &mut [&mut s1, &mut s2]);

    s1.merge(s2).unwrap();

    check_all_ranks(s1, values, 0.1);
}

#[test]
fn check_tree_merge_error() {
    // This test will consume from a generator into eight Summary structures
    // then merge them in a tree-like structure.
    // The final max error will be measured
    let mut s1 = new_summary(1, 10);
    let mut s2 = new_summary(1, 10);
    let mut s3 = new_summary(1, 10);
    let mut s4 = new_summary(1, 10);
    let mut s5 = new_summary(1, 10);
    let mut s6 = new_summary(1, 10);
    let mut s7 = new_summary(1, 10);
    let mut s8 = new_summary(1, 10);
    let gen = random_values(Ratio::new(1, 2), 17., 10_000, 17);
    let values = consume(
        gen,
        &mut [
            &mut s1, &mut s2, &mut s3, &mut s4, &mut s5, &mut s6, &mut s7, &mut s8,
        ],
    );

    // Merge all summaries
    s1.merge(s2).unwrap();
    s3.merge(s4).unwrap();
    s5.merge(s6).unwrap();
    s7.merge(s8).unwrap();
    s1.merge(s3).unwrap();
    s5.merge(s7).unwrap();
    s1.merge(s5).unwrap();

    check_all_ranks(s1, values, 0.1);
}

#[test]
fn check_list_merge_error() {
    // This test will consume from a generator into eight Summary structures
    // then merge them all sequentially into the first one.
    // The final max error will be measured
    let mut s1 = new_summary(1, 10);
    let mut s2 = new_summary(1, 10);
    let mut s3 = new_summary(1, 10);
    let mut s4 = new_summary(1, 10);
    let mut s5 = new_summary(1, 10);
    let mut s6 = new_summary(1, 10);
    let mut s7 = new_summary(1, 10);
    let mut s8 = new_summary(1, 10);
    let gen = random_values(Ratio::new(1, 2), 17., 10_000, 17);
    let values = consume(
        gen,
        &mut [
            &mut s1, &mut s2, &mut s3, &mut s4, &mut s5, &mut s6, &mut s7, &mut s8,
        ],
    );

    // Merge all summaries
    s1.merge(s2).unwrap();
    s1.merge(s3).unwrap();
    s1.merge(s4).unwrap();
    s1.merge(s5).unwrap();
    s1.merge(s6).unwrap();
    s1.merge(s7).unwrap();
    s1.merge(s8).unwrap();

    check_all_ranks(s1, values, 0.1);
}

// The three tests that follow check the values that this file draws for the tests above.

#[test]
fn drawn_values_follow_the_seed() {
    fn check(seed: u64, expected_values: Vec<f64>) {
        let values: Vec<_> = random_values(Ratio::new(1, 2), 17., 7, seed)
            .into_iter()
            .map(NotNan::into_inner)
            .collect();
        assert_eq!(values, expected_values);
    }

    check(
        1,
        vec![
            16.886098289795832,
            17.475850141634222,
            17.0,
            16.448791316457317,
            17.04676166514965,
            17.708530834207153,
            16.61197782022746,
        ],
    );

    check(
        2,
        vec![
            17.0,
            16.723992847202776,
            17.473140469528996,
            17.890264969958412,
            16.184033271866923,
            16.300485594323114,
            17.527720330285856,
        ],
    );
}

fn check_one(values: Vec<OrderedF64>, quantile: Ratio, value: f64, num: usize) {
    let mut values = values;
    values.sort();
    let rank = fast_quantiles::quantile_to_rank(quantile, num as u64).unwrap() as usize;
    let actual = values[rank - 1];
    assert_eq!(value, actual.into_inner(), "Sorted values: {:?}", values);
}

#[test]
fn drawn_values_have_the_median() {
    for num in [1, 2, 3, 1000, 1001] {
        check_one(random_values(Ratio::new(1, 2), 17., num, 17), Ratio::new(1, 2), 17., num);
    }
}

#[test]
fn drawn_values_have_the_quantile() {
    for quantile in [
        Ratio::new(0, 1),
        Ratio::new(1, 10),
        Ratio::new(2, 10),
        Ratio::new(75, 100),
        Ratio::new(99, 100),
        Ratio::new(1, 1),
    ] {
        for num in [1, 2, 5, 10, 100, 1000, 1001] {
            check_one(random_values(quantile, 17., num, 17), quantile, 17., num);
        }
    }
}
