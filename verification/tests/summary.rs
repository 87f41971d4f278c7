use fast_quantiles::algorithm::source::SampleSource;
use fast_quantiles::{rank_to_quantile, Error, Ratio, Summary};
use rand::seq::SliceRandom;
use rand::SeedableRng;
use rand_pcg::Pcg64;

fn check_rank(summary: &Summary<i32>, rank: u64, expected_value: i32, rank_error: u64) {
    let q = rank_to_quantile(rank, summary.len()).unwrap();
    let (value, error) = summary.query_with_error(q).unwrap().unwrap();
    assert_eq!(expected_value, value);
    assert_eq!(
        rank_error as f64 / summary.len() as f64,
        error.num as f64 / error.den as f64
    );
    assert_eq!(error, Ratio::new(rank_error, summary.len()));
}

#[test]
fn insert_one_by_one_and_query() {
    // insert [8, 6, 0, 4, 3, 9, 2, 5, 1, 7] one by one
    let mut summary = Summary::new(Ratio::new(1, 5)).unwrap();

    // First
    summary.insert_one(8);
    assert_eq!(summary.samples_spec(), vec![(8, 1, 0)]);

    // New minimum
    summary.insert_one(6);
    assert_eq!(summary.samples_spec(), vec![(6, 1, 0), (8, 1, 0)]);

    // New minimum
    summary.insert_one(0);
    assert_eq!(summary.samples_spec(), vec![(0, 1, 0), (6, 1, 0), (8, 1, 0)],);

    //
    summary.insert_one(4);
    assert_eq!(
        summary.samples_spec(),
        vec![(0, 1, 0), (4, 1, 0), (6, 1, 0), (8, 1, 0)],
    );

    // Local compression (cap=2)
    summary.insert_one(3);
    assert_eq!(
        summary.samples_spec(),
        vec![(0, 1, 0), (4, 2, 0), (6, 1, 0), (8, 1, 0)],
    );

    // New maximum + local compression (cap=2)
    summary.insert_one(9);
    assert_eq!(
        summary.samples_spec(),
        vec![(0, 1, 0), (4, 2, 0), (6, 1, 0), (9, 2, 0)],
    );

    //
    summary.insert_one(2);
    assert_eq!(
        summary.samples_spec(),
        vec![(0, 1, 0), (2, 1, 1), (4, 2, 0), (6, 1, 0), (9, 2, 0)],
    );

    // Local compression (cap=3)
    summary.insert_one(5);
    assert_eq!(
        summary.samples_spec(),
        vec![(0, 1, 0), (2, 1, 1), (4, 2, 0), (6, 2, 0), (9, 2, 0)],
    );

    // Local compression (cap=3)
    summary.insert_one(1);
    assert_eq!(
        summary.samples_spec(),
        vec![(0, 1, 0), (2, 2, 1), (4, 2, 0), (6, 2, 0), (9, 2, 0)],
    );

    // Local compression (cap=4)
    summary.insert_one(7);
    assert_eq!(
        summary.samples_spec(),
        vec![(0, 1, 0), (2, 2, 1), (4, 2, 0), (6, 2, 0), (9, 3, 0)],
    );

    // Compression (cap=4)
    summary.compress();
    assert_eq!(
        summary.samples_spec(),
        vec![(0, 1, 0), (4, 4, 0), (6, 2, 0), (9, 3, 0)],
    );

    // Query all ranks
    check_rank(&summary, 1, 0, 0);
    check_rank(&summary, 2, 0, 1);
    check_rank(&summary, 3, 0, 2);
    check_rank(&summary, 4, 4, 1);
    check_rank(&summary, 5, 4, 0);
    check_rank(&summary, 6, 4, 1);
    check_rank(&summary, 7, 6, 0);
    check_rank(&summary, 8, 6, 1);
    check_rank(&summary, 9, 9, 1);
    check_rank(&summary, 10, 9, 0);
}

fn count_compressions<I: Iterator<Item = usize>>(iter: I) -> (u64, u64, u64) {
    let mut num_compressions = 0;
    let mut summary = Summary::new(Ratio::new(1, 10)).unwrap();

    let mut prev_samples_len = 0;
    for i in iter {
        summary.insert_one(i);
        let samples_len = summary.num_checkpoints();
        if samples_len < prev_samples_len {
            num_compressions += 1;
        }
        prev_samples_len = samples_len;
    }

    (num_compressions, summary.len(), summary.num_checkpoints())
}

#[test]
fn compression() {
    // Local compression should reduce a lot the number of saved samples
    // For 1 million ascending samples, with a 10% error, a full compression will only
    // kick in once
    assert_eq!(count_compressions(0..1_000), (0, 1_000, 31));
    assert_eq!(count_compressions(0..10_000), (0, 10_000, 41));
    assert_eq!(count_compressions(0..100_000), (1, 100_000, 9));
    assert_eq!(count_compressions(0..1_000_000), (1, 1_000_000, 19));

    // A descending stream is the hard case: every value is a new least one, and where
    // the first checkpoint cannot take it in, a checkpoint is inserted for it that takes
    // over the upper bound of that one, and so cannot be merged for a long time. The
    // summary is compressed often, and stays somewhat above the limit of 50.
    assert_eq!(count_compressions((0..1_000).rev()), (30, 1_000, 47));
    assert_eq!(count_compressions((0..10_000).rev()), (1_079, 10_000, 49));
    assert_eq!(count_compressions((0..100_000).rev()), (19_079, 100_000, 63));
    assert_eq!(count_compressions((0..1_000_000).rev()), (199_079, 1_000_000, 76));

    // Random is much better
    let mut values = (0..1_000_000).collect::<Vec<_>>();
    let mut rng = Pcg64::seed_from_u64(17);
    values.shuffle(&mut rng);
    assert_eq!(count_compressions(values.into_iter()), (0, 1_000_000, 13));
}

#[test]
fn sorted_million_stays_small() {
    let mut summary = Summary::new(Ratio::new(1, 10)).unwrap();
    let mut compressions = 0;
    let mut prev = 0;
    for i in 0..1_000_000u64 {
        summary.insert_one(i);
        let now = summary.num_checkpoints();
        if now < prev {
            compressions += 1;
        }
        prev = now;
    }
    assert!(summary.num_checkpoints() <= 50);
    assert!(compressions <= 2);
    for q in [1u64, 5, 10, 25, 50, 75, 90, 95, 99] {
        let value = summary.query(Ratio::new(q, 100)).unwrap().unwrap();
        let exact = q * 10_000;
        assert!(value.abs_diff(exact) <= 100_000, "q={} value={}", q, value);
    }
}

#[test]
fn descending_insertion_keeps_the_bounds() {
    let n = 1_000u64;
    let mut summary = Summary::new(Ratio::new(1, 10)).unwrap();
    for i in (0..n).rev() {
        summary.insert_one(i);
    }
    assert_eq!(summary.len(), n);
    assert_eq!(summary.num_checkpoints(), 47);
    let samples = summary.samples_spec();
    assert_eq!(samples.iter().map(|s| s.1).sum::<u64>(), n);
    for (_, g, delta) in &samples {
        assert!(g + delta <= 2 * n / 10);
    }
    for rank in 1..=n {
        let q = rank_to_quantile(rank, n).unwrap();
        let (value, error) = summary.query_with_error(q).unwrap().unwrap();
        assert!(error.num <= n / 10);
        // The values are 0..n, so the rank of a value is one more than the value.
        assert!((value + 1).abs_diff(rank) <= n / 10);
    }
}

#[test]
fn query_empty() {
    let s = Summary::<i32>::new(Ratio::new(1, 10)).unwrap();
    for i in 0..=10 {
        assert_eq!(s.query(Ratio::new(i, 10)), Ok(None));
    }
    // Nothing is returned for any quantile, in range or not.
    assert_eq!(s.query(Ratio::new(11, 10)), Ok(None));
    assert_eq!(s.query(Ratio::new(1, 0)), Ok(None));
    assert_eq!(s.query_with_error(Ratio::new(1, 2)), Ok(None));
}

#[test]
fn query_full() {
    let mut s = Summary::new(Ratio::new(1, 1000)).unwrap();
    for i in 0..20 {
        s.insert_one(i);
    }
    for i in 0..20 {
        assert_eq!(s.query(Ratio::new(i as u64 + 1, 20)), Ok(Some(i)));
    }
}

#[test]
fn query_rejects_a_quantile_out_of_range() {
    let mut s = Summary::new(Ratio::new(1, 10)).unwrap();
    s.insert_one(3);
    assert_eq!(s.query(Ratio::new(3, 2)), Err(Error::InvalidQuantile));
    assert_eq!(s.query(Ratio::new(1, 0)), Err(Error::InvalidQuantile));
    assert_eq!(
        s.query_with_error(Ratio::new(5, 4)),
        Err(Error::InvalidQuantile)
    );
    assert_eq!(s.query(Ratio::new(1, 1)), Ok(Some(3)));
}

#[test]
fn new_rejects_an_error_out_of_range() {
    assert!(matches!(
        Summary::<i32>::new(Ratio::new(0, 10)),
        Err(Error::InvalidEpsilon)
    ));
    assert!(matches!(
        Summary::<i32>::new(Ratio::new(1, 2)),
        Err(Error::InvalidEpsilon)
    ));
    assert!(matches!(
        Summary::<i32>::new(Ratio::new(3, 5)),
        Err(Error::InvalidEpsilon)
    ));
    assert!(matches!(
        Summary::<i32>::new(Ratio::new(1, 0)),
        Err(Error::InvalidEpsilon)
    ));
    assert!(Summary::<i32>::new(Ratio::new(49, 100)).is_ok());
    assert!(Summary::<i32>::new(Ratio::new(1, 3)).is_ok());
    let s = Summary::<i32>::new(Ratio::new(1, 10)).unwrap();
    assert_eq!(s.max_expected_error(), Ratio::new(1, 10));
    assert_eq!(s.len(), 0);
}

#[test]
fn merge_needs_an_error_that_is_not_greater() {
    let mut a = Summary::new(Ratio::new(1, 5)).unwrap();
    let mut b = Summary::new(Ratio::new(1, 10)).unwrap();
    for i in 0..10 {
        a.insert_one(i);
        b.insert_one(100 + i);
    }
    let mut a2 = Summary::new(Ratio::new(1, 5)).unwrap();
    let mut b2 = Summary::new(Ratio::new(1, 10)).unwrap();
    for i in 0..10 {
        a2.insert_one(i);
        b2.insert_one(100 + i);
    }
    assert_eq!(a.merge(b), Ok(()));
    assert_eq!(a.len(), 20);
    let before = b2.samples_spec();
    assert_eq!(b2.merge(a2), Err(Error::MergeErrorTolerance));
    assert_eq!(b2.len(), 10);
    assert_eq!(b2.samples_spec(), before);
}

#[test]
fn merge_interleaves_and_widens() {
    let mut a = Summary::new(Ratio::new(1, 5)).unwrap();
    let mut b = Summary::new(Ratio::new(1, 5)).unwrap();
    for v in [1, 5, 9] {
        a.insert_one(v);
    }
    for v in [3, 7] {
        b.insert_one(v);
    }
    assert_eq!(a.samples_spec(), vec![(1, 1, 0), (5, 1, 0), (9, 1, 0)]);
    assert_eq!(b.samples_spec(), vec![(3, 1, 0), (7, 1, 0)]);
    a.merge(b).unwrap();
    assert_eq!(a.len(), 5);
    // The budget of five values is 2: 3 and 5 make one block, and so do 7 and 9.
    assert_eq!(a.samples_spec(), vec![(1, 1, 0), (5, 2, 0), (9, 2, 0)]);
    assert_eq!(a.query(Ratio::new(0, 1)), Ok(Some(1)));
    assert_eq!(a.query(Ratio::new(1, 1)), Ok(Some(9)));
}

#[test]
fn merge_widens_what_lies_between_the_samples_of_the_other_side() {
    let mut a = Summary::new(Ratio::new(1, 5)).unwrap();
    for v in [80, 60, 0, 40, 30, 90, 20, 50, 10, 70] {
        a.insert_one(v);
    }
    let mut b = Summary::new(Ratio::new(1, 5)).unwrap();
    for v in [35, 55, 75, 100, 15, 65, 45] {
        b.insert_one(v);
    }
    assert_eq!(
        a.samples_spec(),
        vec![(0, 1, 0), (20, 2, 1), (40, 2, 0), (60, 2, 0), (90, 3, 0)]
    );
    assert_eq!(
        b.samples_spec(),
        vec![(15, 1, 0), (35, 1, 0), (55, 2, 0), (75, 2, 0), (100, 1, 0)]
    );
    a.merge(b).unwrap();
    assert_eq!(a.len(), 17);
    assert_eq!(
        a.samples_spec(),
        vec![(0, 1, 0), (35, 4, 1), (55, 4, 1), (75, 4, 2), (100, 4, 0)]
    );
    let expected = [
        (0, 0),
        (0, 1),
        (0, 2),
        (35, 2),
        (35, 1),
        (35, 1),
        (35, 2),
        (55, 2),
        (55, 1),
        (55, 1),
        (55, 2),
        (55, 3),
        (75, 2),
        (75, 1),
        (75, 2),
        (100, 1),
        (100, 0),
    ];
    for (i, (value, error)) in expected.iter().enumerate() {
        let q = rank_to_quantile(i as u64 + 1, 17).unwrap();
        assert_eq!(
            a.query_with_error(q),
            Ok(Some((*value, Ratio::new(*error, 17))))
        );
    }
}

#[test]
fn merge_with_an_empty_summary() {
    let mut a = Summary::new(Ratio::new(1, 5)).unwrap();
    let b = Summary::new(Ratio::new(1, 5)).unwrap();
    for v in [4, 2, 6] {
        a.insert_one(v);
    }
    a.merge(b).unwrap();
    assert_eq!(a.len(), 3);
    assert_eq!(a.samples_spec(), vec![(2, 1, 0), (4, 1, 0), (6, 1, 0)]);

    let mut c = Summary::new(Ratio::new(1, 5)).unwrap();
    c.merge(a).unwrap();
    assert_eq!(c.len(), 3);
    assert_eq!(c.samples_spec(), vec![(2, 1, 0), (4, 1, 0), (6, 1, 0)]);

    let mut d = Summary::<i32>::new(Ratio::new(1, 5)).unwrap();
    d.merge(Summary::new(Ratio::new(1, 5)).unwrap()).unwrap();
    assert_eq!(d.len(), 0);
    assert_eq!(d.query(Ratio::new(1, 2)), Ok(None));
}

#[test]
fn extremes_are_kept() {
    let values = [50, 20, 80, 10, 90, 30, 70, 5, 95, 40, 60, 1, 99, 45, 55];
    let mut s = Summary::new(Ratio::new(2, 5)).unwrap();
    for (i, v) in values.iter().enumerate() {
        s.insert_one(*v);
        let seen = &values[..=i];
        assert_eq!(s.query(Ratio::new(0, 1)), Ok(seen.iter().min().copied()));
        assert_eq!(s.query(Ratio::new(1, 1)), Ok(seen.iter().max().copied()));
        assert_eq!(s.len(), i as u64 + 1);
    }
    s.compress();
    assert_eq!(s.query(Ratio::new(0, 1)), Ok(Some(1)));
    assert_eq!(s.query(Ratio::new(1, 1)), Ok(Some(99)));
}

#[test]
fn least_value_is_kept_beside_the_first_checkpoint() {
    // With an error of 2/5 the budget is 2 at the third value: the third value, a new
    // least one, is charged to the checkpoint of 5.
    let mut s = Summary::new(Ratio::new(2, 5)).unwrap();
    s.insert_one(5);
    s.insert_one(9);
    s.insert_one(3);
    assert_eq!(s.num_checkpoints(), 2);
    assert_eq!(s.samples_spec(), vec![(3, 1, 0), (5, 1, 0), (9, 1, 0)]);
    assert_eq!(s.query(Ratio::new(0, 1)), Ok(Some(3)));
}

#[test]
fn duplicates_are_counted() {
    let mut s = Summary::new(Ratio::new(1, 10)).unwrap();
    for _ in 0..100 {
        s.insert_one(7);
    }
    assert_eq!(s.len(), 100);
    assert_eq!(s.query(Ratio::new(1, 2)), Ok(Some(7)));
    let samples = s.samples_spec();
    assert_eq!(samples.iter().map(|s| s.1).sum::<u64>(), 100);
}

#[test]
fn compression_never_adds_checkpoints() {
    let mut s = Summary::new(Ratio::new(1, 10)).unwrap();
    for i in 0..500u32 {
        s.insert_one((i * 7919) % 1009);
        let before = s.num_checkpoints();
        let len = s.len();
        s.compress();
        assert!(s.num_checkpoints() <= before);
        assert_eq!(s.len(), len);
    }
}

fn filled(values: &[u32]) -> Summary<u32> {
    let mut s = Summary::new(Ratio::new(1, 10)).unwrap();
    for v in values {
        s.insert_one(*v);
    }
    s
}

fn worst_rank_error(s: &Summary<u32>, sorted: &[u32]) -> u64 {
    let n = s.len();
    let mut worst = 0;
    for rank in 1..=n {
        let q = rank_to_quantile(rank, n).unwrap();
        let (value, error) = s.query_with_error(q).unwrap().unwrap();
        assert!(error.num <= n / 10);
        let first = sorted.iter().position(|v| *v == value).unwrap() as u64 + 1;
        let last = sorted.iter().rposition(|v| *v == value).unwrap() as u64 + 1;
        let off = if rank < first {
            first - rank
        } else if rank > last {
            rank - last
        } else {
            0
        };
        worst = worst.max(off);
    }
    worst
}

#[test]
fn merging_in_either_order_keeps_the_error_bound() {
    let a: Vec<u32> = (0..700).map(|i| (i * 7919) % 1013).collect();
    let b: Vec<u32> = (0..500).map(|i| (i * 104729) % 997).collect();
    let c: Vec<u32> = (0..300).map(|i| 2000 - i).collect();
    let mut all: Vec<u32> = a.iter().chain(b.iter()).chain(c.iter()).copied().collect();
    all.sort();

    // (a + b) + c
    let mut left = filled(&a);
    left.merge(filled(&b)).unwrap();
    left.merge(filled(&c)).unwrap();
    // a + (b + c)
    let mut bc = filled(&b);
    bc.merge(filled(&c)).unwrap();
    let mut right = filled(&a);
    right.merge(bc).unwrap();

    assert_eq!(left.len(), 1500);
    assert_eq!(right.len(), 1500);
    assert!(worst_rank_error(&left, &all) <= 150);
    assert!(worst_rank_error(&right, &all) <= 150);
    assert_eq!(left.query(Ratio::new(0, 1)), right.query(Ratio::new(0, 1)));
    assert_eq!(left.query(Ratio::new(1, 1)), right.query(Ratio::new(1, 1)));
}

#[test]
fn gaps_stay_within_the_budget() {
    let mut s = Summary::new(Ratio::new(1, 20)).unwrap();
    for i in 0..5_000u64 {
        s.insert_one((i * 2_654_435_761) % 10_007);
        let n = s.len();
        let budget = (2 * n / 20).max(1);
        let samples = s.samples_spec();
        assert_eq!(samples.iter().map(|x| x.1).sum::<u64>(), n);
        for (_, g, delta) in &samples {
            assert!(*g >= 1);
            assert!(g + delta <= budget);
        }
        for pair in samples.windows(2) {
            assert!(pair[0].0 <= pair[1].0);
        }
    }
}

#[test]
fn median_of_a_thousand() {
    let mut summary = Summary::new(Ratio::new(1, 100)).unwrap();
    for value in 0..1000u64 {
        summary.insert_one(value);
    }
    let median = summary.query(Ratio::new(1, 2)).unwrap().unwrap();
    assert!(490 <= median && median <= 510);
}

#[test]
fn walks_by_reference_and_by_value_agree() {
    let mut s = Summary::new(Ratio::new(2, 5)).unwrap();
    for v in [5, 9, 3, 7, 1, 8, 2, 6] {
        s.insert_one(v);
    }
    let expected = s.samples_spec();
    let mut by_reference = Vec::new();
    let mut source = s.iter();
    while let Some(sample) = source.next_sample() {
        by_reference.push((sample.value, sample.g, sample.delta));
    }
    assert_eq!(by_reference, expected);
    let mut by_value = Vec::new();
    let mut source = s.into_iter();
    while let Some(sample) = source.next_sample() {
        by_value.push((sample.value, sample.g, sample.delta));
    }
    assert_eq!(by_value, expected);
}

#[test]
fn compression_reads_the_tree_and_a_merge_the_whole_summary() {
    // With an error of 2/5, the third value is charged to the checkpoint of 5, which
    // then counts the least value beside its own.
    let filled = || {
        let mut s = Summary::new(Ratio::new(2, 5)).unwrap();
        for v in [5, 9, 3] {
            s.insert_one(v);
        }
        s
    };
    // The compression keeps the two checkpoints, and the least value beside them.
    let mut compressed = filled();
    compressed.compress();
    assert_eq!(compressed.num_checkpoints(), 2);
    assert_eq!(
        compressed.samples_spec(),
        vec![(3, 1, 0), (5, 1, 0), (9, 1, 0)]
    );
    // A merge reads the least value as a sample of its own, and compresses all three.
    let mut merged = filled();
    merged.merge(Summary::new(Ratio::new(2, 5)).unwrap()).unwrap();
    assert_eq!(merged.num_checkpoints(), 2);
    assert_eq!(merged.samples_spec(), vec![(3, 1, 0), (9, 2, 0)]);
}
