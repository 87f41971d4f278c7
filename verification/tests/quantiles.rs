use fast_quantiles::{quantile_to_rank, rank_to_quantile, Error, Ratio};

const D: u64 = 10_000_000_000;

/// The fraction `num / den`, moved up by one part in `D`.
fn above(num: u64, den: u64) -> Ratio {
    Ratio::new(num * (D / den) + 1, D)
}

#[test]
fn test_quantiles() {
    assert_eq!(quantile_to_rank(Ratio::new(0, 1), 4), Ok(1));
    assert_eq!(quantile_to_rank(Ratio::new(1, D), 4), Ok(1));
    assert_eq!(quantile_to_rank(Ratio::new(1, 4), 4), Ok(1));

    assert_eq!(quantile_to_rank(above(1, 4), 4), Ok(2));
    assert_eq!(quantile_to_rank(Ratio::new(2, 4), 4), Ok(2));

    assert_eq!(quantile_to_rank(above(2, 4), 4), Ok(3));
    assert_eq!(quantile_to_rank(Ratio::new(3, 4), 4), Ok(3));

    assert_eq!(quantile_to_rank(above(3, 4), 4), Ok(4));
    assert_eq!(quantile_to_rank(Ratio::new(1, 1), 4), Ok(4));
}

#[test]
#[should_panic]
fn quantile_too_big() {
    quantile_to_rank(Ratio::new(D + 1, D), 4).unwrap();
}

#[test]
fn quantile_out_of_range_is_an_error() {
    assert_eq!(
        quantile_to_rank(Ratio::new(D + 1, D), 4),
        Err(Error::InvalidQuantile)
    );
    assert_eq!(
        quantile_to_rank(Ratio::new(0, 0), 4),
        Err(Error::InvalidQuantile)
    );
    assert_eq!(quantile_to_rank(Ratio::new(1, 2), 0), Ok(1));
    assert_eq!(
        quantile_to_rank(Ratio::new(u64::MAX, u64::MAX), u64::MAX),
        Ok(u64::MAX)
    );
}

#[test]
fn test_ranks() {
    let as_float = |r: Ratio| r.num as f64 / r.den as f64;
    assert_eq!(as_float(rank_to_quantile(1, 1).unwrap()), 0.);

    assert_eq!(as_float(rank_to_quantile(1, 2).unwrap()), 0.);
    assert_eq!(as_float(rank_to_quantile(2, 2).unwrap()), 1.);

    assert_eq!(as_float(rank_to_quantile(1, 4).unwrap()), 0.);
    assert_eq!(as_float(rank_to_quantile(2, 4).unwrap()), 2. / 4.);
    assert_eq!(as_float(rank_to_quantile(3, 4).unwrap()), 3. / 4.);
    assert_eq!(as_float(rank_to_quantile(4, 4).unwrap()), 1.);
}

#[test]
#[should_panic]
fn rank_too_small() {
    rank_to_quantile(0, 0).unwrap();
}

#[test]
#[should_panic]
fn rank_too_big() {
    rank_to_quantile(11, 10).unwrap();
}

#[test]
fn rank_out_of_range_is_an_error() {
    assert_eq!(rank_to_quantile(0, 0), Err(Error::InvalidRank));
    assert_eq!(rank_to_quantile(0, 5), Err(Error::InvalidRank));
    assert_eq!(rank_to_quantile(11, 10), Err(Error::InvalidRank));
    assert_eq!(rank_to_quantile(10, 10), Ok(Ratio::new(10, 10)));
}

#[test]
fn rank_of_a_quantile_of_a_rank() {
    for num in 1..=30u64 {
        for rank in 1..=num {
            let q = rank_to_quantile(rank, num).unwrap();
            assert_eq!(quantile_to_rank(q, num), Ok(rank));
        }
    }
}

#[test]
fn ratios_compare_by_value() {
    assert!(Ratio::new(1, 10).is_at_most(&Ratio::new(1, 5)));
    assert!(Ratio::new(2, 10).is_at_most(&Ratio::new(1, 5)));
    assert!(!Ratio::new(3, 10).is_at_most(&Ratio::new(1, 5)));
    assert!(Ratio::new(u64::MAX - 1, u64::MAX).is_at_most(&Ratio::new(u64::MAX, u64::MAX)));
}
