use fast_quantiles::algorithm::samples_tree::Sample;
use fast_quantiles::algorithm::source::{SampleSource, VecSource};
use fast_quantiles::algorithm::{IncomingMergeState, SamplesCompressor};

fn triple(sample: &Sample<i32>) -> (i32, u64, u64) {
    (sample.value, sample.g, sample.delta)
}

#[test]
fn pop_all() {
    let sample1 = Sample {
        value: 3,
        g: 1,
        delta: 2,
    };
    let sample2 = Sample {
        value: 14,
        g: 3,
        delta: 4,
    };
    let sample3 = Sample {
        value: 15,
        g: 5,
        delta: 6,
    };
    let samples = vec![sample1, sample2, sample3];

    let mut incoming = IncomingMergeState::new(VecSource::new(samples));

    assert_eq!(incoming.peek(), Some(&sample1));
    assert_eq!(incoming.peek().map(triple), Some(triple(&sample1)));
    assert_eq!(incoming.aditional_delta(), 0);
    assert_eq!(incoming.pop_front(), sample1);

    assert_eq!(incoming.peek(), Some(&sample2));
    assert_eq!(incoming.peek().map(triple), Some(triple(&sample2)));
    assert_eq!(incoming.aditional_delta(), 6);
    assert_eq!(incoming.pop_front(), sample2);

    assert_eq!(incoming.peek(), Some(&sample3));
    assert_eq!(incoming.peek().map(triple), Some(triple(&sample3)));
    assert_eq!(incoming.aditional_delta(), 10);
    assert_eq!(triple(&incoming.pop_front()), triple(&sample3));

    assert_eq!(incoming.peek(), None);
    assert_eq!(incoming.aditional_delta(), 0);

    let mut empty = SamplesCompressor::new(1);
    incoming.push_remaining_to(&mut empty);
    assert_eq!(empty.into_samples_tree().len(), 0);
}

#[test]
fn pop_none() {
    let samples = vec![3, 14, 15]
        .into_iter()
        .map(|value| Sample {
            value,
            g: 1,
            delta: 0,
        })
        .collect::<Vec<_>>();
    let incoming = IncomingMergeState::new(VecSource::new(samples));
    let mut empty = SamplesCompressor::new(1);
    incoming.push_remaining_to(&mut empty);
    let tree = empty.into_samples_tree();
    let mut it = tree.iter();
    let mut values = Vec::new();
    while let Some(sample) = it.next() {
        values.push(sample.value);
    }
    assert_eq!(values, vec![3, 14, 15]);
}

#[test]
fn sources_hand_out_in_order() {
    let samples: Vec<Sample<i32>> = vec![Sample::exact(1), Sample::exact(2)];
    let mut source = VecSource::new(samples);
    assert_eq!(source.next_sample().map(|s| s.value), Some(1));
    assert_eq!(source.next_sample().map(|s| s.value), Some(2));
    assert_eq!(source.next_sample().map(|s| s.value), None);
    assert_eq!(source.next_sample().map(|s| s.value), None);
}

#[test]
fn remaining_samples_go_through_the_compressor() {
    let samples: Vec<Sample<i32>> = (0..6).map(Sample::exact).collect();
    let mut incoming = IncomingMergeState::new(VecSource::new(samples));
    assert_eq!(incoming.pop_front().value, 0);
    let mut compressor = SamplesCompressor::new(2);
    incoming.push_remaining_to(&mut compressor);
    let tree = compressor.into_samples_tree();
    let mut it = tree.iter();
    let mut seen = Vec::new();
    while let Some(sample) = it.next() {
        seen.push((sample.value, sample.g, sample.delta));
    }
    assert_eq!(seen, vec![(1, 1, 0), (3, 2, 0), (5, 2, 0)]);
}
