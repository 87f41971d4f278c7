use fast_quantiles::algorithm::samples_tree::{Sample, SamplesTree};
use fast_quantiles::algorithm::SamplesCompressor;

fn collect(tree: &SamplesTree<i32>) -> Vec<(i32, u64, u64)> {
    let mut it = tree.iter();
    let mut out = Vec::new();
    while let Some(sample) = it.next() {
        out.push((sample.value, sample.g, sample.delta));
    }
    out
}

#[test]
fn compress() {
    let samples = (0..9).map(|value| Sample {
        value,
        g: 1,
        delta: 2,
    });

    let mut compressor = SamplesCompressor::new(5);
    for sample in samples {
        compressor.push(sample);
    }

    assert_eq!(
        collect(&compressor.into_samples_tree()),
        vec![(0, 1, 2), (3, 3, 2), (6, 3, 2), (8, 2, 2)]
    );
}

#[test]
fn no_compression() {
    for len in 0..3 {
        let mut compressor = SamplesCompressor::<i32>::new(1);
        let samples = (0..len).map(Sample::exact).collect::<Vec<Sample<i32>>>();
        for &sample in &samples {
            compressor.push(sample);
        }
        let expected: Vec<_> = samples.iter().map(|s| (s.value, s.g, s.delta)).collect();
        assert_eq!(collect(&compressor.into_samples_tree()), expected);
    }
}

#[test]
fn first_sample_is_never_merged() {
    let mut compressor = SamplesCompressor::new(100);
    for value in 0..5 {
        compressor.push(Sample::exact(value));
    }
    let tree = compressor.into_samples_tree();
    assert_eq!(collect(&tree), vec![(0, 1, 0), (4, 4, 0)]);
    assert_eq!(tree.min_sample(), Some(0));
}

#[test]
fn a_block_is_committed_when_the_budget_is_reached() {
    let mut compressor = SamplesCompressor::new(3);
    for (value, g, delta) in [(1, 1, 0), (2, 1, 0), (3, 2, 0), (4, 1, 0), (5, 1, 2), (6, 3, 1)] {
        compressor.push(Sample { value, g, delta });
    }
    // 2 and 3 make a block of three; 4 starts a new one, which 5 cannot take in, as
    // 1 + 1 + 2 is above the budget; nor can 6 take in 5.
    assert_eq!(
        collect(&compressor.into_samples_tree()),
        vec![(1, 1, 0), (3, 3, 0), (4, 1, 0), (5, 1, 2), (6, 3, 1)]
    );
}
