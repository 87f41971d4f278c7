use fast_quantiles::algorithm::samples_tree::checkpoints::{Checkpoints, NODE_CAPACITY};
use fast_quantiles::algorithm::samples_tree::node::InsertResult;
use fast_quantiles::algorithm::samples_tree::{Checkpoint, Sample, SamplesTree};

#[test]
fn record_asc_depth_1() {
    let mut tree = SamplesTree::new();

    // One full leaf root node
    let n = NODE_CAPACITY;
    for i in 0..n {
        tree.record_sample(i, 1);
    }
    assert_eq!(tree.depth(), 1);
    assert_eq!(tree.len(), n as u64);
}

#[test]
fn record_asc_depth_2() {
    let mut tree = SamplesTree::new();

    // One full trunk root node with N half-full leaf nodes and a full leaf node
    let n = NODE_CAPACITY + NODE_CAPACITY * (NODE_CAPACITY / 2) + NODE_CAPACITY;
    for i in 0..n {
        tree.record_sample(i, 1);
    }
    assert_eq!(tree.depth(), 2);
    assert_eq!(tree.len(), n as u64);
}

#[test]
fn record_asc_depth_3() {
    let mut tree = SamplesTree::new();

    // One full trunk root node with:
    // N x half-full trunk node with (N/2+1) x half-full leaf nodes
    // and one full trunk node with N half-full leaf nodes and a full leaf node
    let n = NODE_CAPACITY
        + NODE_CAPACITY * (NODE_CAPACITY / 2 + (NODE_CAPACITY / 2 + 1) * NODE_CAPACITY / 2)
        + (NODE_CAPACITY + NODE_CAPACITY * (NODE_CAPACITY / 2) + NODE_CAPACITY);
    for i in 0..n {
        tree.record_sample(i, 1);
    }
    assert_eq!(tree.depth(), 3);
    assert_eq!(tree.len(), n as u64);
}

#[test]
fn one_more_value_grows_the_tree() {
    let mut tree = SamplesTree::new();
    // The greatest value is kept beside the root: one value more than a leaf holds
    // still leaves one level, and the next one splits the root.
    for i in 0..NODE_CAPACITY + 1 {
        tree.record_sample(i, 1);
    }
    assert_eq!(tree.depth(), 1);
    tree.record_sample(NODE_CAPACITY + 1, 1);
    assert_eq!(tree.depth(), 2);
}

fn collect_by_ref<T: Ord + Copy>(tree: &SamplesTree<T>) -> Vec<Sample<T>> {
    let mut it = tree.iter();
    let mut out = Vec::new();
    while let Some(sample) = it.next() {
        out.push(sample);
    }
    // A walk that is done stays done.
    assert!(it.next().is_none());
    out
}

fn collect_by_value<T: Ord + Copy>(tree: SamplesTree<T>) -> Vec<Sample<T>> {
    let mut it = tree.into_iter();
    let mut out = Vec::new();
    while let Some(sample) = it.next() {
        out.push(sample);
    }
    assert!(it.next().is_none());
    out
}

fn check_iterators<T: Ord + Copy + std::fmt::Debug>(mut values: Vec<T>) {
    // Build tree from exact samples (use cap = 0 to keep all them)
    let mut tree: SamplesTree<T> = SamplesTree::new();
    for i in values.iter().cloned() {
        tree.record_sample(i, 0);
    }
    assert_eq!(tree.len(), values.len() as u64);

    // Collect from by-ref and by-value iterators
    let by_ref = collect_by_ref(&tree);
    let collected_by_ref: Vec<T> = by_ref.iter().map(|sample| sample.value).collect();
    let by_value = collect_by_value(tree);
    let collected_by_value: Vec<T> = by_value.iter().map(|sample| sample.value).collect();

    values.sort();
    assert_eq!(values, collected_by_ref);
    assert_eq!(values, collected_by_value);
    for (a, b) in by_ref.iter().zip(by_value.iter()) {
        assert_eq!((a.value, a.g, a.delta), (b.value, b.g, b.delta));
    }
}

#[test]
fn iterators() {
    let capacity = NODE_CAPACITY as i32;

    // Empty tree
    check_iterators::<i32>(vec![]);

    // Leaf tree
    check_iterators((0..capacity).collect::<Vec<_>>());

    // Tree with two levels
    check_iterators((0..capacity * capacity / 2).collect::<Vec<_>>());

    // Tree with three levels
    check_iterators((0..capacity * capacity).collect::<Vec<_>>());

    // Pi
    check_iterators(vec![
        31, 41, 59, 26, 53, 58, 97, 93, 23, 84, 62, 64, 33, 83, 27, 95, 2, 88, 41, 97, 16, 93, 99,
        37, 51, 5, 82, 9, 74, 94, 45, 92, 30, 78, 16, 40, 62, 86, 20, 89, 98, 62, 80, 34, 82, 53,
        42, 11, 70, 67, 98, 21, 48, 8, 65, 13, 28, 23, 6, 64, 70, 93, 84, 46, 9, 55, 5, 82, 23, 17,
        25, 35, 94, 8, 12, 84, 81, 11, 74, 50, 28, 41, 2, 70, 19, 38, 52, 11, 5, 55, 96, 44, 62,
        29, 48, 95, 49, 30, 38, 19, 64, 42, 88, 10, 97, 56, 65, 93, 34, 46, 12, 84, 75, 64, 82, 33,
        78, 67, 83, 16, 52, 71, 20, 19, 9, 14, 56, 48, 56, 69, 23, 46, 3, 48, 61, 4, 54, 32, 66,
        48, 21, 33, 93, 60, 72, 60, 24, 91, 41, 27, 37, 24, 58, 70, 6, 60, 63, 15, 58, 81, 74, 88,
        15, 20, 92, 9, 62, 82, 92, 54, 9, 17, 15, 36, 43, 67, 89, 25, 90, 36, 0, 11, 33, 5, 30, 54,
        88, 20, 46, 65, 21, 38, 41, 46, 95, 19, 41, 51, 16, 9, 43, 30, 57, 27, 3, 65, 75, 95, 91,
        95, 30, 92, 18, 61, 17, 38, 19, 32, 61, 17, 93, 10, 51, 18, 54, 80, 74, 46, 23, 79, 96, 27,
        49, 56, 73, 51, 88, 57, 52, 72, 48, 91, 22, 79, 38, 18, 30, 11, 94, 91, 29, 83, 36, 73, 36,
        24, 40, 65, 66, 43, 8, 60, 21, 39, 49, 46, 39, 52, 24, 73, 71, 90, 70, 21, 79, 86, 9, 43,
        70, 27, 70, 53, 92, 17, 17, 62, 93, 17, 67, 52, 38, 46, 74, 81, 84, 67, 66, 94, 5, 13, 20,
        0, 56, 81, 27, 14, 52, 63, 56, 8, 27, 78, 57, 71, 34, 27, 57, 78, 96, 9, 17, 36, 37, 17,
        87, 21, 46, 84, 40, 90, 12, 24, 95, 34, 30, 14, 65, 49, 58, 53, 71, 5, 7, 92, 27, 96, 89,
        25, 89, 23, 54, 20, 19, 95, 61, 12, 12, 90, 21, 96, 8, 64, 3, 44, 18, 15, 98, 13, 62, 97,
        74, 77, 13, 9, 96, 5, 18, 70, 72, 11, 34, 99, 99, 99, 83, 72, 97, 80, 49, 95, 10, 59, 73,
        17, 32, 81, 60, 96, 31, 85, 95, 2, 44, 59, 45, 53, 46, 90, 83, 2, 64, 25, 22, 30, 82, 53,
        34, 46, 85, 3, 52, 61, 93, 11, 88, 17, 10, 10, 0, 31, 37, 83, 87, 52, 88, 65, 87, 53, 32,
        8, 38, 14, 20, 61, 71, 77, 66, 91, 47, 30, 35, 98, 25, 34, 90, 42, 87, 55, 46, 87, 31, 15,
        95, 62, 86, 38, 82, 35, 37, 87, 59, 37, 51, 95, 77, 81, 85, 77, 80, 53, 21, 71, 22, 68, 6,
        61, 30, 1, 92, 78, 76, 61, 11, 95, 90, 92, 16, 42, 1, 98,
    ]);
}

#[test]
fn record_charges_or_inserts() {
    let mut tree = SamplesTree::new();
    for v in [10, 20, 30] {
        tree.record_sample(v, 1);
    }
    // 15 goes before 20: with a gap limit of 2, the checkpoint of 20 takes it in.
    tree.record_sample(15, 2);
    let seen: Vec<_> = collect_by_ref(&tree)
        .iter()
        .map(|s| (s.value, s.g, s.delta))
        .collect();
    assert_eq!(seen, vec![(10, 1, 0), (20, 2, 0), (30, 1, 0)]);
    // 12 goes before 20 too, which cannot grow under the same limit: a checkpoint is
    // inserted that takes over the upper bound of the one that follows it.
    tree.record_sample(12, 2);
    let seen: Vec<_> = collect_by_ref(&tree)
        .iter()
        .map(|s| (s.value, s.g, s.delta))
        .collect();
    assert_eq!(seen, vec![(10, 1, 0), (12, 1, 1), (20, 2, 0), (30, 1, 0)]);
    // A value that is not below the greatest one takes its place.
    tree.record_sample(30, 2);
    tree.record_sample(40, 2);
    let seen: Vec<_> = collect_by_ref(&tree)
        .iter()
        .map(|s| (s.value, s.g, s.delta))
        .collect();
    assert_eq!(
        seen,
        vec![(10, 1, 0), (12, 1, 1), (20, 2, 0), (30, 2, 0), (40, 1, 0)]
    );
    assert_eq!(tree.len(), 5);
    assert_eq!(tree.min_sample(), Some(10));
    tree.record_sample(5, 2);
    assert_eq!(tree.min_sample(), Some(5));
}

#[test]
fn checkpoint_rules() {
    let exact = Checkpoint::new_exact(7);
    assert_eq!((exact.sample, exact.min_gap, exact.max_gap), (7, 1, 1));
    assert!(exact.is_exact());
    assert!(!exact.can_grow(1));
    assert!(exact.can_grow(2));

    let mut following = Checkpoint::new_exact(9);
    following.record_before();
    following.record_before();
    assert_eq!(
        (following.sample, following.min_gap, following.max_gap),
        (9, 3, 3)
    );
    assert!(!following.is_exact());
    assert!(!following.can_grow(3));
    assert!(following.can_grow(4));

    let preceding = Checkpoint::new_preceding(8, &following);
    assert_eq!(
        (preceding.sample, preceding.min_gap, preceding.max_gap),
        (8, 1, 3)
    );

    following.swap_sample(11);
    assert_eq!(
        (following.sample, following.min_gap, following.max_gap),
        (11, 3, 3)
    );

    let full = Checkpoint {
        sample: 1,
        min_gap: 1,
        max_gap: u64::MAX,
    };
    assert!(!full.can_grow(u64::MAX));
}

fn values_of(checkpoints: &Checkpoints<i32>) -> Vec<i32> {
    (0..checkpoints.len())
        .map(|i| checkpoints.get(i).sample)
        .collect()
}

fn full_checkpoints() -> Checkpoints<i32> {
    let mut checkpoints = Checkpoints::new();
    for i in 0..NODE_CAPACITY {
        let r = checkpoints.insert_checkpoint(Checkpoint::new_exact(i as i32 * 10), i);
        assert!(matches!(r, InsertResult::Done));
    }
    assert!(checkpoints.is_full());
    checkpoints
}

#[test]
fn insert_checkpoint_splits_a_full_list_in_halves() {
    let all: Vec<i32> = (0..NODE_CAPACITY as i32).map(|i| i * 10).collect();
    for pos in 0..=NODE_CAPACITY {
        let mut checkpoints = full_checkpoints();
        let mut expected = all.clone();
        expected.insert(pos, -1);
        match checkpoints.insert_checkpoint(Checkpoint::new_exact(-1), pos) {
            InsertResult::Done => panic!("a full list must split"),
            InsertResult::Pending(median, right) => {
                assert_eq!(checkpoints.len(), NODE_CAPACITY / 2);
                assert_eq!(right.len(), NODE_CAPACITY / 2);
                let mut seen = values_of(&checkpoints);
                seen.push(median.sample);
                seen.extend(values_of(&right));
                assert_eq!(seen, expected);
            }
        }
    }
}

#[test]
fn find_insertion_pos_names_the_first_greater_checkpoint() {
    let mut checkpoints = Checkpoints::new();
    for (i, v) in [10, 20, 20, 30].iter().enumerate() {
        checkpoints.insert_checkpoint(Checkpoint::new_exact(*v), i);
    }
    let mut following = Checkpoint::new_exact(99);
    for (sample, expected_pos, expected_value) in [
        (5, 0, 10),
        (10, 1, 20),
        (15, 1, 20),
        (20, 3, 30),
        (29, 3, 30),
        (30, 4, 99),
        (50, 4, 99),
    ] {
        let (pos, neighbour) = checkpoints.find_insertion_pos(&sample, &mut following);
        assert_eq!(pos, expected_pos);
        assert_eq!(neighbour.sample, expected_value);
    }
    // The checkpoint that is handed out can be changed in place.
    {
        let (_, neighbour) = checkpoints.find_insertion_pos(&15, &mut following);
        neighbour.record_before();
    }
    assert_eq!(checkpoints.get(1).min_gap, 2);
    {
        let (_, neighbour) = checkpoints.find_insertion_pos(&40, &mut following);
        neighbour.record_before();
    }
    assert_eq!(following.max_gap, 2);
}

#[test]
fn samples_and_checkpoints_compare_by_value() {
    let a = Sample {
        value: 3,
        g: 1,
        delta: 0,
    };
    let b = Sample {
        value: 3,
        g: 5,
        delta: 2,
    };
    let c = Sample::exact(4);
    assert!(a == b);
    assert!(a != c);
    assert!(a < c);
    assert!(c > b);
    assert!(a <= b && a >= b);

    let x = Checkpoint::new_exact(3);
    let mut y = Checkpoint::new_exact(3);
    y.record_before();
    let z = Checkpoint::new_exact(7);
    assert!(x == y);
    assert!(x != z);
    assert!(y < z);
    assert!(z > x);
}

#[test]
fn samples_of_checkpoints_and_back() {
    let mut checkpoint = Checkpoint::new_preceding(5, &Checkpoint {
        sample: 9,
        min_gap: 2,
        max_gap: 6,
    });
    checkpoint.record_before();
    let sample = Sample::from_checkpoint(checkpoint);
    assert_eq!((sample.value, sample.g, sample.delta), (5, 2, 5));
    let back = sample.into_checkpoint();
    assert_eq!((back.sample, back.min_gap, back.max_gap), (5, 2, 7));
    let exact = Sample::exact(1);
    assert_eq!((exact.value, exact.g, exact.delta), (1, 1, 0));
}
