//! Streams of samples: the mathematical model of what a summary holds, and of what
//! compressing and merging do to it.

use vstd::prelude::*;
use crate::order::{lawful, le, lemma_le_refl, lemma_le_trans, lemma_lt_le, lt};
use super::samples_tree::sequence::{
    all_wf, bounded_below, first_greater, lemma_first_greater, sorted, tree_recorded,
};
use super::samples_tree::{Checkpoint, Sample};

verus! {

// Samples and checkpoints

/// The samples that a sequence of checkpoints stands for.
pub open spec fn to_samples<T: Ord>(checkpoints: Seq<Checkpoint<T>>) -> Seq<Sample<T>> {
    Seq::new(checkpoints.len(), |i: int| Sample::of(checkpoints[i]))
}

/// The checkpoints that stand for a sequence of samples.
pub open spec fn to_checkpoints<T: Ord>(samples: Seq<Sample<T>>) -> Seq<Checkpoint<T>> {
    Seq::new(samples.len(), |i: int| samples[i].checkpoint())
}

/// Every sample of the stream counts at least one value, and its gap bounds fit in 64
/// bits.
pub open spec fn all_valid<T: Ord>(samples: Seq<Sample<T>>) -> bool {
    forall|i: int| 0 <= i < samples.len() ==> (#[trigger] samples[i]).wf()
}

/// The values of the stream never decrease.
pub open spec fn ascending<T: Ord>(samples: Seq<Sample<T>>) -> bool {
    forall|i: int, j: int|
        0 <= i < j < samples.len() ==> le(#[trigger] samples[i].value, #[trigger] samples[j].value)
}

/// No sample of the stream has `g + delta` above `limit`.
pub open spec fn within<T: Ord>(samples: Seq<Sample<T>>, limit: int) -> bool {
    forall|i: int| 0 <= i < samples.len() ==> (#[trigger] samples[i]).g + samples[i].delta <= limit
}

/// The first sample of the stream, if there is one, is exact: it counts one value, and
/// its rank is known.
pub open spec fn first_exact<T: Ord>(samples: Seq<Sample<T>>) -> bool {
    samples.len() > 0 ==> samples[0].g == 1 && samples[0].delta == 0
}

/// The rank of the last sample of the stream, if there is one, is as exact as what comes
/// before it.
pub open spec fn last_crisp<T: Ord>(samples: Seq<Sample<T>>) -> bool {
    samples.len() > 0 ==> samples.last().delta == 0
}

/// The last checkpoint of the sequence, if there is one, has equal gap bounds: the rank
/// of the greatest value is known exactly.
pub open spec fn last_exact<T>(checkpoints: Seq<Checkpoint<T>>) -> bool {
    checkpoints.len() > 0 ==> checkpoints.last().max_gap == checkpoints.last().min_gap
}

/// No checkpoint of the sequence has an upper gap bound above `limit`.
pub open spec fn capped<T>(checkpoints: Seq<Checkpoint<T>>, limit: int) -> bool {
    forall|i: int| 0 <= i < checkpoints.len() ==> (#[trigger] checkpoints[i]).max_gap <= limit
}

/// The samples of checkpoints, and the checkpoints of samples.
pub proof fn lemma_to_samples<T: Ord>(checkpoints: Seq<Checkpoint<T>>)
    requires
        all_wf(checkpoints),
    ensures
        all_valid(to_samples(checkpoints)),
        to_checkpoints(to_samples(checkpoints)) == checkpoints,
{
    let samples = to_samples(checkpoints);
    assert forall|i: int| 0 <= i < samples.len() implies (#[trigger] samples[i]).wf() by {
        assert(checkpoints[i].wf());
    }
    assert forall|i: int| 0 <= i < checkpoints.len() implies to_checkpoints(samples)[i]
        == checkpoints[i] by {
        assert(checkpoints[i].wf());
    }
    assert(to_checkpoints(samples) =~= checkpoints);
}

/// The checkpoints of samples, and the samples of checkpoints.
pub proof fn lemma_to_checkpoints<T: Ord>(samples: Seq<Sample<T>>)
    requires
        all_valid(samples),
    ensures
        all_wf(to_checkpoints(samples)),
        to_samples(to_checkpoints(samples)) == samples,
{
    let checkpoints = to_checkpoints(samples);
    assert forall|i: int| 0 <= i < checkpoints.len() implies (#[trigger] checkpoints[i]).wf() by {
        assert(samples[i].wf());
    }
    assert forall|i: int| 0 <= i < samples.len() implies to_samples(checkpoints)[i]
        == samples[i] by {
        assert(samples[i].wf());
    }
    assert(to_samples(checkpoints) =~= samples);
}

/// The samples of checkpoints are within the limit that caps the checkpoints.
pub proof fn lemma_capped<T: Ord>(checkpoints: Seq<Checkpoint<T>>, limit: int)
    requires
        all_wf(checkpoints),
    ensures
        capped(checkpoints, limit) <==> within(to_samples(checkpoints), limit),
{
    let samples = to_samples(checkpoints);
    if capped(checkpoints, limit) {
        assert forall|i: int| 0 <= i < samples.len() implies (#[trigger] samples[i]).g
            + samples[i].delta <= limit by {
            assert(checkpoints[i].wf());
        }
    }
    if within(samples, limit) {
        assert forall|i: int| 0 <= i < checkpoints.len() implies (
        #[trigger] checkpoints[i]).max_gap <= limit by {
            assert(checkpoints[i].wf());
            assert(samples[i].g + samples[i].delta <= limit);
        }
    }
}

// What samples count

/// The number of stream values that the samples count: the sum of their `g`.
pub open spec fn counted<T: Ord>(samples: Seq<Sample<T>>) -> nat
    decreases samples.len(),
{
    if samples.len() == 0 {
        0
    } else {
        counted(samples.drop_last()) + samples.last().g as nat
    }
}

/// A stream counts the values that its samples count, one after the other.
pub proof fn lemma_counted_push<T: Ord>(samples: Seq<Sample<T>>, s: Sample<T>)
    ensures
        counted(samples.push(s)) == counted(samples) + s.g,
{
    assert(samples.push(s).drop_last() =~= samples);
}

/// Two streams, one behind the other, count what each of them counts.
pub proof fn lemma_counted_concat<T: Ord>(a: Seq<Sample<T>>, b: Seq<Sample<T>>)
    ensures
        counted(a + b) == counted(a) + counted(b),
    decreases b.len(),
{
    if b.len() == 0 {
        assert(a + b =~= a);
    } else {
        lemma_counted_concat(a, b.drop_last());
        assert((a + b).drop_last() =~= a + b.drop_last());
    }
}

/// A stream counts what its first sample counts, and what the rest counts.
pub proof fn lemma_counted_first<T: Ord>(samples: Seq<Sample<T>>)
    requires
        samples.len() > 0,
    ensures
        counted(samples) == samples[0].g + counted(samples.skip(1)),
{
    let first = seq![samples[0]];
    assert(samples =~= first + samples.skip(1));
    lemma_counted_concat(first, samples.skip(1));
    assert(first.drop_last() =~= Seq::<Sample<T>>::empty());
    assert(counted(Seq::<Sample<T>>::empty()) == 0);
    assert(counted(first) == samples[0].g);
}

/// A stream counts at least one value for each of its samples.
pub proof fn lemma_counted_len<T: Ord>(samples: Seq<Sample<T>>)
    requires
        all_valid(samples),
    ensures
        counted(samples) >= samples.len(),
    decreases samples.len(),
{
    if samples.len() > 0 {
        lemma_counted_len(samples.drop_last());
        assert(samples.last().wf());
    }
}

/// A stream in which one sample is replaced counts what the new sample counts in place
/// of what the old one counted.
pub proof fn lemma_counted_update<T: Ord>(samples: Seq<Sample<T>>, p: int, s: Sample<T>)
    requires
        0 <= p < samples.len(),
    ensures
        counted(samples.update(p, s)) == counted(samples) - samples[p].g + s.g,
{
    let head = samples.take(p);
    let rest = samples.skip(p + 1);
    assert(samples =~= head.push(samples[p]) + rest);
    assert(samples.update(p, s) =~= head.push(s) + rest);
    lemma_counted_concat(head.push(samples[p]), rest);
    lemma_counted_concat(head.push(s), rest);
    lemma_counted_push(head, samples[p]);
    lemma_counted_push(head, s);
}

/// A stream that takes a sample in counts what that sample counts as well.
pub proof fn lemma_counted_insert<T: Ord>(samples: Seq<Sample<T>>, p: int, s: Sample<T>)
    requires
        0 <= p <= samples.len(),
    ensures
        counted(samples.insert(p, s)) == counted(samples) + s.g,
{
    let head = samples.take(p);
    let rest = samples.skip(p);
    assert(samples =~= head + rest);
    assert(samples.insert(p, s) =~= head.push(s) + rest);
    lemma_counted_concat(head, rest);
    lemma_counted_concat(head.push(s), rest);
    lemma_counted_push(head, s);
}

// Recording

/// What recording a value into a tree does to what its checkpoints count: one value
/// more is counted, the upper gap bounds stay under a limit that the gap given for the
/// recording is under, and the rank of the greatest value stays exact.
pub proof fn lemma_tree_recorded_stream<T: Ord>(
    checkpoints: Seq<Checkpoint<T>>,
    v: T,
    maximal_gap: u64,
    limit: int,
)
    requires
        all_wf(checkpoints),
        last_exact(checkpoints),
    ensures
        counted(to_samples(tree_recorded(checkpoints, v, maximal_gap))) == counted(
            to_samples(checkpoints),
        ) + 1,
        last_exact(tree_recorded(checkpoints, v, maximal_gap)),
        capped(checkpoints, limit) && maximal_gap <= limit && 1 <= limit ==> capped(
            tree_recorded(checkpoints, v, maximal_gap),
            limit,
        ),
{
    let s = checkpoints;
    let r = tree_recorded(s, v, maximal_gap);
    let before = to_samples(s);
    if s.len() == 0 {
        assert(to_samples(r) =~= before.push(Sample::of(Checkpoint::exact(v))));
        lemma_counted_push(before, Sample::of(Checkpoint::exact(v)));
        assert(counted(before) == 0);
    } else if !lt(v, s.last().sample) {
        let last = s.len() - 1;
        assert(s[last].wf());
        if s.last().growable(maximal_gap) {
            let c = s.last().succeeded(v);
            assert(to_samples(r) =~= before.update(last, Sample::of(c)));
            lemma_counted_update(before, last, Sample::of(c));
            if capped(s, limit) && maximal_gap <= limit {
                assert forall|i: int| 0 <= i < r.len() implies (#[trigger] r[i]).max_gap
                    <= limit by {
                    if i < last {
                        assert(r[i] == s[i]);
                    }
                }
            }
        } else {
            assert(to_samples(r) =~= before.push(Sample::of(Checkpoint::exact(v))));
            lemma_counted_push(before, Sample::of(Checkpoint::exact(v)));
            if capped(s, limit) && 1 <= limit {
                assert forall|i: int| 0 <= i < r.len() implies (#[trigger] r[i]).max_gap
                    <= limit by {
                    if i < s.len() {
                        assert(r[i] == s[i]);
                    }
                }
            }
        }
    } else {
        lemma_first_greater(s, v);
        let p = first_greater(s, v);
        if p >= s.len() {
            assert(!lt(v, s[s.len() - 1].sample));
        }
        assert(s[p].wf());
        if s[p].growable(maximal_gap) {
            let c = s[p].grown();
            assert(to_samples(r) =~= before.update(p, Sample::of(c)));
            lemma_counted_update(before, p, Sample::of(c));
            if capped(s, limit) && maximal_gap <= limit {
                assert forall|i: int| 0 <= i < r.len() implies (#[trigger] r[i]).max_gap
                    <= limit by {
                    if i != p {
                        assert(r[i] == s[i]);
                    }
                }
            }
        } else {
            let c = Checkpoint::preceding(v, s[p]);
            assert(to_samples(r) =~= before.insert(p, Sample::of(c)));
            lemma_counted_insert(before, p, Sample::of(c));
            assert(r.last() == s.last());
            if capped(s, limit) {
                assert forall|i: int| 0 <= i < r.len() implies (#[trigger] r[i]).max_gap
                    <= limit by {
                    if i < p {
                        assert(r[i] == s[i]);
                    } else if i > p {
                        assert(r[i] == s[i - 1]);
                    }
                }
            }
        }
    }
}

// The samples of a whole summary

/// The samples of a whole summary, in order: the least value of the stream comes first, as
/// an exact sample, and the checkpoints of the tree follow. The least value is one of the
/// values that the first checkpoint counts: so that checkpoint counts one value less here,
/// and is left out where it counts no other.
pub open spec fn emitted<T: Ord>(minimum: Option<T>, checkpoints: Seq<Checkpoint<T>>) -> Seq<
    Sample<T>,
> {
    if checkpoints.len() == 0 || minimum is None {
        Seq::empty()
    } else {
        let first = checkpoints[0];
        seq![Sample { value: minimum->0, g: 1, delta: 0 }] + (if first.min_gap >= 2 {
            seq![
                Sample {
                    value: first.sample,
                    g: (first.min_gap - 1) as u64,
                    delta: (first.max_gap - first.min_gap) as u64,
                },
            ]
        } else {
            Seq::empty()
        }) + to_samples(checkpoints.skip(1))
    }
}

/// What the samples of a whole summary are like: they begin with the least value as an
/// exact sample, they count what the checkpoints count, and they are valid, sorted and
/// within every limit that caps the checkpoints.
pub proof fn lemma_emitted<T: Ord>(minimum: T, checkpoints: Seq<Checkpoint<T>>, limit: int)
    requires
        lawful::<T>(),
        all_wf(checkpoints),
        sorted(checkpoints),
        bounded_below(minimum, checkpoints),
        checkpoints.len() > 0,
    ensures
        ({
            let samples = emitted(Some(minimum), checkpoints);
            &&& 1 <= samples.len() <= checkpoints.len() + 1
            &&& samples[0] == (Sample { value: minimum, g: 1, delta: 0 })
            &&& counted(samples) == counted(to_samples(checkpoints))
            &&& all_valid(samples)
            &&& ascending(samples)
            &&& capped(checkpoints, limit) && 1 <= limit ==> within(samples, limit)
            &&& last_exact(checkpoints) ==> last_crisp(samples)
            &&& samples.len() >= 2 ==> samples.last().value == checkpoints.last().sample
            &&& samples.len() == 1 ==> checkpoints.len() == 1 && checkpoints[0].min_gap == 1
        }),
{
    let samples = emitted(Some(minimum), checkpoints);
    let first = checkpoints[0];
    let plain = to_samples(checkpoints);
    let low = Sample { value: minimum, g: 1, delta: 0 };
    let rest = to_samples(checkpoints.skip(1));
    assert(first.wf());
    assert(plain.skip(1) =~= rest);
    lemma_counted_first(plain);
    lemma_le_refl(minimum);
    if first.min_gap >= 2 {
        let less = Sample {
            value: first.sample,
            g: (first.min_gap - 1) as u64,
            delta: (first.max_gap - first.min_gap) as u64,
        };
        let head = seq![low, less];
        assert(samples =~= head + rest);
        lemma_counted_concat(head, rest);
        assert(head =~= seq![low].push(less));
        lemma_counted_push(seq![low], less);
        lemma_counted_first(seq![low]);
        assert(seq![low].skip(1) =~= Seq::<Sample<T>>::empty());
        assert(counted(Seq::<Sample<T>>::empty()) == 0);
        assert forall|i: int| 0 <= i < samples.len() implies (#[trigger] samples[i]).wf() by {
            if i >= 2 {
                assert(checkpoints[i - 1].wf());
            }
        }
        assert forall|i: int, j: int| 0 <= i < j < samples.len() implies le(
            #[trigger] samples[i].value,
            #[trigger] samples[j].value,
        ) by {
            assert(samples[j].value == checkpoints[j - 1].sample);
            if i >= 1 {
                assert(samples[i].value == checkpoints[i - 1].sample);
            }
        }
        if capped(checkpoints, limit) && 1 <= limit {
            assert forall|i: int| 0 <= i < samples.len() implies (#[trigger] samples[i]).g
                + samples[i].delta <= limit by {
                if i >= 1 {
                    assert(checkpoints[i - 1].wf());
                    assert(checkpoints[i - 1].max_gap <= limit);
                }
            }
        }
        assert(samples.last().value == checkpoints.last().sample);
        if last_exact(checkpoints) {
            assert(checkpoints[checkpoints.len() - 1].wf());
        }
    } else {
        let head = seq![low];
        assert(samples =~= head + rest);
        lemma_counted_concat(head, rest);
        lemma_counted_first(head);
        assert(head.skip(1) =~= Seq::<Sample<T>>::empty());
        assert(counted(Seq::<Sample<T>>::empty()) == 0);
        assert forall|i: int| 0 <= i < samples.len() implies (#[trigger] samples[i]).wf() by {
            if i >= 1 {
                assert(checkpoints[i].wf());
            }
        }
        assert forall|i: int, j: int| 0 <= i < j < samples.len() implies le(
            #[trigger] samples[i].value,
            #[trigger] samples[j].value,
        ) by {
            assert(samples[j].value == checkpoints[j].sample);
            if i >= 1 {
                assert(samples[i].value == checkpoints[i].sample);
            }
        }
        if capped(checkpoints, limit) && 1 <= limit {
            assert forall|i: int| 0 <= i < samples.len() implies (#[trigger] samples[i]).g
                + samples[i].delta <= limit by {
                if i >= 1 {
                    assert(checkpoints[i].wf());
                    assert(checkpoints[i].max_gap <= limit);
                }
            }
        }
        if samples.len() >= 2 {
            assert(samples.last().value == checkpoints.last().sample);
        }
        if last_exact(checkpoints) {
            assert(checkpoints[checkpoints.len() - 1].wf());
        }
    }
}

/// The samples of a whole summary, from its least value and the samples of its
/// checkpoints: the least value comes first, as an exact sample; the first of the samples
/// counts one value less, and is left out where it counts no other.
pub open spec fn whole<T: Ord>(minimum: Option<T>, plain: Seq<Sample<T>>) -> Seq<Sample<T>> {
    if plain.len() == 0 || minimum is None {
        Seq::empty()
    } else {
        seq![Sample { value: minimum->0, g: 1, delta: 0 }] + (if plain[0].g >= 2 {
            seq![
                Sample { value: plain[0].value, g: (plain[0].g - 1) as u64, delta: plain[0].delta },
            ]
        } else {
            Seq::empty()
        }) + plain.skip(1)
    }
}

/// The samples of a whole summary are made from the samples of its checkpoints.
pub proof fn lemma_whole<T: Ord>(minimum: Option<T>, checkpoints: Seq<Checkpoint<T>>)
    ensures
        emitted(minimum, checkpoints) == whole(minimum, to_samples(checkpoints)),
{
    if checkpoints.len() > 0 {
        assert(to_samples(checkpoints.skip(1)) =~= to_samples(checkpoints).skip(1));
    }
}

/// Where the first checkpoint is that of the least value as an exact sample, the
/// samples of the whole summary are those of the checkpoints.
pub proof fn lemma_exact_first_emitted<T: Ord>(minimum: Option<T>, checkpoints: Seq<Checkpoint<T>>)
    requires
        checkpoints.len() > 0 ==> minimum == Some(checkpoints[0].sample) && checkpoints[0].min_gap
            == 1 && checkpoints[0].max_gap == 1,
    ensures
        emitted(minimum, checkpoints) == to_samples(checkpoints),
{
    if checkpoints.len() > 0 {
        assert(to_samples(checkpoints.skip(1)) =~= to_samples(checkpoints).skip(1));
        assert(emitted(minimum, checkpoints) =~= to_samples(checkpoints));
    } else {
        assert(emitted(minimum, checkpoints) =~= to_samples(checkpoints));
    }
}

// Compressing

/// The state of a compression after the sample `s` has been pushed: `done` holds the
/// samples that are committed, and `tail` the last sample of the block that is being
/// built. The first sample of all is committed at once. A sample whose `g + delta`,
/// together with the `g` of the block, stays within `budget` takes the block in; else the
/// block is committed, and the sample starts a new one.
pub open spec fn pushed<T: Ord>(
    done: Seq<Sample<T>>,
    tail: Option<Sample<T>>,
    s: Sample<T>,
    budget: u64,
) -> (Seq<Sample<T>>, Option<Sample<T>>) {
    match tail {
        Some(t) => if t.g + s.g + s.delta <= budget {
            (done, Some(Sample { value: s.value, g: (s.g + t.g) as u64, delta: s.delta }))
        } else {
            (done.push(t), Some(s))
        },
        None => if done.len() == 0 {
            (seq![s], None)
        } else {
            (done, Some(s))
        },
    }
}

/// The state of a compression after all the samples of `input` have been pushed, in
/// order.
pub open spec fn pushed_all<T: Ord>(
    done: Seq<Sample<T>>,
    tail: Option<Sample<T>>,
    input: Seq<Sample<T>>,
    budget: u64,
) -> (Seq<Sample<T>>, Option<Sample<T>>)
    decreases input.len(),
{
    if input.len() == 0 {
        (done, tail)
    } else {
        let next = pushed(done, tail, input[0], budget);
        pushed_all(next.0, next.1, input.skip(1), budget)
    }
}

/// The samples that a compression hands out when it ends: the block that was being built
/// is committed.
pub open spec fn finished<T: Ord>(done: Seq<Sample<T>>, tail: Option<Sample<T>>) -> Seq<
    Sample<T>,
> {
    match tail {
        Some(t) => done.push(t),
        None => done,
    }
}

/// The stream `input`, compressed under `budget`.
pub open spec fn compressed<T: Ord>(input: Seq<Sample<T>>, budget: u64) -> Seq<Sample<T>> {
    let end = pushed_all(Seq::empty(), None, input, budget);
    finished(end.0, end.1)
}

/// What one step of a compression does to the samples that it would hand out: the
/// pushed sample is added behind them, or it takes the place of the last one and takes
/// in what that one counted.
pub proof fn lemma_pushed<T: Ord>(
    done: Seq<Sample<T>>,
    tail: Option<Sample<T>>,
    s: Sample<T>,
    budget: u64,
)
    requires
        tail is Some ==> done.len() > 0,
    ensures
        ({
            let before = finished(done, tail);
            let next = pushed(done, tail, s, budget);
            let after = finished(next.0, next.1);
            &&& next.1 is Some ==> next.0.len() > 0
            &&& after.len() > 0
            &&& after.last().value == s.value
            &&& after.last().delta == s.delta
            &&& after == before.push(s) || (before.len() > 1 && after == before.drop_last().push(
                after.last(),
            ) && after.last().g == s.g + before.last().g && before.last().g + s.g + s.delta
                <= budget)
        }),
{
    let before = finished(done, tail);
    let next = pushed(done, tail, s, budget);
    let after = finished(next.0, next.1);
    match tail {
        Some(t) => {
            if t.g + s.g + s.delta <= budget {
                assert(before.drop_last() =~= done);
            } else {
                assert(after =~= before.push(s));
            }
        },
        None => {
            assert(after =~= before.push(s));
        },
    }
}

/// What a compression keeps of a stream: it counts the same values, it is no longer, it
/// stays within a limit that the stream and the budget are within, it stays valid and
/// sorted, and it keeps the first sample as it is, and the value and the `delta` of the
/// last one.
pub proof fn lemma_pushed_all<T: Ord>(
    done: Seq<Sample<T>>,
    tail: Option<Sample<T>>,
    input: Seq<Sample<T>>,
    budget: u64,
    limit: int,
)
    requires
        lawful::<T>(),
        tail is Some ==> done.len() > 0,
        all_valid(finished(done, tail)),
        all_valid(input),
        ascending(finished(done, tail)),
        ascending(input),
        finished(done, tail).len() > 0 && input.len() > 0 ==> le(
            finished(done, tail).last().value,
            input[0].value,
        ),
    ensures
        ({
            let before = finished(done, tail);
            let end = pushed_all(done, tail, input, budget);
            let after = finished(end.0, end.1);
            &&& end.1 is Some ==> end.0.len() > 0
            &&& counted(after) == counted(before) + counted(input)
            &&& before.len() <= after.len() <= before.len() + input.len()
            &&& all_valid(after)
            &&& ascending(after)
            &&& within(before, limit) && within(input, limit) && budget <= limit ==> within(
                after,
                limit,
            )
            &&& input.len() > 0 ==> after.last().value == input.last().value && after.last().delta
                == input.last().delta
            &&& input.len() == 0 ==> after == before
            &&& before.len() > 0 ==> after[0] == before[0]
            &&& before.len() == 0 && input.len() > 0 ==> after[0] == input[0]
        }),
    decreases input.len(),
{
    let before = finished(done, tail);
    if input.len() == 0 {
    } else {
        let s = input[0];
        let next = pushed(done, tail, s, budget);
        let mid = finished(next.0, next.1);
        let rest = input.skip(1);
        lemma_pushed(done, tail, s, budget);
        lemma_counted_first(input);
        assert(s.wf());
        if mid == before.push(s) {
            lemma_counted_push(before, s);
            assert forall|i: int, j: int| 0 <= i < j < mid.len() implies le(
                #[trigger] mid[i].value,
                #[trigger] mid[j].value,
            ) by {
                if j < before.len() {
                } else if i < before.len() - 1 {
                    lemma_le_trans(mid[i].value, before.last().value, s.value);
                }
            }
        } else {
            let merged_sample = mid.last();
            let kept = before.drop_last();
            assert(before =~= kept.push(before.last()));
            lemma_counted_push(kept, before.last());
            lemma_counted_push(kept, merged_sample);
            assert(before.last().wf());
            assert forall|i: int| 0 <= i < mid.len() implies (#[trigger] mid[i]).wf() by {
                if i < kept.len() {
                    assert(mid[i] == before[i]);
                }
            }
            assert forall|i: int, j: int| 0 <= i < j < mid.len() implies le(
                #[trigger] mid[i].value,
                #[trigger] mid[j].value,
            ) by {
                assert(mid[i] == before[i]);
                if j < kept.len() {
                    assert(mid[j] == before[j]);
                } else {
                    lemma_le_trans(mid[i].value, before.last().value, s.value);
                }
            }
            if within(before, limit) && budget <= limit {
                assert forall|i: int| 0 <= i < mid.len() implies (#[trigger] mid[i]).g
                    + mid[i].delta <= limit by {
                    if i < kept.len() {
                        assert(mid[i] == before[i]);
                    }
                }
            }
        }
        assert forall|i: int| 0 <= i < rest.len() implies (#[trigger] rest[i]).wf() by {
            assert(rest[i] == input[i + 1]);
        }
        assert forall|i: int, j: int| 0 <= i < j < rest.len() implies le(
            #[trigger] rest[i].value,
            #[trigger] rest[j].value,
        ) by {
            assert(rest[i] == input[i + 1] && rest[j] == input[j + 1]);
        }
        if rest.len() > 0 {
            assert(rest[0] == input[1]);
            assert(le(input[0].value, input[1].value));
            assert(rest.last() == input.last());
        }
        if within(input, limit) {
            assert forall|i: int| 0 <= i < rest.len() implies (#[trigger] rest[i]).g
                + rest[i].delta <= limit by {
                assert(rest[i] == input[i + 1]);
            }
            if within(before, limit) && budget <= limit && mid == before.push(s) {
                assert forall|i: int| 0 <= i < mid.len() implies (#[trigger] mid[i]).g
                    + mid[i].delta <= limit by {
                    if i < before.len() {
                        assert(mid[i] == before[i]);
                    }
                }
            }
        }
        lemma_pushed_all(next.0, next.1, rest, budget, limit);
    }
}

/// A compression keeps the first sample that is committed as the first.
pub proof fn lemma_pushed_all_first<T: Ord>(
    done: Seq<Sample<T>>,
    tail: Option<Sample<T>>,
    input: Seq<Sample<T>>,
    budget: u64,
)
    requires
        done.len() > 0,
    ensures
        ({
            let end = pushed_all(done, tail, input, budget);
            end.0.len() > 0 && end.0[0] == done[0]
        }),
    decreases input.len(),
{
    if input.len() > 0 {
        let next = pushed(done, tail, input[0], budget);
        lemma_pushed_all_first(next.0, next.1, input.skip(1), budget);
    }
}

/// Compressing keeps the first sample of a stream as it is, and leaves no sample of no
/// sample.
pub proof fn lemma_compressed_first<T: Ord>(input: Seq<Sample<T>>, budget: u64)
    ensures
        input.len() > 0 ==> compressed(input, budget).len() > 0 && compressed(input, budget)[0]
            == input[0],
        input.len() == 0 ==> compressed(input, budget).len() == 0,
{
    if input.len() > 0 {
        let next = pushed(Seq::<Sample<T>>::empty(), None, input[0], budget);
        assert(next.0 =~= seq![input[0]]);
        lemma_pushed_all_first(next.0, next.1, input.skip(1), budget);
    }
}

/// What compressing keeps of a stream.
pub proof fn lemma_compressed<T: Ord>(input: Seq<Sample<T>>, budget: u64, limit: int)
    requires
        lawful::<T>(),
        all_valid(input),
        ascending(input),
    ensures
        counted(compressed(input, budget)) == counted(input),
        compressed(input, budget).len() <= input.len(),
        all_valid(compressed(input, budget)),
        ascending(compressed(input, budget)),
        within(input, limit) && budget <= limit ==> within(compressed(input, budget), limit),
        input.len() > 0 ==> compressed(input, budget).len() > 0 && compressed(input, budget)[0]
            == input[0] && compressed(input, budget).last().value == input.last().value
            && compressed(input, budget).last().delta == input.last().delta,
        input.len() == 0 ==> compressed(input, budget).len() == 0,
{
    lemma_pushed_all(Seq::empty(), None, input, budget, limit);
}

// Merging

/// By how much the `delta` of a sample from one stream grows when it is merged in before
/// the first sample of `others`, the rest of the other stream: once a sample of the other
/// stream has been taken, the sample lies between that one and the next one there, which
/// adds the whole range of the next one, less one, to what is not known of its rank.
pub open spec fn additional_delta<T: Ord>(others: Seq<Sample<T>>, started: bool) -> int {
    if started && others.len() > 0 {
        others[0].g + others[0].delta - 1
    } else {
        0
    }
}

/// The sample `s` with its `delta` grown by `more`.
pub open spec fn widened<T: Ord>(s: Sample<T>, more: int) -> Sample<T> {
    Sample { value: s.value, g: s.g, delta: (s.delta + more) as u64 }
}

/// The streams `a` and `b` merged into one. `a_started` and `b_started` tell whether a
/// sample has been taken from each stream before. The lesser first sample is taken; on a
/// tie, the one of `b`.
pub open spec fn merged<T: Ord>(
    a: Seq<Sample<T>>,
    b: Seq<Sample<T>>,
    a_started: bool,
    b_started: bool,
) -> Seq<Sample<T>>
    decreases a.len() + b.len(),
{
    if a.len() == 0 {
        b
    } else if b.len() == 0 {
        a
    } else if lt(a[0].value, b[0].value) {
        seq![widened(a[0], additional_delta(b, b_started))] + merged(
            a.skip(1),
            b,
            true,
            b_started,
        )
    } else {
        seq![widened(b[0], additional_delta(a, a_started))] + merged(
            a,
            b.skip(1),
            a_started,
            true,
        )
    }
}

/// What merging keeps of two streams: the merged stream counts what both count, it is
/// as long as both together, it is valid and sorted, a sample of it exceeds the greater
/// of the two limits by less than the other limit, and its last sample is as exact as
/// the last samples of the two streams. The merged stream of two streams that had not
/// been started begins with the first sample of one of them, as it is.
pub proof fn lemma_merged<T: Ord>(
    a: Seq<Sample<T>>,
    b: Seq<Sample<T>>,
    a_started: bool,
    b_started: bool,
    a_limit: int,
    b_limit: int,
)
    requires
        lawful::<T>(),
        all_valid(a),
        all_valid(b),
        ascending(a),
        ascending(b),
        within(a, a_limit),
        within(b, b_limit),
        1 <= a_limit,
        1 <= b_limit,
        a_limit + b_limit - 1 <= u64::MAX,
        last_crisp(a),
        last_crisp(b),
    ensures
        ({
            let m = merged(a, b, a_started, b_started);
            &&& counted(m) == counted(a) + counted(b)
            &&& m.len() == a.len() + b.len()
            &&& all_valid(m)
            &&& ascending(m)
            &&& within(m, a_limit + b_limit - 1)
            &&& last_crisp(m)
            &&& forall|v: T|
                (a.len() > 0 ==> le(v, a[0].value)) && (b.len() > 0 ==> le(v, b[0].value))
                    && m.len() > 0 ==> le(v, #[trigger] m[0].value)
            &&& !a_started && !b_started && m.len() > 0 ==> (m[0] == a[0] && a.len() > 0) || (m[0]
                == b[0] && b.len() > 0)
        }),
    decreases a.len() + b.len(),
{
    let m = merged(a, b, a_started, b_started);
    let limit = a_limit + b_limit - 1;
    if a.len() == 0 {
        assert(counted(a) == 0);
        assert forall|i: int| 0 <= i < m.len() implies (#[trigger] m[i]).g + m[i].delta
            <= limit by {}
    } else if b.len() == 0 {
        assert(counted(b) == 0);
        assert forall|i: int| 0 <= i < m.len() implies (#[trigger] m[i]).g + m[i].delta
            <= limit by {}
    } else {
        let take_a = lt(a[0].value, b[0].value);
        let (taken, more, a2, b2, sa, sb) = if take_a {
            (a[0], additional_delta(b, b_started), a.skip(1), b, true, b_started)
        } else {
            (b[0], additional_delta(a, a_started), a, b.skip(1), a_started, true)
        };
        let first = widened(taken, more);
        let tail = merged(a2, b2, sa, sb);
        assert(m == seq![first] + tail);
        assert(a[0].wf() && b[0].wf());
        assert(a[0].g + a[0].delta <= a_limit && b[0].g + b[0].delta <= b_limit);
        assert forall|i: int| 0 <= i < a2.len() implies (#[trigger] a2[i]).wf() && a2[i].g
            + a2[i].delta <= a_limit by {
            if take_a {
                assert(a2[i] == a[i + 1]);
            }
        }
        assert forall|i: int| 0 <= i < b2.len() implies (#[trigger] b2[i]).wf() && b2[i].g
            + b2[i].delta <= b_limit by {
            if !take_a {
                assert(b2[i] == b[i + 1]);
            }
        }
        assert forall|i: int, j: int| 0 <= i < j < a2.len() implies le(
            #[trigger] a2[i].value,
            #[trigger] a2[j].value,
        ) by {
            if take_a {
                assert(a2[i] == a[i + 1] && a2[j] == a[j + 1]);
            }
        }
        assert forall|i: int, j: int| 0 <= i < j < b2.len() implies le(
            #[trigger] b2[i].value,
            #[trigger] b2[j].value,
        ) by {
            if !take_a {
                assert(b2[i] == b[i + 1] && b2[j] == b[j + 1]);
            }
        }
        if a2.len() > 0 {
            assert(a2.last() == a.last());
        }
        if b2.len() > 0 {
            assert(b2.last() == b.last());
        }
        lemma_merged(a2, b2, sa, sb, a_limit, b_limit);
        lemma_counted_first(a);
        lemma_counted_first(b);
        lemma_counted_concat(seq![first], tail);
        lemma_counted_first(seq![first]);
        assert(seq![first].skip(1) =~= Seq::<Sample<T>>::empty());
        assert(counted(Seq::<Sample<T>>::empty()) == 0);
        // The sample that is taken is not above what is left of either stream.
        lemma_le_refl(taken.value);
        if take_a {
            lemma_lt_le(a[0].value, b[0].value);
            if a2.len() > 0 {
                assert(a2[0] == a[1]);
                assert(le(a[0].value, a[1].value));
            }
        } else {
            if b2.len() > 0 {
                assert(b2[0] == b[1]);
                assert(le(b[0].value, b[1].value));
            }
        }
        assert forall|i: int| 0 <= i < m.len() implies (#[trigger] m[i]).wf() && m[i].g
            + m[i].delta <= limit by {
            if i > 0 {
                assert(m[i] == tail[i - 1]);
            }
        }
        assert forall|i: int, j: int| 0 <= i < j < m.len() implies le(
            #[trigger] m[i].value,
            #[trigger] m[j].value,
        ) by {
            assert(m[j] == tail[j - 1]);
            if i > 0 {
                assert(m[i] == tail[i - 1]);
            } else {
                assert(le(taken.value, tail[0].value));
                if j > 1 {
                    assert(le(tail[0].value, tail[j - 1].value));
                    lemma_le_trans(taken.value, tail[0].value, tail[j - 1].value);
                }
            }
        }
        assert(m.last() == tail.last());
    }
}

// Answering

/// The least rank that the sample at `i` can have: what the samples up to it count.
pub open spec fn min_rank<T: Ord>(samples: Seq<Sample<T>>, i: int) -> int {
    counted(samples.take(i + 1)) as int
}

/// The greatest rank that the sample at `i` can have.
pub open spec fn max_rank<T: Ord>(samples: Seq<Sample<T>>, i: int) -> int {
    min_rank(samples, i) + samples[i].delta
}

/// How far the rank of the sample at `i` can be from the rank `target`, at the worst.
pub open spec fn rank_error<T: Ord>(samples: Seq<Sample<T>>, i: int, target: int) -> int {
    let mid_rank = (min_rank(samples, i) + max_rank(samples, i)) / 2;
    if target > mid_rank {
        target - min_rank(samples, i)
    } else {
        max_rank(samples, i) - target
    }
}

/// The index of the first sample among the first `k` whose rank error for `target` is
/// the least.
pub open spec fn best<T: Ord>(samples: Seq<Sample<T>>, target: int, k: int) -> int
    decreases k,
{
    if k <= 1 {
        0
    } else {
        let before = best(samples, target, k - 1);
        if rank_error(samples, k - 1, target) < rank_error(samples, before, target) {
            k - 1
        } else {
            before
        }
    }
}

/// The index of the sample that answers a query for the rank `target`: the first one
/// whose rank error is the least.
pub open spec fn answer<T: Ord>(samples: Seq<Sample<T>>, target: int) -> int {
    best(samples, target, samples.len() as int)
}

/// The answer among the first `k` samples is one of them, none of them has a lesser
/// rank error, and none before it has the same.
pub proof fn lemma_best<T: Ord>(samples: Seq<Sample<T>>, target: int, k: int)
    requires
        1 <= k <= samples.len(),
    ensures
        0 <= best(samples, target, k) < k,
        forall|i: int|
            0 <= i < k ==> rank_error(samples, best(samples, target, k), target)
                <= #[trigger] rank_error(samples, i, target),
        forall|i: int|
            0 <= i < best(samples, target, k) ==> rank_error(
                samples,
                best(samples, target, k),
                target,
            ) < #[trigger] rank_error(samples, i, target),
    decreases k,
{
    if k > 1 {
        lemma_best(samples, target, k - 1);
    }
}

/// The samples up to one index count no more than the samples up to a later one.
pub proof fn lemma_min_rank_grows<T: Ord>(samples: Seq<Sample<T>>, i: int, j: int)
    requires
        0 <= i <= j < samples.len(),
    ensures
        min_rank(samples, i) <= min_rank(samples, j) <= counted(samples),
        j == samples.len() - 1 ==> min_rank(samples, j) == counted(samples),
        i < j ==> min_rank(samples, i) + samples[j].g <= min_rank(samples, j),
        0 < j ==> min_rank(samples, j) == min_rank(samples, j - 1) + samples[j].g,
        min_rank(samples, 0) == samples[0].g,
    decreases j - i,
{
    let upto = samples.take(j + 1);
    assert(upto.drop_last() =~= samples.take(j));
    assert(samples =~= upto + samples.skip(j + 1));
    lemma_counted_concat(upto, samples.skip(j + 1));
    if j == samples.len() - 1 {
        assert(upto =~= samples);
    }
    if j == 0 {
        assert(counted(samples.take(0)) == 0);
    }
    if i < j {
        lemma_min_rank_grows(samples, i, j - 1);
    }
    assert(samples.take(1).drop_last() =~= samples.take(0));
    assert(counted(samples.take(0)) == 0);
    assert(samples.take(1).last() == samples[0]);
}

/// Among samples that begin with an exact one, that count `counted` values, whose last
/// rank is exact, and none of which has `g + delta` above `limit`, there is one whose
/// rank is within `half` of any rank among the values counted, where twice `half` is
/// `limit` or one less.
pub proof fn lemma_close_sample<T: Ord>(
    samples: Seq<Sample<T>>,
    target: int,
    limit: int,
    half: int,
    k: int,
) -> (i: int)
    requires
        all_valid(samples),
        first_exact(samples),
        last_crisp(samples),
        within(samples, limit),
        limit <= 2 * half + 1,
        0 <= half,
        1 <= target <= counted(samples),
        1 <= k <= samples.len(),
        forall|j: int| 0 <= j < k ==> #[trigger] max_rank(samples, j) <= target + half,
    ensures
        0 <= i < samples.len(),
        rank_error(samples, i, target) <= half,
    decreases samples.len() - k,
{
    if k == samples.len() {
        lemma_min_rank_grows(samples, k - 1, k - 1);
        assert(max_rank(samples, k - 1) <= target + half);
        k - 1
    } else if max_rank(samples, k) > target + half {
        lemma_min_rank_grows(samples, k - 1, k);
        assert(max_rank(samples, k - 1) <= target + half);
        assert(samples[k].g + samples[k].delta <= limit);
        assert(samples[k - 1].wf());
        k - 1
    } else {
        lemma_close_sample(samples, target, limit, half, k + 1)
    }
}

/// The answer to a query for a rank among the values counted has a rank error of `half`
/// at most, under the conditions of [`lemma_close_sample`]; and the answer for the first
/// rank is the first sample, and that for the last rank the last sample, with no error.
pub proof fn lemma_answer<T: Ord>(samples: Seq<Sample<T>>, target: int, limit: int, half: int)
    requires
        all_valid(samples),
        first_exact(samples),
        last_crisp(samples),
        within(samples, limit),
        limit <= 2 * half + 1,
        0 <= half,
        1 <= target <= counted(samples),
        samples.len() > 0,
    ensures
        0 <= answer(samples, target) < samples.len(),
        0 <= rank_error(samples, answer(samples, target), target) <= half,
        rank_error(samples, answer(samples, target), target) <= target - 1,
        target == 1 ==> answer(samples, target) == 0 && rank_error(samples, 0, target) == 0,
        target == counted(samples) ==> answer(samples, target) == samples.len() - 1
            && rank_error(samples, samples.len() - 1, target) == 0,
{
    let n = samples.len() as int;
    lemma_min_rank_grows(samples, 0, 0);
    assert(max_rank(samples, 0) == 1);
    assert forall|j: int| 0 <= j < 1 implies #[trigger] max_rank(samples, j) <= target
        + half by {}
    let close = lemma_close_sample(samples, target, limit, half, 1);
    lemma_best(samples, target, n);
    let chosen = answer(samples, target);
    assert(rank_error(samples, chosen, target) <= rank_error(samples, close, target));
    assert(rank_error(samples, chosen, target) <= rank_error(samples, 0, target));
    assert(rank_error(samples, 0, target) == target - 1);
    lemma_min_rank_grows(samples, chosen, chosen);
    assert(samples[chosen].wf());
    // No rank error is below zero.
    assert(rank_error(samples, chosen, target) >= 0);
    if target == 1 {
        if chosen > 0 {
            assert(rank_error(samples, chosen, target) < rank_error(samples, 0, target));
        }
    }
    if target == counted(samples) {
        lemma_min_rank_grows(samples, n - 1, n - 1);
        assert(rank_error(samples, n - 1, target) == 0);
        if chosen < n - 1 {
            lemma_min_rank_grows(samples, chosen, n - 1);
            assert(samples[n - 1].wf());
            assert(min_rank(samples, chosen) < target);
            assert(rank_error(samples, chosen, target) > 0);
        }
    }
}

} // verus!
