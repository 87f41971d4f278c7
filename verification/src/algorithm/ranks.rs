//! The ranks of values in a stream, and which samples are true to them.
//!
//! The rank of a value among the values of a stream is its place when they are put in
//! order, counted from 1. A value that occurs more than once has a range of ranks. A
//! sample of a summary tells a least and a greatest rank for its value; it is true to
//! the stream if some rank of the value lies between them.

use vstd::prelude::*;
use crate::order::{
    lawful, le, lemma_le_lt_trans, lemma_le_refl, lemma_le_trans, lemma_lt_le, lemma_lt_le_trans,
    lt,
};
use super::samples_tree::sequence::{
    all_wf, first_greater, lemma_first_greater, sorted, tree_recorded,
};
use super::samples_tree::{Checkpoint, Sample};
use super::stream::{
    additional_delta, all_valid, ascending, compressed, counted, emitted, finished, first_exact,
    last_exact, lemma_counted_concat, lemma_counted_first, lemma_counted_insert, lemma_counted_push,
    lemma_counted_update, lemma_min_rank_grows, lemma_pushed, max_rank, merged, min_rank, pushed,
    pushed_all, rank_error, to_samples, widened, within,
};

verus! {

/// The number of values of `stream` that are strictly below `v`.
pub open spec fn below<T: Ord>(stream: Seq<T>, v: T) -> nat
    decreases stream.len(),
{
    if stream.len() == 0 {
        0
    } else {
        below(stream.drop_last(), v) + if lt(stream.last(), v) {
            1nat
        } else {
            0nat
        }
    }
}

/// The number of values of `stream` that are not above `v`.
pub open spec fn upto<T: Ord>(stream: Seq<T>, v: T) -> nat
    decreases stream.len(),
{
    if stream.len() == 0 {
        0
    } else {
        upto(stream.drop_last(), v) + if !lt(v, stream.last()) {
            1nat
        } else {
            0nat
        }
    }
}

/// `v` is a value of `stream`, or equal in order to one: its ranks are those above
/// `below(stream, v)` and up to `upto(stream, v)`.
pub open spec fn occurs<T: Ord>(stream: Seq<T>, v: T) -> bool {
    below(stream, v) < upto(stream, v)
}

/// No two values of `stream` are equal: every value has one rank at most.
pub open spec fn no_two_equal<T: Ord>(stream: Seq<T>) -> bool {
    forall|v: T| #[trigger] upto(stream, v) <= below(stream, v) + 1
}

/// How the counts change with one more value.
pub proof fn lemma_count_push<T: Ord>(stream: Seq<T>, x: T, v: T)
    ensures
        below(stream.push(x), v) == below(stream, v) + if lt(x, v) {
            1nat
        } else {
            0nat
        },
        upto(stream.push(x), v) == upto(stream, v) + if !lt(v, x) {
            1nat
        } else {
            0nat
        },
{
    assert(stream.push(x).drop_last() =~= stream);
}

/// The counts in two streams, one behind the other, are the sums of the counts in each.
pub proof fn lemma_count_concat<T: Ord>(a: Seq<T>, b: Seq<T>, v: T)
    ensures
        below(a + b, v) == below(a, v) + below(b, v),
        upto(a + b, v) == upto(a, v) + upto(b, v),
    decreases b.len(),
{
    if b.len() == 0 {
        assert(a + b =~= a);
    } else {
        lemma_count_concat(a, b.drop_last(), v);
        assert((a + b).drop_last() =~= a + b.drop_last());
    }
}

/// No more values are below a value than are not above it, and neither count exceeds
/// the length of the stream.
pub proof fn lemma_count_bounds<T: Ord>(stream: Seq<T>, v: T)
    requires
        lawful::<T>(),
    ensures
        below(stream, v) <= upto(stream, v) <= stream.len(),
    decreases stream.len(),
{
    if stream.len() > 0 {
        lemma_count_bounds(stream.drop_last(), v);
        if lt(stream.last(), v) {
            lemma_lt_le(stream.last(), v);
        }
    }
}

/// The counts grow with the value; and fewer values are not above a value than are
/// strictly below a greater one.
pub proof fn lemma_count_grows<T: Ord>(stream: Seq<T>, v: T, w: T)
    requires
        lawful::<T>(),
        le(v, w),
    ensures
        below(stream, v) <= below(stream, w),
        upto(stream, v) <= upto(stream, w),
        lt(v, w) ==> upto(stream, v) <= below(stream, w),
    decreases stream.len(),
{
    if stream.len() > 0 {
        let x = stream.last();
        lemma_count_grows(stream.drop_last(), v, w);
        if lt(x, v) {
            lemma_lt_le_trans(x, v, w);
        }
        if !lt(v, x) {
            lemma_le_trans(x, v, w);
            if lt(v, w) {
                lemma_le_lt_trans(x, v, w);
            }
        }
    }
}

/// The samples are true to `stream`, with `base` values counted before the first of
/// them: each value occurs in the stream, at least as many values are not above it as
/// its least rank tells, and fewer values are strictly below it than its greatest rank
/// tells.
pub open spec fn placed_from<T: Ord>(samples: Seq<Sample<T>>, base: int, stream: Seq<T>) -> bool {
    forall|i: int|
        0 <= i < samples.len() ==> {
            &&& base + min_rank(samples, i) <= upto(stream, (#[trigger] samples[i]).value)
            &&& below(stream, samples[i].value) + 1 <= base + max_rank(samples, i)
            &&& occurs(stream, samples[i].value)
        }
}

/// The samples are true to `stream`.
pub open spec fn placed<T: Ord>(samples: Seq<Sample<T>>, stream: Seq<T>) -> bool {
    placed_from(samples, 0, stream)
}

/// The least ranks in a stream of samples in which one sample is replaced.
pub proof fn lemma_min_rank_update<T: Ord>(samples: Seq<Sample<T>>, p: int, s: Sample<T>, i: int)
    requires
        0 <= p < samples.len(),
        0 <= i < samples.len(),
    ensures
        min_rank(samples.update(p, s), i) == min_rank(samples, i) + if i >= p {
            s.g - samples[p].g
        } else {
            0
        },
{
    let changed = samples.update(p, s);
    if i >= p {
        assert(changed.take(i + 1) =~= samples.take(i + 1).update(p, s));
        lemma_counted_update(samples.take(i + 1), p, s);
    } else {
        assert(changed.take(i + 1) =~= samples.take(i + 1));
    }
}

/// The least ranks in a stream of samples that has taken a sample in.
pub proof fn lemma_min_rank_insert<T: Ord>(samples: Seq<Sample<T>>, p: int, s: Sample<T>, i: int)
    requires
        0 <= p <= samples.len(),
        0 <= i <= samples.len(),
    ensures
        min_rank(samples.insert(p, s), i) == if i < p {
            min_rank(samples, i)
        } else {
            min_rank(samples, i - 1) + s.g
        },
{
    let grown = samples.insert(p, s);
    if i >= p {
        assert(grown.take(i + 1) =~= samples.take(i).insert(p, s));
        lemma_counted_insert(samples.take(i), p, s);
    } else {
        assert(grown.take(i + 1) =~= samples.take(i + 1));
    }
}

/// How the counts for `w` change when `v` is added to the stream.
proof fn lemma_count_more<T: Ord>(stream: Seq<T>, v: T, w: T)
    requires
        lawful::<T>(),
    ensures
        below(stream.push(v), w) == below(stream, w) + if lt(v, w) {
            1nat
        } else {
            0nat
        },
        upto(stream.push(v), w) == upto(stream, w) + if !lt(w, v) {
            1nat
        } else {
            0nat
        },
        below(stream, w) <= upto(stream, w) <= stream.len(),
        lt(v, w) ==> !lt(w, v),
{
    lemma_count_push(stream, v, w);
    lemma_count_bounds(stream, w);
    if lt(v, w) {
        lemma_lt_le(v, w);
    }
}

/// A sample is true to the stream with one more value, where it was true to the stream,
/// and its ranks have moved up by one if the value is below it, and have stayed if the
/// value is not below it.
proof fn lemma_placed_more<T: Ord>(
    before: Seq<Sample<T>>,
    i: int,
    after: Seq<Sample<T>>,
    j: int,
    stream: Seq<T>,
    v: T,
)
    requires
        lawful::<T>(),
        placed(before, stream),
        0 <= i < before.len(),
        0 <= j < after.len(),
        after[j].value == before[i].value,
        lt(v, before[i].value) ==> min_rank(after, j) <= min_rank(before, i) + 1 && max_rank(
            after,
            j,
        ) == max_rank(before, i) + 1,
        !lt(v, before[i].value) ==> min_rank(after, j) == min_rank(before, i) && max_rank(
            after,
            j,
        ) == max_rank(before, i),
    ensures
        min_rank(after, j) <= upto(stream.push(v), after[j].value),
        below(stream.push(v), after[j].value) + 1 <= max_rank(after, j),
        occurs(stream.push(v), after[j].value),
{
    lemma_count_more(stream, v, before[i].value);
}

/// The samples of a tree stay true to the stream when a value that is not below the
/// greatest one is recorded into the tree and added to the stream.
proof fn lemma_recorded_placed_top<T: Ord>(
    checkpoints: Seq<Checkpoint<T>>,
    v: T,
    maximal_gap: u64,
    stream: Seq<T>,
)
    requires
        lawful::<T>(),
        all_wf(checkpoints),
        sorted(checkpoints),
        last_exact(checkpoints),
        counted(to_samples(checkpoints)) == stream.len(),
        placed(to_samples(checkpoints), stream),
        checkpoints.len() > 0,
        !lt(v, checkpoints.last().sample),
    ensures
        placed(to_samples(tree_recorded(checkpoints, v, maximal_gap)), stream.push(v)),
{
    let s = checkpoints;
    let r = tree_recorded(s, v, maximal_gap);
    let before = to_samples(s);
    let after = to_samples(r);
    let more = stream.push(v);
    let n = s.len() as int;
    let last = n - 1;
    let top = s[last].sample;
    lemma_le_refl(v);
    lemma_le_refl(top);
    lemma_min_rank_grows(before, last, last);
    assert(s[last].wf());
    // The last sample is that of the greatest value: no value of the stream is above it.
    assert(before[last].value == top);
    lemma_count_bounds(stream, top);
    lemma_count_bounds(stream, v);
    lemma_count_grows(stream, top, v);
    lemma_count_more(stream, v, v);
    assert(upto(stream, v) == stream.len());
    let one = if s.last().growable(maximal_gap) {
        Sample::of(s.last().succeeded(v))
    } else {
        Sample::of(Checkpoint::exact(v))
    };
    if s.last().growable(maximal_gap) {
        assert(after =~= before.update(last, one));
    } else {
        assert(after =~= before.insert(n, one));
    }
    assert forall|i: int| 0 <= i < after.len() implies {
        &&& min_rank(after, i) <= upto(more, (#[trigger] after[i]).value)
        &&& below(more, after[i].value) + 1 <= max_rank(after, i)
        &&& occurs(more, after[i].value)
    } by {
        if s.last().growable(maximal_gap) {
            lemma_min_rank_update(before, last, one, i);
        } else {
            lemma_min_rank_insert(before, n, one, i);
        }
        if i < n && after[i] == before[i] {
            assert(before[i].value == s[i].sample);
            if i < last {
                assert(le(s[i].sample, s[last].sample));
            }
            lemma_le_trans(s[i].sample, top, v);
            lemma_placed_more(before, i, after, i, stream, v);
        } else {
            assert(after[i] == one);
            assert(min_rank(after, i) == stream.len() + 1);
        }
    }
}

/// The samples of a tree stay true to the stream when a value that is below the
/// greatest one is recorded into the tree and added to the stream.
proof fn lemma_recorded_placed_inner<T: Ord>(
    checkpoints: Seq<Checkpoint<T>>,
    v: T,
    maximal_gap: u64,
    stream: Seq<T>,
)
    requires
        lawful::<T>(),
        all_wf(checkpoints),
        sorted(checkpoints),
        placed(to_samples(checkpoints), stream),
        checkpoints.len() > 0,
        lt(v, checkpoints.last().sample),
    ensures
        placed(to_samples(tree_recorded(checkpoints, v, maximal_gap)), stream.push(v)),
{
    let s = checkpoints;
    let r = tree_recorded(s, v, maximal_gap);
    let before = to_samples(s);
    let after = to_samples(r);
    let more = stream.push(v);
    let n = s.len() as int;
    lemma_first_greater(s, v);
    let p = first_greater(s, v);
    if p >= n {
        assert(!lt(v, s[n - 1].sample));
    }
    assert(s[p].wf());
    assert(before[p].value == s[p].sample);
    if s[p].growable(maximal_gap) {
        let one = Sample::of(s[p].grown());
        assert(after =~= before.update(p, one));
        assert forall|i: int| 0 <= i < after.len() implies {
            &&& min_rank(after, i) <= upto(more, (#[trigger] after[i]).value)
            &&& below(more, after[i].value) + 1 <= max_rank(after, i)
            &&& occurs(more, after[i].value)
        } by {
            lemma_min_rank_update(before, p, one, i);
            assert(before[i].value == s[i].sample);
            if i > p {
                assert(le(s[p].sample, s[i].sample));
                lemma_lt_le_trans(v, s[p].sample, s[i].sample);
            }
            if i < p {
                assert(!lt(v, s[i].sample));
            }
            lemma_placed_more(before, i, after, i, stream, v);
        }
    } else {
        let one = Sample::of(Checkpoint::preceding(v, s[p]));
        assert(after =~= before.insert(p, one));
        assert forall|i: int| 0 <= i < after.len() implies {
            &&& min_rank(after, i) <= upto(more, (#[trigger] after[i]).value)
            &&& below(more, after[i].value) + 1 <= max_rank(after, i)
            &&& occurs(more, after[i].value)
        } by {
            lemma_min_rank_insert(before, p, one, i);
            if i < p {
                assert(before[i].value == s[i].sample);
                assert(!lt(v, s[i].sample));
                lemma_placed_more(before, i, after, i, stream, v);
            } else if i > p {
                assert(before[i - 1].value == s[i - 1].sample);
                if i - 1 > p {
                    assert(le(s[p].sample, s[i - 1].sample));
                    lemma_lt_le_trans(v, s[p].sample, s[i - 1].sample);
                }
                lemma_placed_more(before, i - 1, after, i, stream, v);
            } else {
                // The new sample: the value itself is not above it, with all that is
                // not above the checkpoint before it; and what is below it is below the
                // checkpoint that follows it.
                lemma_le_refl(v);
                lemma_count_more(stream, v, v);
                lemma_lt_le(v, s[p].sample);
                lemma_count_grows(stream, v, s[p].sample);
                lemma_min_rank_grows(before, p, p);
                if p > 0 {
                    assert(before[p - 1].value == s[p - 1].sample);
                    assert(!lt(v, s[p - 1].sample));
                    lemma_count_grows(stream, s[p - 1].sample, v);
                } else {
                    assert(before.take(0) =~= Seq::<Sample<T>>::empty());
                }
            }
        }
    }
}

/// The samples of a tree stay true to the stream when a value is recorded into the
/// tree and added to the stream.
pub proof fn lemma_recorded_placed<T: Ord>(
    checkpoints: Seq<Checkpoint<T>>,
    v: T,
    maximal_gap: u64,
    stream: Seq<T>,
)
    requires
        lawful::<T>(),
        all_wf(checkpoints),
        sorted(checkpoints),
        last_exact(checkpoints),
        counted(to_samples(checkpoints)) == stream.len(),
        placed(to_samples(checkpoints), stream),
    ensures
        placed(to_samples(tree_recorded(checkpoints, v, maximal_gap)), stream.push(v)),
{
    if checkpoints.len() == 0 {
        let after = to_samples(tree_recorded(checkpoints, v, maximal_gap));
        let one = Sample::of(Checkpoint::exact(v));
        assert(after =~= seq![one]);
        lemma_min_rank_grows(after, 0, 0);
        lemma_le_refl(v);
        lemma_count_more(stream, v, v);
        assert(counted(to_samples(checkpoints)) == 0);
    } else if !lt(v, checkpoints.last().sample) {
        lemma_recorded_placed_top(checkpoints, v, maximal_gap, stream);
    } else {
        lemma_recorded_placed_inner(checkpoints, v, maximal_gap, stream);
    }
}

/// The samples stay true to the stream when one of them takes in the one before it.
pub proof fn lemma_placed_absorb<T: Ord>(samples: Seq<Sample<T>>, i: int, stream: Seq<T>)
    requires
        0 <= i,
        i + 1 < samples.len(),
        placed(samples, stream),
        samples[i].g + samples[i + 1].g <= u64::MAX,
    ensures
        placed(
            samples.take(i).push(
                Sample {
                    value: samples[i + 1].value,
                    g: (samples[i + 1].g + samples[i].g) as u64,
                    delta: samples[i + 1].delta,
                },
            ) + samples.skip(i + 2),
            stream,
        ),
{
    let t = samples[i];
    let s = samples[i + 1];
    let both = Sample { value: s.value, g: (s.g + t.g) as u64, delta: s.delta };
    let head = samples.take(i);
    let after = head.push(both) + samples.skip(i + 2);
    assert forall|j: int| 0 <= j < after.len() implies {
        &&& min_rank(after, j) <= upto(stream, (#[trigger] after[j]).value)
        &&& below(stream, after[j].value) + 1 <= max_rank(after, j)
        &&& occurs(stream, after[j].value)
    } by {
        if j < i {
            assert(after.take(j + 1) =~= samples.take(j + 1));
            assert(after[j] == samples[j]);
        } else {
            let rest = samples.subrange(i + 2, j + 2);
            assert(after.take(j + 1) =~= head.push(both) + rest);
            assert(samples.take(j + 2) =~= head.push(t).push(s) + rest);
            lemma_counted_concat(head.push(both), rest);
            lemma_counted_concat(head.push(t).push(s), rest);
            lemma_counted_push(head, both);
            lemma_counted_push(head, t);
            lemma_counted_push(head.push(t), s);
            assert(after[j].value == samples[j + 1].value);
            assert(after[j].delta == samples[j + 1].delta);
        }
    }
}

/// The samples that a compression hands out are true to the stream, where the samples
/// that it would have handed out before and the ones that it is given then, taken
/// together, are.
pub proof fn lemma_pushed_all_placed<T: Ord>(
    done: Seq<Sample<T>>,
    tail: Option<Sample<T>>,
    input: Seq<Sample<T>>,
    budget: u64,
    stream: Seq<T>,
)
    requires
        tail is Some ==> done.len() > 0,
        placed(finished(done, tail) + input, stream),
    ensures
        ({
            let end = pushed_all(done, tail, input, budget);
            placed(finished(end.0, end.1), stream)
        }),
    decreases input.len(),
{
    let before = finished(done, tail);
    if input.len() == 0 {
        assert(before + input =~= before);
    } else {
        let s = input[0];
        let next = pushed(done, tail, s, budget);
        let mid = finished(next.0, next.1);
        let rest = input.skip(1);
        let whole = before + input;
        lemma_pushed(done, tail, s, budget);
        if mid == before.push(s) {
            assert(mid + rest =~= whole);
        } else {
            let i = before.len() - 1;
            assert(whole[i] == before.last());
            assert(whole[i + 1] == s);
            lemma_placed_absorb(whole, i, stream);
            assert(whole.take(i) =~= before.drop_last());
            assert(whole.skip(i + 2) =~= rest);
            assert(mid.last() == (Sample {
                value: s.value,
                g: (s.g + before.last().g) as u64,
                delta: s.delta,
            }));
        }
        lemma_pushed_all_placed(next.0, next.1, rest, budget, stream);
    }
}

/// Compressed samples are true to the stream that the samples were true to.
pub proof fn lemma_compressed_placed<T: Ord>(input: Seq<Sample<T>>, budget: u64, stream: Seq<T>)
    requires
        placed(input, stream),
    ensures
        placed(compressed(input, budget), stream),
{
    assert(finished(Seq::<Sample<T>>::empty(), None) + input =~= input);
    lemma_pushed_all_placed(Seq::empty(), None, input, budget, stream);
}

/// The samples of a whole summary are true to the stream, where the samples of its
/// checkpoints are, and its least value is the least of the stream.
pub proof fn lemma_emitted_placed<T: Ord>(
    minimum: T,
    checkpoints: Seq<Checkpoint<T>>,
    stream: Seq<T>,
)
    requires
        all_wf(checkpoints),
        checkpoints.len() > 0,
        placed(to_samples(checkpoints), stream),
        below(stream, minimum) == 0,
        occurs(stream, minimum),
    ensures
        placed(emitted(Some(minimum), checkpoints), stream),
{
    let plain = to_samples(checkpoints);
    let samples = emitted(Some(minimum), checkpoints);
    let first = checkpoints[0];
    let low = Sample { value: minimum, g: 1, delta: 0 };
    let rest = to_samples(checkpoints.skip(1));
    assert(first.wf());
    assert(plain.skip(1) =~= rest);
    assert(plain[0] == Sample::of(first));
    assert(counted(Seq::<Sample<T>>::empty()) == 0);
    assert forall|j: int| 0 <= j < samples.len() implies {
        &&& min_rank(samples, j) <= upto(stream, (#[trigger] samples[j]).value)
        &&& below(stream, samples[j].value) + 1 <= max_rank(samples, j)
        &&& occurs(stream, samples[j].value)
    } by {
        if j == 0 {
            assert(samples.take(1) =~= seq![low]);
            lemma_counted_first(seq![low]);
            assert(seq![low].skip(1) =~= Seq::<Sample<T>>::empty());
        } else if first.min_gap >= 2 {
            let less = Sample {
                value: first.sample,
                g: (first.min_gap - 1) as u64,
                delta: (first.max_gap - first.min_gap) as u64,
            };
            // Behind the least value, the ranks are those of the checkpoints.
            let tail = plain.subrange(1, j);
            assert(samples.take(j + 1) =~= seq![low].push(less) + tail);
            assert(plain.take(j) =~= Seq::<Sample<T>>::empty().push(plain[0]) + tail);
            lemma_counted_concat(seq![low].push(less), tail);
            lemma_counted_concat(Seq::<Sample<T>>::empty().push(plain[0]), tail);
            lemma_counted_push(seq![low], less);
            lemma_counted_push(Seq::<Sample<T>>::empty(), low);
            assert(Seq::<Sample<T>>::empty().push(low) =~= seq![low]);
            lemma_counted_push(Seq::<Sample<T>>::empty(), plain[0]);
            assert(samples[j].value == plain[j - 1].value);
            assert(samples[j].delta == plain[j - 1].delta);
            assert(min_rank(samples, j) == min_rank(plain, j - 1));
        } else {
            let tail = plain.subrange(1, j + 1);
            assert(samples.take(j + 1) =~= Seq::<Sample<T>>::empty().push(low) + tail);
            assert(plain.take(j + 1) =~= Seq::<Sample<T>>::empty().push(plain[0]) + tail);
            lemma_counted_concat(Seq::<Sample<T>>::empty().push(low), tail);
            lemma_counted_concat(Seq::<Sample<T>>::empty().push(plain[0]), tail);
            lemma_counted_push(Seq::<Sample<T>>::empty(), low);
            lemma_counted_push(Seq::<Sample<T>>::empty(), plain[0]);
            assert(samples[j] == plain[j]);
            assert(min_rank(samples, j) == min_rank(plain, j));
        }
    }
}

/// The least ranks in what is left of a stream of samples, counted from what went
/// before.
pub proof fn lemma_min_rank_skip<T: Ord>(samples: Seq<Sample<T>>, k: int, t: int)
    requires
        0 <= k,
        0 <= t,
        k + t < samples.len(),
    ensures
        counted(samples.take(k)) + min_rank(samples.skip(k), t) == min_rank(samples, k + t),
        samples.skip(k)[t] == samples[k + t],
{
    assert(samples.take(k + t + 1) =~= samples.take(k) + samples.skip(k).take(t + 1));
    lemma_counted_concat(samples.take(k), samples.skip(k).take(t + 1));
}

/// The least ranks in a stream of samples with one more sample before it.
pub proof fn lemma_min_rank_cons<T: Ord>(first: Sample<T>, rest: Seq<Sample<T>>, t: int)
    requires
        0 <= t <= rest.len(),
    ensures
        min_rank(seq![first] + rest, t) == first.g + if t == 0 {
            0
        } else {
            min_rank(rest, t - 1)
        },
{
    let whole = seq![first] + rest;
    assert(whole.take(t + 1) =~= seq![first] + rest.take(t));
    lemma_counted_concat(seq![first], rest.take(t));
    lemma_counted_first(seq![first]);
    assert(seq![first].skip(1) =~= Seq::<Sample<T>>::empty());
    assert(counted(Seq::<Sample<T>>::empty()) == 0);
    assert(counted(rest.take(0)) == 0);
}

/// What is left of one side of a merge when the other side has ended is true to both
/// streams together, counted from what has gone out.
proof fn lemma_left_placed<T: Ord>(
    left: Seq<Sample<T>>,
    k: int,
    left_stream: Seq<T>,
    ended: Seq<Sample<T>>,
    ended_stream: Seq<T>,
    both: Seq<T>,
)
    requires
        lawful::<T>(),
        both == left_stream + ended_stream || both == ended_stream + left_stream,
        ascending(left),
        placed(left, left_stream),
        placed(ended, ended_stream),
        counted(ended) == ended_stream.len(),
        0 <= k <= left.len(),
        ended.len() > 0 && k < left.len() ==> le(ended.last().value, left[k].value),
    ensures
        placed_from(left.skip(k), (counted(left.take(k)) + counted(ended)) as int, both),
{
    let rest = left.skip(k);
    let base = counted(left.take(k)) + counted(ended);
    assert forall|t: int| 0 <= t < rest.len() implies {
        &&& base + min_rank(rest, t) <= upto(both, (#[trigger] rest[t]).value)
        &&& below(both, rest[t].value) + 1 <= base + max_rank(rest, t)
        &&& occurs(both, rest[t].value)
    } by {
        let w = rest[t].value;
        lemma_min_rank_skip(left, k, t);
        lemma_count_concat(left_stream, ended_stream, w);
        lemma_count_concat(ended_stream, left_stream, w);
        lemma_count_bounds(ended_stream, w);
        lemma_count_bounds(left_stream, w);
        assert(left[k + t].value == w);
        if ended.len() > 0 {
            let last = ended.len() - 1;
            lemma_min_rank_grows(ended, last, last);
            assert(ended[last].value == ended.last().value);
            if t > 0 {
                assert(le(left[k].value, left[k + t].value));
            } else {
                lemma_le_refl(w);
            }
            lemma_le_trans(ended.last().value, left[k].value, w);
            lemma_count_grows(ended_stream, ended.last().value, w);
        } else {
            assert(counted(ended) == 0);
        }
    }
}

/// The sample that is taken next in a merge is true to both streams together, with the
/// `delta` that the merge gives it: it is `taken[i]`, which is not above `other[j]`,
/// the next sample of the other side.
proof fn lemma_head_placed<T: Ord>(
    taken: Seq<Sample<T>>,
    i: int,
    taken_stream: Seq<T>,
    other: Seq<Sample<T>>,
    j: int,
    other_stream: Seq<T>,
)
    requires
        lawful::<T>(),
        placed(taken, taken_stream),
        placed(other, other_stream),
        first_exact(other),
        all_valid(other),
        0 <= i < taken.len(),
        0 <= j < other.len(),
        le(taken[i].value, other[j].value),
        j > 0 ==> le(other[j - 1].value, taken[i].value),
    ensures
        ({
            let w = taken[i].value;
            let more = additional_delta(other.skip(j), j > 0);
            &&& more >= 0
            &&& min_rank(taken, i) + counted(other.take(j)) <= upto(taken_stream, w) + upto(
                other_stream,
                w,
            )
            &&& below(taken_stream, w) + below(other_stream, w) + 1 <= max_rank(taken, i) + more
                + counted(other.take(j))
            &&& below(taken_stream, w) + below(other_stream, w) < upto(taken_stream, w) + upto(
                other_stream,
                w,
            )
        }),
{
    let w = taken[i].value;
    let next = other[j];
    assert(taken[i].value == w);
    assert(other.skip(j)[0] == next);
    assert(next.wf());
    lemma_count_bounds(other_stream, w);
    lemma_count_grows(other_stream, w, next.value);
    lemma_min_rank_grows(other, j, j);
    assert(other[j].value == next.value);
    if j > 0 {
        lemma_min_rank_grows(other, j - 1, j);
        assert(other[j - 1].value == other[j - 1].value);
        lemma_count_grows(other_stream, other[j - 1].value, w);
        assert(min_rank(other, j - 1) == counted(other.take(j)));
    } else {
        assert(counted(other.take(0)) == 0);
    }
}

/// Samples are true to a stream, counted from `base`, where the first of them is, and
/// the rest are when they are counted from behind the first.
proof fn lemma_cons_placed<T: Ord>(
    first: Sample<T>,
    rest: Seq<Sample<T>>,
    base: int,
    stream: Seq<T>,
)
    requires
        base + first.g <= upto(stream, first.value),
        below(stream, first.value) + 1 <= base + first.g + first.delta,
        occurs(stream, first.value),
        placed_from(rest, base + first.g, stream),
    ensures
        placed_from(seq![first] + rest, base, stream),
{
    let m = seq![first] + rest;
    assert forall|t: int| 0 <= t < m.len() implies {
        &&& base + min_rank(m, t) <= upto(stream, (#[trigger] m[t]).value)
        &&& below(stream, m[t].value) + 1 <= base + max_rank(m, t)
        &&& occurs(stream, m[t].value)
    } by {
        lemma_min_rank_cons(first, rest, t);
        if t > 0 {
            assert(m[t] == rest[t - 1]);
        }
    }
}

/// One step of a merge that takes the next sample of `a`: what the merge hands out
/// from here on is true to both streams together, where what it hands out behind that
/// sample is.
proof fn lemma_merged_take_a<T: Ord>(
    a: Seq<Sample<T>>,
    b: Seq<Sample<T>>,
    i: int,
    j: int,
    a_stream: Seq<T>,
    b_stream: Seq<T>,
)
    requires
        lawful::<T>(),
        placed(a, a_stream),
        placed(b, b_stream),
        first_exact(b),
        all_valid(b),
        0 <= i < a.len(),
        0 <= j < b.len(),
        lt(a[i].value, b[j].value),
        j > 0 ==> le(b[j - 1].value, a[i].value),
        a[i].delta + b[j].g + b[j].delta - 1 <= u64::MAX,
        placed_from(
            merged(a.skip(i + 1), b.skip(j), true, j > 0),
            (counted(a.take(i + 1)) + counted(b.take(j))) as int,
            a_stream + b_stream,
        ),
    ensures
        placed_from(
            merged(a.skip(i), b.skip(j), i > 0, j > 0),
            (counted(a.take(i)) + counted(b.take(j))) as int,
            a_stream + b_stream,
        ),
{
    let both = a_stream + b_stream;
    let base = counted(a.take(i)) + counted(b.take(j));
    let a0 = a[i];
    assert(a.skip(i)[0] == a0 && b.skip(j)[0] == b[j]);
    assert(b[j].wf());
    lemma_lt_le(a0.value, b[j].value);
    lemma_head_placed(a, i, a_stream, b, j, b_stream);
    assert(a.skip(i).skip(1) =~= a.skip(i + 1));
    let more = additional_delta(b.skip(j), j > 0);
    let first = widened(a0, more);
    let rest = merged(a.skip(i + 1), b.skip(j), true, j > 0);
    assert(merged(a.skip(i), b.skip(j), i > 0, j > 0) == seq![first] + rest);
    lemma_min_rank_grows(a, i, i);
    assert(a.take(i + 1).drop_last() =~= a.take(i));
    lemma_count_concat(a_stream, b_stream, a0.value);
    lemma_cons_placed(first, rest, base as int, both);
}

/// One step of a merge that takes the next sample of `b`: what the merge hands out
/// from here on is true to both streams together, where what it hands out behind that
/// sample is.
proof fn lemma_merged_take_b<T: Ord>(
    a: Seq<Sample<T>>,
    b: Seq<Sample<T>>,
    i: int,
    j: int,
    a_stream: Seq<T>,
    b_stream: Seq<T>,
)
    requires
        lawful::<T>(),
        placed(a, a_stream),
        placed(b, b_stream),
        first_exact(a),
        all_valid(a),
        0 <= i < a.len(),
        0 <= j < b.len(),
        !lt(a[i].value, b[j].value),
        i > 0 ==> le(a[i - 1].value, b[j].value),
        b[j].delta + a[i].g + a[i].delta - 1 <= u64::MAX,
        placed_from(
            merged(a.skip(i), b.skip(j + 1), i > 0, true),
            (counted(a.take(i)) + counted(b.take(j + 1))) as int,
            a_stream + b_stream,
        ),
    ensures
        placed_from(
            merged(a.skip(i), b.skip(j), i > 0, j > 0),
            (counted(a.take(i)) + counted(b.take(j))) as int,
            a_stream + b_stream,
        ),
{
    let both = a_stream + b_stream;
    let base = counted(a.take(i)) + counted(b.take(j));
    let b0 = b[j];
    assert(a.skip(i)[0] == a[i] && b.skip(j)[0] == b0);
    assert(a[i].wf());
    lemma_head_placed(b, j, b_stream, a, i, a_stream);
    assert(b.skip(j).skip(1) =~= b.skip(j + 1));
    let more = additional_delta(a.skip(i), i > 0);
    let first = widened(b0, more);
    let rest = merged(a.skip(i), b.skip(j + 1), i > 0, true);
    assert(merged(a.skip(i), b.skip(j), i > 0, j > 0) == seq![first] + rest);
    lemma_min_rank_grows(b, j, j);
    assert(b.take(j + 1).drop_last() =~= b.take(j));
    lemma_count_concat(a_stream, b_stream, b0.value);
    lemma_cons_placed(first, rest, base as int, both);
}

/// The samples that a merge hands out from some point on are true to both streams
/// together, counted from what has gone out: `i` samples of `a` and `j` samples of `b`
/// have gone out, and the last one of each is not above the next one of the other.
pub proof fn lemma_merged_placed<T: Ord>(
    a: Seq<Sample<T>>,
    b: Seq<Sample<T>>,
    i: int,
    j: int,
    a_stream: Seq<T>,
    b_stream: Seq<T>,
    a_limit: int,
    b_limit: int,
)
    requires
        lawful::<T>(),
        all_valid(a),
        all_valid(b),
        ascending(a),
        ascending(b),
        first_exact(a),
        first_exact(b),
        within(a, a_limit),
        within(b, b_limit),
        a_limit + b_limit - 1 <= u64::MAX,
        placed(a, a_stream),
        placed(b, b_stream),
        counted(a) == a_stream.len(),
        counted(b) == b_stream.len(),
        0 <= i <= a.len(),
        0 <= j <= b.len(),
        j > 0 && i < a.len() ==> le(b[j - 1].value, a[i].value),
        i > 0 && j < b.len() ==> le(a[i - 1].value, b[j].value),
    ensures
        placed_from(
            merged(a.skip(i), b.skip(j), i > 0, j > 0),
            (counted(a.take(i)) + counted(b.take(j))) as int,
            a_stream + b_stream,
        ),
    decreases (a.len() - i) + (b.len() - j),
{
    let both = a_stream + b_stream;
    if i == a.len() {
        assert(a.take(i) =~= a);
        if a.len() > 0 && j < b.len() {
            assert(a.last() == a[i - 1]);
        }
        lemma_left_placed(b, j, b_stream, a, a_stream, both);
    } else if j == b.len() {
        assert(b.take(j) =~= b);
        if b.len() > 0 {
            assert(b.last() == b[j - 1]);
        }
        lemma_left_placed(a, i, a_stream, b, b_stream, both);
    } else {
        assert(a[i].wf() && b[j].wf());
        assert(a[i].g + a[i].delta <= a_limit && b[j].g + b[j].delta <= b_limit);
        if lt(a[i].value, b[j].value) {
            lemma_lt_le(a[i].value, b[j].value);
            if i + 1 < a.len() {
                assert(le(a[i].value, a[i + 1].value));
                if j > 0 {
                    lemma_le_trans(b[j - 1].value, a[i].value, a[i + 1].value);
                }
            }
            lemma_merged_placed(a, b, i + 1, j, a_stream, b_stream, a_limit, b_limit);
            lemma_merged_take_a(a, b, i, j, a_stream, b_stream);
        } else {
            if j + 1 < b.len() {
                assert(le(b[j].value, b[j + 1].value));
                if i > 0 {
                    lemma_le_trans(a[i - 1].value, b[j].value, b[j + 1].value);
                }
            }
            lemma_merged_placed(a, b, i, j + 1, a_stream, b_stream, a_limit, b_limit);
            lemma_merged_take_b(a, b, i, j, a_stream, b_stream);
        }
    }
}

/// A sample that is true to the stream, and whose rank error for a rank is `error` at
/// most, has a rank in the stream that is no further than `error` from that rank.
pub proof fn lemma_rank_close<T: Ord>(
    samples: Seq<Sample<T>>,
    i: int,
    target: int,
    error: int,
    stream: Seq<T>,
)
    requires
        placed(samples, stream),
        0 <= i < samples.len(),
        rank_error(samples, i, target) <= error,
    ensures
        occurs(stream, samples[i].value),
        below(stream, samples[i].value) + 1 - error <= target <= upto(stream, samples[i].value)
            + error,
{
    assert(samples[i].value == samples[i].value);
}

} // verus!
