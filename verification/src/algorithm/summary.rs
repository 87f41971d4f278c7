//! The summary of a stream.

use vstd::prelude::*;
use crate::order::{lawful, le, lemma_le_refl, lemma_le_trans, lemma_lt_le, less, lt};
use crate::{
    budget, error_bound, lemma_budget_adds, lemma_budget_grows, lemma_half_budget,
    lemma_rank_of_bounds, lemma_rank_of_ends, quantile_to_rank, rank_of, samples_limit, Error,
    Ratio,
};
use super::incoming_merge_state::IncomingMergeState;
use super::ranks::{
    below, lemma_compressed_placed, lemma_count_bounds, lemma_count_grows, lemma_count_push,
    lemma_emitted_placed, lemma_merged_placed, lemma_rank_close, lemma_recorded_placed,
    no_two_equal, occurs, placed, upto,
};
use super::samples_compressor::SamplesCompressor;
use super::samples_tree::node::Shape;
use super::samples_tree::sequence::{all_wf, bounded_below, least, sorted, tree_recorded};
use super::samples_tree::{Checkpoint, IntoIter, Iter, Sample, SamplesTree};
use super::source::{SampleSource, WholeSource};
use super::stream::{
    all_valid, answer, ascending, best, capped, compressed, counted, emitted, first_exact,
    last_crisp, last_exact, lemma_answer, lemma_capped, lemma_compressed, lemma_compressed_first,
    lemma_counted_len, lemma_emitted, lemma_exact_first_emitted, lemma_merged, lemma_min_rank_grows,
    lemma_to_checkpoints, lemma_to_samples, lemma_tree_recorded_stream, lemma_whole, merged,
    pushed_all, rank_error, to_checkpoints, to_samples, whole, within,
};

verus! {

/// A summary of a stream of values that answers quantile queries within a relative rank
/// error that is fixed when it is created.
///
/// It follows the algorithm of Greenwald and Khanna, *Space-Efficient Online Computation
/// of Quantile Summaries*, with a compression at every insertion: a value is charged to
/// the checkpoint that follows it wherever that stays within the budget. For a stream
/// in ascending or in random order this makes the compression of the whole summary a
/// rare event. A stream in descending order is the hard case: every value is a new
/// least one, and a checkpoint that is inserted for it takes over the upper gap bound
/// of the one that follows it, so that the two cannot be merged until the budget has
/// grown; the whole summary is then compressed at most of the insertions, and it can
/// stay above its limit of checkpoints.
pub struct Summary<T: Ord> {
    samples_tree: SamplesTree<T>,
    /// The number of checkpoints above which the whole summary is compressed.
    max_samples: u64,
    /// The greatest relative rank error of an answer.
    max_expected_error: Ratio,
    /// The number of values seen.
    len: u64,
    /// The values seen, in the order in which they came.
    seen: Ghost<Seq<T>>,
}

/// The greater of 1 and `budget`: what no `g + delta` in a summary exceeds.
pub open spec fn gap_limit(budget: int) -> int {
    if budget < 1 {
        1
    } else {
        budget
    }
}

/// The checkpoints of a summary for the error `epsilon` after the value `v` has been
/// inserted as the `len`-th value: the value is recorded under the budget of `len`
/// values, and a summary that then holds more checkpoints than its limit is compressed
/// under that budget.
pub open spec fn inserted<T: Ord>(
    checkpoints: Seq<Checkpoint<T>>,
    v: T,
    epsilon: Ratio,
    len: int,
) -> Seq<Checkpoint<T>> {
    let gap = budget(epsilon, len) as u64;
    let recorded = tree_recorded(checkpoints, v, gap);
    if recorded.len() > samples_limit(epsilon) {
        to_checkpoints(compressed(to_samples(recorded), gap))
    } else {
        recorded
    }
}

/// The lower of the least value of a stream and a new value is the least value of the
/// stream with the new value.
pub proof fn lemma_least_is_least<T: Ord>(minimum: Option<T>, v: T, stream: Seq<T>)
    requires
        lawful::<T>(),
        minimum is None ==> stream.len() == 0,
        minimum matches Some(m) ==> below(stream, m) == 0 && occurs(stream, m),
    ensures
        below(stream.push(v), least(minimum, v)) == 0,
        occurs(stream.push(v), least(minimum, v)),
{
    let low = least(minimum, v);
    lemma_count_push(stream, v, low);
    lemma_le_refl(v);
    lemma_count_bounds(stream, low);
    match minimum {
        Some(m) => {
            if lt(v, m) {
                lemma_lt_le(v, m);
                lemma_count_grows(stream, v, m);
            }
        },
        None => {},
    }
}

impl<T: Ord + Copy> Summary<T> {
    /// The checkpoints of the summary, in order.
    pub closed spec fn checkpoints(self) -> Seq<Checkpoint<T>> {
        self.samples_tree.checkpoints()
    }

    /// The least value seen, if any.
    pub closed spec fn minimum(self) -> Option<T> {
        self.samples_tree.minimum()
    }

    /// The number of values seen.
    pub closed spec fn count(self) -> nat {
        self.len as nat
    }

    /// The relative rank error that the summary was created for.
    pub closed spec fn epsilon(self) -> Ratio {
        self.max_expected_error
    }

    /// The outline of the nodes of the tree that holds the checkpoints.
    pub closed spec fn tree_shape(self) -> Shape {
        self.samples_tree.shape()
    }

    /// The number of levels of nodes in the tree that holds the checkpoints.
    pub closed spec fn tree_levels(self) -> nat {
        self.samples_tree.levels()
    }

    /// The values seen, in the order in which they came: the values inserted, and behind
    /// them those seen by each summary that was merged in.
    pub closed spec fn history(self) -> Seq<T> {
        self.seen@
    }

    /// The greatest value seen, if any.
    pub open spec fn maximum(self) -> Option<T> {
        if self.checkpoints().len() > 0 {
            Some(self.checkpoints().last().sample)
        } else {
            None
        }
    }

    /// The value that answers a query for the quantile `q`: that of the first sample
    /// whose rank error for the rank of the quantile is the least.
    pub open spec fn answer_value(self, q: Ratio) -> T {
        self.samples()[answer(self.samples(), rank_of(q, self.count() as int))].value
    }

    /// The answer to a query for the quantile `q` is a value seen that has a rank among
    /// the values seen which is no further from the rank of the quantile than the
    /// relative error of the summary allows.
    pub open spec fn answers_within(self, q: Ratio) -> bool {
        let target = rank_of(q, self.count() as int);
        let bound = error_bound(self.epsilon(), self.count() as int);
        &&& occurs(self.history(), self.answer_value(q))
        &&& below(self.history(), self.answer_value(q)) + 1 - bound <= target <= upto(
            self.history(),
            self.answer_value(q),
        ) + bound
    }

    /// `self` is what merging `other` into `this` gives.
    pub open spec fn is_merge_of(self, this: Self, other: Self) -> bool {
        &&& self.wf()
        &&& self.epsilon() == this.epsilon()
        &&& self.count() == this.count() + other.count()
        &&& self.history() == this.history() + other.history()
        &&& self.checkpoints() == to_checkpoints(
            compressed(
                merged(this.samples(), other.samples(), false, false),
                budget(this.epsilon(), (this.count() + other.count()) as int) as u64,
            ),
        )
    }

    /// The samples of the whole summary, in order: the least value seen, as an exact
    /// sample, and what the checkpoints hold beside it.
    ///
    /// A summary has two streams of samples. The samples of the tree are those of its
    /// checkpoints, as they are: `to_samples(self.checkpoints())`. The samples of the
    /// whole summary are made from them with the least value, which is kept beside the
    /// tree: the least value comes first, and the first checkpoint, which counts it,
    /// counts one value less, and is left out where it counts no other. Queries and
    /// merges read the samples of the whole summary, so that the least value is always
    /// at hand as a sample of its own. The compression reads the samples of the tree, so
    /// that it never adds a checkpoint. See [`Summary::lemma_samples`].
    pub open spec fn samples(self) -> Seq<Sample<T>> {
        emitted(self.minimum(), self.checkpoints())
    }

    /// The summary is valid: its tree is valid, its error is strictly between 0 and one
    /// half, its checkpoints count the values seen, none of them has an upper gap bound
    /// above the budget (or above 1, where the budget is 0), and the rank of the greatest
    /// value is known exactly.
    pub closed spec fn wf(self) -> bool {
        &&& self.samples_tree.wf()
        &&& self.max_expected_error.is_epsilon()
        &&& self.max_samples == (if samples_limit(self.max_expected_error) > u64::MAX {
            u64::MAX as int
        } else {
            samples_limit(self.max_expected_error)
        })
        &&& counted(to_samples(self.samples_tree.checkpoints())) == self.len
        &&& capped(
            self.samples_tree.checkpoints(),
            gap_limit(budget(self.max_expected_error, self.len as int)),
        )
        &&& last_exact(self.samples_tree.checkpoints())
        &&& self.len == 1 ==> self.samples_tree.minimum() == Some(
            self.samples_tree.checkpoints()[0].sample,
        )
        &&& self.seen@.len() == self.len
        &&& placed(to_samples(self.samples_tree.checkpoints()), self.seen@)
        &&& match self.samples_tree.minimum() {
            Some(m) => below(self.seen@, m) == 0 && occurs(self.seen@, m),
            None => true,
        }
    }

    /// What validity says of the content of a summary.
    pub proof fn lemma_wf(self)
        requires
            self.wf(),
        ensures
            self.epsilon().is_epsilon(),
            all_wf(self.checkpoints()),
            sorted(self.checkpoints()),
            counted(to_samples(self.checkpoints())) == self.count(),
            self.count() <= u64::MAX,
            self.checkpoints().len() <= self.count(),
            capped(self.checkpoints(), gap_limit(budget(self.epsilon(), self.count() as int))),
            last_exact(self.checkpoints()),
            self.minimum() is Some <==> self.checkpoints().len() > 0,
            self.minimum() is Some ==> bounded_below(self.minimum()->0, self.checkpoints()),
            self.count() == 1 ==> self.minimum() == Some(self.checkpoints()[0].sample),
            self.count() == 0 <==> self.checkpoints().len() == 0,
            self.history().len() == self.count(),
            placed(to_samples(self.checkpoints()), self.history()),
            self.minimum() matches Some(m) ==> below(self.history(), m) == 0 && occurs(
                self.history(),
                m,
            ),
    {
        self.samples_tree.lemma_wf();
        if self.checkpoints().len() == 0 {
            assert(to_samples(self.checkpoints()) =~= Seq::<Sample<T>>::empty());
            assert(counted(Seq::<Sample<T>>::empty()) == 0);
        }
        lemma_to_samples(self.checkpoints());
        lemma_counted_len(to_samples(self.checkpoints()));
    }

    /// Creates a new empty summary for the relative rank error `max_expected_error`,
    /// which must be strictly between 0 and one half.
    pub fn new(max_expected_error: Ratio) -> (r: Result<Summary<T>, Error>)
        ensures
            max_expected_error.is_epsilon() ==> r is Ok && r->Ok_0.wf() && r->Ok_0.count() == 0
                && r->Ok_0.epsilon() == max_expected_error && r->Ok_0.checkpoints() == Seq::<
                Checkpoint<T>,
            >::empty() && r->Ok_0.minimum() is None && r->Ok_0.history() == Seq::<T>::empty(),
            !max_expected_error.is_epsilon() ==> r matches Err(Error::InvalidEpsilon),
    {
        let num = max_expected_error.num;
        let den = max_expected_error.den;
        if num == 0 || den / 2 < num || (den / 2 == num && den % 2 == 0) {
            return Err(Error::InvalidEpsilon);
        }
        // The limit trades memory for the time spent on compressing. With the compression
        // at every insertion, a stream in ascending order fills a summary only slowly
        // beyond a few times the inverse of the error. A stream in descending order
        // reaches the limit soon and keeps the summary near it.
        let limit = (5 * (den as u128) + (num as u128 - 1)) / (num as u128);
        let max_samples = if limit > u64::MAX as u128 {
            u64::MAX
        } else {
            limit as u64
        };
        let summary = Summary {
            samples_tree: SamplesTree::new(),
            max_samples,
            max_expected_error,
            len: 0,
            seen: Ghost(Seq::empty()),
        };
        proof {
            assert(to_samples(summary.samples_tree.checkpoints()) =~= Seq::<Sample<T>>::empty());
            assert(counted(Seq::<Sample<T>>::empty()) == 0);
        }
        Ok(summary)
    }

    /// Returns the greatest relative rank error of an answer.
    pub fn max_expected_error(&self) -> (e: Ratio)
        ensures
            e == self.epsilon(),
    {
        self.max_expected_error
    }

    /// Returns the number of values inserted.
    pub fn len(&self) -> (n: u64)
        ensures
            n == self.count(),
    {
        self.len
    }

    /// Returns the number of checkpoints that the summary holds.
    pub fn num_checkpoints(&self) -> (n: u64)
        requires
            self.wf(),
        ensures
            n == self.checkpoints().len(),
    {
        self.samples_tree.len()
    }

    /// Returns the budget for `g + delta`: no sample of the summary exceeds it, but where
    /// it is 0, when a sample may have 1.
    fn max_g_delta(&self) -> (gap: u64)
        requires
            self.max_expected_error.is_epsilon(),
        ensures
            gap == budget(self.max_expected_error, self.len as int),
            gap <= self.len,
    {
        let num = self.max_expected_error.num;
        let den = self.max_expected_error.den;
        proof {
            lemma_budget_grows(self.max_expected_error, self.len as int, self.len as int);
            assert(2 * num * self.len <= u64::MAX * u64::MAX) by (nonlinear_arith)
                requires
                    2 * num <= u64::MAX,
                    self.len <= u64::MAX,
            ;
        }
        ((2 * (num as u128) * (self.len as u128)) / (den as u128)) as u64
    }

    /// Inserts a single new value into the summary. The value is recorded into the tree
    /// under the budget of the values seen, the new one included; a summary that then
    /// holds more checkpoints than five over its error, rounded up, is compressed.
    pub fn insert_one(&mut self, value: T)
        requires
            lawful::<T>(),
            old(self).wf(),
            old(self).count() < u64::MAX,
        ensures
            final(self).wf(),
            final(self).count() == old(self).count() + 1,
            final(self).epsilon() == old(self).epsilon(),
            final(self).history() == old(self).history().push(value),
            final(self).minimum() == Some(least(old(self).minimum(), value)),
            final(self).checkpoints() == inserted(
                old(self).checkpoints(),
                value,
                old(self).epsilon(),
                (old(self).count() + 1) as int,
            ),
    {
        proof {
            self.lemma_wf();
            lemma_budget_grows(self.max_expected_error, self.len as int, self.len + 1);
        }
        self.len += 1;
        let cap = self.max_g_delta();
        proof {
            let before = gap_limit(budget(self.max_expected_error, self.len - 1));
            let limit = gap_limit(cap as int);
            assert forall|i: int| 0 <= i < old(self).checkpoints().len() implies (
            #[trigger] old(self).checkpoints()[i]).max_gap <= limit by {
                assert(old(self).checkpoints()[i].max_gap <= before);
            }
            lemma_tree_recorded_stream(old(self).checkpoints(), value, cap, limit);
            lemma_recorded_placed(old(self).checkpoints(), value, cap, old(self).history());
            lemma_least_is_least(old(self).minimum(), value, old(self).history());
        }
        self.samples_tree.record_sample(value, cap);
        self.seen = Ghost(self.seen@.push(value));
        // Keep the number of checkpoints bounded.
        if self.samples_tree.len() > self.max_samples {
            self.compress();
        }
    }

    /// Compresses the summary: consecutive samples of the tree are merged into one
    /// wherever the merged sample stays within the budget. The first sample of the tree
    /// is kept as it is, and so is the least value, which is kept beside the tree. The
    /// summary never holds more checkpoints than before.
    ///
    /// The compression reads the samples of the tree, not those of the whole summary,
    /// which a merge and a query read. The two differ where the first checkpoint counts
    /// other values beside the least one: there the whole summary has one sample more,
    /// that of the least value, which the compression leaves beside the tree and does
    /// not make a checkpoint of. So a compression can leave other checkpoints than a
    /// merge with an empty summary, which compresses the samples of the whole summary.
    pub fn compress(&mut self)
        requires
            lawful::<T>(),
            old(self).wf(),
        ensures
            final(self).wf(),
            final(self).count() == old(self).count(),
            final(self).epsilon() == old(self).epsilon(),
            final(self).history() == old(self).history(),
            final(self).minimum() == old(self).minimum(),
            final(self).checkpoints() == to_checkpoints(
                compressed(
                    to_samples(old(self).checkpoints()),
                    budget(old(self).epsilon(), old(self).count() as int) as u64,
                ),
            ),
            final(self).checkpoints().len() <= old(self).checkpoints().len(),
            final(self).samples() == whole(
                old(self).minimum(),
                compressed(
                    to_samples(old(self).checkpoints()),
                    budget(old(self).epsilon(), old(self).count() as int) as u64,
                ),
            ),
    {
        let cap = self.max_g_delta();
        let mut compressor = SamplesCompressor::new(cap);
        let min_sample = self.samples_tree.min_sample();
        let ghost line = self.checkpoints();
        let ghost input = to_samples(line);
        // The tree is walked by value, so an empty one takes its place meanwhile.
        let mut old_samples_tree = SamplesTree::new();
        core::mem::swap(&mut self.samples_tree, &mut old_samples_tree);
        proof {
            old(self).lemma_wf();
            lemma_compressed(input, cap, gap_limit(cap as int));
            lemma_capped(line, gap_limit(cap as int));
            lemma_compressed_placed(input, cap, old(self).history());
        }
        let mut it = old_samples_tree.into_iter();
        let ghost mut at: int = 0;
        proof {
            assert(input.skip(0) =~= input);
            assert(line.skip(0) =~= line);
        }
        loop
            invariant_except_break
                it.wf(),
            invariant
                lawful::<T>(),
                compressor.wf(),
                compressor.budget() == cap,
                all_wf(line),
                sorted(line),
                input == to_samples(line),
                line.len() <= u64::MAX,
                0 <= at <= line.len(),
                it.remaining() == line.skip(at),
                compressor.done().len() <= at,
                compressor.done().len() < at || compressor.tail() is None,
                at < line.len() ==> (compressor.last_value() matches Some(v) ==> le(
                    v,
                    line[at].sample,
                )),
                pushed_all(compressor.done(), compressor.tail(), input.skip(at), cap)
                    == pushed_all(Seq::empty(), None, input, cap),
            ensures
                at == line.len(),
            decreases line.len() - at,
        {
            match it.next() {
                Some(sample) => {
                    proof {
                        assert(line.skip(at)[0] == line[at]);
                        assert(input.skip(at)[0] == sample);
                        assert(input.skip(at).skip(1) =~= input.skip(at + 1));
                        assert(line.skip(at).skip(1) =~= line.skip(at + 1));
                        if at + 1 < line.len() {
                            assert(le(line[at].sample, line[at + 1].sample));
                        }
                    }
                    compressor.push(sample);
                    proof {
                        at = at + 1;
                    }
                },
                None => {
                    proof {
                        assert(line.skip(at).len() == line.len() - at);
                    }
                    break ;
                },
            }
        }
        proof {
            assert(input.skip(at) =~= Seq::<Sample<T>>::empty());
        }
        self.samples_tree = compressor.into_samples_tree();
        proof {
            let output = compressed(input, cap);
            self.samples_tree.lemma_wf();
            lemma_to_samples(self.samples_tree.checkpoints());
            lemma_to_checkpoints(output);
            lemma_capped(self.samples_tree.checkpoints(), gap_limit(cap as int));
        }
        if let Some(min_sample) = min_sample {
            proof {
                let output = self.samples_tree.checkpoints();
                assert forall|i: int| 0 <= i < output.len() implies le(
                    min_sample,
                    (#[trigger] output[i]).sample,
                ) by {
                    assert(le(min_sample, line[0].sample));
                    assert(output[0].sample == line[0].sample);
                    if i > 0 {
                        assert(le(output[0].sample, output[i].sample));
                    } else {
                        lemma_le_refl(output[0].sample);
                    }
                    lemma_le_trans(min_sample, output[0].sample, output[i].sample);
                }
            }
            self.samples_tree.restore_min_sample(min_sample);
        }
        proof {
            lemma_whole(self.minimum(), self.checkpoints());
        }
    }

    /// Starts a walk over the samples of the summary by reference, in order.
    pub fn iter(&self) -> (source: WholeSource<T, Iter<'_, T>>)
        requires
            self.wf(),
        ensures
            source.ready(),
            source.samples_left() == self.samples(),
    {
        proof {
            self.lemma_wf();
            lemma_whole(self.minimum(), self.checkpoints());
        }
        WholeSource::new(self.samples_tree.min_sample(), self.samples_tree.iter())
    }

    /// Starts a walk over the samples of the summary by value, in order.
    pub fn into_iter(self) -> (source: WholeSource<T, IntoIter<T>>)
        requires
            self.wf(),
        ensures
            source.ready(),
            source.samples_left() == self.samples(),
    {
        proof {
            self.lemma_wf();
            lemma_whole(self.minimum(), self.checkpoints());
        }
        let min_sample = self.samples_tree.min_sample();
        WholeSource::new(min_sample, self.samples_tree.into_iter())
    }

    /// Returns the samples of the summary, in order.
    pub fn to_samples(&self) -> (samples: Vec<Sample<T>>)
        requires
            self.wf(),
        ensures
            samples@ == self.samples(),
    {
        let ghost line = self.samples();
        let mut samples = Vec::new();
        let mut source = self.iter();
        let ghost mut at: int = 0;
        proof {
            assert(line.skip(0) =~= line);
        }
        loop
            invariant
                source.ready(),
                0 <= at <= line.len(),
                source.samples_left() == line.skip(at),
                samples@ == line.take(at),
            ensures
                at == line.len(),
            decreases line.len() - at,
        {
            match source.next_sample() {
                Some(sample) => {
                    proof {
                        assert(line.skip(at).len() == line.len() - at);
                        assert(line.skip(at)[0] == line[at]);
                        assert(line.skip(at).skip(1) =~= line.skip(at + 1));
                        assert(line.take(at).push(sample) =~= line.take(at + 1));
                    }
                    samples.push(sample);
                    proof {
                        at = at + 1;
                    }
                },
                None => {
                    proof {
                        assert(line.skip(at).len() == line.len() - at);
                    }
                    break ;
                },
            }
        }
        proof {
            assert(line.take(at) =~= line);
        }
        samples
    }

    /// Returns the samples of the summary, in order, each as its value, its `g` and its
    /// `delta`.
    pub fn samples_spec(&self) -> (spec: Vec<(T, u64, u64)>)
        requires
            self.wf(),
        ensures
            spec@ == Seq::new(
                self.samples().len(),
                |i: int| (self.samples()[i].value, self.samples()[i].g, self.samples()[i].delta),
            ),
    {
        let samples = self.to_samples();
        let mut spec = Vec::new();
        let mut i: usize = 0;
        while i < samples.len()
            invariant
                0 <= i <= samples@.len(),
                spec@ == Seq::new(
                    i as nat,
                    |j: int| (samples@[j].value, samples@[j].g, samples@[j].delta),
                ),
            decreases samples@.len() - i,
        {
            let sample = &samples[i];
            spec.push((sample.value, sample.g, sample.delta));
            i += 1;
            assert(spec@ =~= Seq::new(
                i as nat,
                |j: int| (samples@[j].value, samples@[j].g, samples@[j].delta),
            ));
        }
        assert(spec@ =~= Seq::new(
            self.samples().len(),
            |i: int| (self.samples()[i].value, self.samples()[i].g, self.samples()[i].delta),
        ));
        spec
    }

    /// Merges another summary into this one. The other summary must have been built for
    /// an error that is not greater than the error of this one; else the merge is
    /// refused, and this summary stays as it is.
    ///
    /// The samples of the two summaries, each with its least value first, are merged
    /// into one sorted stream. A sample that comes to lie between two samples of the
    /// other summary is known less exactly than before: its `delta` grows by the whole
    /// range of the next sample there, less one. The merged stream is compressed under
    /// the budget of all the values together, and makes the new tree.
    pub fn merge(&mut self, other: Summary<T>) -> (r: Result<(), Error>)
        requires
            lawful::<T>(),
            old(self).wf(),
            other.wf(),
            old(self).count() + other.count() <= u64::MAX,
        ensures
            !other.epsilon().at_most(old(self).epsilon()) ==> r == Err::<(), Error>(
                Error::MergeErrorTolerance,
            ) && *final(self) == *old(self),
            other.epsilon().at_most(old(self).epsilon()) ==> {
                let together = merged(old(self).samples(), other.samples(), false, false);
                &&& r is Ok
                &&& final(self).wf()
                &&& final(self).epsilon() == old(self).epsilon()
                &&& final(self).count() == old(self).count() + other.count()
                &&& final(self).history() == old(self).history() + other.history()
                &&& final(self).checkpoints() == to_checkpoints(
                    compressed(
                        together,
                        budget(
                            old(self).epsilon(),
                            (old(self).count() + other.count()) as int,
                        ) as u64,
                    ),
                )
                &&& final(self).minimum() == (if together.len() > 0 {
                    Some(together[0].value)
                } else {
                    None
                })
                &&& final(self).is_merge_of(*old(self), other)
                &&& final(self).samples() == to_samples(final(self).checkpoints())
            },
    {
        if !other.max_expected_error.is_at_most(&self.max_expected_error) {
            return Err(Error::MergeErrorTolerance);
        }
        let other_len = other.len;
        let ghost other_epsilon = other.max_expected_error;
        let ghost other_history = other.history();
        proof {
            other.lemma_wf();
            let limit = gap_limit(budget(other_epsilon, other_len as int));
            if other.checkpoints().len() > 0 {
                lemma_emitted(other.minimum()->0, other.checkpoints(), limit);
                lemma_emitted_placed(other.minimum()->0, other.checkpoints(), other_history);
            }
        }
        let other_samples = other.into_iter();
        self.merge_sorted_samples(
            other_samples,
            other_len,
            Ghost(other_epsilon),
            Ghost(other_history),
        );
        proof {
            // The first sample of the merged stream is the least value of one of the two
            // summaries, as an exact sample, and the compression keeps it: so the samples
            // of the whole summary are those of the tree.
            let a = old(self).samples();
            let b = other.samples();
            let together = merged(a, b, false, false);
            let cap = budget(
                old(self).epsilon(),
                (old(self).count() + other.count()) as int,
            ) as u64;
            lemma_compressed_first(together, cap);
            lemma_exact_first_emitted(self.minimum(), self.checkpoints());
        }
        Ok(())
    }

    /// Merges a sorted stream of samples into this summary. `other_len` is the number of
    /// values that the samples count.
    fn merge_sorted_samples<I: SampleSource<T>>(
        &mut self,
        other_samples: I,
        other_len: u64,
        Ghost(other_epsilon): Ghost<Ratio>,
        Ghost(other_history): Ghost<Seq<T>>,
    )
        requires
            lawful::<T>(),
            old(self).wf(),
            old(self).count() + other_len <= u64::MAX,
            other_epsilon.is_epsilon(),
            other_epsilon.at_most(old(self).epsilon()),
            other_samples.ready(),
            all_valid(other_samples.samples_left()),
            ascending(other_samples.samples_left()),
            first_exact(other_samples.samples_left()),
            last_crisp(other_samples.samples_left()),
            counted(other_samples.samples_left()) == other_len,
            within(
                other_samples.samples_left(),
                gap_limit(budget(other_epsilon, other_len as int)),
            ),
            other_history.len() == other_len,
            placed(other_samples.samples_left(), other_history),
        ensures
            final(self).wf(),
            final(self).epsilon() == old(self).epsilon(),
            final(self).count() == old(self).count() + other_len,
            final(self).history() == old(self).history() + other_history,
            final(self).checkpoints() == to_checkpoints(
                compressed(
                    merged(old(self).samples(), other_samples.samples_left(), false, false),
                    budget(old(self).epsilon(), (old(self).count() + other_len) as int) as u64,
                ),
            ),
            final(self).minimum() == (if merged(
                old(self).samples(),
                other_samples.samples_left(),
                false,
                false,
            ).len() > 0 {
                Some(
                    merged(
                        old(self).samples(),
                        other_samples.samples_left(),
                        false,
                        false,
                    )[0].value,
                )
            } else {
                None
            }),
    {
        let ghost epsilon = self.max_expected_error;
        let ghost self_len = self.len as int;
        let ghost a0 = self.samples();
        let ghost b0 = other_samples.samples_left();
        let ghost a_limit = gap_limit(budget(epsilon, self_len));
        let ghost b_limit = gap_limit(budget(other_epsilon, other_len as int));
        proof {
            self.lemma_wf();
            if self.checkpoints().len() > 0 {
                lemma_emitted(self.minimum()->0, self.checkpoints(), a_limit);
                lemma_emitted_placed(self.minimum()->0, self.checkpoints(), self.history());
            }
            lemma_budget_grows(epsilon, self_len, self_len + other_len);
            lemma_budget_grows(other_epsilon, other_len as int, other_len as int);
            lemma_budget_grows(epsilon, other_len as int, self_len + other_len);
            lemma_budget_adds(epsilon, other_epsilon, self_len, other_len as int);
            lemma_counted_len(a0);
            lemma_counted_len(b0);
        }
        // The samples of this summary are taken out, so an empty tree takes the place of
        // its tree meanwhile.
        let ghost a_history = self.history();
        let mut old_summary = Summary {
            samples_tree: SamplesTree::new(),
            max_samples: self.max_samples,
            max_expected_error: self.max_expected_error,
            len: self.len,
            seen: self.seen,
        };
        core::mem::swap(&mut self.samples_tree, &mut old_summary.samples_tree);
        let self_samples = old_summary.into_iter();

        self.len += other_len;
        self.seen = Ghost(a_history + other_history);
        let max_g_delta = self.max_g_delta();
        let mut compressor = SamplesCompressor::new(max_g_delta);
        let ghost total_limit = gap_limit(max_g_delta as int);
        let ghost together = merged(a0, b0, false, false);
        proof {
            lemma_merged(a0, b0, false, false, a_limit, b_limit);
            lemma_compressed(together, max_g_delta, total_limit);
            assert(a0.skip(0) =~= a0 && b0.skip(0) =~= b0);
            assert(counted(a0.take(0)) == 0 && counted(b0.take(0)) == 0);
            lemma_merged_placed(a0, b0, 0, 0, a_history, other_history, a_limit, b_limit);
            lemma_compressed_placed(together, max_g_delta, a_history + other_history);
            if together.len() > 0 {
                lemma_min_rank_grows(together, 0, 0);
                assert(together[0].value == together[0].value);
            }
        }

        let mut other_input = IncomingMergeState::new(other_samples);
        let mut self_input = IncomingMergeState::new(self_samples);

        // Bring the least of the two next samples until one of the sides ends.
        loop
            invariant
                lawful::<T>(),
                self_input.wf(),
                other_input.wf(),
                compressor.wf(),
                compressor.budget() == max_g_delta,
                1 <= a_limit,
                1 <= b_limit,
                a_limit + b_limit - 1 <= u64::MAX,
                all_valid(self_input.remaining()),
                all_valid(other_input.remaining()),
                ascending(self_input.remaining()),
                ascending(other_input.remaining()),
                within(self_input.remaining(), a_limit),
                within(other_input.remaining(), b_limit),
                last_crisp(self_input.remaining()),
                last_crisp(other_input.remaining()),
                compressor.done().len() + (if compressor.tail() is Some {
                    1int
                } else {
                    0int
                }) + self_input.remaining().len() + other_input.remaining().len() <= u64::MAX,
                compressor.last_value() matches Some(v) ==> (self_input.remaining().len() > 0
                    ==> le(v, self_input.remaining()[0].value)) && (
                other_input.remaining().len() > 0 ==> le(v, other_input.remaining()[0].value)),
                pushed_all(
                    compressor.done(),
                    compressor.tail(),
                    merged(
                        self_input.remaining(),
                        other_input.remaining(),
                        self_input.started(),
                        other_input.started(),
                    ),
                    max_g_delta,
                ) == pushed_all(Seq::empty(), None, together, max_g_delta),
            ensures
                self_input.remaining().len() == 0 || other_input.remaining().len() == 0,
            decreases self_input.remaining().len() + other_input.remaining().len(),
        {
            let ghost a = self_input.remaining();
            let ghost b = other_input.remaining();
            let ghost rest = merged(a, b, self_input.started(), other_input.started());
            let take_self = match (self_input.peek(), other_input.peek()) {
                (Some(self_peeked), Some(other_peeked)) => less(
                    &self_peeked.value,
                    &other_peeked.value,
                ),
                _ => {
                    break ;
                },
            };
            proof {
                assert(a[0].wf() && b[0].wf());
                assert(a[0].g + a[0].delta <= a_limit && b[0].g + b[0].delta <= b_limit);
                lemma_le_refl(a[0].value);
                lemma_le_refl(b[0].value);
                if a.len() > 1 {
                    assert(le(a[0].value, a[1].value));
                }
                if b.len() > 1 {
                    assert(le(b[0].value, b[1].value));
                }
                if take_self {
                    lemma_lt_le(a[0].value, b[0].value);
                }
            }
            // Detect from which side to take next, and prepare the next sample.
            let mut new_sample;
            if take_self {
                new_sample = self_input.pop_front();
                new_sample.delta += other_input.aditional_delta();
            } else {
                new_sample = other_input.pop_front();
                new_sample.delta += self_input.aditional_delta();
            }
            proof {
                let a2 = self_input.remaining();
                let b2 = other_input.remaining();
                assert(rest[0] == new_sample);
                assert(rest.skip(1) =~= merged(
                    a2,
                    b2,
                    self_input.started(),
                    other_input.started(),
                ));
                assert forall|i: int| 0 <= i < a2.len() implies (#[trigger] a2[i]).wf() && a2[i].g
                    + a2[i].delta <= a_limit by {
                    if take_self {
                        assert(a2[i] == a[i + 1]);
                    }
                }
                assert forall|i: int| 0 <= i < b2.len() implies (#[trigger] b2[i]).wf() && b2[i].g
                    + b2[i].delta <= b_limit by {
                    if !take_self {
                        assert(b2[i] == b[i + 1]);
                    }
                }
                assert forall|i: int, j: int| 0 <= i < j < a2.len() implies le(
                    #[trigger] a2[i].value,
                    #[trigger] a2[j].value,
                ) by {
                    if take_self {
                        assert(a2[i] == a[i + 1] && a2[j] == a[j + 1]);
                    }
                }
                assert forall|i: int, j: int| 0 <= i < j < b2.len() implies le(
                    #[trigger] b2[i].value,
                    #[trigger] b2[j].value,
                ) by {
                    if !take_self {
                        assert(b2[i] == b[i + 1] && b2[j] == b[j + 1]);
                    }
                }
                if a2.len() > 0 {
                    assert(a2.last() == a.last());
                    assert(a2[0] == if take_self {
                        a[1]
                    } else {
                        a[0]
                    });
                }
                if b2.len() > 0 {
                    assert(b2.last() == b.last());
                    assert(b2[0] == if take_self {
                        b[0]
                    } else {
                        b[1]
                    });
                }
            }
            compressor.push(new_sample);
        }
        proof {
            let a = self_input.remaining();
            let b = other_input.remaining();
            if a.len() == 0 {
                assert(pushed_all(compressor.done(), compressor.tail(), a, max_g_delta) == (
                    compressor.done(),
                    compressor.tail(),
                ));
            }
        }
        // Nothing is left to merge on one of the sides: move what is left on the other.
        self_input.push_remaining_to(&mut compressor);
        proof {
            let b = other_input.remaining();
            if b.len() == 0 {
                assert(pushed_all(compressor.done(), compressor.tail(), b, max_g_delta) == (
                    compressor.done(),
                    compressor.tail(),
                ));
            }
        }
        other_input.push_remaining_to(&mut compressor);
        self.samples_tree = compressor.into_samples_tree();
        proof {
            let output = compressed(together, max_g_delta);
            self.samples_tree.lemma_wf();
            lemma_to_samples(self.samples_tree.checkpoints());
            lemma_to_checkpoints(output);
            lemma_capped(self.samples_tree.checkpoints(), total_limit);
            if output.len() > 0 {
                assert(output.last().wf());
            }
        }
    }

    /// Queries for a quantile. Returns `None` if and only if the summary is empty.
    pub fn query(&self, q: Ratio) -> (r: Result<Option<T>, Error>)
        requires
            self.wf(),
            lawful::<T>(),
        ensures
            self.count() == 0 ==> r == Ok::<Option<T>, Error>(None),
            self.count() > 0 && !q.is_quantile() ==> r == Err::<Option<T>, Error>(
                Error::InvalidQuantile,
            ),
            self.count() > 0 && q.is_quantile() ==> r == Ok::<Option<T>, Error>(
                Some(
                    self.samples()[answer(self.samples(), rank_of(q, self.count() as int))].value,
                ),
            ),
    {
        match self.query_with_error(q) {
            Ok(Some(found)) => Ok(Some(found.0)),
            Ok(None) => Ok(None),
            Err(error) => Err(error),
        }
    }

    /// Queries for a quantile, and returns with the value how far its rank can be from
    /// the rank asked for, as a fraction of the number of values. Returns `None` if and
    /// only if the summary is empty.
    ///
    /// The query reads the samples of the whole summary, which begin with the least value
    /// seen. The answer is the first sample whose rank error is the least, and its rank
    /// error is within the relative error that the summary was created for.
    pub fn query_with_error(&self, quantile: Ratio) -> (r: Result<Option<(T, Ratio)>, Error>)
        requires
            self.wf(),
            lawful::<T>(),
        ensures
            self.count() == 0 ==> r == Ok::<Option<(T, Ratio)>, Error>(None),
            self.count() > 0 && !quantile.is_quantile() ==> r == Err::<
                Option<(T, Ratio)>,
                Error,
            >(Error::InvalidQuantile),
            self.count() > 0 && quantile.is_quantile() ==> {
                let target = rank_of(quantile, self.count() as int);
                let chosen = answer(self.samples(), target);
                let error = rank_error(self.samples(), chosen, target);
                let value = self.samples()[chosen].value;
                &&& 0 <= chosen < self.samples().len()
                &&& 0 <= error <= error_bound(self.epsilon(), self.count() as int)
                &&& occurs(self.history(), value)
                &&& below(self.history(), value) + 1 - error <= target <= upto(
                    self.history(),
                    value,
                ) + error
                &&& target == 1 ==> Some(value) == self.minimum() && below(self.history(), value)
                    == 0
                &&& target == self.count() ==> Some(value) == self.maximum() && upto(
                    self.history(),
                    value,
                ) == self.count()
                &&& r == Ok::<Option<(T, Ratio)>, Error>(
                    Some(
                        (
                            self.samples()[chosen].value,
                            Ratio { num: error as u64, den: self.count() as u64 },
                        ),
                    ),
                )
            },
    {
        if self.len == 0 {
            return Ok(None);
        }
        let target = match quantile_to_rank(quantile, self.len) {
            Ok(target) => target,
            Err(error) => {
                return Err(error);
            },
        };
        let ghost line = self.samples();
        let ghost cap = budget(self.max_expected_error, self.len as int);
        proof {
            self.lemma_wf();
            lemma_emitted(self.minimum()->0, self.checkpoints(), gap_limit(cap));
            self.lemma_error_bound(quantile);
            self.lemma_extremes();
            assert(line.skip(0) =~= line);
            assert(line.take(0) =~= Seq::<Sample<T>>::empty());
            assert(counted(Seq::<Sample<T>>::empty()) == 0);
        }
        // Walk the samples and find the one whose rank is the closest to the target at
        // the worst. The first one is at hand at once: a summary that is not empty has
        // a sample.
        let mut source = self.iter();
        let mut min_rank: u64 = 0;
        let mut closest: Option<(T, u128)> = None;
        let ghost mut at: int = 0;
        loop
            invariant
                source.ready(),
                0 <= at <= line.len(),
                source.samples_left() == line.skip(at),
                line.len() > 0,
                all_valid(line),
                counted(line) == self.len,
                1 <= target <= self.len,
                min_rank == counted(line.take(at)),
                at == 0 <==> closest is None,
                closest matches Some(found) ==> found.0 == line[best(line, target as int, at)].value
                    && found.1 == rank_error(line, best(line, target as int, at), target as int)
                    && 0 <= best(line, target as int, at) < at,
            ensures
                at == line.len(),
            decreases line.len() - at,
        {
            match source.next_sample() {
                None => {
                    proof {
                        assert(line.skip(at).len() == line.len() - at);
                    }
                    break ;
                },
                Some(sample) => {
                    proof {
                        assert(line.skip(at).len() == line.len() - at);
                        assert(line.skip(at)[0] == line[at]);
                        assert(line.skip(at).skip(1) =~= line.skip(at + 1));
                        lemma_min_rank_grows(line, at, at);
                        assert(line.take(at + 1).drop_last() =~= line.take(at));
                        assert(line[at].wf());
                    }
                    // The rank of this sample is between `min_rank` and `max_rank`, both
                    // counted.
                    min_rank += sample.g;
                    let max_rank = min_rank as u128 + sample.delta as u128;
                    let mid_rank = (min_rank as u128 + max_rank) / 2;
                    // At the worst, the rank of the sample is at the far end.
                    let error = if target as u128 > mid_rank {
                        target as u128 - min_rank as u128
                    } else {
                        max_rank - target as u128
                    };
                    closest = match closest {
                        Some(found) if found.1 <= error => Some(found),
                        _ => Some((sample.value, error)),
                    };
                    proof {
                        at = at + 1;
                    }
                },
            }
        }
        match closest {
            Some(found) => Ok(Some((found.0, Ratio { num: found.1 as u64, den: self.len }))),
            None => vstd::pervasive::unreached(),
        }
    }
}

impl<T: Ord + Copy> Summary<T> {
    /// The error bound. For every valid summary that is not empty and every quantile, the
    /// answer is a value seen, its rank error is within the relative error of the summary
    /// times the number of values seen, rounded down, and it has a rank among the values
    /// seen that is no further than that from the rank of the quantile.
    pub proof fn lemma_error_bound(self, quantile: Ratio)
        requires
            lawful::<T>(),
            self.wf(),
            self.count() > 0,
            quantile.is_quantile(),
        ensures
            ({
                let target = rank_of(quantile, self.count() as int);
                let chosen = answer(self.samples(), target);
                let error = rank_error(self.samples(), chosen, target);
                let value = self.samples()[chosen].value;
                &&& 1 <= target <= self.count()
                &&& 0 <= chosen < self.samples().len()
                &&& 0 <= error <= error_bound(self.epsilon(), self.count() as int)
                &&& error <= target - 1
                &&& occurs(self.history(), value)
                &&& below(self.history(), value) + 1 - error <= target <= upto(
                    self.history(),
                    value,
                ) + error
            }),
            self.answers_within(quantile),
    {
        let n = self.count() as int;
        let target = rank_of(quantile, n);
        let line = self.samples();
        let cap = budget(self.epsilon(), n);
        self.lemma_wf();
        lemma_rank_of_bounds(quantile, n);
        lemma_emitted(self.minimum()->0, self.checkpoints(), gap_limit(cap));
        lemma_half_budget(self.epsilon(), n);
        lemma_budget_grows(self.epsilon(), n, n);
        lemma_answer(line, target, gap_limit(cap), cap / 2);
        lemma_emitted_placed(self.minimum()->0, self.checkpoints(), self.history());
        let chosen = answer(line, target);
        lemma_rank_close(line, chosen, target, rank_error(line, chosen, target), self.history());
    }

    /// The error bound, for values of which no two are equal. Every value seen then has
    /// one rank, the number of values seen that are not above it, and the rank of the
    /// answer is no further from the rank of the quantile than the relative error of the
    /// summary times the number of values seen, rounded down.
    pub proof fn lemma_rank_of_answer(self, quantile: Ratio)
        requires
            lawful::<T>(),
            self.wf(),
            self.count() > 0,
            quantile.is_quantile(),
            no_two_equal(self.history()),
        ensures
            ({
                let target = rank_of(quantile, self.count() as int);
                let rank = upto(self.history(), self.answer_value(quantile));
                let bound = error_bound(self.epsilon(), self.count() as int);
                &&& 1 <= rank <= self.count()
                &&& target - bound <= rank <= target + bound
            }),
    {
        self.lemma_error_bound(quantile);
        self.lemma_wf();
        lemma_count_bounds(self.history(), self.answer_value(quantile));
        assert(upto(self.history(), self.answer_value(quantile)) <= below(
            self.history(),
            self.answer_value(quantile),
        ) + 1);
    }

    /// The extremes. In every valid summary that is not empty, the answer for the first
    /// rank is the least value seen: no value seen is below it. The answer for the last
    /// rank is the greatest value seen: no value seen is above it. The quantile 0 has
    /// the first rank, and the quantile 1 the last one.
    pub proof fn lemma_extremes(self)
        requires
            lawful::<T>(),
            self.wf(),
            self.count() > 0,
        ensures
            ({
                let low = self.samples()[answer(self.samples(), 1)].value;
                let high = self.samples()[answer(self.samples(), self.count() as int)].value;
                &&& Some(low) == self.minimum()
                &&& occurs(self.history(), low)
                &&& below(self.history(), low) == 0
                &&& Some(high) == self.maximum()
                &&& occurs(self.history(), high)
                &&& upto(self.history(), high) == self.count()
            }),
            forall|den: u64|
                den > 0 ==> #[trigger] rank_of(Ratio { num: 0, den }, self.count() as int) == 1,
            forall|den: u64|
                den > 0 ==> #[trigger] rank_of(Ratio { num: den, den }, self.count() as int)
                    == self.count(),
    {
        let n = self.count() as int;
        let line = self.samples();
        let cap = budget(self.epsilon(), n);
        self.lemma_wf();
        lemma_emitted(self.minimum()->0, self.checkpoints(), gap_limit(cap));
        lemma_half_budget(self.epsilon(), n);
        lemma_budget_grows(self.epsilon(), n, n);
        lemma_answer(line, 1, gap_limit(cap), cap / 2);
        lemma_answer(line, n, gap_limit(cap), cap / 2);
        lemma_emitted_placed(self.minimum()->0, self.checkpoints(), self.history());
        let last = line.len() - 1;
        lemma_min_rank_grows(line, last, last);
        lemma_count_bounds(self.history(), line[last].value);
        assert(line[last].value == line[last].value);
        assert(line[0].value == line[0].value);
        assert forall|den: u64| den > 0 implies #[trigger] rank_of(Ratio { num: 0, den }, n)
            == 1 by {
            lemma_rank_of_ends(den, n);
        }
        assert forall|den: u64| den > 0 implies #[trigger] rank_of(Ratio { num: den, den }, n)
            == n by {
            lemma_rank_of_ends(den, n);
        }
    }

    /// The gap bounds. In every valid summary whose budget is 1 at the least, no sample
    /// has `g + delta` above the budget, which is twice the relative error times the
    /// number of values seen, rounded down: neither a sample of the tree, nor a sample
    /// of the whole summary. And the samples count the values seen.
    pub proof fn lemma_gaps_within_budget(self)
        requires
            lawful::<T>(),
            self.wf(),
            budget(self.epsilon(), self.count() as int) >= 1,
        ensures
            within(to_samples(self.checkpoints()), budget(self.epsilon(), self.count() as int)),
            within(self.samples(), budget(self.epsilon(), self.count() as int)),
            counted(to_samples(self.checkpoints())) == self.count(),
            counted(self.samples()) == self.count(),
            self.history().len() == self.count(),
    {
        let cap = budget(self.epsilon(), self.count() as int);
        self.lemma_wf();
        lemma_capped(self.checkpoints(), cap);
        if self.checkpoints().len() > 0 {
            lemma_emitted(self.minimum()->0, self.checkpoints(), cap);
        } else {
            assert(counted(self.samples()) == 0);
        }
    }

    /// The two streams of a summary. The samples of the whole summary are made from the
    /// least value and the samples of the tree. Where the first checkpoint counts the
    /// least value alone, the two streams differ in the first sample at most, which in
    /// the whole summary is the least value as an exact sample. Where it counts more, the
    /// whole summary has one sample more than the tree has checkpoints.
    pub proof fn lemma_samples(self)
        requires
            self.wf(),
        ensures
            self.samples() == whole(self.minimum(), to_samples(self.checkpoints())),
            self.checkpoints().len() > 0 && self.checkpoints()[0].min_gap == 1 ==> self.samples()
                == to_samples(self.checkpoints()).update(
                0,
                Sample { value: self.minimum()->0, g: 1, delta: 0 },
            ),
            self.checkpoints().len() > 0 && self.checkpoints()[0].min_gap >= 2
                ==> self.samples().len() == self.checkpoints().len() + 1,
            self.checkpoints().len() == 0 ==> self.samples().len() == 0,
    {
        self.lemma_wf();
        lemma_whole(self.minimum(), self.checkpoints());
        let plain = to_samples(self.checkpoints());
        if plain.len() > 0 && plain[0].g == 1 {
            assert(self.samples() =~= plain.update(
                0,
                Sample { value: self.minimum()->0, g: 1, delta: 0 },
            ));
        }
    }

    /// The shape of the tree. In every valid summary, all the leafs of the tree are on
    /// one level; every node holds no more checkpoints than a node can take; and every
    /// node but the root holds at least half as many. The tree holds all the checkpoints
    /// but the last, which is kept beside it, and they are between the least and the most
    /// that a tree of its depth can hold.
    pub proof fn lemma_tree_shape(self)
        requires
            self.wf(),
        ensures
            self.tree_shape().leafs_on_level(self.tree_levels()),
            self.tree_shape().occupied(true),
            self.checkpoints().len() > 0 ==> self.tree_shape().total() + 1
                == self.checkpoints().len(),
            self.checkpoints().len() > 0 ==> Shape::least(self.tree_levels(), true) + 1
                <= self.checkpoints().len() <= Shape::most(self.tree_levels()) + 1,
            self.checkpoints().len() == 0 ==> self.tree_levels() == 1,
    {
        self.samples_tree.lemma_shape();
        self.samples_tree.lemma_depth();
    }

    /// The order of merging. Merging `b` and then `c` into `a` gives a summary with the
    /// same guarantees as merging into `a` what merging `c` into `b` gives: both are
    /// summaries of the same values, for the same relative error, and both answer every
    /// quantile within that error.
    pub proof fn lemma_merge_order(
        a: Self,
        b: Self,
        c: Self,
        ab: Self,
        bc: Self,
        left: Self,
        right: Self,
    )
        requires
            lawful::<T>(),
            ab.is_merge_of(a, b),
            left.is_merge_of(ab, c),
            bc.is_merge_of(b, c),
            right.is_merge_of(a, bc),
        ensures
            left.epsilon() == right.epsilon(),
            left.count() == right.count(),
            left.history() == right.history(),
            forall|q: Ratio|
                q.is_quantile() && left.count() > 0 ==> #[trigger] left.answers_within(q)
                    && right.answers_within(q),
    {
        assert(left.history() =~= right.history());
        assert forall|q: Ratio| q.is_quantile() && left.count() > 0 implies (
        #[trigger] left.answers_within(q)) && right.answers_within(q) by {
            left.lemma_error_bound(q);
            right.lemma_error_bound(q);
        }
    }
}

/// A way in which summaries have been merged into one: a summary as it was filled, or
/// what merging the second of two merged summaries into the first has given. Merging
/// summaries one after the other into the first, and merging them by pairs, are two such
/// ways.
pub ghost enum Merging<T: Ord> {
    One(Summary<T>),
    Both(Box<Merging<T>>, Box<Merging<T>>, Summary<T>),
}

impl<T: Ord + Copy> Merging<T> {
    /// The summary that the merging has given.
    pub open spec fn result(self) -> Summary<T> {
        match self {
            Merging::One(summary) => summary,
            Merging::Both(_, _, summary) => summary,
        }
    }

    /// The values that the summaries that were filled have seen, in the order of the
    /// merging.
    pub open spec fn values(self) -> Seq<T>
        decreases self,
    {
        match self {
            Merging::One(summary) => summary.history(),
            Merging::Both(first, second, _) => first.values() + second.values(),
        }
    }

    /// The summary that stands first in the merging: all others were merged into it, at
    /// once or with others.
    pub open spec fn first(self) -> Summary<T>
        decreases self,
    {
        match self {
            Merging::One(summary) => summary,
            Merging::Both(first, _, _) => first.first(),
        }
    }

    /// Every summary that was filled is valid, and every merged summary is what merging
    /// gives of the two that it was made of.
    pub open spec fn well_merged(self) -> bool
        decreases self,
    {
        match self {
            Merging::One(summary) => summary.wf(),
            Merging::Both(first, second, summary) => {
                &&& first.well_merged()
                &&& second.well_merged()
                &&& summary.is_merge_of(first.result(), second.result())
            },
        }
    }

    /// Merged summaries keep the guarantees. Whatever the way in which summaries have
    /// been merged into one, the result is a valid summary of all the values that they
    /// have seen, for the relative error of the first of them: it has counted these
    /// values, it answers every quantile within that error, and its answers for the
    /// first and the last rank are the least and the greatest of the values.
    pub proof fn lemma_merging(self)
        requires
            lawful::<T>(),
            self.well_merged(),
        ensures
            self.result().wf(),
            self.result().history() == self.values(),
            self.result().count() == self.values().len(),
            self.result().epsilon() == self.first().epsilon(),
            forall|q: Ratio|
                q.is_quantile() && self.values().len() > 0
                    ==> #[trigger] self.result().answers_within(q),
            self.values().len() > 0 ==> ({
                let all = self.result();
                let low = all.samples()[answer(all.samples(), 1)].value;
                let high = all.samples()[answer(all.samples(), all.count() as int)].value;
                &&& occurs(self.values(), low) && below(self.values(), low) == 0
                &&& occurs(self.values(), high) && upto(self.values(), high) == self.values().len()
            }),
        decreases self,
    {
        match self {
            Merging::One(summary) => {},
            Merging::Both(first, second, summary) => {
                first.lemma_merging();
                second.lemma_merging();
            },
        }
        let all = self.result();
        all.lemma_wf();
        assert forall|q: Ratio| q.is_quantile() && self.values().len() > 0 implies (
        #[trigger] all.answers_within(q)) by {
            all.lemma_error_bound(q);
        }
        if self.values().len() > 0 {
            all.lemma_extremes();
        }
    }
}

} // verus!
