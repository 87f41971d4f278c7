//! Sequences of checkpoints: the mathematical model of a tree's content.
//!
//! A tree stands for the sequence of its checkpoints in order. What it means to record a
//! sample is stated here on such sequences, and the trees are proved against it.

use vstd::prelude::*;
use crate::order::{lawful, le, lemma_le_refl, lemma_le_trans, lemma_lt_le, lt};
use super::checkpoint::Checkpoint;

verus! {

/// The samples of `s` never decrease.
pub open spec fn sorted<S: Ord>(s: Seq<Checkpoint<S>>) -> bool {
    forall|i: int, j: int|
        0 <= i < j < s.len() ==> le(#[trigger] s[i].sample, #[trigger] s[j].sample)
}

/// Every checkpoint of `s` has consistent gap bounds.
pub open spec fn all_wf<S>(s: Seq<Checkpoint<S>>) -> bool {
    forall|i: int| 0 <= i < s.len() ==> (#[trigger] s[i]).wf()
}

/// The index of the first checkpoint of `s` whose sample is strictly above `v`, or the
/// length of `s` where there is none.
pub open spec fn first_greater<S: Ord>(s: Seq<Checkpoint<S>>, v: S) -> int
    decreases s.len(),
{
    if s.len() == 0 {
        0
    } else if lt(v, s[0].sample) {
        0
    } else {
        1 + first_greater(s.drop_first(), v)
    }
}

/// `p` is the index that [`first_greater`] names.
pub open spec fn is_first_greater<S: Ord>(s: Seq<Checkpoint<S>>, v: S, p: int) -> bool {
    &&& 0 <= p <= s.len()
    &&& forall|j: int| 0 <= j < p ==> !lt(v, (#[trigger] s[j]).sample)
    &&& p < s.len() ==> lt(v, s[p].sample)
}

/// [`first_greater`] names the index of the first strictly greater checkpoint.
pub proof fn lemma_first_greater<S: Ord>(s: Seq<Checkpoint<S>>, v: S)
    ensures
        is_first_greater(s, v, first_greater(s, v)),
    decreases s.len(),
{
    if s.len() > 0 && !lt(v, s[0].sample) {
        let t = s.drop_first();
        lemma_first_greater(t, v);
        let p = first_greater(t, v);
        assert forall|j: int| 0 <= j < p + 1 implies !lt(v, (#[trigger] s[j]).sample) by {
            if j > 0 {
                assert(s[j] == t[j - 1]);
            }
        }
        if p + 1 < s.len() {
            assert(s[p + 1] == t[p]);
        }
    }
}

/// Only one index is that of the first strictly greater checkpoint.
pub proof fn lemma_first_greater_unique<S: Ord>(s: Seq<Checkpoint<S>>, v: S, p: int)
    requires
        is_first_greater(s, v, p),
    ensures
        first_greater(s, v) == p,
{
    lemma_first_greater(s, v);
    let q = first_greater(s, v);
    if q < p {
        assert(!lt(v, s[q].sample));
    } else if p < q {
        assert(!lt(v, s[p].sample));
    }
}

/// The sequence after `v` has been recorded before its first strictly greater checkpoint:
/// that checkpoint grows by one where `maximal_gap` allows it, and else a new checkpoint
/// for `v` is placed right before it. A sequence without a greater checkpoint stays as it is.
pub open spec fn recorded<S: Ord>(s: Seq<Checkpoint<S>>, v: S, maximal_gap: u64) -> Seq<
    Checkpoint<S>,
> {
    let p = first_greater(s, v);
    if p >= s.len() {
        s
    } else if s[p].growable(maximal_gap) {
        s.update(p, s[p].grown())
    } else {
        s.insert(p, Checkpoint::preceding(v, s[p]))
    }
}

/// Recording into a sequence only touches the stretch that holds the first greater
/// checkpoint: what lies before a stretch and is not above `v`, and what lies after a
/// stretch that ends above `v`, stays as it is.
pub proof fn lemma_recorded_split<S: Ord>(
    a: Seq<Checkpoint<S>>,
    m: Seq<Checkpoint<S>>,
    b: Seq<Checkpoint<S>>,
    v: S,
    maximal_gap: u64,
)
    requires
        forall|i: int| 0 <= i < a.len() ==> !lt(v, (#[trigger] a[i]).sample),
        m.len() > 0,
        lt(v, m.last().sample),
    ensures
        recorded(a + m + b, v, maximal_gap) == a + recorded(m, v, maximal_gap) + b,
        first_greater(m, v) < m.len(),
        first_greater(a + m + b, v) == a.len() + first_greater(m, v),
{
    lemma_first_greater(m, v);
    let q = first_greater(m, v);
    if q >= m.len() {
        assert(!lt(v, m[m.len() - 1].sample));
    }
    let s = a + m + b;
    let p = a.len() + q;
    assert forall|j: int| 0 <= j < p implies !lt(v, (#[trigger] s[j]).sample) by {
        if j < a.len() {
            assert(s[j] == a[j]);
        } else {
            assert(s[j] == m[j - a.len()]);
        }
    }
    assert(s[p] == m[q]);
    lemma_first_greater_unique(s, v, p);
    if m[q].growable(maximal_gap) {
        assert(s.update(p, s[p].grown()) =~= a + m.update(q, m[q].grown()) + b);
    } else {
        let c = Checkpoint::preceding(v, m[q]);
        assert(s.insert(p, c) =~= a + m.insert(q, c) + b);
    }
}

/// Recording keeps a sorted sequence sorted.
pub proof fn lemma_recorded_sorted<S: Ord>(s: Seq<Checkpoint<S>>, v: S, maximal_gap: u64)
    requires
        lawful::<S>(),
        sorted(s),
    ensures
        sorted(recorded(s, v, maximal_gap)),
{
    lemma_first_greater(s, v);
    let p = first_greater(s, v);
    let r = recorded(s, v, maximal_gap);
    if p < s.len() && !s[p].growable(maximal_gap) {
        let c = Checkpoint::preceding(v, s[p]);
        assert forall|i: int, j: int| 0 <= i < j < r.len() implies le(
            #[trigger] r[i].sample,
            #[trigger] r[j].sample,
        ) by {
            if j < p {
                assert(r[i] == s[i] && r[j] == s[j]);
            } else if j == p {
                assert(r[i] == s[i]);
                assert(!lt(v, s[i].sample));
            } else if i == p {
                assert(r[j] == s[j - 1]);
                if j - 1 > p {
                    assert(le(s[p].sample, s[j - 1].sample));
                } else {
                    lemma_le_refl(s[p].sample);
                }
                lemma_lt_le(v, s[p].sample);
                lemma_le_trans(v, s[p].sample, s[j - 1].sample);
            } else if i < p {
                assert(r[i] == s[i] && r[j] == s[j - 1]);
            } else {
                assert(r[i] == s[i - 1] && r[j] == s[j - 1]);
            }
        }
    } else if p < s.len() {
        assert forall|i: int, j: int| 0 <= i < j < r.len() implies le(
            #[trigger] r[i].sample,
            #[trigger] r[j].sample,
        ) by {
            assert(r[i].sample == s[i].sample && r[j].sample == s[j].sample);
        }
    }
}

/// A stretch of a sorted sequence is sorted.
pub proof fn lemma_sorted_subrange<S: Ord>(s: Seq<Checkpoint<S>>, from: int, to: int)
    requires
        sorted(s),
        0 <= from <= to <= s.len(),
    ensures
        sorted(s.subrange(from, to)),
{
    let t = s.subrange(from, to);
    assert forall|i: int, j: int| 0 <= i < j < t.len() implies le(
        #[trigger] t[i].sample,
        #[trigger] t[j].sample,
    ) by {
        assert(t[i] == s[from + i] && t[j] == s[from + j]);
    }
}

/// The content of a node: the content of its children, with one key between each two.
/// `parts` holds one more sequence than there are `keys`.
pub open spec fn join<C>(parts: Seq<Seq<C>>, keys: Seq<C>) -> Seq<C>
    decreases keys.len(),
{
    if parts.len() == 0 {
        Seq::empty()
    } else if keys.len() == 0 {
        parts[0]
    } else {
        join(parts.drop_last(), keys.drop_last()) + seq![keys.last()] + parts.last()
    }
}

/// What a node holds before its child `p`: the earlier children and keys, up to the key
/// right before the child.
pub open spec fn before<C>(parts: Seq<Seq<C>>, keys: Seq<C>, p: int) -> Seq<C> {
    if p <= 0 {
        Seq::empty()
    } else {
        join(parts.subrange(0, p), keys.subrange(0, p - 1)) + seq![keys[p - 1]]
    }
}

/// What a node holds after the key that follows its child `p`.
pub open spec fn tail<C>(parts: Seq<Seq<C>>, keys: Seq<C>, p: int) -> Seq<C> {
    join(parts.subrange(p + 1, parts.len() as int), keys.subrange(p + 1, keys.len() as int))
}

/// What a node holds after its child `p`: the key that follows the child, and the rest.
pub open spec fn after<C>(parts: Seq<Seq<C>>, keys: Seq<C>, p: int) -> Seq<C> {
    if p >= keys.len() {
        Seq::empty()
    } else {
        seq![keys[p]] + tail(parts, keys, p)
    }
}

/// A node that is cut at a key holds the content of its left part, the key, and the
/// content of its right part.
pub proof fn lemma_join_concat<C>(
    lp: Seq<Seq<C>>,
    lk: Seq<C>,
    med: C,
    rp: Seq<Seq<C>>,
    rk: Seq<C>,
)
    requires
        lp.len() == lk.len() + 1,
        rp.len() == rk.len() + 1,
    ensures
        join(lp + rp, lk + seq![med] + rk) == join(lp, lk) + seq![med] + join(rp, rk),
    decreases rk.len(),
{
    let parts = lp + rp;
    let keys = lk + seq![med] + rk;
    if rk.len() == 0 {
        assert(parts.drop_last() =~= lp);
        assert(keys.drop_last() =~= lk);
    } else {
        assert(parts.drop_last() =~= lp + rp.drop_last());
        assert(keys.drop_last() =~= lk + seq![med] + rk.drop_last());
        lemma_join_concat(lp, lk, med, rp.drop_last(), rk.drop_last());
        assert(join(parts, keys) =~= join(lp, lk) + seq![med] + join(rp, rk));
    }
}

/// The content of a node with two children and the key between them.
pub proof fn lemma_join_pair<C>(left: Seq<C>, med: C, right: Seq<C>)
    ensures
        join(seq![left, right], seq![med]) == left + seq![med] + right,
{
    let none = Seq::<C>::empty();
    lemma_join_concat(seq![left], none, med, seq![right], none);
    assert(seq![left] + seq![right] =~= seq![left, right]);
    assert(none + seq![med] + none =~= seq![med]);
}

/// The content of a node, seen around its child `p`.
pub proof fn lemma_join_around<C>(parts: Seq<Seq<C>>, keys: Seq<C>, p: int)
    requires
        parts.len() == keys.len() + 1,
        0 <= p <= keys.len(),
    ensures
        join(parts, keys) == before(parts, keys, p) + parts[p] + after(parts, keys, p),
{
    let n = keys.len() as int;
    let right_parts = parts.subrange(p, n + 1);
    let right_keys = keys.subrange(p, n);
    if p > 0 {
        assert(parts =~= parts.subrange(0, p) + right_parts);
        assert(keys =~= keys.subrange(0, p - 1) + seq![keys[p - 1]] + right_keys);
        lemma_join_concat(
            parts.subrange(0, p),
            keys.subrange(0, p - 1),
            keys[p - 1],
            right_parts,
            right_keys,
        );
    } else {
        assert(parts =~= right_parts);
        assert(keys =~= right_keys);
    }
    if p < n {
        let one = seq![parts[p]];
        assert(right_parts =~= one + parts.subrange(p + 1, n + 1));
        assert(right_keys =~= Seq::<C>::empty() + seq![keys[p]] + keys.subrange(p + 1, n));
        lemma_join_concat(
            one,
            Seq::<C>::empty(),
            keys[p],
            parts.subrange(p + 1, n + 1),
            keys.subrange(p + 1, n),
        );
        assert(join(one, Seq::<C>::empty()) == parts[p]);
    } else {
        assert(right_parts[0] == parts[p]);
    }
    assert(join(parts, keys) =~= before(parts, keys, p) + parts[p] + after(parts, keys, p));
}

/// The content of a node whose child `p` has been replaced by `left`, and that has taken
/// a new key and the child `right` behind it.
pub proof fn lemma_join_insert<C>(
    parts: Seq<Seq<C>>,
    keys: Seq<C>,
    p: int,
    left: Seq<C>,
    med: C,
    right: Seq<C>,
)
    requires
        parts.len() == keys.len() + 1,
        0 <= p <= keys.len(),
    ensures
        join(parts.update(p, left).insert(p + 1, right), keys.insert(p, med)) == before(
            parts,
            keys,
            p,
        ) + left + seq![med] + right + after(parts, keys, p),
{
    let n = keys.len() as int;
    let parts2 = parts.update(p, left).insert(p + 1, right);
    let keys2 = keys.insert(p, med);
    lemma_join_around(parts2, keys2, p);
    if p > 0 {
        assert(parts2.subrange(0, p) =~= parts.subrange(0, p));
        assert(keys2.subrange(0, p - 1) =~= keys.subrange(0, p - 1));
    }
    let rest_parts = parts2.subrange(p + 1, n + 2);
    let rest_keys = keys2.subrange(p + 1, n + 1);
    if p < n {
        let one = seq![right];
        assert(rest_parts =~= one + parts.subrange(p + 1, n + 1));
        assert(rest_keys =~= Seq::<C>::empty() + seq![keys[p]] + keys.subrange(p + 1, n));
        lemma_join_concat(
            one,
            Seq::<C>::empty(),
            keys[p],
            parts.subrange(p + 1, n + 1),
            keys.subrange(p + 1, n),
        );
        assert(join(one, Seq::<C>::empty()) == right);
    } else {
        assert(rest_parts[0] == right);
        assert(rest_keys.len() == 0);
    }
    assert(join(parts2, keys2) =~= before(parts, keys, p) + left + seq![med] + right + after(
        parts,
        keys,
        p,
    ));
}

/// The content of a node whose child `p` has been replaced.
pub proof fn lemma_join_update<C>(parts: Seq<Seq<C>>, keys: Seq<C>, p: int, part: Seq<C>)
    requires
        parts.len() == keys.len() + 1,
        0 <= p <= keys.len(),
    ensures
        join(parts.update(p, part), keys) == before(parts, keys, p) + part + after(parts, keys, p),
{
    let n = keys.len() as int;
    let parts2 = parts.update(p, part);
    lemma_join_around(parts2, keys, p);
    if p > 0 {
        assert(parts2.subrange(0, p) =~= parts.subrange(0, p));
    }
    assert(parts2.subrange(p + 1, n + 1) =~= parts.subrange(p + 1, n + 1));
}

/// Changing the key behind child `p` leaves the content before the child, and behind
/// that key, as it is.
pub proof fn lemma_join_key_update<C>(parts: Seq<Seq<C>>, keys: Seq<C>, p: int, key: C)
    requires
        parts.len() == keys.len() + 1,
        0 <= p < keys.len(),
    ensures
        before(parts, keys.update(p, key), p) == before(parts, keys, p),
        tail(parts, keys.update(p, key), p) == tail(parts, keys, p),
{
    let n = keys.len() as int;
    let keys2 = keys.update(p, key);
    if p > 0 {
        assert(keys2.subrange(0, p - 1) =~= keys.subrange(0, p - 1));
    }
    assert(keys2.subrange(p + 1, n) =~= keys.subrange(p + 1, n));
}

/// What a node holds behind the key that follows its child `p` begins with the next child.
pub proof fn lemma_tail_unfold<C>(parts: Seq<Seq<C>>, keys: Seq<C>, p: int)
    requires
        parts.len() == keys.len() + 1,
        0 <= p < keys.len(),
    ensures
        tail(parts, keys, p) == parts[p + 1] + after(parts, keys, p + 1),
{
    let n = keys.len() as int;
    let sub_parts = parts.subrange(p + 1, n + 1);
    let sub_keys = keys.subrange(p + 1, n);
    lemma_join_around(sub_parts, sub_keys, 0);
    if sub_keys.len() > 0 {
        assert(sub_parts.subrange(1, sub_parts.len() as int) =~= parts.subrange(p + 2, n + 1));
        assert(sub_keys.subrange(1, sub_keys.len() as int) =~= keys.subrange(p + 2, n));
    }
    assert(tail(parts, keys, p) =~= parts[p + 1] + after(parts, keys, p + 1));
}

/// A node with at least one key holds at least what its first two children hold, and a key.
pub proof fn lemma_join_len<C>(parts: Seq<Seq<C>>, keys: Seq<C>)
    requires
        parts.len() == keys.len() + 1,
        keys.len() >= 1,
    ensures
        join(parts, keys).len() >= parts[0].len() + parts[1].len() + 1,
{
    lemma_join_around(parts, keys, 0);
    lemma_tail_unfold(parts, keys, 0);
}

/// How many checkpoints the children of a node hold together.
pub open spec fn held_in<C>(parts: Seq<Seq<C>>) -> nat
    decreases parts.len(),
{
    if parts.len() == 0 {
        0
    } else {
        held_in(parts.drop_last()) + parts.last().len()
    }
}

/// A node holds its keys and what its children hold.
pub proof fn lemma_join_held<C>(parts: Seq<Seq<C>>, keys: Seq<C>)
    requires
        parts.len() == keys.len() + 1,
    ensures
        join(parts, keys).len() == keys.len() + held_in(parts),
    decreases keys.len(),
{
    if keys.len() == 0 {
        assert(held_in(parts.drop_last()) == 0);
    } else {
        lemma_join_held(parts.drop_last(), keys.drop_last());
    }
}

/// How many checkpoints a node holds from its child `from` up to the key before its
/// child `to`, both counted.
pub open spec fn span<C>(parts: Seq<Seq<C>>, from: int, to: int) -> nat
    decreases to - from,
{
    if from >= to {
        0
    } else {
        parts[from].len() + 1 + span(parts, from + 1, to)
    }
}

/// One child and one key more make the span longer by what they hold.
pub proof fn lemma_span_last<C>(parts: Seq<Seq<C>>, from: int, to: int)
    requires
        0 <= from <= to < parts.len(),
    ensures
        span(parts, from, to + 1) == span(parts, from, to) + parts[to].len() + 1,
    decreases to - from,
{
    if from < to {
        lemma_span_last(parts, from + 1, to);
    } else {
        assert(span(parts, to + 1, to + 1) == 0);
    }
}

/// What a node holds before its child `p` is the span from its first child up to the
/// key before that child.
pub proof fn lemma_span_before<C>(parts: Seq<Seq<C>>, keys: Seq<C>, p: int)
    requires
        parts.len() == keys.len() + 1,
        0 <= p <= keys.len(),
    ensures
        before(parts, keys, p).len() == span(parts, 0, p),
        span(parts, 0, p) == p + held_in(parts.take(p)),
    decreases p,
{
    if p > 0 {
        lemma_span_before(parts, keys, p - 1);
        lemma_span_last(parts, 0, p - 1);
        assert(parts.take(p).drop_last() =~= parts.take(p - 1));
        assert(parts.take(p).last() == parts[p - 1]);
        assert(parts.subrange(0, p) =~= parts.take(p));
        lemma_join_held(parts.subrange(0, p), keys.subrange(0, p - 1));
    } else {
        assert(held_in(parts.take(0)) == 0);
    }
}

/// The checkpoint that follows child `p` of a node: the key behind the child, or, for the
/// last child, the checkpoint `f` that follows the node.
pub open spec fn successor<C>(keys: Seq<C>, f: C, p: int) -> C {
    if p < keys.len() {
        keys[p]
    } else {
        f
    }
}

/// What follows the successor of child `p`, in a node that is followed by `f`.
pub open spec fn rest<C>(parts: Seq<Seq<C>>, keys: Seq<C>, f: C, p: int) -> Seq<C> {
    if p < keys.len() {
        tail(parts, keys, p) + seq![f]
    } else {
        Seq::empty()
    }
}

/// A node and the checkpoint `f` that follows it, seen around the child `p` and its
/// successor.
pub proof fn lemma_line_around<C>(parts: Seq<Seq<C>>, keys: Seq<C>, f: C, p: int)
    requires
        parts.len() == keys.len() + 1,
        0 <= p <= keys.len(),
    ensures
        join(parts, keys) + seq![f] == before(parts, keys, p) + (parts[p] + seq![
            successor(keys, f, p),
        ]) + rest(parts, keys, f, p),
{
    lemma_join_around(parts, keys, p);
    assert(join(parts, keys) + seq![f] =~= before(parts, keys, p) + (parts[p] + seq![
        successor(keys, f, p),
    ]) + rest(parts, keys, f, p));
}

/// Recording into a node comes down to recording into the child that the first greater
/// key points to, together with the checkpoint that follows that child.
pub proof fn lemma_descend<S: Ord>(
    parts: Seq<Seq<Checkpoint<S>>>,
    keys: Seq<Checkpoint<S>>,
    f: Checkpoint<S>,
    p: int,
    v: S,
    maximal_gap: u64,
)
    requires
        lawful::<S>(),
        parts.len() == keys.len() + 1,
        sorted(join(parts, keys) + seq![f]),
        lt(v, f.sample),
        is_first_greater(keys, v, p),
    ensures
        sorted(parts[p] + seq![successor(keys, f, p)]),
        lt(v, successor(keys, f, p).sample),
        recorded(join(parts, keys) + seq![f], v, maximal_gap) == before(parts, keys, p) + recorded(
            parts[p] + seq![successor(keys, f, p)],
            v,
            maximal_gap,
        ) + rest(parts, keys, f, p),
        (recorded(join(parts, keys) + seq![f], v, maximal_gap).len() == join(parts, keys).len() + 2)
            <==> (recorded(parts[p] + seq![successor(keys, f, p)], v, maximal_gap).len()
            == parts[p].len() + 2),
        first_greater(join(parts, keys) + seq![f], v) == before(parts, keys, p).len()
            + first_greater(parts[p] + seq![successor(keys, f, p)], v),
        0 <= first_greater(parts[p] + seq![successor(keys, f, p)], v) <= parts[p].len(),
{
    let line = join(parts, keys) + seq![f];
    let a = before(parts, keys, p);
    let m = parts[p] + seq![successor(keys, f, p)];
    let b = rest(parts, keys, f, p);
    lemma_line_around(parts, keys, f, p);
    assert(line == a + m + b);
    assert forall|i: int| 0 <= i < a.len() implies !lt(v, (#[trigger] a[i]).sample) by {
        let last = a.len() - 1;
        assert(a[last] == keys[p - 1]);
        assert(!lt(v, keys[p - 1].sample));
        assert(line[i] == a[i]);
        assert(line[last] == a[last]);
        if i < last {
            assert(le(line[i].sample, line[last].sample));
            lemma_le_trans(a[i].sample, keys[p - 1].sample, v);
        }
    }
    assert(m =~= line.subrange(a.len() as int, (a.len() + m.len()) as int));
    lemma_sorted_subrange(line, a.len() as int, (a.len() + m.len()) as int);
    lemma_recorded_split(a, m, b, v, maximal_gap);
    lemma_first_greater(m, v);
}

/// The content of a node after a descent into its child `p` has come back: the child
/// holds `left`, the successor of the child has become `succ`, and where the child was
/// split, the node has taken the median and the new child in behind it.
pub proof fn lemma_ascend<C>(
    parts: Seq<Seq<C>>,
    keys: Seq<C>,
    f: C,
    p: int,
    succ: C,
    left: Seq<C>,
    pending: Option<(C, Seq<C>)>,
)
    requires
        parts.len() == keys.len() + 1,
        0 <= p <= keys.len(),
    ensures
        ({
            let keys1 = if p < keys.len() {
                keys.update(p, succ)
            } else {
                keys
            };
            let f1 = if p < keys.len() {
                f
            } else {
                succ
            };
            match pending {
                None => join(parts.update(p, left), keys1) + seq![f1] == before(parts, keys, p)
                    + (left + seq![succ]) + rest(parts, keys, f, p),
                Some((median, right)) => join(
                    parts.update(p, left).insert(p + 1, right),
                    keys1.insert(p, median),
                ) + seq![f1] == before(parts, keys, p) + (left + seq![median] + right + seq![succ])
                    + rest(parts, keys, f, p),
            }
        }),
{
    let keys1 = if p < keys.len() {
        keys.update(p, succ)
    } else {
        keys
    };
    let f1 = if p < keys.len() {
        f
    } else {
        succ
    };
    if p < keys.len() {
        lemma_join_key_update(parts, keys, p, succ);
    } else {
        assert(before(parts, keys1, p) == before(parts, keys, p));
    }
    match pending {
        None => {
            lemma_join_update(parts, keys1, p, left);
            assert(join(parts.update(p, left), keys1) + seq![f1] =~= before(parts, keys, p) + (left
                + seq![succ]) + rest(parts, keys, f, p));
        },
        Some((median, right)) => {
            lemma_join_insert(parts, keys1, p, left, median, right);
            assert(join(parts.update(p, left).insert(p + 1, right), keys1.insert(p, median))
                + seq![f1] =~= before(parts, keys, p) + (left + seq![median] + right + seq![succ])
                + rest(parts, keys, f, p));
        },
    }
}

/// The checkpoints of a tree after `v` has been recorded. The first value makes the
/// first checkpoint. A value that is not below the last checkpoint is a new greatest
/// value: the last checkpoint takes its place, and takes in the value that it held, where
/// `maximal_gap` allows it to grow; else a new exact checkpoint is added behind it. Any other
/// value is recorded before its first strictly greater checkpoint.
pub open spec fn tree_recorded<S: Ord>(s: Seq<Checkpoint<S>>, v: S, maximal_gap: u64) -> Seq<
    Checkpoint<S>,
> {
    if s.len() == 0 {
        seq![Checkpoint::exact(v)]
    } else if !lt(v, s.last().sample) {
        if s.last().growable(maximal_gap) {
            s.update(s.len() - 1, s.last().succeeded(v))
        } else {
            s.push(Checkpoint::exact(v))
        }
    } else {
        recorded(s, v, maximal_gap)
    }
}

/// The lower of a tree's least value so far and a new value `v`.
pub open spec fn least<S: Ord>(minimum: Option<S>, v: S) -> S {
    match minimum {
        Some(m) if !lt(v, m) => m,
        _ => v,
    }
}

/// `minimum` is not above any sample of `s`.
pub open spec fn bounded_below<S: Ord>(minimum: S, s: Seq<Checkpoint<S>>) -> bool {
    forall|i: int| 0 <= i < s.len() ==> le(minimum, (#[trigger] s[i]).sample)
}

/// Recording keeps the checkpoints consistent.
pub proof fn lemma_recorded_wf<S: Ord>(s: Seq<Checkpoint<S>>, v: S, maximal_gap: u64)
    requires
        all_wf(s),
    ensures
        all_wf(recorded(s, v, maximal_gap)),
{
    let p = first_greater(s, v);
    lemma_first_greater(s, v);
    let r = recorded(s, v, maximal_gap);
    if p < s.len() {
        assert(s[p].wf());
        assert forall|i: int| 0 <= i < r.len() implies (#[trigger] r[i]).wf() by {
            if s[p].growable(maximal_gap) {
                if i != p {
                    assert(r[i] == s[i]);
                }
            } else {
                if i < p {
                    assert(r[i] == s[i]);
                } else if i > p {
                    assert(r[i] == s[i - 1]);
                }
            }
        }
    }
}

/// Recording into a tree keeps its checkpoints consistent, sorted and not below the least
/// value.
pub proof fn lemma_tree_recorded<S: Ord>(
    s: Seq<Checkpoint<S>>,
    minimum: Option<S>,
    v: S,
    maximal_gap: u64,
)
    requires
        lawful::<S>(),
        all_wf(s),
        sorted(s),
        minimum is Some <==> s.len() > 0,
        minimum is Some ==> bounded_below(minimum->0, s),
    ensures
        all_wf(tree_recorded(s, v, maximal_gap)),
        sorted(tree_recorded(s, v, maximal_gap)),
        bounded_below(least(minimum, v), tree_recorded(s, v, maximal_gap)),
        tree_recorded(s, v, maximal_gap).len() > 0,
{
    let r = tree_recorded(s, v, maximal_gap);
    let low = least(minimum, v);
    lemma_le_refl(v);
    if s.len() == 0 {
    } else {
        let m = minimum->0;
        lemma_le_refl(m);
        if lt(v, m) {
            lemma_lt_le(v, m);
        }
        assert(le(low, m) && le(low, v));
        let last = s.len() - 1;
        if !lt(v, s.last().sample) {
            assert(le(s[last].sample, v));
            assert forall|i: int| 0 <= i < r.len() implies (#[trigger] r[i]).wf() by {
                assert(s[last].wf());
                if i < last {
                    assert(r[i] == s[i]);
                }
            }
            assert forall|i: int, j: int| 0 <= i < j < r.len() implies le(
                #[trigger] r[i].sample,
                #[trigger] r[j].sample,
            ) by {
                assert(r[i].sample == s[i].sample);
                if j < last {
                    assert(r[j] == s[j]);
                } else if j == last && r.len() == s.len() {
                    if i < last {
                        assert(le(s[i].sample, s[last].sample));
                    }
                    lemma_le_trans(s[i].sample, s[last].sample, v);
                } else if j == last {
                    assert(r[j] == s[j]);
                } else {
                    if i < last {
                        assert(le(s[i].sample, s[last].sample));
                    } else {
                        lemma_le_refl(s[last].sample);
                    }
                    lemma_le_trans(s[i].sample, s[last].sample, v);
                }
            }
            assert forall|i: int| 0 <= i < r.len() implies le(low, (#[trigger] r[i]).sample) by {
                if i < s.len() && r[i].sample == s[i].sample {
                    assert(le(m, s[i].sample));
                    lemma_le_trans(low, m, s[i].sample);
                }
            }
        } else {
            lemma_recorded_wf(s, v, maximal_gap);
            lemma_recorded_sorted(s, v, maximal_gap);
            lemma_first_greater(s, v);
            let p = first_greater(s, v);
            assert forall|i: int| 0 <= i < r.len() implies le(low, (#[trigger] r[i]).sample) by {
                if p < s.len() && !s[p].growable(maximal_gap) {
                    if i < p {
                        assert(r[i] == s[i]);
                        assert(le(m, s[i].sample));
                        lemma_le_trans(low, m, s[i].sample);
                    } else if i > p {
                        assert(r[i] == s[i - 1]);
                        assert(le(m, s[i - 1].sample));
                        lemma_le_trans(low, m, s[i - 1].sample);
                    }
                } else {
                    assert(r[i].sample == s[i].sample);
                    assert(le(m, s[i].sample));
                    lemma_le_trans(low, m, s[i].sample);
                }
            }
        }
    }
}

} // verus!
