//! The best `n` of a stream of scored documents.
use vstd::prelude::*;
use vstd::seq_lib::{group_to_multiset_ensures, lemma_multiset_commutative};

use crate::scorer_set::lemma_permutation_member;
use crate::sorting::{sort_by_key, sorted_by_key};
use crate::sums::{
    count_by, indicator, lemma_count_all, lemma_count_bounds, lemma_count_implied, lemma_count_none,
    lemma_sum_append, lemma_sum_permutation, lemma_sum_split,
};
use crate::types::{DocAddress, DocId, Score};

verus! {

/// Something that identifies a document, with the order in which documents of equal score are
/// ranked.
pub trait DocOrder: Copy {
    spec fn spec_order(&self) -> u64;

    /// The place of the document among documents of equal score.
    fn order(&self) -> (order: u64)
        ensures
            order == self.spec_order(),
    ;
}

impl DocOrder for DocId {
    open spec fn spec_order(&self) -> u64 {
        *self as u64
    }

    fn order(&self) -> (order: u64) {
        *self as u64
    }
}

impl DocOrder for DocAddress {
    open spec fn spec_order(&self) -> u64 {
        (self.segment_ord * 0x1_0000_0000 + self.doc_id) as u64
    }

    fn order(&self) -> (order: u64) {
        self.segment_ord as u64 * 0x1_0000_0000 + self.doc_id as u64
    }
}

/// The rank of a scored document: higher scores come first, and among equal scores the document
/// with the lower order.
pub open spec fn rank<D: DocOrder>(entry: (Score, D)) -> int {
    (-1 - entry.0) * 0x1_0000_0000_0000_0000 + entry.1.spec_order()
}

pub open spec fn rank_fn<D: DocOrder>() -> spec_fn((Score, D)) -> int {
    |entry: (Score, D)| rank(entry)
}

pub open spec fn scores_from<D>(t: Score) -> spec_fn((Score, D)) -> bool {
    |entry: (Score, D)| entry.0 >= t
}

pub open spec fn scores_above<D>(t: Score) -> spec_fn((Score, D)) -> bool {
    |entry: (Score, D)| entry.0 > t
}

pub open spec fn ranks_to<D: DocOrder>(r: int) -> spec_fn((Score, D)) -> bool {
    |entry: (Score, D)| rank(entry) <= r
}

/// `result` holds the best `n` of `entries`, the best one first.
pub open spec fn is_top<D: DocOrder>(
    result: Seq<(Score, D)>,
    entries: Seq<(Score, D)>,
    n: int,
) -> bool {
    exists|rest: Seq<(Score, D)>| #[trigger] splits_top(result, rest, entries, n)
}

/// `result` holds the best `n` of `entries`, the best one first, and `rest` the others.
pub open spec fn splits_top<D: DocOrder>(
    result: Seq<(Score, D)>,
    rest: Seq<(Score, D)>,
    entries: Seq<(Score, D)>,
    n: int,
) -> bool {
    &&& (result + rest).to_multiset() == entries.to_multiset()
    &&& sorted_by_key(result, rank_fn())
    &&& forall|i: int, j: int|
        0 <= i < result.len() && 0 <= j < rest.len() ==> rank(#[trigger] result[i]) <= rank(
            #[trigger] rest[j],
        )
    &&& result.len() <= n
    &&& result.len() == n || rest.len() == 0
}

/// `t` is the `n`-th best score of `entries`.
pub open spec fn is_nth_score<D>(entries: Seq<(Score, D)>, n: int, t: Score) -> bool {
    &&& count_by(entries, scores_from(t)) >= n
    &&& count_by(entries, scores_above(t)) < n
}

/// A threshold, where no threshold is below every other.
pub open spec fn not_below(a: Option<Score>, b: Option<Score>) -> bool {
    match (a, b) {
        (_, None) => true,
        (None, Some(_)) => false,
        (Some(x), Some(y)) => x >= y,
    }
}

/// A score is not below a threshold.
pub open spec fn passes(score: Score, threshold: Option<Score>) -> bool {
    match threshold {
        Some(t) => score >= t,
        None => true,
    }
}

/// How many documents the buffer takes.
pub open spec fn buffer_size(top_n: usize) -> int {
    if top_n == 0 {
        2
    } else {
        2 * top_n
    }
}

/// Keeps the best `top_n` documents of all that are pushed.
///
/// The buffer takes up to twice as many documents. When it is full, it is cut down to the best
/// `top_n`, and the score of the last of those becomes the threshold: what scores less is ignored
/// from then on.
pub struct TopNComputer<D> {
    pub top_n: usize,
    pub threshold: Option<Score>,
    pub buffer: Vec<(Score, D)>,
    /// What was pushed and passes the threshold that the computer was made with.
    pub entries: Ghost<Seq<(Score, D)>>,
    /// The entries that have been ruled out.
    pub ruled_out: Ghost<Seq<(Score, D)>>,
    /// The threshold that the computer was made with.
    pub floor: Ghost<Option<Score>>,
}

fn rank_key<D: DocOrder>(entry: &(Score, D)) -> (key: i128)
    ensures
        key == rank_fn()(*entry),
{
    (-1 - entry.0) as i128 * 0x1_0000_0000_0000_0000 + entry.1.order() as i128
}

/// The threshold in force is the one at the start, or enough documents in the buffer back it.
pub open spec fn is_backed<D>(
    threshold: Option<Score>,
    floor: Option<Score>,
    buffer: Seq<(Score, D)>,
    n: int,
) -> bool {
    threshold == floor || {
        &&& threshold is Some
        &&& n > 0
        &&& count_by(buffer, scores_from(threshold->0)) >= n
    }
}

/// The first of sorted entries: as many as rank no later than `r` all do so.
proof fn lemma_first_ranks<D: DocOrder>(sorted: Seq<(Score, D)>, n: int, r: int)
    requires
        sorted_by_key(sorted, rank_fn()),
        count_by(sorted, ranks_to(r)) >= n,
    ensures
        n <= sorted.len(),
        forall|i: int| 0 <= i < n ==> rank(#[trigger] sorted[i]) <= r,
{
    lemma_count_bounds(sorted, ranks_to(r));
    assert forall|i: int| 0 <= i < n implies rank(#[trigger] sorted[i]) <= r by {
        if rank(sorted[i]) > r {
            let low = sorted.take(i);
            let high = sorted.skip(i);
            assert forall|k: int| 0 <= k < high.len() implies !ranks_to(r)(#[trigger] high[k]) by {
                assert(high[k] == sorted[i + k]);
                assert(rank_fn()(sorted[i]) <= rank_fn()(sorted[i + k]));
            }
            lemma_count_none(high, ranks_to(r));
            lemma_count_bounds(low, ranks_to(r));
            lemma_sum_split(sorted, i, indicator(ranks_to(r)));
        }
    }
}

/// As many sorted entries as score at least `t` come first.
proof fn lemma_first_scores<D: DocOrder>(sorted: Seq<(Score, D)>, n: int, t: Score)
    requires
        sorted_by_key(sorted, rank_fn()),
        count_by(sorted, scores_from(t)) >= n,
    ensures
        n <= sorted.len(),
        forall|i: int| 0 <= i < n ==> (#[trigger] sorted[i]).0 >= t,
{
    lemma_count_bounds(sorted, scores_from(t));
    assert forall|i: int| 0 <= i < n implies (#[trigger] sorted[i]).0 >= t by {
        if sorted[i].0 < t {
            let low = sorted.take(i);
            let high = sorted.skip(i);
            assert forall|k: int| 0 <= k < high.len() implies !scores_from(t)(
                #[trigger] high[k],
            ) by {
                assert(high[k] == sorted[i + k]);
                assert(rank_fn()(sorted[i]) <= rank_fn()(sorted[i + k]));
            }
            lemma_count_none(high, scores_from(t));
            lemma_count_bounds(low, scores_from(t));
            lemma_sum_split(sorted, i, indicator(scores_from(t)));
        }
    }
}

/// The last of the best `n` has the `n`-th best score.
proof fn lemma_nth_score<D: DocOrder>(
    kept: Seq<(Score, D)>,
    others: Seq<(Score, D)>,
    entries: Seq<(Score, D)>,
    n: int,
)
    requires
        splits_top(kept, others, entries, n),
        0 < n == kept.len(),
    ensures
        is_nth_score(entries, n, kept[n - 1].0),
{
    let t = kept[n - 1].0;
    lemma_sum_permutation(kept + others, entries, indicator(scores_from(t)));
    lemma_sum_append(kept, others, indicator(scores_from(t)));
    lemma_count_bounds(others, scores_from(t));
    lemma_sum_permutation(kept + others, entries, indicator(scores_above(t)));
    lemma_sum_append(kept, others, indicator(scores_above(t)));
    assert forall|k: int| 0 <= k < others.len() implies !scores_above::<D>(t)(
        #[trigger] others[k],
    ) by {
        assert(rank(kept[n - 1]) <= rank(others[k]));
    }
    lemma_count_none(others, scores_above(t));
    lemma_count_bounds(kept.drop_last(), scores_above(t));
    assert forall|k: int| 0 <= k < kept.len() implies scores_from::<D>(t)(#[trigger] kept[k]) by {
        assert(rank_fn()(kept[k]) <= rank_fn()(kept[n - 1]));
    }
    lemma_count_all(kept, scores_from(t));
}

impl<D: DocOrder> TopNComputer<D> {
    pub open spec fn wf(self) -> bool {
        &&& (self.buffer@ + self.ruled_out@).to_multiset() == self.entries@.to_multiset()
        &&& forall|k: int|
            0 <= k < self.buffer@.len() ==> passes((#[trigger] self.buffer@[k]).0, self.floor@)
        &&& forall|j: int|
            0 <= j < self.ruled_out@.len() ==> count_by(
                self.buffer@,
                ranks_to(rank(#[trigger] self.ruled_out@[j])),
            ) >= self.top_n
        &&& is_backed(self.threshold, self.floor@, self.buffer@, self.top_n as int)
        &&& not_below(self.threshold, self.floor@)
        &&& self.buffer@.len() <= buffer_size(self.top_n)
    }

    /// A computer that has seen nothing, and ignores what scores less than `threshold`.
    pub fn new(top_n: usize, threshold: Option<Score>) -> (computer: TopNComputer<D>)
        ensures
            computer.wf(),
            computer.top_n == top_n,
            computer.threshold == threshold,
            computer.floor@ == threshold,
            computer.entries@.len() == 0,
    {
        TopNComputer {
            top_n,
            threshold,
            buffer: Vec::new(),
            entries: Ghost(Seq::empty()),
            ruled_out: Ghost(Seq::empty()),
            floor: Ghost(threshold),
        }
    }

    /// Sorts the buffer, the best document first.
    fn sort_buffer(&mut self)
        requires
            old(self).wf(),
        ensures
            final(self).wf(),
            final(self).top_n == old(self).top_n,
            final(self).threshold == old(self).threshold,
            final(self).entries == old(self).entries,
            final(self).ruled_out == old(self).ruled_out,
            final(self).floor == old(self).floor,
            final(self).buffer@.len() == old(self).buffer@.len(),
            sorted_by_key(final(self).buffer@, rank_fn()),
    {
        let ghost before = self.buffer@;
        sort_by_key(&mut self.buffer, rank_key, Ghost(rank_fn()));
        proof {
            let after = self.buffer@;
            lemma_multiset_commutative(before, self.ruled_out@);
            lemma_multiset_commutative(after, self.ruled_out@);
            assert forall|k: int| 0 <= k < after.len() implies passes(
                (#[trigger] after[k]).0,
                self.floor@,
            ) by {
                let j = lemma_permutation_member(before, after, k);
            }
            assert forall|j: int| 0 <= j < self.ruled_out@.len() implies count_by(
                after,
                ranks_to(rank(#[trigger] self.ruled_out@[j])),
            ) >= self.top_n by {
                lemma_sum_permutation(
                    before,
                    after,
                    indicator(ranks_to(rank(self.ruled_out@[j]))),
                );
            }
            if self.threshold != self.floor@ {
                lemma_sum_permutation(before, after, indicator(scores_from(self.threshold->0)));
            }
        }
    }

    /// Cuts the buffer down to the best `top_n` documents.
    fn truncate_top_n(&mut self)
        requires
            old(self).wf(),
            old(self).buffer@.len() >= old(self).top_n,
        ensures
            final(self).wf(),
            final(self).top_n == old(self).top_n,
            final(self).entries == old(self).entries,
            final(self).floor == old(self).floor,
            not_below(final(self).threshold, old(self).threshold),
            final(self).buffer@.len() == final(self).top_n,
            splits_top(
                final(self).buffer@,
                final(self).ruled_out@,
                final(self).entries@,
                final(self).top_n as int,
            ),
            final(self).top_n == 0 ==> final(self).threshold == old(self).threshold,
            final(self).top_n > 0 ==> final(self).threshold == Some(
                final(self).buffer@[final(self).top_n - 1].0,
            ),
            final(self).top_n > 0 ==> is_nth_score(
                final(self).entries@,
                final(self).top_n as int,
                final(self).threshold->0,
            ),
    {
        self.sort_buffer();
        let ghost sorted = self.buffer@;
        let ghost n = self.top_n as int;
        let cut: Vec<(Score, D)> = self.buffer.split_off(self.top_n);
        let ghost kept = self.buffer@;
        let ghost before = self.ruled_out@;
        proof {
            self.ruled_out@ = before + cut@;
        }
        if self.top_n > 0 {
            let last: Score = self.buffer[self.top_n - 1].0;
            proof {
                if self.threshold != self.floor@ {
                    lemma_first_scores(sorted, n, self.threshold->0);
                    assert(sorted[n - 1] == kept[n - 1]);
                }
                assert(passes(kept[n - 1].0, self.floor@)) by {
                    assert(sorted[n - 1] == kept[n - 1]);
                }
            }
            self.threshold = Some(last);
        }
        proof {
            assert(sorted =~= kept + cut@);
            assert((kept + (before + cut@)).to_multiset() == (sorted + before).to_multiset()) by {
                lemma_multiset_commutative(kept, before + cut@);
                lemma_multiset_commutative(before, cut@);
                lemma_multiset_commutative(sorted, before);
                lemma_multiset_commutative(kept, cut@);
                assert((kept + (before + cut@)).to_multiset() =~= (sorted + before).to_multiset());
            }
            assert forall|i: int, j: int| 0 <= i <= j < kept.len() implies rank_fn()(
                #[trigger] kept[i],
            ) <= rank_fn()(#[trigger] kept[j]) by {
                assert(kept[i] == sorted[i] && kept[j] == sorted[j]);
            }
            assert forall|i: int, j: int|
                0 <= i < kept.len() && 0 <= j < self.ruled_out@.len() implies rank(
                #[trigger] kept[i],
            ) <= rank(#[trigger] self.ruled_out@[j]) by {
                assert(kept[i] == sorted[i]);
                if j < before.len() {
                    assert(self.ruled_out@[j] == before[j]);
                    lemma_first_ranks(sorted, n, rank(before[j]));
                } else {
                    let x = n + (j - before.len());
                    assert(self.ruled_out@[j] == sorted[x]);
                    assert(rank_fn()(sorted[i]) <= rank_fn()(sorted[x]));
                }
            }
            assert forall|j: int| 0 <= j < self.ruled_out@.len() implies count_by(
                kept,
                ranks_to(rank(#[trigger] self.ruled_out@[j])),
            ) >= n by {
                let p = ranks_to::<D>(rank(self.ruled_out@[j]));
                assert forall|k: int| 0 <= k < kept.len() implies p(#[trigger] kept[k]) by {}
                lemma_count_all(kept, p);
            }
            if n > 0 {
                let p = scores_from::<D>(kept[n - 1].0);
                assert forall|k: int| 0 <= k < kept.len() implies p(#[trigger] kept[k]) by {
                    assert(rank_fn()(kept[k]) <= rank_fn()(kept[n - 1]));
                }
                lemma_count_all(kept, p);
            }
            assert forall|k: int| 0 <= k < kept.len() implies passes(
                (#[trigger] kept[k]).0,
                self.floor@,
            ) by {
                assert(kept[k] == sorted[k]);
            }
            if n > 0 {
                lemma_nth_score(kept, self.ruled_out@, self.entries@, n);
            }
        }
    }

    /// Pushes a document. It is ignored if it scores less than the threshold. A full buffer is cut
    /// down first, which makes the `top_n`-th best score so far the threshold.
    pub fn push(&mut self, score: Score, doc: D)
        requires
            old(self).wf(),
        ensures
            final(self).wf(),
            final(self).top_n == old(self).top_n,
            final(self).floor == old(self).floor,
            not_below(final(self).threshold, old(self).threshold),
            final(self).entries@ == (if passes(score, old(self).floor@) {
                old(self).entries@.push((score, doc))
            } else {
                old(self).entries@
            }),
            !passes(score, old(self).threshold) ==> final(self).buffer == old(self).buffer
                && final(self).threshold == old(self).threshold,
            passes(score, old(self).threshold) && old(self).buffer@.len() < buffer_size(
                old(self).top_n,
            ) ==> final(self).buffer@ == old(self).buffer@.push((score, doc))
                && final(self).threshold == old(self).threshold,
            passes(score, old(self).threshold) && old(self).buffer@.len() == buffer_size(
                old(self).top_n,
            ) ==> {
                &&& final(self).buffer@.len() == old(self).top_n + 1
                &&& final(self).buffer@.last() == (score, doc)
                &&& is_top(
                    final(self).buffer@.drop_last(),
                    old(self).entries@,
                    old(self).top_n as int,
                )
                &&& old(self).top_n == 0 ==> final(self).threshold == old(self).threshold
                &&& old(self).top_n > 0 ==> final(self).threshold is Some && is_nth_score(
                    old(self).entries@,
                    old(self).top_n as int,
                    final(self).threshold->0,
                )
            },
    {
        let ghost entry = (score, doc);
        let ignored: bool = match self.threshold {
            Some(t) => score < t,
            None => false,
        };
        if ignored {
            proof {
                broadcast use group_to_multiset_ensures;

                if passes(score, self.floor@) {
                    let t = self.threshold->0;
                    let p = ranks_to::<D>(rank(entry));
                    lemma_count_implied(self.buffer@, scores_from(t), p);
                    let before = self.ruled_out@;
                    let all = self.entries@;
                    self.ruled_out@ = before.push(entry);
                    self.entries@ = all.push(entry);
                    assert(self.buffer@ + before.push(entry) =~= (self.buffer@ + before).push(
                        entry,
                    ));
                    assert forall|j: int| 0 <= j < self.ruled_out@.len() implies count_by(
                        self.buffer@,
                        ranks_to(rank(#[trigger] self.ruled_out@[j])),
                    ) >= self.top_n by {
                        if j < before.len() {
                            assert(self.ruled_out@[j] == before[j]);
                        }
                    }
                }
            }
            return ;
        }
        let half: usize = if self.top_n == 0 {
            1
        } else {
            self.top_n
        };
        if self.buffer.len() / 2 >= half {
            self.truncate_top_n();
            proof {
                // The document is not before the old threshold, but may be before the new one.
                assert(passes(score, self.floor@));
            }
        }
        let ghost before = self.buffer@;
        let ghost all = self.entries@;
        self.buffer.push((score, doc));
        proof {
            broadcast use group_to_multiset_ensures;

            let after = self.buffer@;
            self.entries@ = all.push(entry);
            lemma_multiset_commutative(before, self.ruled_out@);
            lemma_multiset_commutative(after, self.ruled_out@);
            assert((after + self.ruled_out@).to_multiset() =~= all.push(entry).to_multiset());
            assert forall|j: int| 0 <= j < self.ruled_out@.len() implies count_by(
                after,
                ranks_to(rank(#[trigger] self.ruled_out@[j])),
            ) >= self.top_n by {
                assert(after.drop_last() =~= before);
            }
            assert(after.drop_last() =~= before);
        }
    }

    /// Makes the threshold the `top_n`-th best score, if there are that many.
    pub fn ensure_threshold(&mut self)
        requires
            old(self).wf(),
        ensures
            final(self).wf(),
            final(self).top_n == old(self).top_n,
            final(self).floor == old(self).floor,
            final(self).entries == old(self).entries,
            not_below(final(self).threshold, old(self).threshold),
            0 < old(self).top_n <= old(self).entries@.len() ==> final(self).threshold is Some
                && is_nth_score(
                final(self).entries@,
                final(self).top_n as int,
                final(self).threshold->0,
            ),
            old(self).top_n == 0 || old(self).top_n > old(self).entries@.len()
                ==> final(self).threshold == old(self).threshold,
    {
        proof {
            self.lemma_sizes();
        }
        if self.top_n > 0 && self.buffer.len() >= self.top_n {
            self.truncate_top_n();
        }
    }

    /// Entries are only ruled out once there are `top_n` of them.
    pub proof fn lemma_sizes(self)
        requires
            self.wf(),
        ensures
            self.buffer@.len() + self.ruled_out@.len() == self.entries@.len(),
            self.ruled_out@.len() > 0 ==> self.buffer@.len() >= self.top_n,
    {
        broadcast use group_to_multiset_ensures;

        let both = self.buffer@ + self.ruled_out@;
        assert(both.len() == both.to_multiset().len());
        assert(self.entries@.len() == self.entries@.to_multiset().len());
        if self.ruled_out@.len() > 0 {
            let p = ranks_to::<D>(rank(self.ruled_out@[0]));
            assert(count_by(self.buffer@, p) >= self.top_n);
            lemma_count_bounds(self.buffer@, p);
        }
    }

    /// The best `top_n` documents, the best one first.
    pub fn into_vec(self) -> (result: Vec<(Score, D)>)
        requires
            self.wf(),
        ensures
            is_top(result@, self.entries@, self.top_n as int),
    {
        let mut computer = self;
        proof {
            self.lemma_sizes();
        }
        if computer.buffer.len() >= computer.top_n {
            computer.truncate_top_n();
        } else {
            computer.sort_buffer();
            proof {
                assert(splits_top(
                    computer.buffer@,
                    computer.ruled_out@,
                    self.entries@,
                    self.top_n as int,
                ));
            }
        }
        computer.buffer
    }
}

} // verus!
