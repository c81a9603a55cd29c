//! Segments, and the queries that run on them.
use vstd::prelude::*;

use crate::block_wand::block_wand;
use crate::idf_bootstrap::starting_threshold;
use crate::idf_pruning::idf_pruning;
use crate::idf_terms::term_weight;
use crate::pruning::{
    all_ready, answers_rise, calls_exceed, calls_reach, continues, exact_calls, exhaustive_run,
    exhaustive_run_reaching, exhaustive_run_rising, idf_scored_docs, law_pruned_run_is_exhaustive,
    law_reaching_run_is_pruned, law_rising_run_is_pruned, new_calls, pruned_run, scored_docs,
    term_idf, term_max_score, term_score, Call, ScoreCallback,
};
use crate::single_scorer::block_wand_single_scorer;
use crate::sums::{lemma_sum_le, lemma_sum_nonneg, sum_by};
use crate::term_scorer::{PostingList, TermScorer};
use crate::types::{DocId, Score};

verus! {

/// The documents of a segment that have not been deleted.
pub struct AliveBitSet {
    pub alive: Vec<bool>,
}

impl AliveBitSet {
    pub open spec fn is_alive(self, doc: DocId) -> bool {
        doc < self.alive@.len() && self.alive@[doc as int]
    }

    /// Whether `doc` is not in the set.
    pub fn is_deleted(&self, doc: DocId) -> (deleted: bool)
        ensures
            deleted == !self.is_alive(doc),
    {
        if (doc as usize) < self.alive.len() {
            !self.alive[doc as usize]
        } else {
            true
        }
    }
}

/// A segment, as far as collecting documents goes.
pub struct SegmentReader {
    pub alive_bitset: Option<AliveBitSet>,
}

impl SegmentReader {
    /// `doc` has not been deleted. Without a bitset, no document has.
    pub open spec fn is_alive(self, doc: DocId) -> bool {
        match self.alive_bitset {
            Some(bitset) => bitset.is_alive(doc),
            None => true,
        }
    }

    pub fn alive_bitset(&self) -> (bitset: Option<&AliveBitSet>)
        ensures
            bitset is Some == self.alive_bitset is Some,
            bitset is Some ==> *bitset->0 == self.alive_bitset->0,
    {
        match &self.alive_bitset {
            Some(bitset) => Some(bitset),
            None => None,
        }
    }
}

/// A query that is ready to run on segments.
///
/// The ghost functions have bodies so that a query outside of verified code only has to provide
/// [`for_each_pruning`](Weight::for_each_pruning). Such a query is taken to have matches and an error
/// that depend on itself and the reader alone, and to keep to them: nothing checks that.
pub trait Weight {
    type Error;

    /// The query can run on `reader`.
    open spec fn ready(&self, reader: SegmentReader) -> bool {
        true
    }

    /// The documents that match, each with its score.
    open spec fn matches(&self, reader: SegmentReader) -> Map<DocId, int> {
        arbitrary()
    }

    /// The threshold that a run for the best `k` documents starts with.
    open spec fn start_threshold(
        &self,
        threshold: Score,
        reader: SegmentReader,
        k: usize,
    ) -> Score {
        threshold
    }

    /// What keeps the query from running, if something does.
    open spec fn error(&self, reader: SegmentReader) -> Option<Self::Error> {
        arbitrary()
    }

    /// What more can be said of the calls of a run.
    open spec fn hands_over(
        &self,
        threshold: Score,
        reader: SegmentReader,
        k: usize,
        calls: Seq<Call>,
    ) -> bool {
        true
    }

    /// Hands the documents that exceed the threshold to `callback`, and goes on with the threshold
    /// that it answers. Documents that cannot be among the best `k` may be left out. As long as no
    /// answer is lower than the one before, no document is handed over that is below the threshold.
    fn for_each_pruning<C: ScoreCallback>(
        &self,
        threshold: Score,
        reader: &SegmentReader,
        callback: &mut C,
        k: usize,
    ) -> (result: Result<(), Self::Error>)
        requires
            self.ready(*reader),
            old(callback).inv(),
        ensures
            final(callback).inv(),
            final(callback).setup() == old(callback).setup(),
            continues(old(callback).calls(), final(callback).calls()),
            self.start_threshold(threshold, *reader, k) >= threshold,
            match result {
                Ok(_) => {
                    let calls = new_calls(old(callback).calls(), final(callback).calls());
                    &&& self.error(*reader) is None
                    &&& self.hands_over(threshold, *reader, k, calls)
                    &&& pruned_run(
                        self.matches(*reader),
                        self.start_threshold(threshold, *reader, k),
                        calls,
                    )
                    &&& answers_rise(threshold, calls) ==> exact_calls(
                        self.matches(*reader),
                        calls,
                    ) && calls_reach(self.start_threshold(threshold, *reader, k), calls)
                },
                Err(error) => self.error(*reader) == Some(error),
            },
    ;
}

/// The union of some terms.
///
/// A document scores what its terms give it or, with `idf_only`, the weights of its terms.
pub struct UnionWeight {
    pub lists: Vec<PostingList>,
    pub idf_only: bool,
}

impl UnionWeight {
    /// Cursors on the first postings of all terms.
    pub open spec fn cursors(&self) -> Seq<TermScorer> {
        Seq::new(
            self.lists@.len(),
            |i: int| TermScorer { list: &self.lists@[i], cursor: 0, block: 0 },
        )
    }

    fn scorers(&self) -> (scorers: Vec<TermScorer>)
        requires
            forall|i: int| 0 <= i < self.lists@.len() ==> (#[trigger] self.lists@[i]).wf(),
        ensures
            scorers@ == self.cursors(),
            all_ready(scorers@),
    {
        let mut scorers: Vec<TermScorer> = Vec::new();
        let mut i: usize = 0;
        while i < self.lists.len()
            invariant
                i <= self.lists@.len(),
                forall|j: int| 0 <= j < self.lists@.len() ==> (#[trigger] self.lists@[j]).wf(),
                scorers@ =~= self.cursors().take(i as int),
                all_ready(scorers@),
            decreases self.lists@.len() - i,
        {
            scorers.push(TermScorer::new(&self.lists[i]));
            i = i + 1;
        }
        scorers
    }
}

impl Weight for UnionWeight {
    type Error = ();

    open spec fn ready(&self, reader: SegmentReader) -> bool {
        &&& forall|i: int| 0 <= i < self.lists@.len() ==> (#[trigger] self.lists@[i]).wf()
        &&& self.lists@.len() <= u32::MAX
        &&& self.idf_only ==> sum_by(self.cursors(), term_weight()) <= Score::MAX
        &&& !self.idf_only ==> sum_by(self.cursors(), term_max_score()) <= Score::MAX
    }

    open spec fn matches(&self, reader: SegmentReader) -> Map<DocId, int> {
        if self.idf_only {
            idf_scored_docs(self.cursors())
        } else {
            scored_docs(self.cursors())
        }
    }

    open spec fn start_threshold(
        &self,
        threshold: Score,
        reader: SegmentReader,
        k: usize,
    ) -> Score {
        if self.idf_only {
            starting_threshold(self.cursors(), threshold, k)
        } else {
            threshold
        }
    }

    open spec fn error(&self, reader: SegmentReader) -> Option<()> {
        None
    }

    /// The calls are those of a scan of all documents. With several terms that do not count for their
    /// weights alone, that is only said of consumers that never lower the threshold.
    open spec fn hands_over(
        &self,
        threshold: Score,
        reader: SegmentReader,
        k: usize,
        calls: Seq<Call>,
    ) -> bool {
        if self.idf_only {
            exhaustive_run_rising(
                self.matches(reader),
                self.start_threshold(threshold, reader, k),
                calls,
            )
        } else if self.lists@.len() == 1 {
            exhaustive_run_reaching(self.matches(reader), threshold, calls)
        } else {
            &&& calls_exceed(threshold, calls)
            &&& answers_rise(threshold, calls) ==> exhaustive_run(
                self.matches(reader),
                threshold,
                calls,
            )
        }
    }

    fn for_each_pruning<C: ScoreCallback>(
        &self,
        threshold: Score,
        reader: &SegmentReader,
        callback: &mut C,
        k: usize,
    ) -> (result: Result<(), ()>) {
        let ghost history = callback.calls();
        let scorers: Vec<TermScorer> = self.scorers();
        if self.idf_only {
            idf_pruning(scorers, threshold, k, callback);
            proof {
                law_rising_run_is_pruned(
                    idf_scored_docs(self.cursors()),
                    starting_threshold(self.cursors(), threshold, k),
                    new_calls(history, callback.calls()),
                );
            }
        } else if scorers.len() == 1 {
            let scorer: TermScorer = scorers[0];
            proof {
                assert(self.cursors() =~= seq![scorer]);
            }
            block_wand_single_scorer(scorer, threshold, callback);
            proof {
                law_reaching_run_is_pruned(
                    scored_docs(self.cursors()),
                    threshold,
                    new_calls(history, callback.calls()),
                );
            }
        } else {
            block_wand(scorers, threshold, callback);
            proof {
                let calls = new_calls(history, callback.calls());
                if answers_rise(threshold, calls) {
                    law_pruned_run_is_exhaustive(scored_docs(self.cursors()), threshold, calls);
                }
            }
        }
        Ok(())
    }
}

/// Scores are never negative, and never too large: without a threshold, every document that
/// matches exceeds it.
pub proof fn law_union_scores_in_range(weight: UnionWeight, reader: SegmentReader, doc: DocId)
    requires
        weight.ready(reader),
        weight.matches(reader).contains_key(doc),
    ensures
        0 <= weight.matches(reader)[doc] <= Score::MAX,
{
    let cursors = weight.cursors();
    assert forall|i: int| 0 <= i < cursors.len() implies (#[trigger] cursors[i]).wf() by {
        assert(weight.lists@[i].wf());
    }
    assert forall|i: int| 0 <= i < cursors.len() implies {
        let c = #[trigger] cursors[i];
        0 <= term_score(doc)(c) <= term_max_score()(c) && 0 <= term_idf(doc)(c) <= term_weight()(c)
    } by {
        cursors[i].lemma_matches();
        assert(0 <= cursors[i].score_at(doc) <= cursors[i].list.max_score);
    }
    if weight.idf_only {
        lemma_sum_nonneg(cursors, term_idf(doc));
        lemma_sum_le(cursors, cursors, term_idf(doc), term_weight());
    } else {
        lemma_sum_nonneg(cursors, term_score(doc));
        lemma_sum_le(cursors, cursors, term_score(doc), term_max_score());
    }
}

} // verus!
