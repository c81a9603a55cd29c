//! A threshold to start with, from how many documents contain a term.
use vstd::prelude::*;

use crate::idf_terms::{
    all_terms, idf_fn, lemma_all_terms, lemma_same_terms, term_weight, valid_terms, Term,
};
use crate::pruning::all_ready;
use crate::scorer_set::lemma_permutation_member;
use crate::sorting::sorted_by_key;
use crate::sums::sum_by;
use crate::term_scorer::TermScorer;
use crate::types::Score;

verus! {

/// The largest weight among the terms that at least `top_k` documents contain; -1 if there is no
/// such term.
pub open spec fn best_frequent_idf(scorers: Seq<TermScorer>, top_k: int) -> int
    decreases scorers.len(),
{
    if scorers.len() == 0 {
        -1
    } else {
        let best = best_frequent_idf(scorers.drop_last(), top_k);
        let list = scorers.last().list;
        if list.global_doc_freq >= top_k && list.idf_score > best {
            list.idf_score as int
        } else {
            best
        }
    }
}

/// A millionth of the total weight, rounded up.
pub open spec fn bootstrap_margin(total_idf: int) -> int {
    (total_idf + 999_999) / 1_000_000
}

/// The threshold that the scan starts with.
///
/// Without a threshold, a term that at least `top_k` documents contain gives one: that many
/// documents score at least its weight. Only single terms count, since a document can contain
/// several.
pub open spec fn starting_threshold(
    scorers: Seq<TermScorer>,
    threshold: Score,
    top_k: usize,
) -> Score {
    let total_idf = sum_by(scorers, term_weight());
    let best = best_frequent_idf(scorers, top_k as int);
    if scorers.len() > 0 && total_idf > threshold && top_k > 0 && threshold == Score::MIN && best
        >= 0 {
        (best - bootstrap_margin(total_idf)) as Score
    } else {
        threshold
    }
}

pub proof fn lemma_best_frequent(scorers: Seq<TermScorer>, top_k: int)
    requires
        all_ready(scorers),
    ensures
        -1 <= best_frequent_idf(scorers, top_k) <= Score::MAX,
        forall|j: int|
            0 <= j < scorers.len() && (#[trigger] scorers[j]).list.global_doc_freq >= top_k
                ==> scorers[j].list.idf_score <= best_frequent_idf(scorers, top_k),
        best_frequent_idf(scorers, top_k) >= 0 ==> exists|j: int|
            0 <= j < scorers.len() && (#[trigger] scorers[j]).list.global_doc_freq >= top_k
                && scorers[j].list.idf_score == best_frequent_idf(scorers, top_k),
    decreases scorers.len(),
{
    if scorers.len() > 0 {
        let shorter = scorers.drop_last();
        assert forall|i: int| 0 <= i < shorter.len() implies (#[trigger] shorter[i]).wf()
            && shorter[i].is_loaded() by {
            assert(shorter[i] == scorers[i]);
        }
        lemma_best_frequent(shorter, top_k);
        let last = scorers.len() - 1;
        assert(scorers[last].wf());
        assert forall|j: int|
            0 <= j < scorers.len() && (#[trigger] scorers[j]).list.global_doc_freq
                >= top_k implies scorers[j].list.idf_score <= best_frequent_idf(
            scorers,
            top_k,
        ) by {
            if j < last {
                assert(shorter[j] == scorers[j]);
            }
        }
        if best_frequent_idf(scorers, top_k) >= 0 {
            if best_frequent_idf(scorers, top_k) == best_frequent_idf(shorter, top_k) {
                let j = choose|j: int|
                    0 <= j < shorter.len() && (#[trigger] shorter[j]).list.global_doc_freq >= top_k
                        && shorter[j].list.idf_score == best_frequent_idf(shorter, top_k);
                assert(scorers[j] == shorter[j]);
            } else {
                assert(scorers[last].list.global_doc_freq >= top_k);
            }
        }
    }
}

/// Raises a missing threshold to what the document frequencies promise.
pub(crate) fn bootstrap_threshold(
    sorted: &Vec<Term>,
    scorers: &Vec<TermScorer>,
    total_idf: Score,
    threshold: Score,
    top_k: usize,
) -> (start: Score)
    requires
        all_ready(scorers@),
        scorers@.len() > 0,
        scorers@.len() <= usize::MAX,
        sorted@.to_multiset() == all_terms(scorers@).to_multiset(),
        sorted_by_key(sorted@, idf_fn()),
        total_idf == sum_by(scorers@, term_weight()),
        total_idf >= 0,
        total_idf > threshold,
    ensures
        start == starting_threshold(scorers@, threshold, top_k),
{
    let ghost best = best_frequent_idf(scorers@, top_k as int);
    proof {
        lemma_best_frequent(scorers@, top_k as int);
        lemma_all_terms(scorers@);
        lemma_same_terms(scorers@, sorted@, all_terms(scorers@));
    }
    if top_k > 0 && threshold == Score::MIN {
        let mut i: usize = sorted.len();
        while i > 0
            invariant
                i <= sorted@.len(),
                valid_terms(scorers@, sorted@),
                forall|j: int|
                    i <= j < sorted@.len() ==> scorers@[(
                    #[trigger] sorted@[j]).index as int].list.global_doc_freq < top_k,
                sorted@.to_multiset() == all_terms(scorers@).to_multiset(),
                sorted_by_key(sorted@, idf_fn()),
                all_ready(scorers@),
                scorers@.len() > 0,
                scorers@.len() <= usize::MAX,
                best == best_frequent_idf(scorers@, top_k as int),
                total_idf == sum_by(scorers@, term_weight()),
                total_idf >= 0,
                total_idf > threshold,
                top_k > 0,
                threshold == Score::MIN,
            decreases i,
        {
            i = i - 1;
            let term: Term = sorted[i];
            if scorers[term.index].global_doc_freq() >= top_k as u64 {
                let rounding: Score = if total_idf % 1_000_000 == 0 {
                    0
                } else {
                    1
                };
                let margin: Score = total_idf / 1_000_000 + rounding;
                let bootstrap: Score = term.idf - margin;
                proof {
                    lemma_best_frequent(scorers@, top_k as int);
                    assert(term.idf <= best);
                    let j = choose|j: int|
                        0 <= j < scorers@.len() && (#[trigger] scorers@[j]).list.global_doc_freq
                            >= top_k && scorers@[j].list.idf_score == best;
                    assert(all_terms(scorers@)[j].index == j);
                    let p = lemma_permutation_member(
                        sorted@,
                        all_terms(scorers@),
                        j,
                    );
                    assert(scorers@[sorted@[p].index as int].list.global_doc_freq >= top_k);
                    assert(p <= i);
                    assert(idf_fn()(sorted@[p]) <= idf_fn()(sorted@[i as int]));
                    assert(term.idf == best);
                    assert(margin == bootstrap_margin(total_idf as int));
                }
                if bootstrap > threshold {
                    return bootstrap;
                }
                return threshold;
            }
        }
        proof {
            lemma_best_frequent(scorers@, top_k as int);
            if best >= 0 {
                let j = choose|j: int|
                    0 <= j < scorers@.len() && (#[trigger] scorers@[j]).list.global_doc_freq
                        >= top_k && scorers@[j].list.idf_score == best;
                assert(all_terms(scorers@)[j].index == j);
                let p = lemma_permutation_member(
                    sorted@,
                    all_terms(scorers@),
                    j,
                );
                assert(scorers@[sorted@[p].index as int].list.global_doc_freq >= top_k);
            }
        }
    }
    threshold
}

} // verus!
