use std::cmp::Reverse;
use std::collections::{BTreeMap, BinaryHeap};

use topk_pruning::block_wand::block_wand;
use topk_pruning::idf_lists::{
    compute_min_essential_matches, partition_absolutely_essential, prefix_sum_split,
    promote_to_absolutely_essential, rebalance,
};
use topk_pruning::idf_pruning::idf_pruning;
use topk_pruning::idf_stats::IdfPruningStats;
use topk_pruning::idf_terms::Term;
use topk_pruning::pruning::ScoreCallback;
use topk_pruning::term_scorer::{PostingList, TermScorer};
use topk_pruning::types::{DocId, Score, TERMINATED};

/// Scores are millionths.
fn units(score: f32) -> Score {
    (score as f64 * 1_000_000.0).round() as Score
}

fn nearly_equals(left: Score, right: Score) -> bool {
    if left == right {
        return true;
    }
    let denom = ((left.abs() + right.abs()) as f64).max(1.0);
    (left - right).abs() as f64 / denom < 0.001
}

/// A posting list whose documents all count for the weight of the term.
fn create_idf_list(docs: &[DocId], idf: Score) -> PostingList {
    PostingList::new(docs.to_vec(), vec![idf; docs.len()], idf, docs.len() as u64)
}

fn cursors(lists: &[PostingList]) -> Vec<TermScorer<'_>> {
    lists.iter().map(|list| TermScorer::new(list)).collect()
}

/// All documents with their scores, the best `k` of them.
fn compute_topk_brute_force(lists: &[PostingList], k: usize) -> Vec<(DocId, Score)> {
    let mut all_docs: BTreeMap<DocId, Score> = BTreeMap::new();
    for mut scorer in cursors(lists) {
        while scorer.doc() != TERMINATED {
            *all_docs.entry(scorer.doc()).or_insert(0) += scorer.idf_score();
            scorer.advance();
        }
    }
    let mut results: Vec<(DocId, Score)> = all_docs.into_iter().collect();
    results.sort_by(|a, b| b.1.cmp(&a.1).then(a.0.cmp(&b.0)));
    results.truncate(k);
    results
}

struct TopK {
    k: usize,
    heap: BinaryHeap<Reverse<Score>>,
    collected: Vec<(DocId, Score)>,
    limit: Score,
}

impl ScoreCallback for TopK {
    type Setup = ();

    fn call(&mut self, doc: DocId, score: Score) -> Score {
        self.collected.push((doc, score));
        self.heap.push(Reverse(score));
        if self.heap.len() > self.k {
            self.heap.pop();
        }
        if self.heap.len() == self.k {
            self.limit = self.heap.peek().unwrap().0;
        }
        self.limit
    }
}

fn compute_topk_idf_pruning(lists: &[PostingList], k: usize) -> Vec<(DocId, Score)> {
    let mut callback =
        TopK { k, heap: BinaryHeap::new(), collected: Vec::new(), limit: Score::MIN };
    let stats = idf_pruning(cursors(lists), Score::MIN, k, &mut callback);
    assert_eq!(stats.candidates_emitted as usize, callback.collected.len());
    assert_eq!(stats.candidates_evaluated, stats.phase1_candidates + stats.phase2_candidates);
    let final_limit =
        if callback.heap.len() == k { callback.heap.peek().unwrap().0 } else { Score::MIN };
    let mut results: Vec<(DocId, Score)> =
        callback.collected.into_iter().filter(|&(_, score)| score >= final_limit).collect();
    results.sort_by(|a, b| b.1.cmp(&a.1).then(a.0.cmp(&b.0)));
    results.truncate(k);
    results
}

#[test]
fn test_idf_pruning_basic() {
    let lists = [
        create_idf_list(&[0, 1, 2, 3, 4], units(1.0)),
        create_idf_list(&[2, 3, 4, 5, 6], units(1.5)),
    ];

    let pruning = compute_topk_idf_pruning(&lists, 2);
    let brute = compute_topk_brute_force(&lists, 2);

    assert_eq!(pruning.len(), brute.len());
    for (p, b) in pruning.iter().zip(brute.iter()) {
        assert_eq!(p.0, b.0);
        assert!(nearly_equals(p.1, b.1), "{} != {}", p.1, b.1);
    }
}

#[test]
fn test_idf_pruning_single_term() {
    let lists = [create_idf_list(&[0, 1, 2], units(2.0))];
    let results = compute_topk_idf_pruning(&lists, 2);
    assert!(!results.is_empty());
}

#[test]
fn test_idf_pruning_no_overlap() {
    let lists =
        [create_idf_list(&[0, 1], units(1.0)), create_idf_list(&[2, 3], units(1.5))];

    let pruning = compute_topk_idf_pruning(&lists, 3);
    let brute = compute_topk_brute_force(&lists, 3);

    assert_eq!(pruning.len(), brute.len());
    for (p, b) in pruning.iter().zip(brute.iter()) {
        assert_eq!(p.0, b.0);
        assert!(nearly_equals(p.1, b.1));
    }
}

/// Records all calls, and answers from a list; the last answer stays.
struct Script {
    calls: Vec<(DocId, Score)>,
    answers: Vec<Score>,
}

impl ScoreCallback for Script {
    type Setup = ();

    fn call(&mut self, doc: DocId, score: Score) -> Score {
        let answer = self.answers[self.calls.len().min(self.answers.len() - 1)];
        self.calls.push((doc, score));
        answer
    }
}

fn run(
    lists: &[PostingList],
    threshold: Score,
    top_k: usize,
    answers: Vec<Score>,
) -> (Vec<(DocId, Score)>, IdfPruningStats) {
    let mut callback = Script { calls: Vec::new(), answers };
    let stats = idf_pruning(cursors(lists), threshold, top_k, &mut callback);
    (callback.calls, stats)
}

#[test]
fn test_idf_pruning_high_threshold() {
    let lists =
        [create_idf_list(&[0, 1, 2], units(0.5)), create_idf_list(&[0, 1, 2], units(0.5))];
    let (results, _stats) = run(&lists, units(100.0), 0, vec![units(100.0)]);
    assert!(results.is_empty());
}

#[test]
fn test_idf_pruning_empty() {
    let (_, stats) = run(&[], 0, 0, vec![0]);
    assert_eq!(stats.candidates_evaluated, 0);
}

/// A small deterministic source of numbers.
struct Numbers {
    state: u64,
}

impl Numbers {
    fn below(&mut self, bound: u64) -> u64 {
        self.state = self.state.wrapping_mul(6364136223846793005).wrapping_add(1442695040888963407);
        (self.state >> 33) % bound
    }
}

fn random_docs(numbers: &mut Numbers, max_doc: u32) -> Vec<DocId> {
    let wanted = 1 + numbers.below(max_doc as u64 - 1);
    let mut docs: Vec<DocId> = Vec::new();
    for doc in 0..max_doc {
        let left = (max_doc - doc) as u64;
        let missing = wanted - docs.len() as u64;
        if numbers.below(left) < missing {
            docs.push(doc);
        }
    }
    docs
}

fn test_idf_pruning_correctness(num_scorers: usize, cases: usize) {
    let mut numbers = Numbers { state: 99 + num_scorers as u64 };
    for _ in 0..cases {
        let max_doc = 10 + numbers.below(70) as u32;
        let lists: Vec<PostingList> = (0..num_scorers)
            .map(|_| {
                let docs = random_docs(&mut numbers, max_doc);
                create_idf_list(&docs, 100_000 + numbers.below(4_900_000) as Score)
            })
            .collect();
        for top_k in [1, 2, 3, 5] {
            let pruning_results = compute_topk_idf_pruning(&lists, top_k);
            let brute_results = compute_topk_brute_force(&lists, top_k);
            assert_eq!(pruning_results, brute_results);
        }
    }
}

#[test]
fn test_idf_pruning_two_scorers() {
    test_idf_pruning_correctness(2, 300);
}

#[test]
fn test_idf_pruning_three_scorers() {
    test_idf_pruning_correctness(3, 300);
}

#[test]
fn test_idf_pruning_five_scorers() {
    test_idf_pruning_correctness(5, 200);
}

#[test]
fn test_idf_pruning_ten_scorers() {
    test_idf_pruning_correctness(10, 100);
}

#[test]
fn every_document_scores_the_weights_of_its_terms() {
    let lists = [create_idf_list(&[1, 4], 10), create_idf_list(&[2, 4], 3)];
    let (calls, stats) = run(&lists, -1, 0, vec![-1]);
    assert_eq!(calls, vec![(1, 10), (2, 3), (4, 13)]);
    assert_eq!(stats.num_terms, 2);
    assert_eq!(stats.initial_threshold, -1);
    assert_eq!(stats.final_threshold, -1);
    assert_eq!(stats.initial_num_essential, 2);
    assert_eq!(stats.initial_min_essential_matches, 0);
    assert_eq!(stats.candidates_emitted, 3);
    assert_eq!(stats.phase1_candidates, 3);
    assert_eq!(stats.phase2_candidates, 0);
}

#[test]
fn a_heavy_term_is_absolutely_essential() {
    // The total weight is 13: above a threshold of 9 every document contains the first term.
    let lists = [create_idf_list(&[1, 4, 8], 10), create_idf_list(&[2, 4, 7], 3)];
    let (calls, stats) = run(&lists, 9, 0, vec![9]);
    assert_eq!(calls, vec![(1, 10), (4, 13), (8, 10)]);
    assert_eq!(stats.phase1_candidates, 0);
    assert_eq!(stats.phase2_candidates, 3);
    assert_eq!(stats.num_absolutely_essential_at_end, 1);
    assert_eq!(stats.initial_num_essential, 0);
    assert_eq!(stats.initial_min_essential_matches, 0);
}

#[test]
fn a_rising_threshold_makes_terms_absolutely_essential() {
    let lists = [
        create_idf_list(&[1, 5, 9], 4),
        create_idf_list(&[2, 5, 8], 4),
        create_idf_list(&[3, 5, 8], 4),
    ];
    let (calls, stats) = run(&lists, 0, 0, vec![3, 3, 3, 9]);
    assert_eq!(calls, vec![(1, 4), (2, 4), (3, 4), (5, 12)]);
    assert_eq!(stats.initial_num_essential, 3);
    assert_eq!(stats.initial_min_essential_matches, 1);
    // Two of the terms are demoted, and the third one drives the intersection.
    assert_eq!(stats.phase1_candidates, 4);
    assert_eq!(stats.phase2_candidates, 1);
    assert_eq!(stats.num_absolutely_essential_at_end, 1);
    assert_eq!(stats.final_threshold, 9);
}

#[test]
fn lower_answers_are_ignored() {
    let lists = [create_idf_list(&[1, 2, 3], 5), create_idf_list(&[2], 4)];
    let (calls, stats) = run(&lists, 4, 0, vec![0]);
    assert_eq!(calls, vec![(1, 5), (2, 9), (3, 5)]);
    assert_eq!(stats.final_threshold, 4);
}

#[test]
fn the_total_weight_is_not_exceeded() {
    let lists = [create_idf_list(&[1], 5), create_idf_list(&[1], 4)];
    let (calls, stats) = run(&lists, 9, 3, vec![9]);
    assert!(calls.is_empty());
    assert_eq!(stats.initial_threshold, 9);
    assert_eq!(stats.final_threshold, 9);
    assert_eq!(stats.num_terms, 2);
    assert_eq!(stats.candidates_evaluated, 0);
    assert_eq!(stats.num_advances, 0);
    assert_eq!(stats.num_seeks, 0);
    assert_eq!(stats.num_absolutely_essential_at_end, 0);
}

#[test]
fn the_union_visits_each_document_of_an_essential_term() {
    // One of the two heavier terms is needed to exceed the threshold.
    let lists = [
        create_idf_list(&[1, 3], 50),
        create_idf_list(&[1, 2], 100),
        create_idf_list(&[1, 3, 4], 125),
    ];
    let (calls, stats) = run(&lists, 125, 0, vec![0]);
    assert_eq!(calls, vec![(1, 275), (3, 175)]);
    assert_eq!(stats.initial_num_essential, 2);
    assert_eq!(stats.initial_min_essential_matches, 1);
    assert_eq!(stats.phase1_candidates, 4);
    assert_eq!(stats.candidates_evaluated, 4);
    assert_eq!(stats.phase2_candidates, 0);
    assert_eq!(stats.num_advances, 5);
    // The lightest term is sought once for each document.
    assert_eq!(stats.num_seeks, 4);
    assert_eq!(stats.num_absolutely_essential_at_end, 0);
}

#[test]
fn the_intersection_shrinks_as_the_threshold_rises() {
    let lists =
        [create_idf_list(&[0, 1, 2, 3, 4], 100), create_idf_list(&[2, 3, 4, 5, 6], 150)];
    let (calls, stats) = run(&lists, 150, 0, vec![0, 250]);
    assert_eq!(calls, vec![(2, 250), (3, 250)]);
    assert_eq!(stats.final_threshold, 250);
    assert_eq!(stats.phase1_candidates, 0);
    assert_eq!(stats.phase2_candidates, 3);
    assert_eq!(stats.candidates_evaluated, 3);
    assert_eq!(stats.num_absolutely_essential_at_end, 2);
    assert_eq!(stats.num_advances, 3);
    // Two seeks score the lighter term, and two more align it with the heavier one.
    assert_eq!(stats.num_seeks, 4);
}

#[test]
fn the_remaining_terms_are_sought() {
    let lists = [create_idf_list(&[1, 5, 9], 5), create_idf_list(&[2, 5, 9], 5)];
    let (calls, stats) = run(&lists, 9, 0, vec![9]);
    assert_eq!(calls, vec![(5, 10), (9, 10)]);
    assert_eq!(stats.phase2_candidates, 3);
    assert_eq!(stats.num_absolutely_essential_at_end, 1);
    assert_eq!(stats.num_advances, 3);
    assert_eq!(stats.num_seeks, 3);
}

#[test]
fn frequent_terms_give_a_first_threshold() {
    // Three documents contain the second term: with a margin of one its weight is the threshold.
    let lists = [
        create_idf_list(&[1], 900),
        create_idf_list(&[1, 2, 5], 300),
        create_idf_list(&[3, 4, 6, 7], 100),
    ];
    let (calls, stats) = run(&lists, Score::MIN, 3, vec![Score::MIN]);
    assert_eq!(stats.initial_threshold, 299);
    assert_eq!(calls, vec![(1, 1200), (2, 300), (5, 300)]);

    let (_, stats) = run(&lists, Score::MIN, 2_000, vec![Score::MIN]);
    assert_eq!(stats.initial_threshold, Score::MIN);

    let (_, stats) = run(&lists, 150, 3, vec![0]);
    assert_eq!(stats.initial_threshold, 150);
}

#[test]
fn the_margin_is_a_millionth_of_the_total_weight() {
    let lists = [create_idf_list(&[1], 9_000_000), create_idf_list(&[1, 2], 3_000_001)];
    let (_, stats) = run(&lists, Score::MIN, 2, vec![Score::MIN]);
    assert_eq!(stats.initial_threshold, 3_000_001 - 13);
}

#[test]
fn a_term_without_postings_is_harmless() {
    let lists = [create_idf_list(&[], 7), create_idf_list(&[3], 2)];
    let (calls, _) = run(&lists, 0, 0, vec![0]);
    assert_eq!(calls, vec![(3, 2)]);
}

#[test]
fn constant_scores_are_weights() {
    let mut numbers = Numbers { state: 5 };
    for _ in 0..50 {
        let lists: Vec<PostingList> = (0..4)
            .map(|_| {
                let docs = random_docs(&mut numbers, 60);
                create_idf_list(&docs, 1 + numbers.below(50) as Score)
            })
            .collect();
        let (by_weight, stats) = run(&lists, 5, 0, vec![5, 10, 20, 30]);
        let mut by_score = Script { calls: Vec::new(), answers: vec![5, 10, 20, 30] };
        block_wand(cursors(&lists), 5, &mut by_score);
        assert_eq!(by_weight, by_score.calls);
        assert!(stats.final_threshold >= stats.initial_threshold);
    }
}

#[test]
fn documents_above_the_threshold_contain_the_essential_terms() {
    // Above 8, two of the three terms are needed.
    let lists = [
        create_idf_list(&[1, 2, 6], 5),
        create_idf_list(&[2, 3], 4),
        create_idf_list(&[3, 4, 6], 4),
    ];
    let (calls, stats) = run(&lists, 8, 0, vec![8]);
    assert_eq!(calls, vec![(2, 9), (6, 9)]);
    assert_eq!(stats.initial_threshold, 8);
}

fn terms(idfs: &[Score]) -> Vec<Term> {
    idfs.iter().enumerate().map(|(index, &idf)| Term { index, idf }).collect()
}

fn idfs_of(terms: &[Term]) -> Vec<Score> {
    terms.iter().map(|term| term.idf).collect()
}

#[test]
fn split_where_the_prefix_sum_exceeds_the_threshold() {
    let sorted = terms(&[1, 2, 3, 4]);
    assert_eq!(prefix_sum_split(&sorted, 0), 0);
    assert_eq!(prefix_sum_split(&sorted, 1), 1);
    assert_eq!(prefix_sum_split(&sorted, 5), 2);
    assert_eq!(prefix_sum_split(&sorted, 6), 3);
    assert_eq!(prefix_sum_split(&sorted, 10), 4);
}

#[test]
fn partition_by_the_cutoff() {
    let (abs, rest) = partition_absolutely_essential(&terms(&[5, 1, 4, 3]), 13, 9);
    assert_eq!(idfs_of(&abs), vec![5]);
    assert_eq!(idfs_of(&rest), vec![1, 4, 3]);
    let (abs, rest) = partition_absolutely_essential(&terms(&[5, 1]), 6, Score::MIN);
    assert!(abs.is_empty());
    assert_eq!(idfs_of(&rest), vec![5, 1]);
}

#[test]
fn fewest_matches_that_exceed_the_threshold() {
    let essential = terms(&[2, 5, 3]);
    assert_eq!(compute_min_essential_matches(&essential, 0, 4), 1);
    assert_eq!(compute_min_essential_matches(&essential, 0, 5), 2);
    assert_eq!(compute_min_essential_matches(&essential, 0, 8), 3);
    assert_eq!(compute_min_essential_matches(&essential, 1, 8), 2);
    assert_eq!(compute_min_essential_matches(&essential, 0, 100), 3);
    assert_eq!(compute_min_essential_matches(&Vec::new(), 0, 100), 0);
    assert_eq!(compute_min_essential_matches(&terms(&[10]), 20, 15), 0);
    assert_eq!(compute_min_essential_matches(&essential, -3, 0), 1);
}

fn indices_of(terms: &[Term]) -> Vec<usize> {
    terms.iter().map(|term| term.index).collect()
}

#[test]
fn light_terms_are_demoted_together() {
    let mut essential = terms(&[6, 2, 3]);
    let mut non_essential = terms(&[1]);
    let mut sum = 1;
    rebalance(&mut essential, &mut non_essential, &mut sum, 6);
    assert_eq!(idfs_of(&essential), vec![6]);
    assert_eq!(idfs_of(&non_essential), vec![1, 2, 3]);
    assert_eq!(sum, 6);
    rebalance(&mut essential, &mut non_essential, &mut sum, 11);
    assert_eq!(idfs_of(&essential), vec![6]);
    assert_eq!(sum, 6);
}

#[test]
fn a_second_rebalancing_changes_nothing() {
    let mut essential = terms(&[4, 7, 2, 9, 5]);
    let mut non_essential = Vec::new();
    let mut sum = 3;
    rebalance(&mut essential, &mut non_essential, &mut sum, 10);
    // Each removed term was replaced by the last one.
    assert_eq!(indices_of(&essential), vec![3, 1, 4]);
    assert_eq!(indices_of(&non_essential), vec![2, 0]);
    assert_eq!(sum, 9);
    let listed = indices_of(&essential);
    rebalance(&mut essential, &mut non_essential, &mut sum, 10);
    assert_eq!(indices_of(&essential), listed);
    assert_eq!(indices_of(&non_essential), vec![2, 0]);
    assert_eq!(sum, 9);
}

#[test]
fn heavy_terms_are_promoted() {
    let mut abs = terms(&[9]);
    let mut remaining = terms(&[5, 2, 4]);
    promote_to_absolutely_essential(&mut abs, &mut remaining, 20, 17);
    assert_eq!(idfs_of(&abs), vec![9, 5, 4]);
    assert_eq!(idfs_of(&remaining), vec![2]);
}

#[test]
fn a_promoted_term_is_replaced_by_the_last_one() {
    let mut abs = Vec::new();
    let mut remaining = terms(&[5, 4, 6]);
    promote_to_absolutely_essential(&mut abs, &mut remaining, 15, 15);
    assert_eq!(indices_of(&abs), vec![0, 2, 1]);
    assert!(remaining.is_empty());
}

#[test]
fn remaining_terms_go_by_falling_weight() {
    let all = terms(&[50, 100, 200, 400]);
    let mut abs = vec![all[3]];
    let mut remaining = vec![all[2], all[1], all[0]];
    promote_to_absolutely_essential(&mut abs, &mut remaining, 750, 600);
    assert_eq!(indices_of(&abs), vec![3, 2]);
    assert_eq!(indices_of(&remaining), vec![1, 0]);
}

#[test]
fn the_order_of_the_terms_does_not_matter() {
    let mut numbers = Numbers { state: 11 };
    for _ in 0..30 {
        let mut lists: Vec<PostingList> = (0..5)
            .map(|_| {
                let docs = random_docs(&mut numbers, 80);
                create_idf_list(&docs, 1 + numbers.below(9) as Score)
            })
            .collect();
        let answers = vec![3, 6, 9, 12, 12, 15];
        let (calls, _) = run(&lists, 2, 0, answers.clone());
        let (calls_of_best, stats_of_best) = run(&lists, 2, 3, answers.clone());

        lists.reverse();
        assert_eq!(run(&lists, 2, 0, answers.clone()).0, calls);
        let mut by_score = Script { calls: Vec::new(), answers: answers.clone() };
        block_wand(cursors(&lists), 2, &mut by_score);
        assert_eq!(by_score.calls, calls);

        let (reversed, stats) = run(&lists, 2, 3, answers);
        assert_eq!(reversed, calls_of_best);
        assert_eq!(stats.initial_threshold, stats_of_best.initial_threshold);
        assert_eq!(stats.final_threshold, stats_of_best.final_threshold);
    }
}

#[test]
fn sums_of_weights_beyond_a_score() {
    let heavy = terms(&[Score::MAX, Score::MAX, Score::MAX]);
    assert_eq!(prefix_sum_split(&heavy, Score::MAX), 1);
    assert_eq!(compute_min_essential_matches(&heavy, Score::MAX, Score::MAX), 1);
    assert_eq!(compute_min_essential_matches(&heavy, 0, Score::MAX), 2);
    assert_eq!(compute_min_essential_matches(&heavy, Score::MIN, Score::MAX), 3);

    let mut essential = heavy;
    let mut non_essential = Vec::new();
    let mut sum: Score = Score::MAX;
    rebalance(&mut essential, &mut non_essential, &mut sum, Score::MAX);
    assert_eq!(essential.len(), 3);
    assert_eq!(sum, Score::MAX);

    let mut sum: Score = Score::MIN;
    rebalance(&mut essential, &mut non_essential, &mut sum, Score::MAX);
    assert_eq!(essential.len(), 1);
    assert_eq!(non_essential.len(), 2);
    assert_eq!(sum, Score::MAX - 1);
    rebalance(&mut essential, &mut non_essential, &mut sum, Score::MAX);
    assert_eq!(essential.len(), 1);
    assert_eq!(sum, Score::MAX - 1);
}
