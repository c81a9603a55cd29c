use std::cmp::Reverse;
use std::collections::{BTreeMap, BinaryHeap};

use topk_pruning::block_wand::{block_wand, compute_non_essential_count, find_pivot_doc};
use topk_pruning::pruning::ScoreCallback;
use topk_pruning::scorer_set::TermScorerWithMaxScore;
use topk_pruning::single_scorer::block_wand_single_scorer;
use topk_pruning::term_scorer::{PostingList, TermScorer};
use topk_pruning::types::{DocId, Score, TERMINATED};

/// Scores are millionths.
const UNIT: f64 = 1_000_000.0;

fn nearly_equals(left: Score, right: Score) -> bool {
    ((left - right).abs() as f64) < 0.0001 * ((left + right).abs() as f64)
}

struct Checkpoints {
    n: usize,
    heap: BinaryHeap<Reverse<Score>>,
    checkpoints: Vec<(DocId, Score)>,
    limit: Score,
}

impl Checkpoints {
    fn new(n: usize, limit: Score) -> Checkpoints {
        Checkpoints { n, heap: BinaryHeap::new(), checkpoints: Vec::new(), limit }
    }

    fn take(&mut self, doc: DocId, score: Score) -> Score {
        self.heap.push(Reverse(score));
        if self.heap.len() > self.n {
            self.heap.pop().unwrap();
        }
        if self.heap.len() == self.n {
            self.limit = self.heap.peek().unwrap().0;
        }
        if !nearly_equals(score, self.limit) {
            self.checkpoints.push((doc, score));
        }
        self.limit
    }
}

impl ScoreCallback for Checkpoints {
    type Setup = ();

    fn call(&mut self, doc: DocId, score: Score) -> Score {
        self.take(doc, score)
    }
}

fn compute_checkpoints_for_each_pruning(
    mut term_scorers: Vec<TermScorer>,
    n: usize,
) -> Vec<(DocId, Score)> {
    let mut callback = Checkpoints::new(n, 0);
    if term_scorers.len() == 1 {
        let scorer = term_scorers.pop().unwrap();
        block_wand_single_scorer(scorer, Score::MIN, &mut callback);
    } else {
        block_wand(term_scorers, Score::MIN, &mut callback);
    }
    callback.checkpoints
}

fn union_scores(term_scorers: &[TermScorer]) -> BTreeMap<DocId, Score> {
    let mut docs: BTreeMap<DocId, Score> = BTreeMap::new();
    for scorer in term_scorers {
        let mut scorer = *scorer;
        while scorer.doc() != TERMINATED {
            *docs.entry(scorer.doc()).or_insert(0) += scorer.score();
            scorer.advance();
        }
    }
    docs
}

fn compute_checkpoints_manual(term_scorers: &[TermScorer], n: usize) -> Vec<(DocId, Score)> {
    let mut manual = Checkpoints::new(n, Score::MIN);
    for (doc, score) in union_scores(term_scorers) {
        if score > manual.limit {
            manual.take(doc, score);
        }
    }
    manual.checkpoints
}

/// A posting list with BM25 scores.
fn bm25_list(postings: &[(DocId, u32)], fieldnorms: &[u32], average_fieldnorm: f32) -> PostingList {
    let doc_freq = postings.len() as f32;
    let total = fieldnorms.len() as f32;
    let idf = (1.0 + (total - doc_freq + 0.5) / (doc_freq + 0.5)).ln();
    let weight = idf * 2.2;
    let docs: Vec<DocId> = postings.iter().map(|&(doc, _)| doc).collect();
    let scores: Vec<Score> = postings
        .iter()
        .map(|&(doc, term_freq)| {
            let norm = 1.2 * (0.25 + 0.75 * fieldnorms[doc as usize] as f32 / average_fieldnorm);
            let score = weight * (term_freq as f32 / (term_freq as f32 + norm));
            (score as f64 * UNIT).round() as Score
        })
        .collect();
    PostingList::new(docs, scores, (idf as f64 * UNIT).round() as Score, postings.len() as u64)
}

fn test_block_wand_aux(posting_lists: &[Vec<(DocId, u32)>], fieldnorms: &[u32]) {
    // We virtually repeat all docs 64 times in order to emulate blocks of 2 documents.
    const REPEAT: u32 = 64;
    let fieldnorms_expanded: Vec<u32> = fieldnorms
        .iter()
        .cloned()
        .flat_map(|fieldnorm| (0..REPEAT).map(move |_| fieldnorm))
        .collect();
    let postings_lists_expanded: Vec<Vec<(DocId, u32)>> = posting_lists
        .iter()
        .map(|posting_list| {
            posting_list
                .iter()
                .cloned()
                .flat_map(|(doc, term_freq)| {
                    (0..REPEAT).map(move |offset| {
                        (doc * REPEAT + offset, if offset == 0 { term_freq } else { 1 })
                    })
                })
                .collect()
        })
        .collect();
    let total_fieldnorms: u64 = fieldnorms_expanded.iter().map(|&norm| norm as u64).sum();
    let average_fieldnorm = total_fieldnorms as f32 / fieldnorms_expanded.len() as f32;
    let lists: Vec<PostingList> = postings_lists_expanded
        .iter()
        .map(|postings| bm25_list(postings, &fieldnorms_expanded, average_fieldnorm))
        .collect();
    let term_scorers: Vec<TermScorer> = lists.iter().map(|list| TermScorer::new(list)).collect();
    for top_k in 1..4 {
        let checkpoints_for_each_pruning =
            compute_checkpoints_for_each_pruning(term_scorers.clone(), top_k);
        let checkpoints_manual = compute_checkpoints_manual(&term_scorers, top_k);
        assert_eq!(checkpoints_for_each_pruning.len(), checkpoints_manual.len());
        for (&(left_doc, left_score), &(right_doc, right_score)) in
            checkpoints_for_each_pruning.iter().zip(checkpoints_manual.iter())
        {
            assert_eq!(left_doc, right_doc);
            assert!(nearly_equals(left_score, right_score));
        }
    }
}

/// A small deterministic source of numbers.
struct Numbers {
    state: u64,
}

impl Numbers {
    fn below(&mut self, bound: u64) -> u64 {
        self.state = self.state.wrapping_mul(6364136223846793005).wrapping_add(1442695040888963407);
        (self.state >> 33) % bound
    }
}

fn posting_list(numbers: &mut Numbers, max_doc: u32) -> Vec<(DocId, u32)> {
    let wanted = 1 + numbers.below(max_doc as u64);
    let mut postings: Vec<(DocId, u32)> = Vec::new();
    for doc in 0..max_doc {
        let left = (max_doc - doc) as u64;
        let missing = wanted - postings.len() as u64;
        if numbers.below(left) < missing {
            postings.push((doc, 1 + numbers.below(99) as u32));
        }
    }
    postings
}

fn test_random_scorers(num_scorers: usize, cases: usize) {
    let mut numbers = Numbers { state: 17 + num_scorers as u64 };
    for _ in 0..cases {
        let max_doc = 1 + numbers.below(99) as u32;
        let lists: Vec<Vec<(DocId, u32)>> =
            (0..num_scorers).map(|_| posting_list(&mut numbers, max_doc)).collect();
        let fieldnorms: Vec<u32> =
            (0..max_doc).map(|_| 2 + numbers.below(998) as u32).collect();
        test_block_wand_aux(&lists, &fieldnorms);
    }
}

#[test]
fn test_block_wand_single_term_scorer() {
    test_random_scorers(1, 40);
}

#[test]
fn test_block_wand_two_term_scorers() {
    test_random_scorers(2, 40);
}

#[test]
fn test_block_wand_three_term_scorers() {
    test_random_scorers(3, 40);
}

#[test]
fn test_block_wand_five_term_scorers() {
    test_random_scorers(5, 20);
}

#[test]
fn test_block_wand_ten_term_scorers() {
    test_random_scorers(10, 10);
}

#[test]
fn test_fn_reproduce_proptest() {
    let postings_lists = &[
        vec![
            (0, 1),
            (1, 1),
            (2, 1),
            (3, 1),
            (4, 1),
            (6, 1),
            (7, 7),
            (8, 1),
            (10, 1),
            (12, 1),
            (13, 1),
            (14, 1),
            (15, 1),
            (16, 1),
            (19, 1),
            (20, 1),
            (21, 1),
            (22, 1),
            (24, 1),
            (25, 1),
            (26, 1),
            (28, 1),
            (30, 1),
            (31, 1),
            (33, 1),
            (34, 1),
            (35, 1),
            (36, 95),
            (37, 1),
            (39, 1),
            (41, 1),
            (44, 1),
            (46, 1),
        ],
        vec![
            (0, 5),
            (2, 1),
            (4, 1),
            (5, 84),
            (6, 47),
            (7, 26),
            (8, 50),
            (9, 34),
            (11, 73),
            (12, 11),
            (13, 51),
            (14, 45),
            (15, 18),
            (18, 60),
            (19, 80),
            (20, 63),
            (23, 79),
            (24, 69),
            (26, 35),
            (28, 82),
            (29, 19),
            (30, 2),
            (31, 7),
            (33, 40),
            (34, 1),
            (35, 33),
            (36, 27),
            (37, 24),
            (38, 65),
            (39, 32),
            (40, 85),
            (41, 1),
            (42, 69),
            (43, 11),
            (45, 45),
            (47, 97),
        ],
        vec![
            (2, 1),
            (4, 1),
            (7, 94),
            (8, 1),
            (9, 1),
            (10, 1),
            (12, 1),
            (15, 1),
            (22, 1),
            (23, 1),
            (26, 1),
            (27, 1),
            (32, 1),
            (33, 1),
            (34, 1),
            (36, 96),
            (39, 1),
            (41, 1),
        ],
    ];
    let fieldnorms = &[
        685, 239, 780, 564, 664, 827, 5, 56, 930, 887, 263, 665, 167, 127, 120, 919, 292, 92,
        489, 734, 814, 724, 700, 304, 128, 779, 311, 877, 774, 15, 866, 368, 894, 371, 982,
        502, 507, 669, 680, 76, 594, 626, 578, 331, 170, 639, 665, 186,
    ][..];
    test_block_wand_aux(postings_lists, fieldnorms);
}

/// Records all calls, and answers from a list; the last answer stays.
struct Script {
    calls: Vec<(DocId, Score)>,
    answers: Vec<Score>,
}

impl ScoreCallback for Script {
    type Setup = ();

    fn call(&mut self, doc: DocId, score: Score) -> Score {
        let answer = self.answers[self.calls.len().min(self.answers.len() - 1)];
        self.calls.push((doc, score));
        answer
    }
}

fn script(answers: Vec<Score>) -> Script {
    Script { calls: Vec::new(), answers }
}

fn list(postings: &[(DocId, Score)]) -> PostingList {
    PostingList::new(
        postings.iter().map(|&(doc, _)| doc).collect(),
        postings.iter().map(|&(_, score)| score).collect(),
        1,
        postings.len() as u64,
    )
}

#[test]
fn every_document_is_handed_over_without_a_threshold() {
    let lists = [list(&[(1, 10), (4, 20)]), list(&[(2, 5), (4, 7)])];
    let scorers = lists.iter().map(|list| TermScorer::new(list)).collect();
    let mut callback = script(vec![Score::MIN]);
    block_wand(scorers, Score::MIN, &mut callback);
    assert_eq!(callback.calls, vec![(1, 10), (2, 5), (4, 27)]);
}

#[test]
fn the_threshold_itself_is_not_exceeded() {
    let lists = [list(&[(1, 10), (4, 20), (9, 11)]), list(&[(2, 10), (4, 7)])];
    let scorers = lists.iter().map(|list| TermScorer::new(list)).collect();
    let mut callback = script(vec![10]);
    block_wand(scorers, 10, &mut callback);
    assert_eq!(callback.calls, vec![(4, 27), (9, 11)]);
}

#[test]
fn answers_raise_the_threshold() {
    let lists = [list(&[(1, 10), (4, 20), (6, 26), (8, 30)]), list(&[(2, 15), (4, 7)])];
    let scorers = lists.iter().map(|list| TermScorer::new(list)).collect();
    let mut callback = script(vec![12, 14, 27, 27]);
    block_wand(scorers, 0, &mut callback);
    assert_eq!(callback.calls, vec![(1, 10), (2, 15), (4, 27), (8, 30)]);
}

#[test]
fn no_scorers_no_calls() {
    let mut callback = script(vec![0]);
    block_wand(Vec::new(), Score::MIN, &mut callback);
    assert!(callback.calls.is_empty());
}

#[test]
fn a_single_scorer_hands_over_what_reaches_the_threshold() {
    let postings = list(&[(1, 10), (4, 9), (6, 12), (7, 12), (9, 11)]);
    let mut callback = script(vec![10, 12, 12]);
    block_wand_single_scorer(TermScorer::new(&postings), 10, &mut callback);
    assert_eq!(callback.calls, vec![(1, 10), (6, 12), (7, 12)]);
}

#[test]
fn a_single_scorer_skips_blocks_below_the_threshold() {
    let postings: Vec<(DocId, Score)> =
        (0..1000).map(|doc| (doc, if doc == 700 { 50 } else { 3 })).collect();
    let postings = list(&postings);
    let mut callback = script(vec![4]);
    block_wand_single_scorer(TermScorer::new(&postings), 4, &mut callback);
    assert_eq!(callback.calls, vec![(700, 50)]);
}

#[test]
fn an_empty_list_has_no_documents() {
    let postings = list(&[]);
    let mut callback = script(vec![0]);
    block_wand_single_scorer(TermScorer::new(&postings), Score::MIN, &mut callback);
    assert!(callback.calls.is_empty());
}

#[test]
fn pivot_of_sorted_scorers() {
    let lists = [list(&[(1, 2)]), list(&[(3, 3)]), list(&[(3, 4)]), list(&[(8, 9)])];
    let scorers: Vec<TermScorerWithMaxScore> =
        lists.iter().map(|list| TermScorerWithMaxScore::from(TermScorer::new(list))).collect();
    assert_eq!(find_pivot_doc(&scorers, 1), Some((0, 1, 1)));
    assert_eq!(find_pivot_doc(&scorers, 4), Some((1, 3, 3)));
    assert_eq!(find_pivot_doc(&scorers, 5), Some((1, 3, 3)));
    assert_eq!(find_pivot_doc(&scorers, 9), Some((3, 4, 8)));
    assert_eq!(find_pivot_doc(&scorers, 18), None);
}

#[test]
fn light_scorers_are_not_essential() {
    let lists = [list(&[(1, 2)]), list(&[(3, 3)]), list(&[(3, 4)])];
    let scorers: Vec<TermScorerWithMaxScore> =
        lists.iter().map(|list| TermScorerWithMaxScore::from(TermScorer::new(list))).collect();
    assert_eq!(compute_non_essential_count(&scorers, 1), 0);
    assert_eq!(compute_non_essential_count(&scorers, 2), 1);
    assert_eq!(compute_non_essential_count(&scorers, 5), 2);
    assert_eq!(compute_non_essential_count(&scorers, 9), 3);
}

#[test]
fn the_order_of_the_scorers_does_not_matter() {
    let lists = [
        list(&[(1, 10), (4, 20), (6, 26), (8, 30)]),
        list(&[(2, 15), (4, 7), (8, 1)]),
        list(&[(1, 3), (6, 2), (9, 40)]),
    ];
    let mut expected = script(vec![12, 14, 27, 29]);
    block_wand(lists.iter().map(|list| TermScorer::new(list)).collect(), 0, &mut expected);
    assert_eq!(expected.calls, vec![(1, 13), (2, 15), (4, 27), (6, 28), (8, 31), (9, 40)]);
    for order in [[0, 2, 1], [1, 0, 2], [1, 2, 0], [2, 0, 1], [2, 1, 0]] {
        let scorers = order.iter().map(|&i| TermScorer::new(&lists[i])).collect();
        let mut callback = script(vec![12, 14, 27, 29]);
        block_wand(scorers, 0, &mut callback);
        assert_eq!(callback.calls, expected.calls);
    }
}
