use topk_pruning::term_scorer::{PostingList, TermScorer, BLOCK_LEN};
use topk_pruning::types::{saturating_difference, DocId, Score, TERMINATED};

/// 300 even documents; each scores its place modulo 100.
fn even_list() -> PostingList {
    let docs: Vec<DocId> = (0..300).map(|i| 2 * i).collect();
    let scores: Vec<Score> = (0..300).map(|i| i % 100).collect();
    PostingList::new(docs, scores, 7, 300)
}

#[test]
fn blocks_and_their_bounds() {
    let list = even_list();
    assert_eq!(BLOCK_LEN, 128);
    assert_eq!(list.block_max_scores, vec![99, 99, 99]);
    assert_eq!(list.max_score, 99);
    let mut scorer = TermScorer::new(&list);
    assert_eq!(scorer.doc(), 0);
    assert_eq!(scorer.last_doc_in_block(), 254);
    scorer.seek_block(255);
    assert_eq!(scorer.doc(), 0);
    assert_eq!(scorer.last_doc_in_block(), 510);
    scorer.seek_block(511);
    assert_eq!(scorer.last_doc_in_block(), TERMINATED);
    assert_eq!(scorer.block_max_score(), 99);
}

#[test]
fn seek_and_advance() {
    let list = even_list();
    let mut scorer = TermScorer::new(&list);
    assert_eq!(scorer.seek(301), 302);
    assert_eq!(scorer.score(), 51);
    assert_eq!(scorer.seek(10), 302);
    assert_eq!(scorer.advance(), 304);
    assert_eq!(scorer.seek(598), 598);
    assert_eq!(scorer.advance(), TERMINATED);
    assert_eq!(scorer.advance(), TERMINATED);
    assert_eq!(scorer.seek(TERMINATED), TERMINATED);
}

#[test]
fn malformed_lists_are_told_apart() {
    let list = even_list();
    assert!(list.is_wf());
    assert!(PostingList::new(Vec::new(), Vec::new(), 0, 0).is_wf());
    let copy = || PostingList {
        docs: list.docs.clone(),
        scores: list.scores.clone(),
        block_max_scores: list.block_max_scores.clone(),
        max_score: list.max_score,
        idf_score: list.idf_score,
        global_doc_freq: list.global_doc_freq,
    };
    assert!(copy().is_wf());
    let mut bad = copy();
    bad.docs[5] = bad.docs[4];
    assert!(!bad.is_wf());
    let mut bad = copy();
    bad.docs[299] = TERMINATED;
    assert!(!bad.is_wf());
    let mut bad = copy();
    bad.scores.pop();
    assert!(!bad.is_wf());
    let mut bad = copy();
    bad.scores[7] = 100;
    assert!(!bad.is_wf());
    let mut bad = copy();
    bad.scores[7] = -1;
    assert!(!bad.is_wf());
    let mut bad = copy();
    bad.block_max_scores.pop();
    assert!(!bad.is_wf());
    let mut bad = copy();
    bad.max_score = 98;
    assert!(!bad.is_wf());
    let mut bad = copy();
    bad.idf_score = -1;
    assert!(!bad.is_wf());
}

#[test]
fn properties_of_a_term() {
    let list = even_list();
    let scorer = TermScorer::new(&list);
    assert_eq!(scorer.idf_score(), 7);
    assert_eq!(scorer.global_doc_freq(), 300);
    assert_eq!(scorer.size_hint(), 300);
    assert_eq!(scorer.max_score(), 99);
}

#[test]
fn a_missing_threshold_stays_missing() {
    assert_eq!(saturating_difference(Score::MIN, 5), Score::MIN);
    assert_eq!(saturating_difference(10, 5), 5);
    assert_eq!(saturating_difference(10, Score::MIN), Score::MAX);
}
