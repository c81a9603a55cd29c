use topk_pruning::pruning::ScoreCallback;
use topk_pruning::segment::{AliveBitSet, SegmentReader, UnionWeight, Weight};
use topk_pruning::sort_by_score::{
    collect_top_k_scores, SortBySimilarityScore, SortBySimilarityScoreWithThreshold,
};
use topk_pruning::term_scorer::PostingList;
use topk_pruning::types::{DocAddress, DocId, Score};

fn list(postings: &[(DocId, Score)]) -> PostingList {
    PostingList::new(
        postings.iter().map(|&(doc, _)| doc).collect(),
        postings.iter().map(|&(_, score)| score).collect(),
        10,
        postings.len() as u64,
    )
}

fn union(lists: Vec<PostingList>) -> UnionWeight {
    UnionWeight { lists, idf_only: false }
}

fn all_alive() -> SegmentReader {
    SegmentReader { alive_bitset: None }
}

fn addresses(segment_ord: u32, docs: &[(Score, DocId)]) -> Vec<(Score, DocAddress)> {
    docs.iter().map(|&(score, doc)| (score, DocAddress::new(segment_ord, doc))).collect()
}

#[test]
fn the_best_documents_of_a_segment() {
    let weight = union(vec![list(&[(1, 4), (3, 9), (7, 2)]), list(&[(1, 3), (5, 9)])]);
    let results = SortBySimilarityScore.collect_segment_top_k(3, &weight, &all_alive(), 6);
    assert_eq!(results, Ok(addresses(6, &[(9, 3), (9, 5), (7, 1)])));
    let results = SortBySimilarityScore.collect_segment_top_k(0, &weight, &all_alive(), 6);
    assert_eq!(results, Ok(Vec::new()));
}

#[test]
fn a_single_term() {
    let weight = union(vec![list(&[(1, 4), (3, 9), (7, 9), (8, 1)])]);
    let results = SortBySimilarityScore.collect_segment_top_k(2, &weight, &all_alive(), 0);
    assert_eq!(results, Ok(addresses(0, &[(9, 3), (9, 7)])));
}

#[test]
fn weights_alone() {
    let weight = UnionWeight {
        lists: vec![
            PostingList::new(vec![1, 2, 3], vec![1, 1, 1], 5, 3),
            PostingList::new(vec![2, 6], vec![1, 1], 8, 2),
        ],
        idf_only: true,
    };
    let results = SortBySimilarityScore.collect_segment_top_k(2, &weight, &all_alive(), 0);
    assert_eq!(results, Ok(addresses(0, &[(13, 2), (8, 6)])));
}

#[test]
fn deleted_documents_are_left_out() {
    let weight = union(vec![list(&[(1, 4), (3, 9), (4, 5)]), list(&[(1, 3), (2, 9), (9, 50)])]);
    let reader = SegmentReader {
        alive_bitset: Some(AliveBitSet { alive: vec![true, true, true, false, true] }),
    };
    let results = SortBySimilarityScore.collect_segment_top_k(5, &weight, &reader, 1);
    assert_eq!(results, Ok(addresses(1, &[(9, 2), (7, 1), (5, 4)])));
}

#[test]
fn a_segment_with_deletions_starts_with_a_threshold() {
    let weight = union(vec![list(&[(1, 4), (3, 9)])]);
    let reader = SegmentReader { alive_bitset: Some(AliveBitSet { alive: vec![true; 4] }) };
    let top_n = collect_top_k_scores(5, Score::MIN, &weight, &reader).unwrap();
    assert_eq!(top_n.threshold, Some(Score::MIN));
    assert_eq!(top_n.into_vec(), vec![(9, 3), (4, 1)]);
    let top_n = collect_top_k_scores(5, Score::MIN, &weight, &all_alive()).unwrap();
    assert_eq!(top_n.threshold, None);
    let top_n = collect_top_k_scores(5, 5, &weight, &all_alive()).unwrap();
    assert_eq!(top_n.threshold, Some(5));
    assert_eq!(top_n.into_vec(), vec![(9, 3)]);
}

/// Hands over some documents, and keeps what is answered.
struct Recording {
    docs: Vec<(DocId, Score)>,
    answers: std::cell::RefCell<Vec<Score>>,
}

impl Weight for Recording {
    type Error = ();

    fn for_each_pruning<C: ScoreCallback>(
        &self,
        _threshold: Score,
        _reader: &SegmentReader,
        callback: &mut C,
        _k: usize,
    ) -> Result<(), ()> {
        for &(doc, score) in &self.docs {
            let answer = callback.call(doc, score);
            self.answers.borrow_mut().push(answer);
        }
        Ok(())
    }
}

#[test]
fn a_deleted_document_repeats_the_answer() {
    let weight = Recording {
        docs: vec![(0, 5), (1, 9), (2, 6), (3, 7), (4, 8)],
        answers: std::cell::RefCell::new(Vec::new()),
    };
    let reader = SegmentReader {
        alive_bitset: Some(AliveBitSet { alive: vec![true, false, true, true, false] }),
    };
    let top_n = collect_top_k_scores(1, 2, &weight, &reader).unwrap();
    // The buffer is full with two documents; the third one makes the best so far the threshold.
    assert_eq!(*weight.answers.borrow(), vec![2, 2, 2, 6, 6]);
    assert_eq!(top_n.into_vec(), vec![(7, 3)]);
}

#[test]
fn global_frequencies_keep_the_best_of_the_index() {
    // The weights of three terms, and the documents that contain them in each segment.
    let weights: [Score; 3] = [3_000_000, 2_000_000, 1_000_000];
    let segments: [[Vec<DocId>; 3]; 3] = [
        [vec![4], vec![1, 4, 6], vec![0, 1, 2, 3]],
        [vec![], vec![2, 3], vec![2, 5]],
        [vec![0, 7], vec![7], vec![1, 7, 8]],
    ];
    for k in 1..6usize {
        let mut merged: Vec<Score> = Vec::new();
        let mut all: Vec<Score> = Vec::new();
        let mut shared = SortBySimilarityScoreWithThreshold::new(k);
        for (ord, segment) in segments.iter().enumerate() {
            let lists: Vec<PostingList> = (0..3)
                .map(|term| {
                    let frequency: usize = segments.iter().map(|lists| lists[term].len()).sum();
                    let docs = segment[term].clone();
                    let scores = vec![weights[term]; docs.len()];
                    PostingList::new(docs, scores, weights[term], frequency as u64)
                })
                .collect();
            for doc in 0..10 {
                let score: Score = (0..3)
                    .filter(|&term| segment[term].contains(&doc))
                    .map(|term| weights[term])
                    .sum();
                if score > 0 {
                    all.push(score);
                }
            }
            let weight = UnionWeight { lists, idf_only: true };
            let results =
                shared.collect_segment_top_k(k, &weight, &all_alive(), ord as u32).unwrap();
            merged.extend(results.iter().map(|entry| entry.0));
        }
        merged.sort_by(|a, b| b.cmp(a));
        merged.truncate(k);
        all.sort_by(|a, b| b.cmp(a));
        all.truncate(k);
        assert_eq!(merged, all);
    }
}

/// Runs no query.
struct Broken;

impl Weight for Broken {
    type Error = String;

    fn for_each_pruning<C: ScoreCallback>(
        &self,
        _threshold: Score,
        _reader: &SegmentReader,
        callback: &mut C,
        _k: usize,
    ) -> Result<(), String> {
        callback.call(1, 1);
        Err("no index".to_string())
    }
}

#[test]
fn errors_are_handed_on() {
    let results = SortBySimilarityScore.collect_segment_top_k(5, &Broken, &all_alive(), 1);
    assert_eq!(results, Err("no index".to_string()));
    let mut shared = SortBySimilarityScoreWithThreshold::new(1);
    let results = shared.collect_segment_top_k(1, &Broken, &all_alive(), 1);
    assert_eq!(results, Err("no index".to_string()));
    assert_eq!(shared.initial_threshold(), Score::MIN);
}

#[test]
fn segments_share_the_global_threshold() {
    let mut shared = SortBySimilarityScoreWithThreshold::new(2);
    assert_eq!(shared.shared_threshold, 0);
    assert_eq!(shared.initial_threshold(), Score::MIN);

    let first = union(vec![list(&[(1, 4), (3, 9)]), list(&[(2, 6)])]);
    let results = shared.collect_segment_top_k(2, &first, &all_alive(), 0);
    assert_eq!(results, Ok(addresses(0, &[(9, 3), (6, 2)])));
    assert_eq!(shared.initial_threshold(), 6);

    // Only what exceeds the threshold is collected.
    let second = union(vec![list(&[(1, 5), (3, 6)]), list(&[(2, 8)])]);
    let results = shared.collect_segment_top_k(2, &second, &all_alive(), 1);
    assert_eq!(results, Ok(addresses(1, &[(8, 2)])));
    assert_eq!(shared.initial_threshold(), 8);

    let third = union(vec![list(&[(1, 7)]), list(&[(4, 8)])]);
    let results = shared.collect_segment_top_k(2, &third, &all_alive(), 2);
    assert_eq!(results, Ok(Vec::new()));
    assert_eq!(shared.initial_threshold(), 8);
}

#[test]
fn too_few_results_share_nothing() {
    let mut shared = SortBySimilarityScoreWithThreshold::new(3);
    let weight = union(vec![list(&[(1, 4), (3, 9)])]);
    let results = shared.collect_segment_top_k(3, &weight, &all_alive(), 0);
    assert_eq!(results, Ok(addresses(0, &[(9, 3), (4, 1)])));
    assert_eq!(shared.shared_threshold, 0);

    // A score of 0 is no threshold.
    let zero = union(vec![list(&[(5, 0)])]);
    shared.collect_segment_top_k(3, &zero, &all_alive(), 1).unwrap();
    assert_eq!(shared.shared_threshold, 0);
    shared.merge(&addresses(2, &[(2, 1)]));
    assert_eq!(shared.shared_threshold, 2);
}

#[test]
fn sharing_gives_the_results_of_one_big_segment() {
    let segments: Vec<Vec<(DocId, Score)>> = (0..6u32)
        .map(|segment| (0..200u32).map(|doc| (doc, ((doc * 37 + segment * 91) % 501) as Score)).collect())
        .collect();
    let mut shared = SortBySimilarityScoreWithThreshold::new(5);
    let mut merged: Vec<(Score, DocAddress)> = Vec::new();
    let mut all: Vec<(Score, DocAddress)> = Vec::new();
    for (segment, postings) in segments.iter().enumerate() {
        let weight = union(vec![list(postings)]);
        merged.extend(
            shared.collect_segment_top_k(5, &weight, &all_alive(), segment as u32).unwrap(),
        );
        let plain = SortBySimilarityScore
            .collect_segment_top_k(200, &weight, &all_alive(), segment as u32)
            .unwrap();
        all.extend(plain);
    }
    let mut best: Vec<Score> = merged.iter().map(|entry| entry.0).collect();
    best.sort_by(|a, b| b.cmp(a));
    best.truncate(5);
    let mut expected: Vec<Score> = all.iter().map(|entry| entry.0).collect();
    expected.sort_by(|a, b| b.cmp(a));
    expected.truncate(5);
    assert_eq!(best, expected);
    assert_eq!(shared.shared_threshold, expected[4]);
}

#[test]
fn pruning_gives_what_a_full_scan_gives() {
    let first: Vec<(DocId, Score)> =
        (0..400u32).map(|i| (i * 3, ((i * 53) % 97) as Score)).collect();
    let second: Vec<(DocId, Score)> =
        (0..400u32).map(|i| (i * 2, ((i * 31) % 89) as Score)).collect();
    let third: Vec<(DocId, Score)> =
        (0..30u32).map(|i| (i * 40, 60 + (i % 7) as Score)).collect();
    let mut scores: Vec<(Score, DocId)> = Vec::new();
    for doc in 0..1200u32 {
        let found: Vec<Score> = [&first, &second, &third]
            .iter()
            .filter_map(|list| list.iter().find(|entry| entry.0 == doc).map(|entry| entry.1))
            .collect();
        if !found.is_empty() {
            scores.push((found.iter().sum(), doc));
        }
    }
    scores.sort_by(|a, b| b.0.cmp(&a.0).then(a.1.cmp(&b.1)));
    let weight = union(vec![list(&first), list(&second), list(&third)]);
    for k in [1, 2, 7, 50, 2000] {
        let results = SortBySimilarityScore.collect_segment_top_k(k, &weight, &all_alive(), 3);
        let expected: Vec<(Score, DocId)> = scores.iter().cloned().take(k).collect();
        assert_eq!(results, Ok(addresses(3, &expected)));
    }
}

#[test]
fn the_sort_key_is_the_score() {
    let mut computer = SortBySimilarityScore;
    assert!(computer.requires_scoring());
    assert_eq!(computer.segment_sort_key(3, 17), 17);
    assert_eq!(computer.convert_segment_sort_key(17), 17);
    let child: Result<SortBySimilarityScore, ()> =
        computer.segment_sort_key_computer(&all_alive());
    assert!(child.is_ok());
    let shared = SortBySimilarityScoreWithThreshold::new(4);
    assert!(shared.requires_scoring());
    let child: Result<SortBySimilarityScore, ()> = shared.segment_sort_key_computer(&all_alive());
    assert!(child.is_ok());
}
