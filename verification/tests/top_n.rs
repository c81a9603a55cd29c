use topk_pruning::top_n::TopNComputer;
use topk_pruning::types::{DocAddress, DocId, Score};

fn collect(n: usize, floor: Option<Score>, pushed: &[(Score, DocId)]) -> Vec<(Score, DocId)> {
    let mut computer: TopNComputer<DocId> = TopNComputer::new(n, floor);
    for &(score, doc) in pushed {
        computer.push(score, doc);
    }
    computer.into_vec()
}

#[test]
fn the_best_come_first() {
    let pushed = [(3, 1), (9, 2), (5, 3), (9, 4), (1, 5), (7, 6)];
    assert_eq!(collect(3, None, &pushed), vec![(9, 2), (9, 4), (7, 6)]);
    assert_eq!(collect(2, None, &pushed), vec![(9, 2), (9, 4)]);
    assert_eq!(collect(1, None, &pushed), vec![(9, 2)]);
    assert_eq!(collect(0, None, &pushed), Vec::new());
    assert_eq!(collect(9, None, &pushed).len(), 6);
}

#[test]
fn equal_scores_go_by_document() {
    let pushed = [(4, 8), (4, 3), (4, 5)];
    assert_eq!(collect(2, None, &pushed), vec![(4, 3), (4, 5)]);
}

#[test]
fn what_is_below_the_first_threshold_is_ignored() {
    let pushed = [(3, 1), (9, 2), (5, 3), (4, 4)];
    assert_eq!(collect(3, Some(5), &pushed), vec![(9, 2), (5, 3)]);
}

#[test]
fn a_full_buffer_raises_the_threshold() {
    let mut computer: TopNComputer<DocId> = TopNComputer::new(2, None);
    for doc in 0..4 {
        computer.push(10 + doc as Score, doc);
        assert_eq!(computer.threshold, None);
    }
    computer.push(1, 9);
    assert_eq!(computer.threshold, Some(12));
    computer.push(11, 10);
    assert_eq!(computer.into_vec(), vec![(13, 3), (12, 2)]);
}

#[test]
fn the_buffer_takes_twice_as_many() {
    let mut computer: TopNComputer<DocId> = TopNComputer::new(2, None);
    for doc in 0..4 {
        computer.push(20 - doc as Score, doc);
    }
    assert_eq!(computer.buffer, vec![(20, 0), (19, 1), (18, 2), (17, 3)]);
    computer.push(3, 7);
    assert_eq!(computer.buffer, vec![(20, 0), (19, 1), (3, 7)]);
    assert_eq!(computer.threshold, Some(19));
    computer.push(18, 8);
    assert_eq!(computer.buffer.len(), 3);
    computer.push(19, 9);
    assert_eq!(computer.buffer.len(), 4);
}

#[test]
fn the_threshold_is_the_nth_best_score() {
    let mut computer: TopNComputer<DocAddress> = TopNComputer::new(3, None);
    computer.push(5, DocAddress::new(0, 1));
    computer.push(8, DocAddress::new(1, 1));
    computer.ensure_threshold();
    assert_eq!(computer.threshold, None);
    computer.push(2, DocAddress::new(0, 4));
    computer.push(6, DocAddress::new(2, 4));
    computer.ensure_threshold();
    assert_eq!(computer.threshold, Some(5));
    let docs: Vec<DocAddress> = computer.into_vec().into_iter().map(|entry| entry.1).collect();
    assert_eq!(docs, vec![DocAddress::new(1, 1), DocAddress::new(2, 4), DocAddress::new(0, 1)]);
}

#[test]
fn nothing_is_kept_of_zero() {
    let mut computer: TopNComputer<DocId> = TopNComputer::new(0, None);
    for doc in 0..10 {
        computer.push(doc as Score, doc);
    }
    computer.ensure_threshold();
    assert_eq!(computer.threshold, None);
    assert!(computer.into_vec().is_empty());
}
