//! Posting lists and the cursors that walk them.
//!
//! A posting list is cut into blocks of [`BLOCK_LEN`] postings. Every block but the last is full
//! and records its last document; the last one holds what is left, possibly nothing, and ends at
//! [`TERMINATED`]. Each block comes with a bound on the scores that occur in it, which can be
//! read without looking at its postings.
use vstd::prelude::*;

use crate::types::{DocId, Score, TERMINATED};

verus! {

/// The number of postings of a full block.
pub const BLOCK_LEN: usize = 128;

/// The documents that contain a term, with the score that the term gives to each.
pub struct PostingList {
    pub docs: Vec<DocId>,
    pub scores: Vec<Score>,
    pub block_max_scores: Vec<Score>,
    pub max_score: Score,
    pub idf_score: Score,
    pub global_doc_freq: u64,
}

/// `docs` is ascending and ends before `TERMINATED`.
pub open spec fn ascending_docs(docs: Seq<DocId>) -> bool {
    &&& forall|i: int, j: int| 0 <= i < j < docs.len() ==> #[trigger] docs[i] < #[trigger] docs[j]
    &&& forall|i: int| 0 <= i < docs.len() ==> #[trigger] docs[i] < TERMINATED
}

impl PostingList {
    pub open spec fn wf(self) -> bool {
        &&& ascending_docs(self.docs@)
        &&& self.scores@.len() == self.docs@.len()
        &&& self.block_max_scores@.len() == self.docs@.len() / (BLOCK_LEN as nat) + 1
        &&& forall|j: int|
            0 <= j < self.scores@.len() ==> 0 <= #[trigger] self.scores@[j]
                <= self.block_max_scores@[j / (BLOCK_LEN as int)]
        &&& forall|b: int|
            0 <= b < self.block_max_scores@.len() ==> 0 <= #[trigger] self.block_max_scores@[b]
                <= self.max_score
        &&& 0 <= self.idf_score
    }

    pub open spec fn contains(self, doc: DocId) -> bool {
        exists|j: int| 0 <= j < self.docs@.len() && #[trigger] self.docs@[j] == doc
    }

    /// Where `doc` stands in the list.
    pub open spec fn position(self, doc: DocId) -> int {
        choose|j: int| 0 <= j < self.docs@.len() && #[trigger] self.docs@[j] == doc
    }

    pub proof fn lemma_position(self, j: int)
        requires
            ascending_docs(self.docs@),
            0 <= j < self.docs@.len(),
        ensures
            self.contains(self.docs@[j]),
            self.position(self.docs@[j]) == j,
    {
        let p = self.position(self.docs@[j]);
        assert(self.docs@[p] == self.docs@[j]);
        if p < j {
            assert(self.docs@[p] < self.docs@[j]);
        } else if j < p {
            assert(self.docs@[j] < self.docs@[p]);
        }
    }

    /// Builds a posting list. Block bounds and the maximum score are those of the given scores.
    pub fn new(
        docs: Vec<DocId>,
        scores: Vec<Score>,
        idf_score: Score,
        global_doc_freq: u64,
    ) -> (list: PostingList)
        requires
            ascending_docs(docs@),
            scores@.len() == docs@.len(),
            forall|j: int| 0 <= j < scores@.len() ==> 0 <= #[trigger] scores@[j],
            0 <= idf_score,
        ensures
            list.wf(),
            list.docs@ == docs@,
            list.scores@ == scores@,
            list.idf_score == idf_score,
            list.global_doc_freq == global_doc_freq,
            list.max_score == 0 || scores@.contains(list.max_score),
            forall|b: int|
                0 <= b < list.block_max_scores@.len() ==> (#[trigger] list.block_max_scores@[b] == 0
                    || exists|j: int|
                    b * BLOCK_LEN <= j < (b + 1) * BLOCK_LEN && j < scores@.len()
                        && #[trigger] scores@[j] == list.block_max_scores@[b]),
    {
        let len: usize = docs.len();
        let mut block_max_scores: Vec<Score> = Vec::new();
        let mut max_score: Score = 0;
        let mut block_max: Score = 0;
        let mut j: usize = 0;
        while j < len
            invariant
                j <= len == scores@.len(),
                forall|i: int| 0 <= i < scores@.len() ==> 0 <= #[trigger] scores@[i],
                block_max_scores@.len() == j / BLOCK_LEN,
                0 <= block_max <= max_score,
                max_score == 0 || scores@.contains(max_score),
                forall|b: int|
                    0 <= b < block_max_scores@.len() ==> 0 <= #[trigger] block_max_scores@[b]
                        <= max_score,
                forall|b: int|
                    0 <= b < block_max_scores@.len() ==> (#[trigger] block_max_scores@[b] == 0
                        || exists|i: int|
                        b * BLOCK_LEN <= i < (b + 1) * BLOCK_LEN && i < scores@.len()
                            && #[trigger] scores@[i] == block_max_scores@[b]),
                block_max == 0 || exists|i: int|
                    block_max_scores@.len() * BLOCK_LEN <= i < j && #[trigger] scores@[i]
                        == block_max,
                forall|i: int|
                    0 <= i < j && i / (BLOCK_LEN as int) < block_max_scores@.len()
                        ==> #[trigger] scores@[i] <= block_max_scores@[i / (BLOCK_LEN as int)],
                forall|i: int|
                    0 <= i < j && i / (BLOCK_LEN as int) == block_max_scores@.len()
                        ==> #[trigger] scores@[i] <= block_max,
            decreases len - j,
        {
            let score: Score = scores[j];
            if score > block_max {
                block_max = score;
            }
            if score > max_score {
                max_score = score;
            }
            j = j + 1;
            if j % BLOCK_LEN == 0 {
                block_max_scores.push(block_max);
                block_max = 0;
            }
        }
        block_max_scores.push(block_max);
        PostingList { docs, scores, block_max_scores, max_score, idf_score, global_doc_freq }
    }

    /// Whether the list is well-formed.
    pub fn is_wf(&self) -> (valid: bool)
        ensures
            valid == self.wf(),
    {
        let len: usize = self.docs.len();
        let blocks: usize = self.block_max_scores.len();
        if self.scores.len() != len || self.idf_score < 0 || blocks == 0 || blocks - 1 != len
            / BLOCK_LEN {
            return false;
        }
        let mut j: usize = 0;
        while j < len
            invariant
                j <= len,
                len == self.docs@.len(),
                len == self.scores@.len(),
                blocks == self.block_max_scores@.len(),
                blocks - 1 == len / BLOCK_LEN,
                ascending_docs(self.docs@.take(j as int)),
                forall|i: int|
                    0 <= i < j ==> 0 <= #[trigger] self.scores@[i]
                        <= self.block_max_scores@[i / (BLOCK_LEN as int)],
            decreases len - j,
        {
            let ghost before = self.docs@.take(j as int);
            let ghost now = self.docs@.take(j + 1);
            if self.docs[j] >= TERMINATED {
                return false;
            }
            if j > 0 && self.docs[j - 1] >= self.docs[j] {
                return false;
            }
            if self.scores[j] < 0 || self.scores[j] > self.block_max_scores[j / BLOCK_LEN] {
                return false;
            }
            proof {
                assert forall|a: int, b: int| 0 <= a < b < now.len() implies #[trigger] now[a]
                    < #[trigger] now[b] by {
                    assert(now[a] == before[a]);
                    if b < j {
                        assert(now[b] == before[b]);
                    } else if a < j - 1 {
                        assert(before[a] < before[j - 1]);
                    }
                }
                assert forall|a: int| 0 <= a < now.len() implies #[trigger] now[a]
                    < TERMINATED by {
                    if a < j {
                        assert(now[a] == before[a]);
                    }
                }
            }
            j = j + 1;
        }
        let mut b: usize = 0;
        while b < blocks
            invariant
                b <= blocks == self.block_max_scores@.len(),
                forall|i: int|
                    0 <= i < b ==> 0 <= #[trigger] self.block_max_scores@[i] <= self.max_score,
            decreases blocks - b,
        {
            if self.block_max_scores[b] < 0 || self.block_max_scores[b] > self.max_score {
                return false;
            }
            b = b + 1;
        }
        proof {
            assert(self.docs@.take(len as int) =~= self.docs@);
        }
        true
    }
}

/// The place of the first document at or after `target`, from place `from` on.
pub open spec fn first_from(docs: Seq<DocId>, from: int, target: DocId) -> int
    decreases docs.len() - from,
{
    if from >= docs.len() || docs[from] >= target {
        from
    } else {
        first_from(docs, from + 1, target)
    }
}

pub proof fn lemma_first_from(docs: Seq<DocId>, from: int, place: int, target: DocId)
    requires
        from <= place <= docs.len(),
        forall|j: int| from <= j < place ==> #[trigger] docs[j] < target,
        place < docs.len() ==> docs[place] >= target,
    ensures
        first_from(docs, from, target) == place,
    decreases place - from,
{
    if from < place {
        assert(docs[from] < target);
        lemma_first_from(docs, from + 1, place, target);
    }
}

/// A cursor over a posting list.
///
/// `cursor` is the current posting. `block` is the block whose bound can be read; it can run
/// ahead of the cursor, which is how a caller looks at a later block without decoding it.
#[derive(Clone, Copy)]
pub struct TermScorer<'a> {
    pub list: &'a PostingList,
    pub cursor: usize,
    pub block: usize,
}

impl<'a> TermScorer<'a> {
    pub open spec fn wf(self) -> bool {
        &&& self.list.wf()
        &&& self.cursor <= self.list.docs@.len()
        &&& self.block < self.list.block_max_scores@.len()
        &&& self.cursor / BLOCK_LEN <= self.block
    }

    /// The block of the bound is the block of the cursor.
    pub open spec fn is_loaded(self) -> bool {
        self.cursor / BLOCK_LEN == self.block
    }

    /// The postings from the cursor to the start of the current block are all before `floor`.
    pub open spec fn skipped_below(self, floor: DocId) -> bool {
        forall|j: int|
            self.cursor <= j < self.list.docs@.len() && j < self.block * BLOCK_LEN
                ==> #[trigger] self.list.docs@[j] < floor
    }

    /// `doc` is still ahead of the cursor, or under it.
    pub open spec fn matches(self, doc: DocId) -> bool {
        self.list.contains(doc) && self.cursor <= self.list.position(doc)
    }

    /// What the term gives to `doc`: nothing if the cursor does not meet it any more.
    pub open spec fn score_at(self, doc: DocId) -> int {
        if self.matches(doc) {
            self.list.scores@[self.list.position(doc)] as int
        } else {
            0
        }
    }

    /// The cursor on the first posting at or after both the cursor and `target`.
    pub open spec fn sought(self, target: DocId) -> TermScorer<'a> {
        let cursor = first_from(self.list.docs@, self.cursor as int, target);
        TermScorer {
            list: self.list,
            cursor: cursor as usize,
            block: (cursor / (BLOCK_LEN as int)) as usize,
        }
    }

    /// The cursor on the next posting, if there is one.
    pub open spec fn advanced(self) -> TermScorer<'a> {
        if self.cursor < self.list.docs@.len() {
            TermScorer {
                list: self.list,
                cursor: (self.cursor + 1) as usize,
                block: ((self.cursor + 1) / (BLOCK_LEN as int)) as usize,
            }
        } else {
            self
        }
    }

    /// How many postings are left.
    pub open spec fn left(self) -> int {
        self.list.docs@.len() - self.cursor
    }

    pub open spec fn spec_doc(&self) -> DocId {
        if self.cursor < self.list.docs@.len() {
            self.list.docs@[self.cursor as int]
        } else {
            TERMINATED
        }
    }

    pub open spec fn spec_last_doc_in_block(&self) -> DocId {
        if (self.block + 1) * BLOCK_LEN <= self.list.docs@.len() {
            self.list.docs@[(self.block + 1) * BLOCK_LEN - 1]
        } else {
            TERMINATED
        }
    }

    pub open spec fn spec_block_max_score(&self) -> Score {
        self.list.block_max_scores@[self.block as int]
    }

    /// A cursor on the first posting.
    pub fn new(list: &'a PostingList) -> (scorer: TermScorer<'a>)
        requires
            list.wf(),
        ensures
            scorer.wf(),
            scorer.is_loaded(),
            scorer.list == list,
            scorer.cursor == 0,
    {
        TermScorer { list, cursor: 0, block: 0 }
    }

    /// The current document, or `TERMINATED`.
    #[verifier::when_used_as_spec(spec_doc)]
    pub fn doc(&self) -> (doc: DocId)
        ensures
            doc == self.spec_doc(),
    {
        if self.cursor < self.list.docs.len() {
            self.list.docs[self.cursor]
        } else {
            TERMINATED
        }
    }

    /// The score of the current document.
    pub fn score(&self) -> (score: Score)
        requires
            self.wf(),
            self.is_loaded(),
            self.doc() != TERMINATED,
        ensures
            score == self.score_at(self.doc()),
            0 <= score <= self.list.max_score,
    {
        proof {
            self.list.lemma_position(self.cursor as int);
            assert(self.list.scores@[self.cursor as int]
                <= self.list.block_max_scores@[self.cursor as int / (BLOCK_LEN as int)]);
        }
        self.list.scores[self.cursor]
    }

    /// A bound on the scores of the whole list.
    pub fn max_score(&self) -> (score: Score)
        ensures
            score == self.list.max_score,
    {
        self.list.max_score
    }

    /// The weight of the term when term frequencies are not stored.
    pub fn idf_score(&self) -> (score: Score)
        ensures
            score == self.list.idf_score,
    {
        self.list.idf_score
    }

    /// The number of documents that contain the term, over all segments.
    pub fn global_doc_freq(&self) -> (freq: u64)
        ensures
            freq == self.list.global_doc_freq,
    {
        self.list.global_doc_freq
    }

    /// The number of postings of the list.
    pub fn size_hint(&self) -> (size: usize)
        ensures
            size == self.list.docs@.len(),
    {
        self.list.docs.len()
    }

    /// The last document of the current block; `TERMINATED` for the last block.
    #[verifier::when_used_as_spec(spec_last_doc_in_block)]
    pub fn last_doc_in_block(&self) -> (doc: DocId)
        requires
            self.wf(),
        ensures
            doc == self.spec_last_doc_in_block(),
    {
        let len: usize = self.list.docs.len();
        if self.block < len / BLOCK_LEN {
            self.list.docs[self.block * BLOCK_LEN + (BLOCK_LEN - 1)]
        } else {
            TERMINATED
        }
    }

    /// A bound on the scores of the current block.
    #[verifier::when_used_as_spec(spec_block_max_score)]
    pub fn block_max_score(&self) -> (score: Score)
        requires
            self.wf(),
        ensures
            score == self.spec_block_max_score(),
            0 <= score <= self.list.max_score,
    {
        self.list.block_max_scores[self.block]
    }

    /// Moves to the first block, from the current one on, that can hold `target`. The current
    /// document does not change.
    pub fn seek_block(&mut self, target: DocId)
        requires
            old(self).wf(),
            target <= TERMINATED,
        ensures
            final(self).wf(),
            final(self).list == old(self).list,
            final(self).cursor == old(self).cursor,
            final(self).block >= old(self).block,
            final(self).last_doc_in_block() >= target,
            forall|j: int|
                old(self).block * BLOCK_LEN <= j < final(self).block * BLOCK_LEN && j < final(self).list.docs@.len() ==> #[trigger] final(self).list.docs@[j] < target,
            target <= old(self).last_doc_in_block() ==> final(self).block == old(self).block,
    {
        while self.last_doc_in_block() < target
            invariant
                self.wf(),
                target <= TERMINATED,
                self.list == old(self).list,
                self.cursor == old(self).cursor,
                self.block >= old(self).block,
                forall|j: int|
                    old(self).block * BLOCK_LEN <= j < self.block * BLOCK_LEN && j
                        < self.list.docs@.len() ==> #[trigger] self.list.docs@[j] < target,
                target <= old(self).last_doc_in_block() ==> self.block == old(self).block,
            decreases self.list.block_max_scores@.len() - self.block,
        {
            proof {
                let last = (self.block + 1) * BLOCK_LEN - 1;
                assert(self.block < self.list.docs.len());
                assert forall|j: int|
                    old(self).block * BLOCK_LEN <= j < (self.block + 1) * BLOCK_LEN && j
                        < self.list.docs@.len() implies #[trigger] self.list.docs@[j] < target by {
                    if j >= self.block * BLOCK_LEN && j < last {
                        assert(self.list.docs@[j] < self.list.docs@[last]);
                    }
                }
            }
            self.block = self.block + 1;
        }
    }

    /// Moves to the first document, from the current one on, that is `target` or later.
    pub fn seek(&mut self, target: DocId) -> (doc: DocId)
        requires
            old(self).wf(),
            target <= TERMINATED,
        ensures
            final(self).wf(),
            final(self).is_loaded(),
            final(self).list == old(self).list,
            final(self).cursor >= old(self).cursor,
            *final(self) == old(self).sought(target),
            doc == final(self).doc(),
            doc >= target,
            doc >= old(self).doc(),
            old(self).doc() < target ==> final(self).cursor > old(self).cursor,
            forall|j: int|
                old(self).cursor <= j < final(self).cursor ==> #[trigger] final(self).list.docs@[j]
                    < target,
            forall|d: DocId|
                d >= target ==> (#[trigger] final(self).matches(d) <==> old(self).matches(d)),
            forall|d: DocId|
                d >= target ==> #[trigger] final(self).score_at(d) == old(self).score_at(d),
    {
        let len: usize = self.list.docs.len();
        let mut block: usize = self.cursor / BLOCK_LEN;
        let mut cursor: usize = self.cursor;
        while block < len / BLOCK_LEN && self.list.docs[block * BLOCK_LEN + (BLOCK_LEN - 1)] < target
            invariant
                *self == *old(self),
                self.wf(),
                len == self.list.docs@.len(),
                self.cursor <= cursor <= len,
                block <= len / BLOCK_LEN,
                cursor / BLOCK_LEN == block,
                forall|j: int|
                    self.cursor <= j < cursor ==> #[trigger] self.list.docs@[j] < target,
            decreases len - cursor,
        {
            proof {
                let last = block * BLOCK_LEN + (BLOCK_LEN - 1);
                assert forall|j: int|
                    self.cursor <= j < (block + 1) * BLOCK_LEN implies #[trigger] self.list.docs@[j]
                    < target by {
                    if j < last {
                        assert(self.list.docs@[j] < self.list.docs@[last]);
                    }
                }
            }
            block = block + 1;
            cursor = block * BLOCK_LEN;
        }
        while cursor < len && self.list.docs[cursor] < target
            invariant
                *self == *old(self),
                self.wf(),
                len == self.list.docs@.len(),
                self.cursor <= cursor <= len,
                forall|j: int|
                    self.cursor <= j < cursor ==> #[trigger] self.list.docs@[j] < target,
            decreases len - cursor,
        {
            cursor = cursor + 1;
        }
        self.cursor = cursor;
        self.block = cursor / BLOCK_LEN;
        proof {
            let list = self.list;
            lemma_first_from(list.docs@, old(self).cursor as int, cursor as int, target);
            if old(self).cursor < cursor {
                assert(list.docs@[old(self).cursor as int] < target);
            }
            assert forall|d: DocId| d >= target implies (#[trigger] self.matches(d) <==> old(self).matches(d)) by {
                if list.contains(d) {
                    let j = list.position(d);
                    assert(list.docs@[j] == d);
                }
            }
            assert forall|d: DocId| d >= target implies #[trigger] self.score_at(d) == old(self).score_at(d) by {
                assert(self.matches(d) <==> old(self).matches(d));
            }
        }
        self.doc()
    }

    /// Moves to the next document.
    pub fn advance(&mut self) -> (doc: DocId)
        requires
            old(self).wf(),
            old(self).is_loaded(),
        ensures
            final(self).wf(),
            final(self).is_loaded(),
            final(self).list == old(self).list,
            doc == final(self).doc(),
            *final(self) == old(self).advanced(),
            old(self).doc() == TERMINATED ==> *final(self) == *old(self),
            old(self).doc() != TERMINATED ==> final(self).cursor == old(self).cursor + 1,
            old(self).doc() != TERMINATED ==> doc > old(self).doc(),
            forall|d: DocId|
                d > old(self).doc() ==> (#[trigger] final(self).matches(d) <==> old(self).matches(
                    d,
                )),
            forall|d: DocId|
                d > old(self).doc() ==> #[trigger] final(self).score_at(d) == old(self).score_at(d),
    {
        if self.cursor < self.list.docs.len() {
            self.cursor = self.cursor + 1;
            self.block = self.cursor / BLOCK_LEN;
        }
        proof {
            let list = self.list;
            assert forall|d: DocId| d > old(self).doc() implies (#[trigger] self.matches(d)
                <==> old(self).matches(d)) by {
                if list.contains(d) {
                    let j = list.position(d);
                    assert(list.docs@[j] == d);
                }
            }
            assert forall|d: DocId| d > old(self).doc() implies #[trigger] self.score_at(d) == old(self).score_at(d) by {
                assert(self.matches(d) <==> old(self).matches(d));
            }
        }
        self.doc()
    }

    /// A document that is still met is not before the current one, and the current one is met.
    pub proof fn lemma_matches(self)
        requires
            self.wf(),
        ensures
            self.doc() <= TERMINATED,
            self.doc() != TERMINATED ==> self.matches(self.doc()),
            forall|d: DocId| #[trigger] self.matches(d) ==> self.doc() <= d < TERMINATED,
            forall|d: DocId| 0 <= #[trigger] self.score_at(d) <= self.list.max_score,
            self.cursor < self.list.docs@.len() <==> self.doc() != TERMINATED,
    {
        let list = self.list;
        if self.cursor < list.docs@.len() {
            list.lemma_position(self.cursor as int);
        }
        assert(0 <= list.block_max_scores@[0] <= list.max_score);
        assert forall|d: DocId| #[trigger] self.matches(d) implies self.doc() <= d < TERMINATED by {
            let j = list.position(d);
            assert(list.docs@[j] == d);
        }
        assert forall|d: DocId| 0 <= #[trigger] self.score_at(d) <= list.max_score by {
            if self.matches(d) {
                let j = list.position(d);
                assert(list.docs@[j] == d);
                assert(list.scores@[j] <= list.block_max_scores@[j / (BLOCK_LEN as int)]);
            }
        }
    }

    /// A cursor that was moved, and meets the same documents from `from` on, stands on the first
    /// of them once it is there.
    pub proof fn lemma_landed(self, moved: TermScorer<'a>, from: DocId)
        requires
            self.wf(),
            moved.wf(),
            moved.list == self.list,
            moved.cursor >= self.cursor,
            from <= moved.doc(),
            from <= TERMINATED,
            forall|d: DocId| d >= from ==> (#[trigger] moved.matches(d) <==> self.matches(d)),
        ensures
            self.sought(from).doc() == moved.doc(),
    {
        let docs = self.list.docs@;
        let place = moved.cursor as int;
        assert(docs.len() == self.list.docs.len());
        assert forall|j: int| self.cursor <= j < place implies #[trigger] docs[j] < from by {
            self.list.lemma_position(j);
            if docs[j] >= from {
                assert(self.matches(docs[j]));
                assert(moved.matches(docs[j]));
            }
        }
        lemma_first_from(docs, self.cursor as int, place, from);
    }

    /// The bound of the current block holds from `floor` to the last document of the block.
    pub proof fn lemma_block_bound(self, floor: DocId, doc: DocId)
        requires
            self.wf(),
            self.skipped_below(floor),
            floor <= doc <= self.last_doc_in_block(),
        ensures
            self.score_at(doc) <= self.block_max_score(),
    {
        if self.matches(doc) {
            let j = self.list.position(doc);
            assert(self.list.docs@[j] == doc);
            if (self.block + 1) * BLOCK_LEN <= j {
                assert(self.list.docs@[(self.block + 1) * BLOCK_LEN - 1] < self.list.docs@[j]);
            }
            assert(j / (BLOCK_LEN as int) == self.block);
            assert(self.list.scores@[j] <= self.list.block_max_scores@[j / (BLOCK_LEN as int)]);
        }
    }
}

} // verus!
