//! Postings, cursors and deleted documents, in plain terms.
//!
//! The laws of this module speak of what functions are given and what they return, and of the
//! documents, scores and flags that lists and bitsets hold. They say what a cursor meets and what it
//! gives to a document, on which everything else rests.
use vstd::prelude::*;

use crate::pruning::{all_ready, any_matches, idf_scored_docs, scored_docs, term_idf, term_score};
use crate::segment::{AliveBitSet, SegmentReader};
use crate::sums::sum_by;
use crate::term_scorer::{PostingList, TermScorer};
use crate::types::{saturating_difference, DocAddress, DocId, Score};

verus! {

/// Postings in blocks of 128: ascending documents, a score for each, and bounds that hold.
pub open spec fn is_sound(list: PostingList) -> bool {
    &&& forall|i: int, j: int|
        0 <= i < j < list.docs@.len() ==> #[trigger] list.docs@[i] < #[trigger] list.docs@[j]
    &&& forall|i: int| 0 <= i < list.docs@.len() ==> #[trigger] list.docs@[i] < 0x7fff_ffff
    &&& list.scores@.len() == list.docs@.len()
    &&& list.block_max_scores@.len() == list.docs@.len() / 128 + 1
    &&& forall|j: int|
        0 <= j < list.scores@.len() ==> 0 <= #[trigger] list.scores@[j]
            <= list.block_max_scores@[j / 128]
    &&& forall|b: int|
        0 <= b < list.block_max_scores@.len() ==> 0 <= #[trigger] list.block_max_scores@[b]
            <= list.max_score
    &&& 0 <= list.idf_score
}

/// A cursor on a posting, or behind the last one, of a sound list. It can read the bound of the
/// block that it stands in.
pub open spec fn stands(scorer: TermScorer) -> bool {
    &&& is_sound(*scorer.list)
    &&& scorer.cursor <= scorer.list.docs@.len()
    &&& scorer.block == scorer.cursor / 128
}

pub open spec fn all_stand(scorers: Seq<TermScorer>) -> bool {
    forall|i: int| 0 <= i < scorers.len() ==> stands(#[trigger] scorers[i])
}

/// The cursor has a posting of `doc` at place `p`, or ahead of it.
pub open spec fn meets_at(scorer: TermScorer, doc: DocId, p: int) -> bool {
    scorer.cursor <= p < scorer.list.docs@.len() && scorer.list.docs@[p] == doc
}

/// `part` is what a term gives to `doc`: the score that is stored with the posting of `doc` or, with
/// `idf_only`, the weight of the term. It gives nothing if it has no such posting ahead.
pub open spec fn gives(scorer: TermScorer, idf_only: bool, doc: DocId, part: int) -> bool {
    ||| exists|p: int| #[trigger]
        meets_at(scorer, doc, p) && part == (if idf_only {
            scorer.list.idf_score
        } else {
            scorer.list.scores@[p]
        })
    ||| part == 0 && forall|p: int| !#[trigger] meets_at(scorer, doc, p)
}

/// The sum of `parts`.
pub open spec fn total(parts: Seq<int>) -> int {
    parts.fold_left(0, |sum: int, part: int| sum + part)
}

/// Some term contains `doc`.
pub open spec fn is_met(scorers: Seq<TermScorer>, doc: DocId) -> bool {
    exists|i: int, p: int| 0 <= i < scorers.len() && #[trigger] meets_at(scorers[i], doc, p)
}

/// `parts` are what the terms give to `doc`, one by one.
pub open spec fn are_parts(
    scorers: Seq<TermScorer>,
    idf_only: bool,
    doc: DocId,
    parts: Seq<int>,
) -> bool {
    &&& parts.len() == scorers.len()
    &&& forall|i: int|
        0 <= i < scorers.len() ==> gives(scorers[i], idf_only, doc, #[trigger] parts[i])
}

/// `doc` is in some term, and its terms give it `score` together.
pub open spec fn earns(
    scorers: Seq<TermScorer>,
    idf_only: bool,
    doc: DocId,
    score: int,
) -> bool {
    &&& is_met(scorers, doc)
    &&& exists|parts: Seq<int>| #[trigger]
        are_parts(scorers, idf_only, doc, parts) && score == total(parts)
}

/// A list is well-formed exactly if it is sound, and that is what is checked.
pub proof fn law_sound_lists(list: PostingList, valid: bool)
    requires
        call_ensures(PostingList::is_wf, (&list,), valid),
    ensures
        call_requires(PostingList::is_wf, (&list,)),
        list.wf() <==> is_sound(list),
        valid <==> is_sound(list),
{
    lemma_sound(list);
}

pub proof fn lemma_sound(list: PostingList)
    ensures
        list.wf() <==> is_sound(list),
{
}

/// A list holds the documents and the scores that it was made from. Each bound is met or 0: no
/// lower one would do.
pub proof fn law_made_list(
    docs: Vec<DocId>,
    scores: Vec<Score>,
    idf_score: Score,
    global_doc_freq: u64,
    list: PostingList,
)
    requires
        scores@.len() == docs@.len(),
        forall|i: int, j: int| 0 <= i < j < docs@.len() ==> #[trigger] docs@[i] < #[trigger] docs@[j],
        forall|i: int| 0 <= i < docs@.len() ==> #[trigger] docs@[i] < 0x7fff_ffff,
        forall|i: int| 0 <= i < scores@.len() ==> 0 <= #[trigger] scores@[i],
        0 <= idf_score,
        call_ensures(PostingList::new, (docs, scores, idf_score, global_doc_freq), list),
    ensures
        call_requires(PostingList::new, (docs, scores, idf_score, global_doc_freq)),
        is_sound(list),
        list.docs@ == docs@,
        list.scores@ == scores@,
        list.idf_score == idf_score,
        list.global_doc_freq == global_doc_freq,
        list.max_score == 0 || exists|j: int|
            0 <= j < scores@.len() && #[trigger] scores@[j] == list.max_score,
        forall|b: int|
            0 <= b < list.block_max_scores@.len() ==> (#[trigger] list.block_max_scores@[b] == 0
                || exists|j: int|
                0 <= j < scores@.len() && j / 128 == b && #[trigger] scores@[j]
                    == list.block_max_scores@[b]),
{
    lemma_sound(list);
    assert forall|b: int| 0 <= b < list.block_max_scores@.len() implies (
    #[trigger] list.block_max_scores@[b] == 0 || exists|j: int|
        0 <= j < scores@.len() && j / 128 == b && #[trigger] scores@[j]
            == list.block_max_scores@[b]) by {
        if list.block_max_scores@[b] != 0 {
            let j = choose|j: int|
                b * 128 <= j < (b + 1) * 128 && j < scores@.len() && #[trigger] scores@[j]
                    == list.block_max_scores@[b];
            assert(j / 128 == b);
        }
    }
}

pub proof fn lemma_stands(scorer: TermScorer)
    ensures
        stands(scorer) <==> scorer.wf() && scorer.is_loaded(),
{
    lemma_sound(*scorer.list);
}

pub proof fn lemma_all_stand(scorers: Seq<TermScorer>)
    ensures
        all_stand(scorers) <==> all_ready(scorers),
{
    assert forall|i: int| 0 <= i < scorers.len() implies (stands(#[trigger] scorers[i])
        <==> scorers[i].wf() && scorers[i].is_loaded()) by {
        lemma_stands(scorers[i]);
    }
}

/// What a cursor meets, and what its term gives to it, is what the list stores from the cursor on.
pub proof fn law_score_at(scorer: TermScorer, doc: DocId)
    requires
        stands(scorer),
    ensures
        scorer.matches(doc) <==> exists|p: int| #[trigger] meets_at(scorer, doc, p),
        forall|p: int| #[trigger]
            meets_at(scorer, doc, p) ==> scorer.score_at(doc) == scorer.list.scores@[p],
        !scorer.matches(doc) ==> scorer.score_at(doc) == 0,
{
    lemma_stands(scorer);
    assert forall|p: int| #[trigger] meets_at(scorer, doc, p) implies scorer.matches(doc)
        && scorer.score_at(doc) == scorer.list.scores@[p] by {
        scorer.list.lemma_position(p);
    }
    if scorer.matches(doc) {
        let p = scorer.list.position(doc);
        assert(scorer.list.docs@[p] == doc);
        assert(meets_at(scorer, doc, p));
    }
}

/// What a term gives is determined.
proof fn lemma_gives(scorer: TermScorer, doc: DocId, part: int)
    requires
        stands(scorer),
    ensures
        gives(scorer, false, doc, part) <==> part == term_score(doc)(scorer),
        gives(scorer, true, doc, part) <==> part == term_idf(doc)(scorer),
{
    law_score_at(scorer, doc);
    if scorer.matches(doc) {
        let p = choose|p: int| #[trigger] meets_at(scorer, doc, p);
        assert(meets_at(scorer, doc, p));
    }
}

pub proof fn lemma_total<A>(s: Seq<A>, f: spec_fn(A) -> int, parts: Seq<int>)
    requires
        parts.len() == s.len(),
        forall|i: int| 0 <= i < s.len() ==> #[trigger] parts[i] == f(s[i]),
    ensures
        total(parts) == sum_by(s, f),
    decreases s.len(),
{
    if s.len() > 0 {
        let shorter = parts.drop_last();
        assert forall|i: int| 0 <= i < s.drop_last().len() implies #[trigger] shorter[i] == f(
            s.drop_last()[i],
        ) by {
            assert(shorter[i] == parts[i]);
        }
        lemma_total(s.drop_last(), f, shorter);
        assert(parts[s.len() - 1] == f(s[s.len() - 1]));
    }
}

/// A document is among the scored ones exactly if some term contains it, and its score is the sum
/// of what its terms give it.
pub proof fn law_scored_docs(scorers: Seq<TermScorer>, doc: DocId, score: int)
    requires
        all_stand(scorers),
    ensures
        scored_docs(scorers).contains_key(doc) <==> is_met(scorers, doc),
        idf_scored_docs(scorers).contains_key(doc) <==> is_met(scorers, doc),
        is_met(scorers, doc) ==> (earns(scorers, false, doc, score) <==> score == scored_docs(
            scorers,
        )[doc]),
        is_met(scorers, doc) ==> (earns(scorers, true, doc, score) <==> score == idf_scored_docs(
            scorers,
        )[doc]),
{
    if any_matches(scorers, doc) {
        let i = choose|i: int| 0 <= i < scorers.len() && (#[trigger] scorers[i]).matches(doc);
        law_score_at(scorers[i], doc);
        let p = choose|p: int| #[trigger] meets_at(scorers[i], doc, p);
        assert(meets_at(scorers[i], doc, p));
    }
    if is_met(scorers, doc) {
        let (i, p) = choose|i: int, p: int|
            0 <= i < scorers.len() && #[trigger] meets_at(scorers[i], doc, p);
        law_score_at(scorers[i], doc);
        assert(scorers[i].matches(doc));
    }
    lemma_earned(scorers, false, doc, score, term_score(doc));
    lemma_earned(scorers, true, doc, score, term_idf(doc));
}

proof fn lemma_earned<'a>(
    scorers: Seq<TermScorer<'a>>,
    idf_only: bool,
    doc: DocId,
    score: int,
    f: spec_fn(TermScorer<'a>) -> int,
)
    requires
        all_stand(scorers),
        f == (if idf_only {
            term_idf(doc)
        } else {
            term_score(doc)
        }),
    ensures
        is_met(scorers, doc) ==> (earns(scorers, idf_only, doc, score) <==> score == sum_by(
            scorers,
            f,
        )),
{
    let parts = Seq::new(scorers.len(), |i: int| f(scorers[i]));
    assert(are_parts(scorers, idf_only, doc, parts)) by {
        assert forall|i: int| 0 <= i < scorers.len() implies gives(
            scorers[i],
            idf_only,
            doc,
            #[trigger] parts[i],
        ) by {
            lemma_gives(scorers[i], doc, parts[i]);
        }
    }
    lemma_total(scorers, f, parts);
    if earns(scorers, idf_only, doc, score) {
        let own = choose|own: Seq<int>| #[trigger]
            are_parts(scorers, idf_only, doc, own) && score == total(own);
        assert forall|i: int| 0 <= i < scorers.len() implies #[trigger] own[i] == f(scorers[i]) by {
            lemma_gives(scorers[i], doc, own[i]);
        }
        lemma_total(scorers, f, own);
    }
}

/// A new cursor stands on the first posting.
pub proof fn law_new_cursor<'a>(list: &'a PostingList, scorer: TermScorer<'a>)
    requires
        is_sound(*list),
        call_ensures(TermScorer::<'a>::new, (list,), scorer),
    ensures
        call_requires(TermScorer::<'a>::new, (list,)),
        stands(scorer),
        scorer.list == list,
        scorer.cursor == 0,
{
    lemma_sound(*list);
    lemma_stands(scorer);
}

/// The document and the score of a cursor are those of its posting. Behind the last posting, the
/// document is the highest 31-bit number.
pub proof fn law_current_posting<'a>(scorer: TermScorer<'a>, doc: DocId, score: Score)
    requires
        stands(scorer),
        call_ensures(TermScorer::<'a>::doc, (&scorer,), doc),
        call_ensures(TermScorer::<'a>::score, (&scorer,), score),
    ensures
        call_requires(TermScorer::<'a>::doc, (&scorer,)),
        scorer.cursor < scorer.list.docs@.len() ==> {
            &&& call_requires(TermScorer::<'a>::score, (&scorer,))
            &&& doc == scorer.list.docs@[scorer.cursor as int]
            &&& score == scorer.list.scores@[scorer.cursor as int]
        },
        scorer.cursor == scorer.list.docs@.len() ==> doc == 0x7fff_ffff,
{
    lemma_stands(scorer);
    if scorer.cursor < scorer.list.docs@.len() {
        scorer.list.lemma_position(scorer.cursor as int);
    }
}

/// What a list says of its term as a whole.
pub proof fn law_term_facts<'a>(
    scorer: TermScorer<'a>,
    max_score: Score,
    idf_score: Score,
    freq: u64,
    size: usize,
)
    requires
        call_ensures(TermScorer::<'a>::max_score, (&scorer,), max_score),
        call_ensures(TermScorer::<'a>::idf_score, (&scorer,), idf_score),
        call_ensures(TermScorer::<'a>::global_doc_freq, (&scorer,), freq),
        call_ensures(TermScorer::<'a>::size_hint, (&scorer,), size),
    ensures
        max_score == scorer.list.max_score,
        idf_score == scorer.list.idf_score,
        freq == scorer.list.global_doc_freq,
        size == scorer.list.docs@.len(),
{
}

/// A block is 128 postings. The last document of a full block is the document of its last posting,
/// and no score in the block exceeds its bound.
pub proof fn law_current_block<'a>(
    scorer: TermScorer<'a>,
    block: int,
    last: DocId,
    bound: Score,
    p: int,
)
    requires
        is_sound(*scorer.list),
        scorer.cursor <= scorer.list.docs@.len(),
        scorer.cursor / 128 <= scorer.block,
        scorer.block <= scorer.list.docs@.len() / 128,
        block == scorer.block,
        call_ensures(TermScorer::<'a>::last_doc_in_block, (&scorer,), last),
        call_ensures(TermScorer::<'a>::block_max_score, (&scorer,), bound),
        block * 128 <= p < (block + 1) * 128,
        p < scorer.list.docs@.len(),
    ensures
        call_requires(TermScorer::<'a>::last_doc_in_block, (&scorer,)),
        call_requires(TermScorer::<'a>::block_max_score, (&scorer,)),
        scorer.list.docs@[p] <= last,
        scorer.list.scores@[p] <= bound,
        bound == scorer.list.block_max_scores@[block],
        p == block * 128 + 127 ==> last == scorer.list.docs@[p],
        scorer.list.docs@.len() < (block + 1) * 128 ==> last == 0x7fff_ffff,
{
    lemma_sound(*scorer.list);
    assert(p / 128 == block);
    if scorer.list.docs@.len() >= (block + 1) * 128 {
        let end = block * 128 + 127;
        if p < end {
            assert(scorer.list.docs@[p] < scorer.list.docs@[end]);
        }
    }
}

/// The last block has no last document.
pub proof fn law_last_block<'a>(scorer: TermScorer<'a>, last: DocId)
    requires
        scorer.block == scorer.list.docs@.len() / 128,
        call_ensures(TermScorer::<'a>::last_doc_in_block, (&scorer,), last),
    ensures
        last == 0x7fff_ffff,
{
}

/// Seeking passes the postings before the target, and stops at the first other one.
pub proof fn law_seek<'a>(scorer: &mut TermScorer<'a>, target: DocId, doc: DocId)
    requires
        stands(*old(scorer)),
        target <= 0x7fff_ffff,
        call_ensures(TermScorer::<'a>::seek, (scorer, target), doc),
    ensures
        call_requires(TermScorer::<'a>::seek, (scorer, target)),
        stands(*final(scorer)),
        final(scorer).list == old(scorer).list,
        final(scorer).cursor >= old(scorer).cursor,
        forall|p: int|
            old(scorer).cursor <= p < final(scorer).cursor ==> #[trigger] old(scorer).list.docs@[p]
                < target,
        final(scorer).cursor < old(scorer).list.docs@.len() ==> {
            &&& doc == old(scorer).list.docs@[final(scorer).cursor as int]
            &&& doc >= target
        },
        final(scorer).cursor == old(scorer).list.docs@.len() ==> doc == 0x7fff_ffff,
{
    lemma_stands(*old(scorer));
    lemma_stands(*final(scorer));
}

/// Advancing goes to the next posting.
pub proof fn law_advance<'a>(scorer: &mut TermScorer<'a>, doc: DocId)
    requires
        stands(*old(scorer)),
        call_ensures(TermScorer::<'a>::advance, (scorer,), doc),
    ensures
        call_requires(TermScorer::<'a>::advance, (scorer,)),
        stands(*final(scorer)),
        final(scorer).list == old(scorer).list,
        old(scorer).cursor < old(scorer).list.docs@.len() ==> final(scorer).cursor == old(scorer).cursor + 1,
        old(scorer).cursor == old(scorer).list.docs@.len() ==> final(scorer).cursor == old(scorer).cursor,
        final(scorer).cursor < old(scorer).list.docs@.len() ==> doc == old(scorer).list.docs@[final(scorer).cursor as int],
        final(scorer).cursor == old(scorer).list.docs@.len() ==> doc == 0x7fff_ffff,
{
    lemma_stands(*old(scorer));
    lemma_stands(*final(scorer));
}

/// Seeking a block passes the blocks that end before the target, and leaves the cursor.
pub proof fn law_seek_block<'a>(scorer: &mut TermScorer<'a>, target: DocId, b: int)
    requires
        is_sound(*old(scorer).list),
        old(scorer).cursor <= old(scorer).list.docs@.len(),
        old(scorer).cursor / 128 <= old(scorer).block <= old(scorer).list.docs@.len() / 128,
        target <= 0x7fff_ffff,
        call_ensures(TermScorer::<'a>::seek_block, (scorer, target), ()),
        0 <= b,
        (b + 1) * 128 <= old(scorer).list.docs@.len(),
    ensures
        call_requires(TermScorer::<'a>::seek_block, (scorer, target)),
        final(scorer).list == old(scorer).list,
        final(scorer).cursor == old(scorer).cursor,
        old(scorer).block <= final(scorer).block <= old(scorer).list.docs@.len() / 128,
        old(scorer).block <= b < final(scorer).block ==> old(scorer).list.docs@[b * 128 + 127]
            < target,
        b == final(scorer).block ==> old(scorer).list.docs@[b * 128 + 127] >= target,
{
    lemma_sound(*old(scorer).list);
}

/// A document of a bitset is deleted exactly if its own flag is not set; those beyond the flags are.
pub proof fn law_is_deleted(bitset: AliveBitSet, doc: DocId, deleted: bool)
    requires
        call_ensures(AliveBitSet::is_deleted, (&bitset, doc), deleted),
    ensures
        call_requires(AliveBitSet::is_deleted, (&bitset, doc)),
        doc < bitset.alive@.len() ==> deleted == !bitset.alive@[doc as int],
        doc >= bitset.alive@.len() ==> deleted,
        bitset.is_alive(doc) == !deleted,
{
}

/// Deleting one document changes what is said of it, and of no other.
pub proof fn law_delete_one(
    before: AliveBitSet,
    after: AliveBitSet,
    gone: DocId,
    doc: DocId,
    deleted_before: bool,
    deleted_after: bool,
)
    requires
        gone < before.alive@.len(),
        after.alive@ == before.alive@.update(gone as int, false),
        call_ensures(AliveBitSet::is_deleted, (&before, doc), deleted_before),
        call_ensures(AliveBitSet::is_deleted, (&after, doc), deleted_after),
    ensures
        doc == gone ==> deleted_after,
        doc != gone ==> deleted_after == deleted_before,
{
}

/// `doc` has not been deleted from a segment: the segment has no flags, or that of `doc` is set.
pub open spec fn survives(reader: SegmentReader, doc: DocId) -> bool {
    reader.alive_bitset is None || (doc < reader.alive_bitset->0.alive@.len()
        && reader.alive_bitset->0.alive@[doc as int])
}

/// A reader hands out its flags.
pub proof fn law_reader_flags(reader: SegmentReader, bitset: Option<&AliveBitSet>, doc: DocId)
    requires
        call_ensures(SegmentReader::alive_bitset, (&reader,), bitset),
    ensures
        bitset is Some <==> reader.alive_bitset is Some,
        bitset is Some ==> bitset->0.alive@ == reader.alive_bitset->0.alive@,
        reader.is_alive(doc) <==> survives(reader, doc),
{
}

/// The address of a document.
pub proof fn law_address(segment_ord: u32, doc_id: DocId, address: DocAddress)
    requires
        call_ensures(DocAddress::new, (segment_ord, doc_id), address),
    ensures
        address.segment_ord == segment_ord,
        address.doc_id == doc_id,
{
}

/// How far apart two numbers are.
pub open spec fn distance(a: int, b: int) -> int {
    if a <= b {
        b - a
    } else {
        a - b
    }
}

/// No other score is nearer to a difference than the one that stands for it.
pub proof fn law_nearest_difference(a: Score, b: Score, difference: Score, other: Score)
    requires
        call_ensures(saturating_difference, (a, b), difference),
    ensures
        call_requires(saturating_difference, (a, b)),
        distance(difference as int, a - b) <= distance(other as int, a - b),
{
}

} // verus!
