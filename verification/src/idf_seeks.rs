//! How often the scorers are moved while an intersection is walked.
use vstd::prelude::*;

use crate::idf_align::{alignment, Alignment};
use crate::idf_counts::{lemma_threshold_at_extended, lemma_threshold_at_later, threshold_at};
use crate::idf_lists::{heaviest_first, neg_idf_fn, promotes};
use crate::idf_terms::{weight, Term};
use crate::idf_walk::{is_driver, score_terms, Scored};
use crate::pruning::Call;
use crate::sorting::same_ties;
use crate::term_scorer::TermScorer;
use crate::types::Score;

verus! {

/// The state of the walk over the intersection: the scorers, the absolutely essential terms, the
/// remaining ones, and the threshold.
pub struct Meeting<'a> {
    pub scorers: Seq<TermScorer<'a>>,
    pub abs: Seq<Term>,
    pub rest: Seq<Term>,
    pub threshold: Score,
}

impl<'a> Meeting<'a> {
    /// The absolutely essential terms meet on a document.
    pub open spec fn aligned(self) -> Alignment<'a> {
        alignment(self.scorers, self.abs)
    }

    /// The remaining terms are scored on that document.
    pub open spec fn scored(self) -> Scored<'a> {
        score_terms(
            self.aligned().scorers,
            self.rest,
            self.aligned().found->0,
            self.threshold,
            weight(self.abs),
        )
    }

    /// From one document to the next: the first of the absolutely essential terms is advanced, and
    /// a higher threshold promotes terms.
    pub open spec fn goes_on(self, total_idf: int, calls: Seq<Call>, next: Meeting<'a>) -> bool {
        let driver = self.abs[0].index as int;
        let scorers = self.scored().scorers;
        &&& self.aligned().found is Some
        &&& next.scorers == scorers.update(driver, scorers[driver].advanced())
        &&& next.threshold == threshold_at(self.threshold, calls, self.aligned().found->0 + 1)
        &&& if next.threshold > self.threshold {
            promotes(self.abs, self.rest, total_idf, next.threshold, next.abs, next.rest)
        } else {
            next.abs == self.abs && next.rest == self.rest
        }
    }

    /// The walk starts with the terms `abs` and `rest`: the term with the fewest postings goes
    /// first, and the remaining ones go by falling weight.
    pub open spec fn starts(
        self,
        scorers: Seq<TermScorer<'a>>,
        abs: Seq<Term>,
        rest: Seq<Term>,
        threshold: Score,
    ) -> bool {
        &&& self.scorers == scorers
        &&& self.threshold == threshold
        &&& exists|place: int| #[trigger]
            is_driver(scorers, abs, place) && self.abs == abs.update(place, abs[0]).update(
                0,
                abs[place],
            )
        &&& self.rest.to_multiset() == rest.to_multiset()
        &&& heaviest_first(self.rest)
        &&& same_ties(rest, self.rest, neg_idf_fn())
    }
}

/// The states of a walk over an intersection, up to the last one so far.
pub open spec fn are_meetings(total_idf: int, calls: Seq<Call>, states: Seq<Meeting>) -> bool {
    &&& states.len() > 0
    &&& forall|i: int|
        0 < i < states.len() ==> states[i - 1].goes_on(total_idf, calls, #[trigger] states[i])
}

/// How often scorers were moved before the last state.
pub open spec fn seeks_before(states: Seq<Meeting>) -> int
    decreases states.len(),
{
    if states.len() <= 1 {
        0
    } else {
        let state = states[states.len() - 2];
        seeks_before(states.drop_last()) + state.aligned().seeks + state.scored().seeks
    }
}

/// A whole walk over an intersection moves the scorers `seeks` times: it ends when the absolutely
/// essential terms do not meet again.
pub open spec fn meets_with(
    total_idf: int,
    calls: Seq<Call>,
    states: Seq<Meeting>,
    seeks: int,
) -> bool {
    &&& are_meetings(total_idf, calls, states)
    &&& states.last().aligned().found is None
    &&& seeks == seeks_before(states) + states.last().aligned().seeks
}

/// What holds of a walk while it goes on: the terms have met before `floor`.
#[verifier::opaque]
pub open spec fn meet_on(
    total_idf: int,
    calls: Seq<Call>,
    states: Seq<Meeting>,
    floor: int,
) -> bool {
    &&& are_meetings(total_idf, calls, states)
    &&& forall|i: int|
        0 <= i < states.len() - 1 ==> (#[trigger] states[i]).aligned().found->0 < floor
}

/// A walk of one state.
pub proof fn lemma_meeting_starts(
    total_idf: int,
    calls: Seq<Call>,
    states: Seq<Meeting>,
    floor: int,
)
    requires
        states.len() == 1,
    ensures
        meet_on(total_idf, calls, states, floor),
        seeks_before(states) == 0,
{
    reveal(meet_on);
}

/// Later calls do not change a walk.
pub proof fn lemma_meeting_extended(
    total_idf: int,
    calls: Seq<Call>,
    fresh: Seq<Call>,
    states: Seq<Meeting>,
    floor: int,
)
    requires
        meet_on(total_idf, calls, states, floor),
        forall|i: int| 0 <= i < fresh.len() ==> (#[trigger] fresh[i]).doc >= floor,
    ensures
        meet_on(total_idf, calls + fresh, states, floor),
{
    reveal(meet_on);
    assert forall|i: int| 0 < i < states.len() implies states[i - 1].goes_on(
        total_idf,
        calls + fresh,
        #[trigger] states[i],
    ) by {
        assert(states[i - 1].goes_on(total_idf, calls, states[i]));
        lemma_threshold_at_extended(
            states[i - 1].threshold,
            calls,
            fresh,
            states[i - 1].aligned().found->0 + 1,
        );
    }
}

/// One more state of a walk.
pub proof fn lemma_meeting_on<'a>(
    total_idf: int,
    calls: Seq<Call>,
    states: Seq<Meeting<'a>>,
    floor: int,
    next: Meeting<'a>,
    later: int,
)
    requires
        meet_on(total_idf, calls, states, floor),
        states.len() > 0,
        states.last().goes_on(total_idf, calls, next),
        states.last().aligned().found->0 < later,
        floor <= later,
    ensures
        meet_on(total_idf, calls, states.push(next), later),
        seeks_before(states.push(next)) == seeks_before(states) + states.last().aligned().seeks
            + states.last().scored().seeks,
{
    reveal(meet_on);
    let longer = states.push(next);
    assert(longer.drop_last() =~= states);
    assert forall|i: int| 0 < i < longer.len() implies longer[i - 1].goes_on(
        total_idf,
        calls,
        #[trigger] longer[i],
    ) by {
        assert(longer[i - 1] == states[i - 1]);
        if i < states.len() {
            assert(longer[i] == states[i]);
        }
    }
    assert forall|i: int| 0 <= i < longer.len() - 1 implies (
    #[trigger] longer[i]).aligned().found->0 < later by {
        assert(longer[i] == states[i]);
    }
}

/// The states with all calls: answers that are not above the first threshold do not count.
pub proof fn lemma_meetings_later(
    total_idf: int,
    earlier: Seq<Call>,
    fresh: Seq<Call>,
    states: Seq<Meeting>,
    seeks: int,
)
    requires
        meets_with(total_idf, fresh, states, seeks),
        forall|i: int|
            0 <= i < earlier.len() ==> (#[trigger] earlier[i]).threshold <= states[0].threshold,
    ensures
        meets_with(total_idf, earlier + fresh, states, seeks),
{
    assert forall|i: int| 0 < i < states.len() implies states[i - 1].goes_on(
        total_idf,
        earlier + fresh,
        #[trigger] states[i],
    ) by {
        assert(states[i - 1].goes_on(total_idf, fresh, states[i]));
        lemma_meeting_rises(total_idf, fresh, states, i - 1);
        lemma_threshold_at_later(
            states[i - 1].threshold,
            earlier,
            fresh,
            states[i - 1].aligned().found->0 + 1,
        );
    }
}

/// The threshold does not fall.
proof fn lemma_meeting_rises(total_idf: int, calls: Seq<Call>, states: Seq<Meeting>, i: int)
    requires
        are_meetings(total_idf, calls, states),
        0 <= i < states.len(),
    ensures
        states[i].threshold >= states[0].threshold,
    decreases i,
{
    if i > 0 {
        lemma_meeting_rises(total_idf, calls, states, i - 1);
        assert(states[i - 1].goes_on(total_idf, calls, states[i]));
        let none: Seq<Call> = Seq::empty();
        lemma_threshold_at_later(
            states[i - 1].threshold,
            none,
            calls,
            states[i - 1].aligned().found->0 + 1,
        );
    }
}

} // verus!
