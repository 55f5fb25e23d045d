//! One ingestion run: which records are looked at, and what is counted.
//!
//! A run takes its records in order. A record older than the cutoff is
//! passed over; so is one whose canonical text the run has already admitted.
//! Every other record is admitted and then settled: the caller embeds it,
//! measures its distance to each centroid, and is told whether it matched.
//! The run itself never touches a vector: it decides, and it counts.

use vstd::prelude::*;
use vstd::hash_set::StringHashSet;
use crate::matching::MatchDecision;
use crate::matching::classify;
use crate::matching::is_decision;
use crate::matching::within_reach;
use crate::records::Timestamp;

verus! {

/// What a run does with a record that is offered to it.
#[derive(Clone, Copy, Debug, PartialEq, Eq, Structural)]
pub enum Admission {
    /// The record is older than the cutoff and is passed over.
    TooOld,
    /// The run has already admitted this canonical text.
    Duplicate,
    /// The record is to be embedded and settled.
    Admitted,
}

/// The state of a run, as contracts see it.
pub struct RunState {
    /// Records strictly older than this are passed over.
    pub cutoff: Timestamp,
    /// A message matches if its nearest distance is strictly below this.
    pub threshold: u64,
    /// The canonical texts admitted so far.
    pub seen: Set<Seq<char>>,
    /// The number of records admitted so far.
    pub total: nat,
    /// The number of admitted records that matched a centroid.
    pub matched: nat,
    /// The number of admitted records that matched none.
    pub unmatched: nat,
}

impl RunState {
    /// The state of a run that has seen nothing yet.
    pub open spec fn start(cutoff: Timestamp, threshold: u64) -> RunState {
        RunState { cutoff, threshold, seen: Set::empty(), total: 0, matched: 0, unmatched: 0 }
    }

    /// What the counters of any run obey: each admitted text is counted
    /// once, and no more records are settled than were admitted.
    pub open spec fn consistent(self) -> bool {
        &&& self.seen.finite()
        &&& self.total == self.seen.len()
        &&& self.matched + self.unmatched <= self.total
    }

    /// Whether every admitted record has been settled.
    pub open spec fn settled(self) -> bool {
        self.matched + self.unmatched == self.total
    }

    /// What the run does with a record of this time and canonical text.
    pub open spec fn admission(self, timestamp: Timestamp, canonical: Seq<char>) -> Admission {
        if timestamp.precedes(self.cutoff) {
            Admission::TooOld
        } else if self.seen.contains(canonical) {
            Admission::Duplicate
        } else {
            Admission::Admitted
        }
    }

    /// The state after a record was offered: unchanged unless it is
    /// admitted, in which case its text is remembered and it is counted.
    pub open spec fn offered(self, timestamp: Timestamp, canonical: Seq<char>) -> RunState {
        if self.admission(timestamp, canonical) is Admitted {
            RunState { seen: self.seen.insert(canonical), total: self.total + 1, ..self }
        } else {
            self
        }
    }

    /// The state after the oldest unsettled record was settled, as a match
    /// or not: unchanged if no record awaits it.
    pub open spec fn settled_as(self, matched: bool) -> RunState {
        if self.settled() {
            self
        } else if matched {
            RunState { matched: self.matched + 1, ..self }
        } else {
            RunState { unmatched: self.unmatched + 1, ..self }
        }
    }
}

/// One ingestion run.
pub struct IngestRun {
    cutoff: Timestamp,
    threshold: u64,
    seen: StringHashSet,
    total: usize,
    matched: usize,
    unmatched: usize,
}

impl View for IngestRun {
    type V = RunState;

    closed spec fn view(&self) -> RunState {
        RunState {
            cutoff: self.cutoff,
            threshold: self.threshold,
            seen: self.seen@,
            total: self.total as nat,
            matched: self.matched as nat,
            unmatched: self.unmatched as nat,
        }
    }
}

impl IngestRun {
    #[verifier::type_invariant]
    spec fn inv(&self) -> bool {
        self@.consistent()
    }

    /// A run that has seen nothing yet.
    pub fn new(cutoff: Timestamp, threshold: u64) -> (run: Self)
        ensures
            run@ == RunState::start(cutoff, threshold),
            run@.consistent(),
    {
        IngestRun { cutoff, threshold, seen: StringHashSet::new(), total: 0, matched: 0, unmatched: 0 }
    }

    /// Offers a record to the run. A record strictly older than the cutoff
    /// changes nothing; neither does one whose canonical text was admitted
    /// before. Any other record is admitted: its text is remembered and the
    /// total grows by one.
    pub fn offer(&mut self, timestamp: Timestamp, canonical: &str) -> (admission: Admission)
        ensures
            admission == old(self)@.admission(timestamp, canonical@),
            final(self)@ == old(self)@.offered(timestamp, canonical@),
            final(self)@.consistent(),
    {
        proof {
            use_type_invariant(&*self);
        }
        if timestamp.is_before(&self.cutoff) {
            return Admission::TooOld;
        }
        if self.seen.contains(canonical) {
            return Admission::Duplicate;
        }
        let ghost before = self@;
        let mut run = IngestRun::new(self.cutoff, self.threshold);
        core::mem::swap(self, &mut run);
        let IngestRun { cutoff, threshold, mut seen, total, matched, unmatched } = run;
        let ghost had = seen@;
        seen.insert(String::from_str(canonical));
        proof {
            broadcast use vstd::hash_set::group_hash_set_axioms;

            assert(had.insert(canonical@).len() == had.len() + 1);
        }
        let total = seen.len();
        *self = IngestRun { cutoff, threshold, seen, total, matched, unmatched };
        proof {
            assert(self@ == before.offered(timestamp, canonical@));
        }
        Admission::Admitted
    }

    /// Settles the oldest admitted record that is not settled yet, given the
    /// distance of its message to each centroid, in the order of the
    /// centroids. The decision is that of [`classify`] under the threshold
    /// of the run, and is counted. Where no admitted record awaits a
    /// decision, nothing is decided and nothing changes.
    pub fn settle(&mut self, distances: &Vec<u64>) -> (decision: Option<MatchDecision>)
        ensures
            decision is Some <==> !old(self)@.settled(),
            decision matches Some(d) ==> is_decision(distances@, old(self)@.threshold, d) && (d is Matched
                <==> within_reach(distances@, old(self)@.threshold)),
            final(self)@ == old(self)@.settled_as(within_reach(distances@, old(self)@.threshold)),
            final(self)@.consistent(),
    {
        proof {
            use_type_invariant(&*self);
        }
        if self.matched + self.unmatched == self.total {
            return None;
        }
        let decision = classify(distances, self.threshold);
        match decision {
            MatchDecision::Matched { .. } => {
                self.matched = self.matched + 1;
            },
            MatchDecision::Unmatched { .. } => {
                self.unmatched = self.unmatched + 1;
            },
        }
        Some(decision)
    }

    /// The number of records admitted so far.
    pub fn total(&self) -> (n: usize)
        ensures
            n == self@.total,
    {
        self.total
    }

    /// The number of admitted records that matched a centroid.
    pub fn matched(&self) -> (n: usize)
        ensures
            n == self@.matched,
    {
        self.matched
    }

    /// The number of admitted records that did not match: those settled as
    /// unmatched, together with any that are not settled yet.
    pub fn unmatched(&self) -> (n: usize)
        ensures
            n == self@.total - self@.matched,
            self@.settled() ==> n == self@.unmatched,
    {
        proof {
            use_type_invariant(self);
        }
        self.total - self.matched
    }

    /// Whether every admitted record has been settled.
    pub fn is_settled(&self) -> (settled: bool)
        ensures
            settled == self@.settled(),
    {
        proof {
            use_type_invariant(self);
        }
        self.matched + self.unmatched == self.total
    }
}

/// What happens to a run: a record is offered, or the distances of an
/// admitted message arrive.
pub enum Event {
    Record { timestamp: Timestamp, canonical: Seq<char> },
    Distances { keys: Seq<u64> },
}

/// The state after one event.
pub open spec fn step(state: RunState, event: Event) -> RunState {
    match event {
        Event::Record { timestamp, canonical } => state.offered(timestamp, canonical),
        Event::Distances { keys } => state.settled_as(within_reach(keys, state.threshold)),
    }
}

/// The state after a sequence of events, taken in order.
pub open spec fn replay(state: RunState, events: Seq<Event>) -> RunState
    decreases events.len(),
{
    if events.len() == 0 {
        state
    } else {
        step(replay(state, events.drop_last()), events.last())
    }
}

/// Whether the event at position `i` is a record that the run admits when it
/// comes to it.
pub open spec fn admitted_at(state: RunState, events: Seq<Event>, i: int) -> bool {
    events[i] matches Event::Record { timestamp, canonical } && replay(
        state,
        events.take(i),
    ).admission(timestamp, canonical) is Admitted
}

/// Whether the event at position `i` settles a record.
pub open spec fn settles_at(state: RunState, events: Seq<Event>, i: int) -> bool {
    events[i] is Distances && !replay(state, events.take(i)).settled()
}

/// The number of records that a run admits over a sequence of events.
pub open spec fn admissions(state: RunState, events: Seq<Event>) -> nat
    decreases events.len(),
{
    if events.len() == 0 {
        0
    } else {
        admissions(state, events.drop_last()) + if admitted_at(state, events, events.len() - 1) {
            1nat
        } else {
            0nat
        }
    }
}

/// The number of records that a run settles over a sequence of events.
pub open spec fn settlements(state: RunState, events: Seq<Event>) -> nat
    decreases events.len(),
{
    if events.len() == 0 {
        0
    } else {
        settlements(state, events.drop_last()) + if settles_at(state, events, events.len() - 1) {
            1nat
        } else {
            0nat
        }
    }
}

/// The canonical texts of the records in `events` that are not older than
/// `cutoff`.
pub open spec fn fresh_texts(cutoff: Timestamp, events: Seq<Event>) -> Set<Seq<char>> {
    Set::new(
        |text: Seq<char>|
            exists|i: int|
                0 <= i < events.len() && (#[trigger] events[i] matches Event::Record {
                    timestamp,
                    canonical,
                } && canonical == text && !timestamp.precedes(cutoff)),
    )
}

/// Conservation. Whatever happens to a run, its counters stay consistent:
/// the total is the number of records admitted, which is the number of
/// distinct texts admitted; the matched and unmatched together are the
/// records settled, never more than the total; and once every admitted
/// record is settled, matched and unmatched add up to the total.
pub proof fn law_conservation(state: RunState, events: Seq<Event>)
    requires
        state.consistent(),
    ensures
        replay(state, events).consistent(),
        replay(state, events).cutoff == state.cutoff,
        replay(state, events).threshold == state.threshold,
        replay(state, events).total == state.total + admissions(state, events),
        replay(state, events).matched + replay(state, events).unmatched == state.matched
            + state.unmatched + settlements(state, events),
        replay(state, events).total == replay(state, events).seen.len(),
        replay(state, events).matched + replay(state, events).unmatched <= replay(
            state,
            events,
        ).total,
        replay(state, events).settled() ==> replay(state, events).matched + replay(
            state,
            events,
        ).unmatched == replay(state, events).total,
    decreases events.len(),
{
    if events.len() > 0 {
        let before = events.drop_last();
        law_conservation(state, before);
        assert(events.take(events.len() - 1) =~= before);
    }
}

/// What a run remembers: the texts it had admitted before, and the text of
/// every record since that is not older than the cutoff. A record older
/// than the cutoff adds nothing, and a text that comes twice is there once.
pub proof fn law_seen(state: RunState, events: Seq<Event>)
    requires
        state.consistent(),
    ensures
        replay(state, events).seen == state.seen.union(fresh_texts(state.cutoff, events)),
    decreases events.len(),
{
    let fresh = fresh_texts(state.cutoff, events);
    if events.len() == 0 {
        assert(replay(state, events).seen =~= state.seen.union(fresh));
    } else {
        let before = events.drop_last();
        law_seen(state, before);
        law_conservation(state, before);
        let earlier = fresh_texts(state.cutoff, before);
        let last = events.last();
        assert forall|text: Seq<char>| fresh.contains(text) <==> earlier.contains(text) || (
        last matches Event::Record { timestamp, canonical } && canonical == text
            && !timestamp.precedes(state.cutoff)) by {
            if earlier.contains(text) {
                let i = choose|i: int|
                    0 <= i < before.len() && (#[trigger] before[i] matches Event::Record {
                        timestamp,
                        canonical,
                    } && canonical == text && !timestamp.precedes(state.cutoff));
                assert(events[i] == before[i]);
            }
            if fresh.contains(text) {
                let i = choose|i: int|
                    0 <= i < events.len() && (#[trigger] events[i] matches Event::Record {
                        timestamp,
                        canonical,
                    } && canonical == text && !timestamp.precedes(state.cutoff));
                if i < before.len() {
                    assert(before[i] == events[i]);
                }
            }
            if last matches Event::Record { timestamp, canonical } && canonical == text
                && !timestamp.precedes(state.cutoff) {
                assert(events[events.len() - 1] == last);
            }
        }
        assert(replay(state, events).seen =~= state.seen.union(fresh));
    }
}

/// A run forgets nothing: a text admitted by some point is still remembered
/// at every later point.
pub proof fn law_seen_grows(state: RunState, events: Seq<Event>, i: int, j: int)
    requires
        0 <= i <= j <= events.len(),
    ensures
        replay(state, events.take(i)).seen.subset_of(replay(state, events.take(j)).seen),
    decreases j - i,
{
    if i < j {
        law_seen_grows(state, events, i, j - 1);
        assert(events.take(j).drop_last() =~= events.take(j - 1));
    }
}

/// Deduplication. Of two records of one run with the same canonical text, at
/// most one is admitted: the text is embedded, matched and counted once,
/// however often it comes.
pub proof fn law_dedup(state: RunState, events: Seq<Event>, i: int, j: int)
    requires
        0 <= i < j < events.len(),
        events[i] is Record,
        events[j] is Record,
        events[i]->canonical == events[j]->canonical,
    ensures
        !(admitted_at(state, events, i) && admitted_at(state, events, j)),
{
    if admitted_at(state, events, i) {
        let text = events[i]->canonical;
        assert(events.take(i + 1).drop_last() =~= events.take(i));
        assert(events.take(i + 1).last() == events[i]);
        assert(replay(state, events.take(i + 1)).seen.contains(text));
        law_seen_grows(state, events, i + 1, j);
    }
}

/// Time gating. A record strictly older than the cutoff is passed over by a
/// run in any state, and leaves that state as it was: the run goes on as if
/// the record had never been there.
pub proof fn law_time_gate(state: RunState, events: Seq<Event>, i: int)
    requires
        0 <= i < events.len(),
        state.consistent(),
        events[i] matches Event::Record { timestamp, .. } && timestamp.precedes(state.cutoff),
    ensures
        !admitted_at(state, events, i),
        replay(state, events.take(i + 1)) == replay(state, events.take(i)),
        replay(state, events) == replay(state, events.remove(i)),
    decreases events.len(),
{
    law_conservation(state, events.take(i));
    assert(events.take(i + 1).drop_last() =~= events.take(i));
    assert(events.take(i + 1).last() == events[i]);
    if i == events.len() - 1 {
        assert(events.take(i + 1) =~= events);
        assert(events.remove(i) =~= events.take(i));
    } else {
        let before = events.drop_last();
        assert(before[i] == events[i]);
        law_time_gate(state, before, i);
        assert(events.remove(i).drop_last() =~= before.remove(i));
        assert(events.remove(i).last() == events.last());
    }
}

} // verus!
