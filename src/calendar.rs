//! Calendars of events and the store that owns calendars and proposals.
use vstd::prelude::*;

use crate::error::TempoError;
use crate::event::{Event, EventId, EventOccurrence, OccurrenceView};
use crate::proposal::{
    all_conflicts, all_proposed_wf, detect_conflicts, Conflict, ConflictReport, Proposal, ProposalId,
    ProposedEvent,
};
use crate::event::uuid_text;
use crate::recurrence::{expand_event, expansion, expansion_failure, views};
use crate::sort::{
    lemma_permutation_contains, lemma_stable_sort_map, sort_by_start, sorted_by_start, stable_sort_by, start_keys,
};
use crate::time_utils::{
    all_wf, compute_free_busy, find_free_slots, free_busy_of, gaps, instant_ok, merged, FreeBusyResult,
    TimeRange,
};

verus! {

/// Every event of `s` is well formed.
pub open spec fn events_wf(s: Seq<Event>) -> bool {
    forall|i: int| 0 <= i < s.len() ==> (#[trigger] s[i]).wf()
}

/// No two events of `s` share an identifier.
pub open spec fn ids_distinct(s: Seq<Event>) -> bool {
    forall|i: int, j: int| #![trigger s[i], s[j]] 0 <= i < j < s.len() ==> s[i].id != s[j].id
}

/// Some event of `s` has identifier `id`.
pub open spec fn has_id(s: Seq<Event>, id: EventId) -> bool {
    exists|i: int| 0 <= i < s.len() && (#[trigger] s[i]).id == id
}

/// `i` is the first position of `s` that holds identifier `id`.
pub open spec fn first_with_id(s: Seq<Event>, id: EventId, i: int) -> bool {
    0 <= i < s.len() && s[i].id == id && forall|k: int| 0 <= k < i ==> (#[trigger] s[k]).id != id
}

/// `s` with `e` stored under its identifier: the event with that identifier
/// is replaced, or `e` is added at the end.
pub open spec fn with_event(s: Seq<Event>, e: Event) -> Seq<Event> {
    if has_id(s, e.id) {
        let i = choose|i: int| first_with_id(s, e.id, i);
        s.update(i, e)
    } else {
        s.push(e)
    }
}

/// Two positions that are both first with an identifier are one.
pub proof fn lemma_first_unique(s: Seq<Event>, id: EventId, i: int, j: int)
    requires
        first_with_id(s, id, i),
        first_with_id(s, id, j),
    ensures
        i == j,
{
    if i < j {
        assert(s[i].id != id);
    }
    if j < i {
        assert(s[j].id != id);
    }
}

/// The occurrences of all events of `s` within `[start, end)`, event by
/// event; `None` when one of them cannot be expanded.
pub open spec fn events_expansion(s: Seq<Event>, start: i64, end: i64) -> Option<Seq<OccurrenceView>>
    decreases s.len(),
{
    if s.len() == 0 {
        Some(seq![])
    } else {
        match (events_expansion(s.drop_last(), start, end), expansion(s.last(), start, end)) {
            (Some(a), Some(b)) => Some(a + b),
            _ => None,
        }
    }
}

/// `err` is the error of expanding the events of `s`: that of the first
/// event that cannot be expanded.
pub open spec fn events_failure(s: Seq<Event>, start: i64, end: i64, err: TempoError) -> bool
    decreases s.len(),
{
    if s.len() == 0 {
        false
    } else if events_expansion(s.drop_last(), start, end) is None {
        events_failure(s.drop_last(), start, end, err)
    } else {
        expansion_failure(s.last(), start, end, err)
    }
}

/// Once a prefix cannot be expanded, neither can the whole sequence, and
/// the error stays that of the prefix.
pub proof fn lemma_expansion_fails_onward(s: Seq<Event>, k: int, start: i64, end: i64, err: TempoError)
    requires
        0 <= k <= s.len(),
        events_expansion(s.take(k), start, end) is None,
        events_failure(s.take(k), start, end, err),
    ensures
        events_expansion(s, start, end) is None,
        events_failure(s, start, end, err),
    decreases s.len() - k,
{
    if k < s.len() {
        assert(s.take(k + 1).drop_last() =~= s.take(k));
        lemma_expansion_fails_onward(s, k + 1, start, end, err);
    } else {
        assert(s.take(k) =~= s);
    }
}

/// The occurrences `x` sorted by start; those with equal starts keep their
/// order in `x`.
pub open spec fn ordered(x: Seq<OccurrenceView>) -> Seq<OccurrenceView> {
    stable_sort_by(x, |o: OccurrenceView| o.2 as int)
}

/// `v` is exactly the occurrences `x` sorted by start (stably), all well formed.
pub open spec fn arranged(v: Seq<EventOccurrence>, x: Seq<OccurrenceView>) -> bool {
    &&& views(v) == ordered(x)
    &&& sorted_by_start(v)
    &&& forall|i: int| 0 <= i < v.len() ==> (#[trigger] v[i]).wf()
}

/// Sorts occurrences by start, keeping what they are.
fn sort_occurrences(v: Vec<EventOccurrence>) -> (r: Vec<EventOccurrence>)
    requires
        forall|i: int| 0 <= i < v@.len() ==> (#[trigger] v@[i]).wf(),
    ensures
        arranged(r@, views(v@)),
{
    let ghost before = v@;
    let r = sort_by_start(v);
    proof {
        let f = |o: EventOccurrence| o@;
        let kb = |o: OccurrenceView| o.2 as int;
        assert forall|a: EventOccurrence| #[trigger] kb(f(a)) == start_keys::<EventOccurrence>()(a) by {}
        lemma_stable_sort_map(before, f, start_keys::<EventOccurrence>(), kb);
        assert(views(r@) == r@.map_values(f));
        assert(views(before) == before.map_values(f));
        assert forall|i: int| 0 <= i < r@.len() implies (#[trigger] r@[i]).wf() by {
            lemma_permutation_contains(r@, before, i);
        }
    }
    r
}

/// A named collection of events, in insertion order; storing an event under
/// an identifier already present replaces that event.
#[derive(Debug)]
pub struct Calendar {
    name: String,
    events: Vec<Event>,
}

impl View for Calendar {
    type V = Seq<Event>;

    closed spec fn view(&self) -> Seq<Event> {
        self.events@
    }
}

impl Calendar {
    /// Every event is well formed, and no two share an identifier.
    pub open spec fn wf(&self) -> bool {
        events_wf(self@) && ids_distinct(self@)
    }

    /// The calendar's name.
    pub closed spec fn spec_name(&self) -> Seq<char> {
        self.name@
    }

    pub fn new(name: String) -> (r: Calendar)
        ensures
            r@ == Seq::<Event>::empty(),
            r.spec_name() == name@,
            r.wf(),
    {
        Calendar { name, events: Vec::new() }
    }

    /// Stores `event` under its identifier, replacing an event with the same
    /// identifier, and returns the identifier.
    pub fn add_event(&mut self, event: Event) -> (r: EventId)
        requires
            old(self).wf(),
            event.wf(),
        ensures
            r == event.id,
            final(self)@ == with_event(old(self)@, event),
            final(self).spec_name() == old(self).spec_name(),
            final(self).wf(),
    {
        let id = event.id;
        let ghost s = self.events@;
        let mut i: usize = 0;
        while i < self.events.len()
            invariant
                i <= self.events@.len(),
                s == self.events@,
                *self == *old(self),
                events_wf(s),
                ids_distinct(s),
                id == event.id,
                event.wf(),
                forall|k: int| 0 <= k < i ==> (#[trigger] self.events@[k]).id != id,
            decreases self.events@.len() - i,
        {
            if self.events[i].id == id {
                assert(first_with_id(s, id, i as int));
                assert(has_id(s, id));
                proof {
                    let c = choose|c: int| first_with_id(s, id, c);
                    lemma_first_unique(s, id, c, i as int);
                }
                self.events.set(i, event);
                assert(ids_distinct(self.events@)) by {
                    assert forall|a: int, b: int|
                        #![trigger self.events@[a], self.events@[b]]
                        0 <= a < b < self.events@.len() implies self.events@[a].id
                        != self.events@[b].id by {
                        assert(self.events@[a].id == s[a].id);
                        assert(self.events@[b].id == s[b].id);
                        assert(s[a].id != s[b].id);
                    }
                }
                assert(events_wf(self.events@)) by {
                    assert forall|a: int| 0 <= a < self.events@.len() implies (
                    #[trigger] self.events@[a]).wf() by {
                        if a != i {
                            assert(self.events@[a] == s[a]);
                        }
                    }
                }
                return id;
            }
            i = i + 1;
        }
        assert(!has_id(s, id));
        self.events.push(event);
        id
    }

    /// Removes the first event with identifier `id` and returns it, or
    /// `None` when there is none.
    pub fn remove_event(&mut self, id: &EventId) -> (r: Option<Event>)
        requires
            old(self).wf(),
        ensures
            final(self).spec_name() == old(self).spec_name(),
            final(self).wf(),
            match r {
                Some(e) => exists|i: int|
                    first_with_id(old(self)@, *id, i) && e == old(self)@[i] && final(self)@ == old(
                        self,
                    )@.remove(i),
                None => !has_id(old(self)@, *id) && final(self)@ == old(self)@,
            },
    {
        let ghost s = self.events@;
        let mut i: usize = 0;
        while i < self.events.len()
            invariant
                i <= self.events@.len(),
                s == self.events@,
                *self == *old(self),
                events_wf(s),
                ids_distinct(s),
                forall|k: int| 0 <= k < i ==> (#[trigger] self.events@[k]).id != *id,
            decreases self.events@.len() - i,
        {
            if self.events[i].id == *id {
                assert(first_with_id(s, *id, i as int));
                let e = self.events.remove(i);
                assert(events_wf(self.events@)) by {
                    assert forall|a: int| 0 <= a < self.events@.len() implies (
                    #[trigger] self.events@[a]).wf() by {
                        if a < i {
                            assert(self.events@[a] == s[a]);
                        } else {
                            assert(self.events@[a] == s[a + 1]);
                        }
                    }
                }
                assert(ids_distinct(self.events@)) by {
                    assert forall|a: int, b: int|
                        #![trigger self.events@[a], self.events@[b]]
                        0 <= a < b < self.events@.len() implies self.events@[a].id
                        != self.events@[b].id by {
                        let a0 = if a < i { a } else { a + 1 };
                        let b0 = if b < i { b } else { b + 1 };
                        assert(self.events@[a] == s[a0]);
                        assert(self.events@[b] == s[b0]);
                        assert(s[a0].id != s[b0].id);
                    }
                }
                assert(self.events@ == s.remove(i as int));
                assert(e == s[i as int]);
                assert(old(self)@ == s);
                assert(first_with_id(old(self)@, *id, i as int) && e == old(self)@[i as int]
                    && self@ == old(self)@.remove(i as int));
                return Some(e);
            }
            i = i + 1;
        }
        None
    }

    /// The stored events, in insertion order.
    pub fn events(&self) -> (r: &[Event])
        ensures
            r@ == self@,
    {
        self.events.as_slice()
    }

    /// Drops every event.
    pub fn clear(&mut self)
        ensures
            final(self)@ == Seq::<Event>::empty(),
            final(self).spec_name() == old(self).spec_name(),
            final(self).wf(),
    {
        self.events.clear();
    }

    /// Every occurrence of every event within `[start, end)`, sorted by start.
    pub fn occurrences_in_range(&self, start: i64, end: i64) -> (r: Result<Vec<EventOccurrence>, TempoError>)
        requires
            self.wf(),
            instant_ok(start as int),
            instant_ok(end as int),
        ensures
            r is Ok <==> events_expansion(self@, start, end) is Some,
            match r {
                Ok(v) => arranged(v@, events_expansion(self@, start, end)->0),
                Err(e) => events_failure(self@, start, end, e),
            },
    {
        let ghost s = self.events@;
        let mut all: Vec<EventOccurrence> = Vec::new();
        let mut i: usize = 0;
        while i < self.events.len()
            invariant
                i <= s.len(),
                s == self.events@,
                events_wf(s),
                instant_ok(start as int),
                instant_ok(end as int),
                events_expansion(s.take(i as int), start, end) == Some(views(all@)),
                forall|k: int| 0 <= k < all@.len() ==> (#[trigger] all@[k]).wf(),
            decreases s.len() - i,
        {
            assert(s.take(i + 1).drop_last() =~= s.take(i as int));
            assert(s.take(i + 1).last() == s[i as int]);
            assert(s[i as int].wf());
            match expand_event(&self.events[i], start, end) {
                Err(e) => {
                    proof {
                        lemma_expansion_fails_onward(s, i + 1, start, end, e);
                    }
                    return Err(e);
                },
                Ok(occs) => {
                    let ghost before = all@;
                    let ghost added = occs@;
                    let mut occs = occs;
                    all.append(&mut occs);
                    assert(views(all@) =~= views(before) + views(added)) by {
                        assert(all@ =~= before + added);
                    }
                    assert forall|k: int| 0 <= k < all@.len() implies (#[trigger] all@[k]).wf() by {
                        if k >= before.len() {
                            assert(all@[k] == added[k - before.len()]);
                        }
                    }
                },
            }
            i = i + 1;
        }
        assert(s.take(s.len() as int) =~= s);
        Ok(sort_occurrences(all))
    }
}

/// The lower-case form of a text, as Rust's `str::to_lowercase` gives it.
pub uninterp spec fn lower_of(s: Seq<char>) -> Seq<char>;

/// Relies on `str::to_lowercase`: the result depends on the characters alone.
#[verifier::external_body]
fn lowercase(s: &str) -> (r: String)
    ensures
        r@ == lower_of(s@),
{
    s.to_lowercase()
}

/// No two calendars of `cals` share a name.
pub open spec fn names_distinct(cals: Seq<Calendar>) -> bool {
    forall|i: int, j: int|
        #![trigger cals[i], cals[j]]
        0 <= i < j < cals.len() ==> cals[i].spec_name() != cals[j].spec_name()
}

/// `i` is the first position of `cals` whose calendar is named `key`.
pub open spec fn first_named(cals: Seq<Calendar>, key: Seq<char>, i: int) -> bool {
    &&& 0 <= i < cals.len()
    &&& cals[i].spec_name() == key
    &&& forall|k: int| 0 <= k < i ==> (#[trigger] cals[k]).spec_name() != key
}

/// Some calendar of `cals` is named `key`.
pub open spec fn has_named(cals: Seq<Calendar>, key: Seq<char>) -> bool {
    exists|i: int| 0 <= i < cals.len() && (#[trigger] cals[i]).spec_name() == key
}

/// The position of the first calendar named `key` (meaningful when there is one).
pub open spec fn named_index(cals: Seq<Calendar>, key: Seq<char>) -> int {
    choose|i: int| first_named(cals, key, i)
}

/// Some proposal of `ps` has identifier `id`.
pub open spec fn has_proposal(ps: Seq<Proposal>, id: ProposalId) -> bool {
    exists|i: int| 0 <= i < ps.len() && (#[trigger] ps[i]).id == id
}

/// The occurrences of every calendar of `cals` within `[start, end)`,
/// calendar by calendar, each calendar's sorted as its own query gives them;
/// `None` when one of them cannot be expanded.
pub open spec fn store_expansion(cals: Seq<Calendar>, start: i64, end: i64) -> Option<Seq<OccurrenceView>>
    decreases cals.len(),
{
    if cals.len() == 0 {
        Some(seq![])
    } else {
        match (store_expansion(cals.drop_last(), start, end), events_expansion(cals.last()@, start, end)) {
            (Some(a), Some(b)) => Some(a + ordered(b)),
            _ => None,
        }
    }
}

/// `err` is the error of expanding the calendars of `cals`: that of the
/// first calendar that cannot be expanded.
pub open spec fn store_failure(cals: Seq<Calendar>, start: i64, end: i64, err: TempoError) -> bool
    decreases cals.len(),
{
    if cals.len() == 0 {
        false
    } else if store_expansion(cals.drop_last(), start, end) is None {
        store_failure(cals.drop_last(), start, end, err)
    } else {
        events_failure(cals.last()@, start, end, err)
    }
}

/// Once a prefix of the calendars cannot be expanded, neither can all of
/// them, and the error stays that of the prefix.
pub proof fn lemma_store_expansion_fails_onward(cals: Seq<Calendar>, k: int, start: i64, end: i64, err: TempoError)
    requires
        0 <= k <= cals.len(),
        store_expansion(cals.take(k), start, end) is None,
        store_failure(cals.take(k), start, end, err),
    ensures
        store_expansion(cals, start, end) is None,
        store_failure(cals, start, end, err),
    decreases cals.len() - k,
{
    if k < cals.len() {
        assert(cals.take(k + 1).drop_last() =~= cals.take(k));
        lemma_store_expansion_fails_onward(cals, k + 1, start, end, err);
    } else {
        assert(cals.take(k) =~= cals);
    }
}

/// A named calendar that the store lacks.
pub open spec fn calendar_missing(cals: Seq<Calendar>, name: Option<Seq<char>>) -> bool {
    match name {
        Some(n) => !has_named(cals, lower_of(n)),
        None => false,
    }
}

/// The occurrences that a query asks for: those of the first calendar with
/// the lower-cased name, or of every calendar when no name is given.
pub open spec fn selected_expansion(cals: Seq<Calendar>, name: Option<Seq<char>>, start: i64, end: i64) -> Option<
    Seq<OccurrenceView>,
> {
    match name {
        Some(n) => events_expansion(cals[named_index(cals, lower_of(n))]@, start, end),
        None => store_expansion(cals, start, end),
    }
}

/// The view of an optional name.
pub open spec fn name_view(name: Option<&str>) -> Option<Seq<char>> {
    match name {
        Some(n) => Some(n@),
        None => None,
    }
}

/// An occurrence query on `cals` succeeds: the named calendar exists and
/// every event it asks for expands.
pub open spec fn query_ok(cals: Seq<Calendar>, name: Option<Seq<char>>, start: i64, end: i64) -> bool {
    !calendar_missing(cals, name) && selected_expansion(cals, name, start, end) is Some
}

/// `e` is the error of a failed occurrence query on `cals` within
/// `[start, end)`: not-found, with the name as given, for a missing
/// calendar, else the error of the first event that cannot be expanded.
pub open spec fn query_error(
    cals: Seq<Calendar>,
    name: Option<Seq<char>>,
    start: i64,
    end: i64,
    e: TempoError,
) -> bool {
    match name {
        Some(n) => if calendar_missing(cals, name) {
            e matches TempoError::CalendarNotFound(t) && t@ == n
        } else {
            events_failure(cals[named_index(cals, lower_of(n))]@, start, end, e)
        },
        None => store_failure(cals, start, end, e),
    }
}

/// `r` is what an occurrence query on `cals` gives.
pub open spec fn query_result(
    cals: Seq<Calendar>,
    name: Option<Seq<char>>,
    start: i64,
    end: i64,
    r: Result<Vec<EventOccurrence>, TempoError>,
) -> bool {
    &&& r is Ok <==> query_ok(cals, name, start, end)
    &&& match r {
        Ok(v) => arranged(v@, selected_expansion(cals, name, start, end)->0),
        Err(e) => query_error(cals, name, start, end, e),
    }
}

/// The time ranges of occurrences.
pub open spec fn occurrence_ranges(v: Seq<EventOccurrence>) -> Seq<TimeRange> {
    v.map_values(|o: EventOccurrence| o.range())
}

/// Relies on `chrono::Utc::now`: the current time, in whole seconds from
/// the Unix epoch. Nothing is promised of its value.
#[verifier::external_body]
fn now_seconds() -> (r: i64) {
    chrono::Utc::now().timestamp()
}

/// The position of the proposal with identifier `id` (meaningful when there is one).
pub open spec fn proposal_index(ps: Seq<Proposal>, id: ProposalId) -> int {
    choose|i: int| 0 <= i < ps.len() && (#[trigger] ps[i]).id == id
}

/// `ps` with `p` stored under its identifier: the proposal with that
/// identifier is replaced, or `p` is added at the end.
pub open spec fn with_proposal(ps: Seq<Proposal>, p: Proposal) -> Seq<Proposal> {
    if has_proposal(ps, p.id) {
        ps.update(proposal_index(ps, p.id), p)
    } else {
        ps.push(p)
    }
}

/// Earliest start of the draft events (of at least one).
pub open spec fn min_start(pes: Seq<ProposedEvent>) -> i64
    decreases pes.len(),
{
    if pes.len() <= 1 {
        pes[0].start
    } else {
        let m = min_start(pes.drop_last());
        if pes.last().start < m {
            pes.last().start
        } else {
            m
        }
    }
}

/// Latest end of the draft events (of at least one).
pub open spec fn max_end(pes: Seq<ProposedEvent>) -> i64
    decreases pes.len(),
{
    if pes.len() <= 1 {
        pes[0].end
    } else {
        let m = max_end(pes.drop_last());
        if pes.last().end > m {
            pes.last().end
        } else {
            m
        }
    }
}

/// The occurrences stand for the draft events one for one: same title,
/// start and end.
pub open spec fn stands_for(occs: Seq<EventOccurrence>, pes: Seq<ProposedEvent>) -> bool {
    &&& occs.len() == pes.len()
    &&& forall|i: int|
        0 <= i < occs.len() ==> {
            &&& (#[trigger] occs[i]).title == pes[i].title
            &&& occs[i].start == pes[i].start
            &&& occs[i].end == pes[i].end
        }
}

/// The events that draft events become under the identifiers `ids`.
pub open spec fn events_of(pes: Seq<ProposedEvent>, ids: Seq<EventId>) -> Seq<Event> {
    Seq::new(
        pes.len(),
        |i: int|
            Event {
                id: ids[i],
                title: pes[i].title,
                start: pes[i].start,
                end: pes[i].end,
                timezone: pes[i].timezone,
                recurrence: pes[i].recurrence,
                metadata: pes[i].metadata,
            },
    )
}

/// `s` with each event of `new` stored in turn.
pub open spec fn with_events(s: Seq<Event>, new: Seq<Event>) -> Seq<Event>
    decreases new.len(),
{
    if new.len() == 0 {
        s
    } else {
        with_event(with_events(s, new.drop_last()), new.last())
    }
}

/// `fc` is `cals` after the events that draft events `pes` become under
/// `ids` are stored, in order, into the first calendar named `key`, which is
/// created at the end when there is none; other calendars are unchanged.
pub open spec fn committed_into(
    cals: Seq<Calendar>,
    fc: Seq<Calendar>,
    key: Seq<char>,
    pes: Seq<ProposedEvent>,
    ids: Seq<EventId>,
) -> bool {
    let new_events = events_of(pes, ids);
    if has_named(cals, key) {
        let c = named_index(cals, key);
        &&& fc.len() == cals.len()
        &&& forall|k: int| 0 <= k < cals.len() && k != c ==> #[trigger] fc[k] == cals[k]
        &&& fc[c].spec_name() == key
        &&& fc[c]@ == with_events(cals[c]@, new_events)
    } else {
        &&& fc.len() == cals.len() + 1
        &&& forall|k: int| 0 <= k < cals.len() ==> #[trigger] fc[k] == cals[k]
        &&& fc[cals.len() as int].spec_name() == key
        &&& fc[cals.len() as int]@ == with_events(Seq::<Event>::empty(), new_events)
    }
}

/// After a proposal is stored under its identifier in a sequence with
/// distinct identifiers, it sits at the position of that identifier, and
/// taking it out again leaves only proposals that were there before.
pub proof fn lemma_stored_proposal(ps: Seq<Proposal>, p: Proposal)
    requires
        forall|a: int, b: int|
            #![trigger with_proposal(ps, p)[a], with_proposal(ps, p)[b]]
            0 <= a < b < with_proposal(ps, p).len() ==> with_proposal(ps, p)[a].id != with_proposal(
                ps,
                p,
            )[b].id,
    ensures
        ({
            let ps1 = with_proposal(ps, p);
            let i = proposal_index(ps1, p.id);
            &&& has_proposal(ps1, p.id)
            &&& 0 <= i < ps1.len()
            &&& ps1[i] == p
            &&& ps1.remove(i) == ps || exists|j: int| 0 <= j < ps.len() && ps1.remove(i) == ps.remove(j)
        }),
{
    let ps1 = with_proposal(ps, p);
    let j = if has_proposal(ps, p.id) {
        proposal_index(ps, p.id)
    } else {
        ps.len() as int
    };
    assert(ps1[j] == p);
    assert(has_proposal(ps1, p.id));
    let i = proposal_index(ps1, p.id);
    if i != j {
        if i < j {
            assert(ps1[i].id != ps1[j].id);
        } else {
            assert(ps1[j].id != ps1[i].id);
        }
    }
    if has_proposal(ps, p.id) {
        assert(ps1.remove(i) =~= ps.remove(j));
    } else {
        assert(ps1.remove(i) =~= ps);
    }
}

/// Once a proposal has been taken out of a store with distinct proposal
/// identifiers (as `commit_proposal` and `withdraw_proposal` do), no
/// proposal with its identifier is left, so checking it fails with
/// not-found.
pub proof fn lemma_removed_proposal_is_gone(ps: Seq<Proposal>, i: int)
    requires
        0 <= i < ps.len(),
        forall|a: int, b: int| #![trigger ps[a], ps[b]] 0 <= a < b < ps.len() ==> ps[a].id != ps[b].id,
    ensures
        !has_proposal(ps.remove(i), ps[i].id),
{
    let rest = ps.remove(i);
    if has_proposal(rest, ps[i].id) {
        let k = choose|k: int| 0 <= k < rest.len() && (#[trigger] rest[k]).id == ps[i].id;
        if k < i {
            assert(rest[k] == ps[k]);
            assert(ps[k].id != ps[i].id);
        } else {
            assert(rest[k] == ps[k + 1]);
            assert(ps[i].id != ps[k + 1].id);
        }
    }
}

/// What proposing and committing in one step came to.
#[derive(Clone, Debug)]
pub enum ProposeOutcome {
    /// No conflict was found; the events were stored under these identifiers.
    Committed(Vec<EventId>),
    /// These conflicts were found; nothing was stored.
    Conflicted(Vec<Conflict>),
}

/// `o` fits a conflict check that found `conflicts`: committed into the
/// calendar named `key` when there were none, else reported with the
/// calendars left as they were.
pub open spec fn outcome_fits(
    o: ProposeOutcome,
    conflicts: Seq<Conflict>,
    cals: Seq<Calendar>,
    fc: Seq<Calendar>,
    key: Seq<char>,
    pes: Seq<ProposedEvent>,
) -> bool {
    match o {
        ProposeOutcome::Committed(ids) => {
            &&& conflicts.len() == 0
            &&& ids@.len() == pes.len()
            &&& committed_into(cals, fc, key, pes, ids@)
        },
        ProposeOutcome::Conflicted(cs) => {
            &&& cs@ == conflicts
            &&& conflicts.len() > 0
            &&& fc == cals
        },
    }
}

/// Owns every named calendar and every open proposal.
#[derive(Debug)]
pub struct CalendarStore {
    calendars: Vec<Calendar>,
    proposals: Vec<Proposal>,
}

impl CalendarStore {
    /// The calendars, in order of creation.
    pub closed spec fn spec_calendars(&self) -> Seq<Calendar> {
        self.calendars@
    }

    /// The open proposals, in order of creation.
    pub closed spec fn spec_proposals(&self) -> Seq<Proposal> {
        self.proposals@
    }

    /// Every calendar is well formed, proposal identifiers are distinct, and
    /// every proposed event is well formed.
    pub open spec fn wf(&self) -> bool {
        &&& forall|i: int|
            0 <= i < self.spec_calendars().len() ==> (#[trigger] self.spec_calendars()[i]).wf()
        &&& names_distinct(self.spec_calendars())
        &&& forall|i: int, j: int|
            #![trigger self.spec_proposals()[i], self.spec_proposals()[j]]
            0 <= i < j < self.spec_proposals().len() ==> self.spec_proposals()[i].id
                != self.spec_proposals()[j].id
        &&& forall|i: int|
            0 <= i < self.spec_proposals().len() ==> all_proposed_wf(
                (#[trigger] self.spec_proposals()[i]).events@,
            )
    }

    /// A store with one empty calendar, named "default", and no proposals.
    pub fn new() -> (r: CalendarStore)
        ensures
            r.wf(),
            r.spec_calendars().len() == 1,
            r.spec_calendars()[0].spec_name() == "default"@,
            r.spec_calendars()[0]@ == Seq::<Event>::empty(),
            r.spec_proposals() == Seq::<Proposal>::empty(),
    {
        let mut calendars: Vec<Calendar> = Vec::new();
        calendars.push(Calendar::new("default".to_owned()));
        CalendarStore { calendars, proposals: Vec::new() }
    }

    /// Finds the first calendar named `key`.
    fn find_calendar(&self, key: &String) -> (r: Option<usize>)
        ensures
            match r {
                Some(i) => first_named(self.spec_calendars(), key@, i as int),
                None => !has_named(self.spec_calendars(), key@),
            },
    {
        let mut i: usize = 0;
        while i < self.calendars.len()
            invariant
                i <= self.calendars@.len(),
                forall|k: int| 0 <= k < i ==> (#[trigger] self.calendars@[k]).spec_name() != key@,
            decreases self.calendars@.len() - i,
        {
            if self.calendars[i].name == *key {
                return Some(i);
            }
            i = i + 1;
        }
        None
    }

    /// The calendar named `name`, compared in lower case; created empty
    /// when there is none.
    pub fn get_or_create_calendar(&mut self, name: &str) -> (r: &mut Calendar)
        requires
            old(self).wf(),
        ensures
            ({
                let key = lower_of(name@);
                let old_cals = old(self).spec_calendars();
                if has_named(old_cals, key) {
                    let i = named_index(old_cals, key);
                    &&& first_named(old_cals, key, i)
                    &&& *r == old_cals[i]
                    &&& final(self).spec_calendars() == old_cals.update(i, *final(r))
                } else {
                    &&& r@ == Seq::<Event>::empty()
                    &&& r.spec_name() == key
                    &&& final(self).spec_calendars() == old_cals.push(*final(r))
                }
            }),
            r.wf(),
            final(self).spec_proposals() == old(self).spec_proposals(),
            final(r).wf() ==> forall|k: int|
                0 <= k < final(self).spec_calendars().len()
                    ==> #[trigger] final(self).spec_calendars()[k].wf(),
    {
        let key = lowercase(name);
        let idx = match self.find_calendar(&key) {
            Some(i) => {
                proof {
                    let c = named_index(self.calendars@, key@);
                    assert(first_named(self.calendars@, key@, c));
                    if c < i {
                        assert(self.calendars@[c].spec_name() != key@);
                    }
                    if i < c {
                        assert(self.calendars@[i as int].spec_name() != key@);
                    }
                }
                i
            },
            None => {
                self.calendars.push(Calendar::new(key));
                self.calendars.len() - 1
            },
        };
        assert(self.calendars@[idx as int].wf());
        assert(forall|k: int|
            0 <= k < self.calendars@.len() ==> (#[trigger] self.calendars@[k]).wf());
        &mut self.calendars[idx]
    }

    /// The first calendar named `name`, compared in lower case.
    pub fn get_calendar(&self, name: &str) -> (r: Option<&Calendar>)
        ensures
            match r {
                Some(c) => {
                    let i = named_index(self.spec_calendars(), lower_of(name@));
                    &&& first_named(self.spec_calendars(), lower_of(name@), i)
                    &&& *c == self.spec_calendars()[i]
                },
                None => !has_named(self.spec_calendars(), lower_of(name@)),
            },
    {
        let key = lowercase(name);
        match self.find_calendar(&key) {
            Some(i) => {
                proof {
                    let c = named_index(self.calendars@, key@);
                    assert(first_named(self.calendars@, key@, c));
                    if c < i {
                        assert(self.calendars@[c].spec_name() != key@);
                    }
                    if i < c {
                        assert(self.calendars@[i as int].spec_name() != key@);
                    }
                }
                Some(&self.calendars[i])
            },
            None => None,
        }
    }

    /// The first calendar named `name`, compared in lower case, to change.
    pub fn get_calendar_mut(&mut self, name: &str) -> (r: Option<&mut Calendar>)
        requires
            old(self).wf(),
        ensures
            final(self).spec_proposals() == old(self).spec_proposals(),
            match r {
                Some(c) => {
                    let old_cals = old(self).spec_calendars();
                    let i = named_index(old_cals, lower_of(name@));
                    &&& first_named(old_cals, lower_of(name@), i)
                    &&& *c == old_cals[i]
                    &&& c.wf()
                    &&& final(self).spec_calendars() == old_cals.update(i, *final(c))
                    &&& final(c).wf() ==> forall|k: int|
                        0 <= k < final(self).spec_calendars().len()
                            ==> #[trigger] final(self).spec_calendars()[k].wf()
                },
                None => !has_named(old(self).spec_calendars(), lower_of(name@)) && *final(self)
                    == *old(self),
            },
    {
        let key = lowercase(name);
        match self.find_calendar(&key) {
            Some(i) => {
                proof {
                    let c = named_index(self.calendars@, key@);
                    assert(first_named(self.calendars@, key@, c));
                    if c < i {
                        assert(self.calendars@[c].spec_name() != key@);
                    }
                    if i < c {
                        assert(self.calendars@[i as int].spec_name() != key@);
                    }
                }
                assert(forall|k: int|
                    0 <= k < self.calendars@.len() ==> (#[trigger] self.calendars@[k]).wf());
                Some(&mut self.calendars[i])
            },
            None => None,
        }
    }

    /// Occurrences within `[start, end)`, sorted by start: those of the
    /// first calendar named `calendar_name` (compared in lower case), or of
    /// every calendar when no name is given.
    pub fn occurrences_in_range(&self, start: i64, end: i64, calendar_name: Option<&str>) -> (r: Result<
        Vec<EventOccurrence>,
        TempoError,
    >)
        requires
            self.wf(),
            instant_ok(start as int),
            instant_ok(end as int),
        ensures
            query_result(self.spec_calendars(), name_view(calendar_name), start, end, r),
    {
        let ghost cals = self.calendars@;
        match calendar_name {
            Some(name) => {
                let key = lowercase(name);
                match self.find_calendar(&key) {
                    None => Err(TempoError::CalendarNotFound(name.to_owned())),
                    Some(i) => {
                        proof {
                            assert(has_named(cals, key@));
                            let c = named_index(cals, key@);
                            assert(first_named(cals, key@, c));
                            if c < i {
                                assert(cals[c].spec_name() != key@);
                            }
                            if i < c {
                                assert(cals[i as int].spec_name() != key@);
                            }
                            assert(cals[i as int].wf());
                        }
                        self.calendars[i].occurrences_in_range(start, end)
                    },
                }
            },
            None => {
                let mut all: Vec<EventOccurrence> = Vec::new();
                let mut i: usize = 0;
                assert(cals.take(0) =~= Seq::<Calendar>::empty());
                assert(views(all@) =~= Seq::<OccurrenceView>::empty());
                while i < self.calendars.len()
                    invariant
                        i <= cals.len(),
                        cals == self.calendars@,
                        calendar_name is None,
                        self.wf(),
                        instant_ok(start as int),
                        instant_ok(end as int),
                        store_expansion(cals.take(i as int), start, end) == Some(views(all@)),
                        forall|k: int| 0 <= k < all@.len() ==> (#[trigger] all@[k]).wf(),
                    decreases cals.len() - i,
                {
                    assert(cals.take(i + 1).drop_last() =~= cals.take(i as int));
                    assert(cals.take(i + 1).last() == cals[i as int]);
                    assert(self.spec_calendars()[i as int].wf());
                    match self.calendars[i].occurrences_in_range(start, end) {
                        Err(e) => {
                            proof {
                                lemma_store_expansion_fails_onward(cals, i + 1, start, end, e);
                            }
                            return Err(e);
                        },
                        Ok(occs) => {
                            let ghost before = all@;
                            let ghost added = occs@;
                            let mut occs = occs;
                            all.append(&mut occs);
                            proof {
                                assert(all@ =~= before + added);
                                assert(views(all@) =~= views(before) + views(added));
                                assert forall|k: int| 0 <= k < all@.len() implies (#[trigger] all@[k]).wf() by {
                                    if k >= before.len() {
                                        assert(all@[k] == added[k - before.len()]);
                                    }
                                }
                            }
                        },
                    }
                    i = i + 1;
                }
                assert(cals.take(cals.len() as int) =~= cals);
                Ok(sort_occurrences(all))
            },
        }
    }

    /// Free/busy breakdown of `[start, end)` over the occurrences that
    /// `occurrences_in_range` gives.
    pub fn free_busy(&self, start: i64, end: i64, calendar_name: Option<&str>) -> (r: Result<
        FreeBusyResult,
        TempoError,
    >)
        requires
            self.wf(),
            instant_ok(start as int),
            instant_ok(end as int),
            start <= end,
        ensures
            r is Ok <==> query_ok(self.spec_calendars(), name_view(calendar_name), start, end),
            r is Ok ==> exists|v: Seq<EventOccurrence>|
                #[trigger] free_busy_of(v, TimeRange { start, end }, r->Ok_0) && arranged(
                    v,
                    selected_expansion(self.spec_calendars(), name_view(calendar_name), start, end)->0,
                ),
            r is Err ==> query_error(self.spec_calendars(), name_view(calendar_name), start, end, r->Err_0),
    {
        let occs = match self.occurrences_in_range(start, end, calendar_name) {
            Ok(v) => v,
            Err(e) => return Err(e),
        };
        let range = TimeRange::new(start, end);
        let fb = compute_free_busy(occs.as_slice(), &range);
        assert(range == TimeRange { start, end });
        assert(free_busy_of(occs@, TimeRange { start, end }, fb));
        assert(arranged(occs@, selected_expansion(self.spec_calendars(), name_view(calendar_name), start, end)->0));
        let r: Result<FreeBusyResult, TempoError> = Ok(fb);
        assert(free_busy_of(occs@, TimeRange { start, end }, r->Ok_0));
        r
    }

    /// Free slots of at least `min_duration` seconds within `[start, end)`,
    /// left by the occurrences that `occurrences_in_range` gives.
    pub fn find_available_slots(
        &self,
        start: i64,
        end: i64,
        min_duration: i64,
        calendar_name: Option<&str>,
    ) -> (r: Result<Vec<TimeRange>, TempoError>)
        requires
            self.wf(),
            instant_ok(start as int),
            instant_ok(end as int),
            start <= end,
        ensures
            r is Ok <==> query_ok(self.spec_calendars(), name_view(calendar_name), start, end),
            match r {
                Ok(slots) => {
                    &&& exists|v: Seq<EventOccurrence>|
                        arranged(
                            v,
                            selected_expansion(self.spec_calendars(), name_view(calendar_name), start, end)->0,
                        ) && slots@ == gaps(merged(occurrence_ranges(v)), start, end, min_duration as int)
                    &&& forall|k: int|
                        0 <= k < slots@.len() ==> {
                            let g = #[trigger] slots@[k];
                            &&& start <= g.start < g.end <= end
                            &&& g.end - g.start >= min_duration
                        }
                },
                Err(e) => query_error(self.spec_calendars(), name_view(calendar_name), start, end, e),
            },
    {
        let occs = match self.occurrences_in_range(start, end, calendar_name) {
            Ok(v) => v,
            Err(e) => return Err(e),
        };
        let mut busy: Vec<TimeRange> = Vec::new();
        let mut i: usize = 0;
        while i < occs.len()
            invariant
                i <= occs@.len(),
                forall|k: int| 0 <= k < occs@.len() ==> (#[trigger] occs@[k]).wf(),
                busy@ == occurrence_ranges(occs@.take(i as int)),
            decreases occs@.len() - i,
        {
            assert(occs@[i as int].wf());
            busy.push(TimeRange::new(occs[i].start, occs[i].end));
            assert(busy@ =~= occurrence_ranges(occs@.take(i + 1)));
            i = i + 1;
        }
        assert(occs@.take(occs@.len() as int) =~= occs@);
        assert(all_wf(busy@)) by {
            assert forall|k: int| 0 <= k < busy@.len() implies (#[trigger] busy@[k]).wf() by {
                assert(busy@[k] == occs@[k].range());
                assert(occs@[k].wf());
            }
        }
        let range = TimeRange::new(start, end);
        let slots = find_free_slots(busy.as_slice(), &range, min_duration);
        assert(arranged(occs@, selected_expansion(self.spec_calendars(), name_view(calendar_name), start, end)->0)
            && slots@ == gaps(merged(occurrence_ranges(occs@)), start, end, min_duration as int));
        Ok(slots)
    }

    /// Finds the proposal with identifier `id`.
    fn find_proposal(&self, id: &ProposalId) -> (r: Option<usize>)
        requires
            self.wf(),
        ensures
            match r {
                Some(i) => i < self.spec_proposals().len() && i == proposal_index(self.spec_proposals(), *id)
                    && self.spec_proposals()[i as int].id == *id,
                None => !has_proposal(self.spec_proposals(), *id),
            },
    {
        let ghost ps = self.proposals@;
        let mut i: usize = 0;
        while i < self.proposals.len()
            invariant
                i <= ps.len(),
                ps == self.proposals@,
                self.wf(),
                forall|k: int| 0 <= k < i ==> (#[trigger] ps[k]).id != *id,
            decreases ps.len() - i,
        {
            if self.proposals[i].id == *id {
                proof {
                    assert(has_proposal(ps, *id));
                    let c = proposal_index(ps, *id);
                    if c != i {
                        assert(self.spec_proposals()[c] == ps[c]);
                        if c < i {
                            assert(ps[c].id != ps[i as int].id);
                        } else {
                            assert(ps[i as int].id != ps[c].id);
                        }
                    }
                }
                return Some(i);
            }
            i = i + 1;
        }
        None
    }

    /// Stores a new proposal of `events` under a fresh identifier, stamped
    /// with the current time, and returns the identifier.
    pub fn create_proposal(&mut self, name: String, events: Vec<ProposedEvent>) -> (r: ProposalId)
        requires
            old(self).wf(),
            all_proposed_wf(events@),
        ensures
            final(self).wf(),
            final(self).spec_calendars() == old(self).spec_calendars(),
            has_proposal(final(self).spec_proposals(), r),
            exists|t: i64|
                final(self).spec_proposals() == with_proposal(
                    old(self).spec_proposals(),
                    Proposal { id: r, name, events, created_at: t },
                ),
    {
        let id = ProposalId::new();
        let proposal = Proposal { id, name, events, created_at: now_seconds() };
        let ghost ps = self.proposals@;
        match self.find_proposal(&id) {
            Some(i) => {
                self.proposals.set(i, proposal);
                assert(self.wf()) by {
                    assert forall|k: int| 0 <= k < self.spec_calendars().len() implies (
                    #[trigger] self.spec_calendars()[k]).wf() by {
                        assert(self.spec_calendars()[k] == old(self).spec_calendars()[k]);
                    }
                    assert forall|a: int, b: int|
                        #![trigger self.spec_proposals()[a], self.spec_proposals()[b]]
                        0 <= a < b < self.spec_proposals().len() implies self.spec_proposals()[a].id
                        != self.spec_proposals()[b].id by {
                        assert(ps[a].id != ps[b].id);
                    }
                    assert forall|a: int| 0 <= a < self.spec_proposals().len() implies all_proposed_wf(
                        (#[trigger] self.spec_proposals()[a]).events@,
                    ) by {
                        if a != i {
                            assert(self.spec_proposals()[a] == ps[a]);
                        }
                    }
                }
            },
            None => {
                self.proposals.push(proposal);
                assert(self.wf()) by {
                    assert forall|k: int| 0 <= k < self.spec_calendars().len() implies (
                    #[trigger] self.spec_calendars()[k]).wf() by {
                        assert(self.spec_calendars()[k] == old(self).spec_calendars()[k]);
                    }
                    assert forall|a: int, b: int|
                        #![trigger self.spec_proposals()[a], self.spec_proposals()[b]]
                        0 <= a < b < self.spec_proposals().len() implies self.spec_proposals()[a].id
                        != self.spec_proposals()[b].id by {
                        if b < ps.len() {
                            assert(ps[a].id != ps[b].id);
                        } else {
                            assert(self.spec_proposals()[a] == ps[a]);
                        }
                    }
                    assert forall|a: int| 0 <= a < self.spec_proposals().len() implies all_proposed_wf(
                        (#[trigger] self.spec_proposals()[a]).events@,
                    ) by {
                        if a < ps.len() {
                            assert(self.spec_proposals()[a] == ps[a]);
                        }
                    }
                }
            },
        }
        assert(self.spec_proposals() == with_proposal(ps, proposal));
        assert(has_proposal(self.spec_proposals(), id)) by {
            let k = if has_proposal(ps, id) {
                proposal_index(ps, id)
            } else {
                ps.len() as int
            };
            assert(self.spec_proposals()[k].id == id);
        }
        id
    }

    /// The open proposals, in order of creation.
    pub fn list_proposals(&self) -> (r: Vec<&Proposal>)
        ensures
            r@.len() == self.spec_proposals().len(),
            forall|i: int| 0 <= i < r@.len() ==> *(#[trigger] r@[i]) == self.spec_proposals()[i],
    {
        let mut out: Vec<&Proposal> = Vec::new();
        let mut i: usize = 0;
        while i < self.proposals.len()
            invariant
                i <= self.proposals@.len(),
                out@.len() == i,
                forall|k: int| 0 <= k < i ==> *(#[trigger] out@[k]) == self.proposals@[k],
            decreases self.proposals@.len() - i,
        {
            out.push(&self.proposals[i]);
            i = i + 1;
        }
        out
    }

    /// Removes the proposal with identifier `id` and returns it, or `None`
    /// when there is none.
    pub fn withdraw_proposal(&mut self, id: &ProposalId) -> (r: Option<Proposal>)
        requires
            old(self).wf(),
        ensures
            final(self).wf(),
            final(self).spec_calendars() == old(self).spec_calendars(),
            !has_proposal(final(self).spec_proposals(), *id),
            match r {
                Some(p) => {
                    let i = proposal_index(old(self).spec_proposals(), *id);
                    &&& has_proposal(old(self).spec_proposals(), *id)
                    &&& p == old(self).spec_proposals()[i]
                    &&& final(self).spec_proposals() == old(self).spec_proposals().remove(i)
                },
                None => !has_proposal(old(self).spec_proposals(), *id) && final(self).spec_proposals()
                    == old(self).spec_proposals(),
            },
    {
        let ghost ps = self.proposals@;
        match self.find_proposal(id) {
            Some(i) => {
                let p = self.proposals.remove(i);
                proof {
                    lemma_removed_proposal_is_gone(ps, i as int);
                    assert forall|k: int| 0 <= k < self.spec_calendars().len() implies (
                    #[trigger] self.spec_calendars()[k]).wf() by {
                        assert(self.spec_calendars()[k] == old(self).spec_calendars()[k]);
                    }
                    assert(self.spec_calendars() == old(self).spec_calendars());
                    self.lemma_wf_after_removal(ps, i as int);
                }
                Some(p)
            },
            None => None,
        }
    }

    /// Taking a proposal out of a well-formed store keeps it well formed.
    proof fn lemma_wf_after_removal(&self, ps: Seq<Proposal>, i: int)
        requires
            0 <= i < ps.len(),
            forall|a: int, b: int| #![trigger ps[a], ps[b]] 0 <= a < b < ps.len() ==> ps[a].id != ps[b].id,
            forall|a: int| 0 <= a < ps.len() ==> all_proposed_wf((#[trigger] ps[a]).events@),
            forall|k: int|
                0 <= k < self.spec_calendars().len() ==> (#[trigger] self.spec_calendars()[k]).wf(),
            names_distinct(self.spec_calendars()),
            self.spec_proposals() == ps.remove(i),
        ensures
            self.wf(),
    {
        let rest = ps.remove(i);
        assert forall|a: int, b: int|
            #![trigger rest[a], rest[b]]
            0 <= a < b < rest.len() implies rest[a].id != rest[b].id by {
            let a0 = if a < i { a } else { a + 1 };
            let b0 = if b < i { b } else { b + 1 };
            assert(rest[a] == ps[a0] && rest[b] == ps[b0]);
        }
        assert forall|a: int| 0 <= a < rest.len() implies all_proposed_wf((#[trigger] rest[a]).events@) by {
            let a0 = if a < i { a } else { a + 1 };
            assert(rest[a] == ps[a0]);
        }
    }

    /// Checks the proposal with identifier `proposal_id` for conflicts with
    /// the occurrences between its earliest start and latest end (of the
    /// named calendar, or of all), and, when `check_internal` holds, among
    /// its own events. Changes nothing.
    pub fn check_conflicts(
        &self,
        proposal_id: &ProposalId,
        calendar_name: Option<&str>,
        check_internal: bool,
    ) -> (r: Result<ConflictReport, TempoError>)
        requires
            self.wf(),
        ensures
            ({
                let ps = self.spec_proposals();
                let cals = self.spec_calendars();
                let name = name_view(calendar_name);
                if !has_proposal(ps, *proposal_id) {
                    r matches Err(TempoError::ProposalNotFound(t)) && t@ == uuid_text(proposal_id.0)
                } else {
                    let pes = ps[proposal_index(ps, *proposal_id)].events@;
                    if pes.len() == 0 {
                        r matches Ok(rep) && rep.proposal_id == *proposal_id && !rep.has_conflicts
                            && rep.conflicts@.len() == 0
                    } else {
                        let lo = min_start(pes);
                        let hi = max_end(pes);
                        &&& r is Ok <==> query_ok(cals, name, lo, hi)
                        &&& r is Ok ==> {
                            let rep = r->Ok_0;
                            &&& rep.proposal_id == *proposal_id
                            &&& rep.has_conflicts == (rep.conflicts@.len() > 0)
                            &&& exists|occs: Seq<EventOccurrence>, existing: Seq<EventOccurrence>|
                                #[trigger] all_conflicts(occs, existing, check_internal) == rep.conflicts@
                                    && stands_for(occs, pes) && arranged(
                                    existing,
                                    selected_expansion(cals, name, lo, hi)->0,
                                )
                        }
                        &&& r is Err ==> query_error(cals, name, lo, hi, r->Err_0)
                    }
                }
            }),
    {
        let i = match self.find_proposal(proposal_id) {
            Some(i) => i,
            None => return Err(TempoError::ProposalNotFound(proposal_id.to_text())),
        };
        let proposal = &self.proposals[i];
        let ghost pes = proposal.events@;
        assert(all_proposed_wf(pes)) by {
            assert(self.spec_proposals()[i as int] == *proposal);
        }
        let n = proposal.events.len();
        let mut proposed_occs: Vec<EventOccurrence> = Vec::new();
        let mut k: usize = 0;
        while k < n
            invariant
                k <= n,
                n == pes.len(),
                pes == proposal.events@,
                all_proposed_wf(pes),
                proposed_occs@.len() == k,
                forall|j: int|
                    0 <= j < k ==> {
                        &&& (#[trigger] proposed_occs@[j]).title == pes[j].title
                        &&& proposed_occs@[j].start == pes[j].start
                        &&& proposed_occs@[j].end == pes[j].end
                        &&& proposed_occs@[j].wf()
                    },
            decreases n - k,
        {
            let pe = &proposal.events[k];
            assert(pe.wf());
            proposed_occs.push(
                EventOccurrence {
                    event_id: EventId::new(),
                    title: pe.title.clone(),
                    start: pe.start,
                    end: pe.end,
                    is_recurring: pe.recurrence.is_some(),
                    metadata: pe.metadata.clone(),
                },
            );
            k = k + 1;
        }
        if n == 0 {
            return Ok(ConflictReport { proposal_id: *proposal_id, has_conflicts: false, conflicts: Vec::new() });
        }
        let mut lo = proposal.events[0].start;
        let mut hi = proposal.events[0].end;
        let mut k: usize = 1;
        assert(pes[0].wf());
        assert(min_start(pes.take(1)) == pes[0].start);
        assert(max_end(pes.take(1)) == pes[0].end);
        while k < n
            invariant
                1 <= k <= n,
                n == pes.len(),
                pes == proposal.events@,
                all_proposed_wf(pes),
                lo == min_start(pes.take(k as int)),
                hi == max_end(pes.take(k as int)),
                instant_ok(lo as int),
                instant_ok(hi as int),
            decreases n - k,
        {
            assert(pes.take(k + 1).drop_last() =~= pes.take(k as int));
            assert(pes.take(k + 1).last() == pes[k as int]);
            assert(pes[k as int].wf());
            let e = &proposal.events[k];
            if e.start < lo {
                lo = e.start;
            }
            if e.end > hi {
                hi = e.end;
            }
            k = k + 1;
        }
        assert(pes.take(n as int) =~= pes);
        let existing = match self.occurrences_in_range(lo, hi, calendar_name) {
            Ok(v) => v,
            Err(e) => return Err(e),
        };
        let conflicts = detect_conflicts(proposed_occs.as_slice(), existing.as_slice(), check_internal);
        let report = ConflictReport {
            proposal_id: *proposal_id,
            has_conflicts: conflicts.len() > 0,
            conflicts,
        };
        assert(stands_for(proposed_occs@, pes));
        let r: Result<ConflictReport, TempoError> = Ok(report);
        assert(all_conflicts(proposed_occs@, existing@, check_internal) == r->Ok_0.conflicts@);
        r
    }

    /// Commits the proposal with identifier `proposal_id`: removes it, gives
    /// each of its events a fresh identifier, stores them in order in the
    /// calendar named `calendar_name` (compared in lower case; created when
    /// missing), and returns the identifiers in order. No conflict check is
    /// made.
    pub fn commit_proposal(&mut self, proposal_id: &ProposalId, calendar_name: &str) -> (r: Result<
        Vec<EventId>,
        TempoError,
    >)
        requires
            old(self).wf(),
        ensures
            final(self).wf(),
            ({
                let ps = old(self).spec_proposals();
                let cals = old(self).spec_calendars();
                let key = lower_of(calendar_name@);
                if !has_proposal(ps, *proposal_id) {
                    &&& r matches Err(TempoError::ProposalNotFound(t)) && t@ == uuid_text(proposal_id.0)
                    &&& *final(self) == *old(self)
                } else {
                    let i = proposal_index(ps, *proposal_id);
                    let pes = ps[i].events@;
                    &&& r is Ok
                    &&& r->Ok_0@.len() == pes.len()
                    &&& final(self).spec_proposals() == ps.remove(i)
                    &&& !has_proposal(final(self).spec_proposals(), *proposal_id)
                    &&& committed_into(cals, final(self).spec_calendars(), key, pes, r->Ok_0@)
                }
            }),
    {
        let ghost ps = self.proposals@;
        let i = match self.find_proposal(proposal_id) {
            Some(i) => i,
            None => return Err(TempoError::ProposalNotFound(proposal_id.to_text())),
        };
        let proposal = self.proposals.remove(i);
        let ghost pes = proposal.events@;
        proof {
            lemma_removed_proposal_is_gone(ps, i as int);
            assert forall|k: int| 0 <= k < self.spec_calendars().len() implies (
            #[trigger] self.spec_calendars()[k]).wf() by {
                assert(self.spec_calendars()[k] == old(self).spec_calendars()[k]);
            }
            assert(self.spec_calendars() == old(self).spec_calendars());
            self.lemma_wf_after_removal(ps, i as int);
            assert(ps[i as int] == proposal);
            assert(all_proposed_wf(pes));
        }
        let cal = self.get_or_create_calendar(calendar_name);
        let ghost base = cal@;
        let ghost name0 = cal.spec_name();
        let mut evs = proposal.events;
        let mut ids: Vec<EventId> = Vec::new();
        let n = evs.len();
        let mut k: usize = 0;
        assert(pes.skip(0) =~= pes);
        assert(events_of(pes.take(0), ids@) =~= Seq::<Event>::empty());
        while k < n
            invariant
                k <= n,
                n == pes.len(),
                evs@ == pes.skip(k as int),
                all_proposed_wf(pes),
                ids@.len() == k,
                cal.wf(),
                cal.spec_name() == name0,
                cal@ == with_events(base, events_of(pes.take(k as int), ids@)),
            decreases n - k,
        {
            let pe = evs.remove(0);
            assert(pe == pes[k as int]);
            assert(evs@ =~= pes.skip(k + 1));
            assert(pe.wf());
            let id = EventId::new();
            let event = Event {
                id,
                title: pe.title,
                start: pe.start,
                end: pe.end,
                timezone: pe.timezone,
                recurrence: pe.recurrence,
                metadata: pe.metadata,
            };
            let ghost prev_ids = ids@;
            let ghost ev = event;
            cal.add_event(event);
            ids.push(id);
            proof {
                let done = events_of(pes.take(k + 1), ids@);
                assert(done.drop_last() =~= events_of(pes.take(k as int), prev_ids));
                assert(done.last() == ev);
            }
            k = k + 1;
        }
        assert(pes.take(n as int) =~= pes);
        Ok(ids)
    }

    /// Proposes `events`, checks them against the calendar named
    /// `calendar_name` and among themselves, and commits them into that
    /// calendar when no conflict is found. Otherwise, or when the check
    /// fails, the proposal is withdrawn. One exclusive borrow of the store
    /// covers every step, so nothing can come between check and commit.
    /// The open proposals end as they were, but for one whose identifier
    /// the fresh proposal happened to take.
    pub fn propose_and_commit(&mut self, name: String, events: Vec<ProposedEvent>, calendar_name: &str) -> (r:
        Result<ProposeOutcome, TempoError>)
        requires
            old(self).wf(),
            all_proposed_wf(events@),
        ensures
            final(self).wf(),
            final(self).spec_proposals() == old(self).spec_proposals() || exists|j: int|
                0 <= j < old(self).spec_proposals().len() && final(self).spec_proposals() == old(
                    self,
                ).spec_proposals().remove(j),
            ({
                let cals = old(self).spec_calendars();
                let pes = events@;
                let target = Some(calendar_name@);
                let key = lower_of(calendar_name@);
                if pes.len() == 0 {
                    r matches Ok(ProposeOutcome::Committed(ids)) && ids@.len() == 0 && committed_into(
                        cals,
                        final(self).spec_calendars(),
                        key,
                        pes,
                        ids@,
                    )
                } else {
                    let lo = min_start(pes);
                    let hi = max_end(pes);
                    &&& r is Ok <==> query_ok(cals, target, lo, hi)
                    &&& r is Err ==> query_error(cals, target, lo, hi, r->Err_0)
                        && final(self).spec_calendars() == cals
                    &&& r is Ok ==> exists|occs: Seq<EventOccurrence>, existing: Seq<EventOccurrence>|
                        stands_for(occs, pes) && arranged(existing, selected_expansion(cals, target, lo, hi)->0)
                            && outcome_fits(
                            r->Ok_0,
                            #[trigger] all_conflicts(occs, existing, true),
                            cals,
                            final(self).spec_calendars(),
                            key,
                            pes,
                        )
                }
            }),
    {
        let ghost ps0 = self.proposals@;
        let ghost cals = self.calendars@;
        let ghost pes = events@;
        let pid = self.create_proposal(name, events);
        let ghost ps1 = self.proposals@;
        proof {
            let t = choose|t: i64|
                ps1 == with_proposal(ps0, Proposal { id: pid, name, events, created_at: t });
            let p = Proposal { id: pid, name, events, created_at: t };
            lemma_stored_proposal(ps0, p);
        }
        let report = match self.check_conflicts(&pid, Some(calendar_name), true) {
            Ok(rep) => rep,
            Err(e) => {
                self.withdraw_proposal(&pid);
                return Err(e);
            },
        };
        if report.has_conflicts {
            self.withdraw_proposal(&pid);
            let r: Result<ProposeOutcome, TempoError> = Ok(ProposeOutcome::Conflicted(report.conflicts));
            return r;
        }
        match self.commit_proposal(&pid, calendar_name) {
            Ok(ids) => {
                let r: Result<ProposeOutcome, TempoError> = Ok(ProposeOutcome::Committed(ids));
                r
            },
            Err(e) => Err(e),
        }
    }
}

} // verus!
