//! Proposals of tentative events and pairwise conflict detection.
use std::collections::HashMap;
use vstd::prelude::*;

use crate::event::{
    all_occurrences_wf, id_text, random_id, uuid_text, EventId, EventOccurrence, RecurrenceRule,
};
use crate::time_utils::{instant_ok, TimeRange};

verus! {

/// Identifies a proposal.
#[derive(Clone, Copy, Debug, PartialEq, Eq, Hash, Structural)]
pub struct ProposalId(pub u128);

impl ProposalId {
    /// A fresh random identifier.
    pub fn new() -> (r: ProposalId) {
        ProposalId(random_id())
    }

    /// The identifier's hyphenated text.
    pub fn to_text(&self) -> (r: String)
        ensures
            r@ == uuid_text(self.0),
    {
        id_text(self.0)
    }
}

/// A draft event: an event without an identifier.
#[derive(Clone, Debug)]
pub struct ProposedEvent {
    pub title: String,
    pub start: i64,
    pub end: i64,
    pub timezone: String,
    pub recurrence: Option<RecurrenceRule>,
    pub metadata: HashMap<String, String>,
}

impl ProposedEvent {
    /// Both ends are instants the library holds, and the event is not reversed.
    pub open spec fn wf(self) -> bool {
        instant_ok(self.start as int) && instant_ok(self.end as int) && self.start <= self.end
    }
}

/// A named batch of draft events; `created_at` is in seconds from the Unix epoch.
#[derive(Clone, Debug)]
pub struct Proposal {
    pub id: ProposalId,
    pub name: String,
    pub events: Vec<ProposedEvent>,
    pub created_at: i64,
}

/// Every draft event of `s` is well formed.
pub open spec fn all_proposed_wf(s: Seq<ProposedEvent>) -> bool {
    forall|i: int| 0 <= i < s.len() ==> (#[trigger] s[i]).wf()
}

/// The result of checking a proposal for conflicts.
#[derive(Clone, Debug)]
pub struct ConflictReport {
    pub proposal_id: ProposalId,
    pub has_conflicts: bool,
    pub conflicts: Vec<Conflict>,
}

/// One detected overlap between a proposed occurrence and another one;
/// `conflicting_event_id` is `None` when both are proposed.
#[derive(Clone, Debug)]
pub struct Conflict {
    pub proposed_event_title: String,
    pub proposed_start: i64,
    pub proposed_end: i64,
    pub conflicting_event_id: Option<EventId>,
    pub conflicting_event_title: String,
    pub conflicting_start: i64,
    pub conflicting_end: i64,
    pub overlap_minutes: i64,
}

/// Whole minutes that two occurrences share.
pub open spec fn overlap_minutes(a: EventOccurrence, b: EventOccurrence) -> int {
    a.range().spec_overlap_len(b.range()) / 60
}

/// The conflict of proposed occurrence `p` with occurrence `c`.
pub open spec fn conflict_of(p: EventOccurrence, c: EventOccurrence, id: Option<EventId>) -> Conflict {
    Conflict {
        proposed_event_title: p.title,
        proposed_start: p.start,
        proposed_end: p.end,
        conflicting_event_id: id,
        conflicting_event_title: c.title,
        conflicting_start: c.start,
        conflicting_end: c.end,
        overlap_minutes: overlap_minutes(p, c) as i64,
    }
}

/// The conflicts of proposed occurrence `p` with each existing occurrence
/// that it overlaps by at least a minute, in the order of `existing`.
pub open spec fn conflicts_with(p: EventOccurrence, existing: Seq<EventOccurrence>) -> Seq<Conflict>
    decreases existing.len(),
{
    if existing.len() == 0 {
        seq![]
    } else {
        let e = existing.last();
        let rest = conflicts_with(p, existing.drop_last());
        if overlap_minutes(p, e) > 0 {
            rest.push(conflict_of(p, e, Some(e.event_id)))
        } else {
            rest
        }
    }
}

/// The conflicts of every proposed occurrence with the existing ones, in
/// the order of `proposed`.
pub open spec fn external_conflicts(proposed: Seq<EventOccurrence>, existing: Seq<EventOccurrence>) -> Seq<
    Conflict,
>
    decreases proposed.len(),
{
    if proposed.len() == 0 {
        seq![]
    } else {
        external_conflicts(proposed.drop_last(), existing) + conflicts_with(proposed.last(), existing)
    }
}

/// The conflicts of `proposed[i]` with `proposed[j]` for `i < j < upto`.
pub open spec fn internal_row(proposed: Seq<EventOccurrence>, i: int, upto: int) -> Seq<Conflict>
    decreases upto - i,
{
    if upto <= i + 1 {
        seq![]
    } else {
        let rest = internal_row(proposed, i, upto - 1);
        let (a, b) = (proposed[i], proposed[upto - 1]);
        if overlap_minutes(a, b) > 0 {
            rest.push(conflict_of(a, b, None))
        } else {
            rest
        }
    }
}

/// The conflicts among proposed occurrences, each unordered pair `i < j`
/// at most once, for the first `rows` values of `i`.
pub open spec fn internal_conflicts(proposed: Seq<EventOccurrence>, rows: int) -> Seq<Conflict>
    decreases rows,
{
    if rows <= 0 {
        seq![]
    } else {
        internal_conflicts(proposed, rows - 1) + internal_row(proposed, rows - 1, proposed.len() as int)
    }
}

/// All conflicts: proposed against existing first, then, when asked for
/// and there are at least two, proposed against proposed.
pub open spec fn all_conflicts(
    proposed: Seq<EventOccurrence>,
    existing: Seq<EventOccurrence>,
    check_internal: bool,
) -> Seq<Conflict> {
    external_conflicts(proposed, existing) + if check_internal && proposed.len() > 1 {
        internal_conflicts(proposed, proposed.len() as int)
    } else {
        seq![]
    }
}

/// The conflict of `p` with `c`, built from their fields.
fn make_conflict(p: &EventOccurrence, c: &EventOccurrence, id: Option<EventId>, minutes: i64) -> (r:
    Conflict)
    requires
        minutes == overlap_minutes(*p, *c),
    ensures
        r == conflict_of(*p, *c, id),
{
    Conflict {
        proposed_event_title: p.title.clone(),
        proposed_start: p.start,
        proposed_end: p.end,
        conflicting_event_id: id,
        conflicting_event_title: c.title.clone(),
        conflicting_start: c.start,
        conflicting_end: c.end,
        overlap_minutes: minutes,
    }
}

/// Whole minutes that two well-formed occurrences share.
fn shared_minutes(a: &EventOccurrence, b: &EventOccurrence) -> (r: i64)
    requires
        a.wf(),
        b.wf(),
    ensures
        r == overlap_minutes(*a, *b),
{
    let ra = TimeRange::new(a.start, a.end);
    let rb = TimeRange::new(b.start, b.end);
    ra.overlap_duration(&rb) / 60
}

/// Detects conflicts between proposed and existing occurrences by pairwise
/// comparison, and, when `check_internal` holds, among the proposed ones.
pub fn detect_conflicts(
    proposed: &[EventOccurrence],
    existing: &[EventOccurrence],
    check_internal: bool,
) -> (r: Vec<Conflict>)
    requires
        all_occurrences_wf(proposed@),
        all_occurrences_wf(existing@),
    ensures
        r@ == all_conflicts(proposed@, existing@, check_internal),
{
    let ghost ps = proposed@;
    let ghost es = existing@;
    let mut conflicts: Vec<Conflict> = Vec::new();
    let mut i: usize = 0;
    while i < proposed.len()
        invariant
            i <= ps.len(),
            ps == proposed@,
            es == existing@,
            all_occurrences_wf(ps),
            all_occurrences_wf(es),
            conflicts@ == external_conflicts(ps.take(i as int), es),
        decreases ps.len() - i,
    {
        let p = &proposed[i];
        assert(p.wf());
        let ghost base = conflicts@;
        let mut j: usize = 0;
        while j < existing.len()
            invariant
                j <= es.len(),
                es == existing@,
                all_occurrences_wf(es),
                p.wf(),
                conflicts@ == base + conflicts_with(*p, es.take(j as int)),
            decreases es.len() - j,
        {
            let e = &existing[j];
            assert(e.wf());
            assert(es.take(j + 1).drop_last() =~= es.take(j as int));
            assert(es.take(j + 1).last() == *e);
            let minutes = shared_minutes(p, e);
            if minutes > 0 {
                let c = make_conflict(p, e, Some(e.event_id), minutes);
                conflicts.push(c);
            }
            assert(conflicts@ =~= base + conflicts_with(*p, es.take(j + 1)));
            j = j + 1;
        }
        assert(es.take(es.len() as int) =~= es);
        assert(ps.take(i + 1).drop_last() =~= ps.take(i as int));
        assert(ps.take(i + 1).last() == *p);
        i = i + 1;
    }
    assert(ps.take(ps.len() as int) =~= ps);
    let ghost ext = conflicts@;
    if check_internal && proposed.len() > 1 {
        let n = proposed.len();
        let mut i: usize = 0;
        while i < n
            invariant
                i <= n,
                n == ps.len(),
                ps == proposed@,
                all_occurrences_wf(ps),
                conflicts@ == ext + internal_conflicts(ps, i as int),
            decreases n - i,
        {
            let a = &proposed[i];
            assert(a.wf());
            let ghost base = conflicts@;
            let mut j: usize = i + 1;
            assert(internal_row(ps, i as int, j as int) =~= Seq::<Conflict>::empty());
            assert(base + internal_row(ps, i as int, j as int) =~= base);
            while j < n
                invariant
                    i < j <= n,
                    n == ps.len(),
                    ps == proposed@,
                    all_occurrences_wf(ps),
                    a == ps[i as int],
                    conflicts@ == base + internal_row(ps, i as int, j as int),
                decreases n - j,
            {
                let b = &proposed[j];
                assert(b.wf());
                let minutes = shared_minutes(a, b);
                if minutes > 0 {
                    let c = make_conflict(a, b, None, minutes);
                    conflicts.push(c);
                }
                assert(conflicts@ =~= base + internal_row(ps, i as int, j + 1));
                j = j + 1;
            }
            assert(conflicts@ =~= ext + internal_conflicts(ps, i + 1));
            i = i + 1;
        }
    } else {
        assert(conflicts@ =~= ext + Seq::<Conflict>::empty());
    }
    conflicts
}

/// Conflict symmetry: when proposed occurrence `a` shares `N > 0` whole
/// minutes with existing occurrence `b`, detection yields exactly one
/// conflict for the pair, with `N` minutes; with the roles swapped it finds
/// the same `N`. When they share no whole minute, neither order yields one.
pub proof fn lemma_conflict_symmetry(a: EventOccurrence, b: EventOccurrence)
    ensures
        overlap_minutes(a, b) == overlap_minutes(b, a),
        overlap_minutes(a, b) > 0 ==> external_conflicts(seq![a], seq![b]) == seq![
            conflict_of(a, b, Some(b.event_id)),
        ],
        overlap_minutes(a, b) > 0 ==> external_conflicts(seq![b], seq![a]) == seq![
            conflict_of(b, a, Some(a.event_id)),
        ],
        overlap_minutes(a, b) > 0 ==> conflict_of(a, b, Some(b.event_id)).overlap_minutes
            == conflict_of(b, a, Some(a.event_id)).overlap_minutes,
        overlap_minutes(a, b) <= 0 ==> external_conflicts(seq![a], seq![b]).len() == 0,
        overlap_minutes(a, b) <= 0 ==> external_conflicts(seq![b], seq![a]).len() == 0,
{
    reveal_with_fuel(conflicts_with, 2);
    reveal_with_fuel(external_conflicts, 2);
    assert(seq![a].drop_last() =~= Seq::<EventOccurrence>::empty());
    assert(seq![b].drop_last() =~= Seq::<EventOccurrence>::empty());
    assert(external_conflicts(Seq::<EventOccurrence>::empty(), seq![b]) =~= Seq::<Conflict>::empty());
    assert(conflicts_with(a, Seq::<EventOccurrence>::empty()) =~= Seq::<Conflict>::empty());
    assert(conflicts_with(b, Seq::<EventOccurrence>::empty()) =~= Seq::<Conflict>::empty());
    if overlap_minutes(a, b) > 0 {
        assert(external_conflicts(seq![a], seq![b]) =~= seq![conflict_of(a, b, Some(b.event_id))]);
        assert(external_conflicts(seq![b], seq![a]) =~= seq![conflict_of(b, a, Some(a.event_id))]);
    }
}

/// The conflicts of `p` with a prefix of `existing` begin the conflicts of
/// `p` with all of it.
pub proof fn lemma_conflicts_with_prefix(p: EventOccurrence, existing: Seq<EventOccurrence>, k: int)
    requires
        0 <= k <= existing.len(),
    ensures
        conflicts_with(p, existing.take(k)).len() <= conflicts_with(p, existing).len(),
        conflicts_with(p, existing).subrange(0, conflicts_with(p, existing.take(k)).len() as int)
            == conflicts_with(p, existing.take(k)),
    decreases existing.len() - k,
{
    if k == existing.len() {
        assert(existing.take(k) =~= existing);
        assert(conflicts_with(p, existing).subrange(0, conflicts_with(p, existing).len() as int)
            =~= conflicts_with(p, existing));
    } else {
        lemma_conflicts_with_prefix(p, existing, k + 1);
        assert(existing.take(k + 1).drop_last() =~= existing.take(k));
        let a = conflicts_with(p, existing.take(k));
        let b = conflicts_with(p, existing.take(k + 1));
        let all = conflicts_with(p, existing);
        assert(all.subrange(0, a.len() as int) =~= b.subrange(0, a.len() as int));
        assert(b.subrange(0, a.len() as int) =~= a);
    }
}

/// The conflicts of a prefix of `proposed` begin the conflicts of all of it.
pub proof fn lemma_external_prefix(proposed: Seq<EventOccurrence>, existing: Seq<EventOccurrence>, i: int)
    requires
        0 <= i <= proposed.len(),
    ensures
        external_conflicts(proposed.take(i), existing).len() <= external_conflicts(proposed, existing).len(),
        external_conflicts(proposed, existing).subrange(
            0,
            external_conflicts(proposed.take(i), existing).len() as int,
        ) == external_conflicts(proposed.take(i), existing),
    decreases proposed.len() - i,
{
    if i == proposed.len() {
        assert(proposed.take(i) =~= proposed);
        let all = external_conflicts(proposed, existing);
        assert(all.subrange(0, all.len() as int) =~= all);
    } else {
        lemma_external_prefix(proposed, existing, i + 1);
        assert(proposed.take(i + 1).drop_last() =~= proposed.take(i));
        let a = external_conflicts(proposed.take(i), existing);
        let b = external_conflicts(proposed.take(i + 1), existing);
        let all = external_conflicts(proposed, existing);
        assert(all.subrange(0, a.len() as int) =~= b.subrange(0, a.len() as int));
        assert(b.subrange(0, a.len() as int) =~= a);
    }
}

/// Where the conflict of `proposed[i]` with `existing[k]` stands among the
/// proposed-against-existing conflicts: after those of earlier proposed
/// occurrences, and after those of `proposed[i]` with earlier existing ones.
pub open spec fn pair_position(proposed: Seq<EventOccurrence>, existing: Seq<EventOccurrence>, i: int, k: int) -> int {
    external_conflicts(proposed.take(i), existing).len() as int + conflicts_with(proposed[i], existing.take(k)).len() as int
}

/// Each pair of a proposed occurrence `proposed[i]` and an existing
/// occurrence `existing[k]` that share `N > 0` whole minutes yields exactly
/// one conflict: the one at `pair_position(i, k)`, naming both and `N`
/// minutes; pairs in order have positions in order, so no two share one.
pub proof fn lemma_one_conflict_per_pair(
    proposed: Seq<EventOccurrence>,
    existing: Seq<EventOccurrence>,
    i: int,
    k: int,
)
    requires
        0 <= i < proposed.len(),
        0 <= k < existing.len(),
        overlap_minutes(proposed[i], existing[k]) > 0,
    ensures
        0 <= pair_position(proposed, existing, i, k) < external_conflicts(proposed, existing).len(),
        external_conflicts(proposed, existing)[pair_position(proposed, existing, i, k)] == conflict_of(
            proposed[i],
            existing[k],
            Some(existing[k].event_id),
        ),
        conflict_of(proposed[i], existing[k], Some(existing[k].event_id)).overlap_minutes
            == overlap_minutes(proposed[i], existing[k]),
        forall|i2: int, k2: int|
            (i < i2 < proposed.len() && 0 <= k2 < existing.len()) || (i2 == i && k < k2 < existing.len())
                ==> pair_position(proposed, existing, i, k) < #[trigger] pair_position(
                proposed,
                existing,
                i2,
                k2,
            ),
{
    let p = proposed[i];
    let before = external_conflicts(proposed.take(i), existing);
    let row_before = conflicts_with(p, existing.take(k));
    let row_next = conflicts_with(p, existing.take(k + 1));
    let row = conflicts_with(p, existing);
    assert(existing.take(k + 1).drop_last() =~= existing.take(k));
    assert(row_next == row_before.push(conflict_of(p, existing[k], Some(existing[k].event_id))));
    lemma_conflicts_with_prefix(p, existing, k + 1);
    assert(row[row_before.len() as int] == row_next[row_before.len() as int]);
    let upto = external_conflicts(proposed.take(i + 1), existing);
    assert(proposed.take(i + 1).drop_last() =~= proposed.take(i));
    assert(upto == before + row);
    lemma_external_prefix(proposed, existing, i + 1);
    let all = external_conflicts(proposed, existing);
    let pos = pair_position(proposed, existing, i, k);
    assert(all[pos] == upto[pos]);
    assert forall|i2: int, k2: int|
        (i < i2 < proposed.len() && 0 <= k2 < existing.len()) || (i2 == i && k < k2 < existing.len())
            implies pos < #[trigger] pair_position(proposed, existing, i2, k2) by {
        if i2 == i {
            lemma_conflicts_with_prefix(p, existing.take(k2), k + 1);
            assert(existing.take(k2).take(k + 1) =~= existing.take(k + 1));
        } else {
            lemma_external_prefix(proposed.take(i2), existing, i + 1);
            assert(proposed.take(i2).take(i + 1) =~= proposed.take(i + 1));
        }
    }
}

} // verus!
