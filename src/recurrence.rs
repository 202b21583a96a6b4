//! Expansion of events, recurring or not, into occurrences within a window.
use vstd::prelude::*;
use vstd::std_specs::iter::IteratorSpec;
use vstd::string::StringExecFns;

use crate::error::TempoError;
use crate::event::{Event, EventOccurrence, OccurrenceView};
use crate::time_utils::{instant_ok, TimeRange, MAX_INSTANT};

verus! {

/// The most occurrences that one recurring event yields in one query: a
/// guard against rules such as "every minute forever".
pub const MAX_RECURRENCE_OCCURRENCES: u16 = 1000;

/// No character of `s` ends a line.
pub open spec fn no_line_break(s: Seq<char>) -> bool {
    forall|i: int| 0 <= i < s.len() ==> s[i] != '\n' && s[i] != '\r'
}

/// Whether some character of `s` ends a line.
pub fn has_line_break(s: &str) -> (r: bool)
    ensures
        r == !no_line_break(s@),
{
    let mut it = s.chars();
    let ghost k: int = 0;
    proof {
        vstd::string::axiom_spec_iter(s);
    }
    loop
        invariant
            0 <= k <= s@.len(),
            it.remaining() == s@.skip(k),
            forall|i: int| 0 <= i < k ==> s@[i] != '\n' && s@[i] != '\r',
        decreases s@.len() - k,
    {
        let ghost before = it;
        match it.next() {
            None => {
                proof {
                    vstd::string::next_postcondition(&before, &it, None);
                }
                assert(s@.skip(k).len() == 0);
                return false;
            },
            Some(c) => {
                proof {
                    vstd::string::next_postcondition(&before, &it, Some(c));
                }
                assert(c == s@[k]);
                if c == '\n' || c == '\r' {
                    return true;
                }
                proof {
                    assert(s@.skip(k).drop_first() =~= s@.skip(k + 1));
                    k = k + 1;
                }
            },
        }
    }
}

/// The text of an instant in iCalendar's basic UTC form
/// (`YYYYMMDDTHHMMSSZ`), as chrono's `format` writes it.
pub uninterp spec fn utc_basic(t: i64) -> Seq<char>;

/// Relies on chrono's `DateTime::from_timestamp` and `format` with
/// `%Y%m%dT%H%M%SZ`: the text depends on the instant alone and is made of
/// digits, a sign, `T` and `Z`, so it holds no line break.
#[verifier::external_body]
fn utc_basic_text(t: i64) -> (r: String)
    requires
        instant_ok(t as int),
    ensures
        r@ == utc_basic(t),
        no_line_break(r@),
{
    chrono::DateTime::from_timestamp(t, 0).unwrap().format("%Y%m%dT%H%M%SZ").to_string()
}

/// A recurrence text anchored at a start: a DTSTART line, then the RRULE line.
pub open spec fn anchored_rule_text(anchor: Seq<char>, rule: Seq<char>) -> Seq<char> {
    "DTSTART:"@ + anchor + "\nRRULE:"@ + rule
}

/// `text` is a DTSTART line and one RRULE line, neither with a line break
/// of its own.
pub open spec fn two_line_rule_text(text: Seq<char>) -> bool {
    exists|anchor: Seq<char>, rule: Seq<char>|
        no_line_break(anchor) && no_line_break(rule) && #[trigger] anchored_rule_text(anchor, rule)
            == text
}

/// The start instants that the recurrence text `text` yields between
/// `after` and `before` (both included), the first `cap` of them; `None`
/// when the text is rejected.
pub uninterp spec fn rule_starts(text: Seq<char>, after: i64, before: i64, cap: u16) -> Option<Seq<i64>>;

/// Relies on rrule's `RRuleSet`: its parser (`FromStr`), then `after`,
/// `before` and `all(cap)`, which keep the recurrences within
/// `[after, before]`, at most `cap` of them. A rejected text gives the
/// parser's message. The text is two lines, a DTSTART in UTC and an RRULE,
/// so no date-time in it is read in the machine's time zone.
#[verifier::external_body]
fn rule_instants(text: &str, after: i64, before: i64, cap: u16) -> (r: Result<Vec<i64>, String>)
    requires
        two_line_rule_text(text@),
        instant_ok(after as int),
        instant_ok(before as int),
    ensures
        match r {
            Ok(v) => {
                &&& rule_starts(text@, after, before, cap) == Some(v@)
                &&& v@.len() <= cap
                &&& forall|i: int| 0 <= i < v@.len() ==> after <= #[trigger] v@[i] <= before
            },
            Err(_) => rule_starts(text@, after, before, cap) is None,
        },
{
    let at = |t: i64| chrono::DateTime::from_timestamp(t, 0).unwrap().with_timezone(&rrule::Tz::UTC);
    let set: rrule::RRuleSet = text.parse().map_err(|e: rrule::RRuleError| e.to_string())?;
    let result = set.after(at(after)).before(at(before)).all(cap);
    Ok(result.dates.iter().map(|d| d.timestamp()).collect())
}

/// The starts of `starts` that come before `end`, in order.
pub open spec fn starts_before(starts: Seq<i64>, end: i64) -> Seq<i64>
    decreases starts.len(),
{
    if starts.len() == 0 {
        seq![]
    } else {
        let rest = starts_before(starts.drop_last(), end);
        if starts.last() < end {
            rest.push(starts.last())
        } else {
            rest
        }
    }
}

/// The recurrence text of a recurring event: its rule anchored at its start.
pub open spec fn event_rule_text(e: Event) -> Seq<char> {
    anchored_rule_text(utc_basic(e.start), e.recurrence->0.rrule@)
}

/// `m` is the message of a rejected rule: the rule text, `": "`, then why.
pub open spec fn rule_error_text(rule: Seq<char>, m: Seq<char>) -> bool {
    exists|why: Seq<char>| m == rule + ": "@ + why
}

/// The occurrence of recurring event `e` that starts at `s`, as long as `e`.
pub open spec fn recurring_occurrence(e: Event, s: i64) -> OccurrenceView {
    (e.id, e.title, s, (s + (e.end - e.start)) as i64, true, e.metadata@)
}

/// Every start of `starts`, moved by the length of `e`, is still an instant
/// the library holds.
pub open spec fn starts_fit(e: Event, starts: Seq<i64>) -> bool {
    forall|i: int| 0 <= i < starts.len() ==> #[trigger] starts[i] + (e.end - e.start) <= MAX_INSTANT
}

/// The occurrences of `e` within `[start, end)`: a non-recurring event once
/// when it overlaps the window; a recurring one at each start before `end`
/// among those that its rule yields from `start` to `end` (capped); `None`
/// when the rule holds a line break or is rejected, or an occurrence would
/// end past the last instant.
pub open spec fn expansion(e: Event, start: i64, end: i64) -> Option<Seq<OccurrenceView>> {
    match e.recurrence {
        None => Some(
            if (TimeRange { start: e.start, end: e.end }).spec_overlaps(TimeRange { start, end }) {
                seq![e.spec_occurrence()]
            } else {
                seq![]
            },
        ),
        Some(rule) => if !no_line_break(rule.rrule@) {
            None
        } else {
            match rule_starts(event_rule_text(e), start, end, MAX_RECURRENCE_OCCURRENCES) {
                None => None,
                Some(found) => {
                    let starts = starts_before(found, end);
                    if starts_fit(e, starts) {
                        Some(starts.map_values(|s: i64| recurring_occurrence(e, s)))
                    } else {
                        None
                    }
                },
            }
        },
    }
}

/// `err` is the error of expanding `e` within `[start, end)` when that
/// fails: a rule with a line break or one that the evaluator rejects gives
/// `InvalidRrule` with the rule text first; else an occurrence ended past
/// the last instant.
pub open spec fn expansion_failure(e: Event, start: i64, end: i64, err: TempoError) -> bool {
    match e.recurrence {
        Some(rule) => if !no_line_break(rule.rrule@) || rule_starts(
            event_rule_text(e),
            start,
            end,
            MAX_RECURRENCE_OCCURRENCES,
        ) is None {
            err matches TempoError::InvalidRrule(m) && rule_error_text(rule.rrule@, m@)
        } else {
            err is InvalidTimeRange
        },
        None => false,
    }
}

/// The views of a sequence of occurrences.
pub open spec fn views(s: Seq<EventOccurrence>) -> Seq<OccurrenceView> {
    s.map_values(|o: EventOccurrence| o@)
}

/// The occurrences of recurring `event` at each of `starts`, each as long
/// as the event; fails when one would end past the last instant.
pub fn occurrences_from_starts(event: &Event, starts: &Vec<i64>) -> (r: Result<
    Vec<EventOccurrence>,
    TempoError,
>)
    requires
        event.wf(),
        forall|i: int| 0 <= i < starts@.len() ==> instant_ok(#[trigger] starts@[i] as int),
    ensures
        r is Ok <==> starts_fit(*event, starts@),
        match r {
            Ok(v) => {
                &&& views(v@) == starts@.map_values(|s: i64| recurring_occurrence(*event, s))
                &&& forall|i: int| 0 <= i < v@.len() ==> (#[trigger] v@[i]).wf()
            },
            Err(e) => e is InvalidTimeRange,
        },
{
    let duration = event.end - event.start;
    let mut out: Vec<EventOccurrence> = Vec::new();
    let mut i: usize = 0;
    while i < starts.len()
        invariant
            i <= starts@.len(),
            event.wf(),
            duration == event.end - event.start,
            forall|k: int| 0 <= k < starts@.len() ==> instant_ok(#[trigger] starts@[k] as int),
            forall|k: int| 0 <= k < i ==> #[trigger] starts@[k] + duration <= MAX_INSTANT,
            views(out@) == starts@.take(i as int).map_values(
                |s: i64| recurring_occurrence(*event, s),
            ),
            forall|k: int| 0 <= k < out@.len() ==> (#[trigger] out@[k]).wf(),
        decreases starts@.len() - i,
    {
        let s = starts[i];
        assert(instant_ok(s as int));
        if s > MAX_INSTANT - duration {
            return Err(TempoError::InvalidTimeRange("occurrence ends past the last instant".to_owned()));
        }
        let ghost before = out@;
        out.push(
            EventOccurrence {
                event_id: event.id,
                title: event.title.clone(),
                start: s,
                end: s + duration,
                is_recurring: true,
                metadata: event.metadata.clone(),
            },
        );
        assert(views(out@) =~= starts@.take(i + 1).map_values(
            |s: i64| recurring_occurrence(*event, s),
        )) by {
            assert(views(before).len() == i);
            assert forall|k: int| 0 <= k < i + 1 implies views(out@)[k] == starts@.take(i + 1).map_values(
                |s: i64| recurring_occurrence(*event, s),
            )[k] by {
                if k < i {
                    assert(out@[k] == before[k]);
                    assert(views(before)[k] == before[k]@);
                }
            }
        }
        i = i + 1;
    }
    assert(starts@.take(starts@.len() as int) =~= starts@);
    Ok(out)
}

/// Expands an event, recurring or not, into its occurrences within the
/// window `[range_start, range_end)`.
pub fn expand_event(event: &Event, range_start: i64, range_end: i64) -> (r: Result<
    Vec<EventOccurrence>,
    TempoError,
>)
    requires
        event.wf(),
        instant_ok(range_start as int),
        instant_ok(range_end as int),
    ensures
        r is Ok <==> expansion(*event, range_start, range_end) is Some,
        match r {
            Ok(v) => {
                &&& Some(views(v@)) == expansion(*event, range_start, range_end)
                &&& forall|i: int| 0 <= i < v@.len() ==> (#[trigger] v@[i]).wf()
            },
            Err(e) => expansion_failure(*event, range_start, range_end, e),
        },
{
    match &event.recurrence {
        None => {
            let event_range = TimeRange::new(event.start, event.end);
            let query_range = TimeRange { start: range_start, end: range_end };
            if event_range.overlaps(&query_range) {
                let mut v: Vec<EventOccurrence> = Vec::new();
                v.push(event.to_occurrence());
                assert(views(v@) =~= seq![event.spec_occurrence()]);
                Ok(v)
            } else {
                let v: Vec<EventOccurrence> = Vec::new();
                assert(views(v@) =~= Seq::<OccurrenceView>::empty());
                Ok(v)
            }
        },
        Some(recurrence) => {
            let rule = recurrence.rrule.as_str();
            if has_line_break(rule) {
                let why = "the rule must be a single line";
                let message = rule.to_owned().concat(": ").concat(why);
                assert(message@ == rule@ + ": "@ + why@);
                return Err(TempoError::InvalidRrule(message));
            }
            let anchor = utc_basic_text(event.start);
            let text = "DTSTART:".to_owned().concat(anchor.as_str()).concat("\nRRULE:").concat(rule);
            assert(text@ == anchored_rule_text(anchor@, rule@));
            let found = match rule_instants(text.as_str(), range_start, range_end, MAX_RECURRENCE_OCCURRENCES) {
                Ok(v) => v,
                Err(why) => {
                    let message = rule.to_owned().concat(": ").concat(why.as_str());
                    assert(message@ == rule@ + ": "@ + why@);
                    return Err(TempoError::InvalidRrule(message));
                },
            };
            let mut starts: Vec<i64> = Vec::new();
            let mut i: usize = 0;
            while i < found.len()
                invariant
                    i <= found@.len(),
                    starts@ == starts_before(found@.take(i as int), range_end),
                    forall|k: int| 0 <= k < found@.len() ==> range_start <= #[trigger] found@[k] <= range_end,
                    forall|k: int| 0 <= k < starts@.len() ==> range_start <= #[trigger] starts@[k] <= range_end,
                decreases found@.len() - i,
            {
                assert(found@.take(i + 1).drop_last() =~= found@.take(i as int));
                if found[i] < range_end {
                    starts.push(found[i]);
                }
                i = i + 1;
            }
            assert(found@.take(found@.len() as int) =~= found@);
            occurrences_from_starts(event, &starts)
        },
    }
}

} // verus!
