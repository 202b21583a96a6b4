//! Translation of textual event input (plain JSON events and Google
//! Calendar events, already decoded into these structures) into events.
use std::collections::HashMap;
use vstd::prelude::*;
use vstd::std_specs::hash::{axiom_random_state_builds_valid_hashers, obeys_key_model};
use vstd::string::StringExecFns;

use crate::error::TempoError;
use crate::event::{Event, EventId, RecurrenceRule};
use crate::proposal::ProposedEvent;
use crate::time_utils::instant_ok;

verus! {

/// The instant, in whole seconds, that an RFC 3339 text names, as chrono's
/// `DateTime::parse_from_rfc3339` reads it; `None` when the text is not one.
pub uninterp spec fn rfc3339_instant(s: Seq<char>) -> Option<i64>;

/// The instant, in whole seconds, of a `%Y-%m-%dT%H:%M:%S` text read in UTC,
/// as chrono's `NaiveDateTime::parse_from_str` reads it; `None` when the
/// text is not one.
pub uninterp spec fn naive_utc_instant(s: Seq<char>) -> Option<i64>;

/// Relies on chrono's `DateTime::parse_from_rfc3339` and `timestamp`: the
/// instant the text names, whatever its offset; chrono's dates lie within
/// the instants the library holds.
#[verifier::external_body]
fn parse_rfc3339(s: &str) -> (r: Option<i64>)
    ensures
        r == rfc3339_instant(s@),
        r matches Some(t) ==> instant_ok(t as int),
{
    chrono::DateTime::parse_from_rfc3339(s).ok().map(|dt| dt.timestamp())
}

/// Relies on chrono's `NaiveDateTime::parse_from_str` with the format
/// `%Y-%m-%dT%H:%M:%S`, read as UTC; chrono's dates lie within the instants
/// the library holds.
#[verifier::external_body]
fn parse_naive_utc(s: &str) -> (r: Option<i64>)
    ensures
        r == naive_utc_instant(s@),
        r matches Some(t) ==> instant_ok(t as int),
{
    chrono::NaiveDateTime::parse_from_str(s, "%Y-%m-%dT%H:%M:%S").ok().map(|dt| dt.and_utc().timestamp())
}

/// The instant that a date-time text names: RFC 3339 first, else a
/// date-time without offset read as UTC.
pub open spec fn datetime_of(s: Seq<char>) -> Option<i64> {
    match rfc3339_instant(s) {
        Some(t) => Some(t),
        None => naive_utc_instant(s),
    }
}

/// The message for a text that names no instant.
pub open spec fn unparsable_message(s: Seq<char>) -> Seq<char> {
    "Cannot parse datetime: '"@ + s + "'. Use ISO 8601 format."@
}

/// The message for an event whose end is not after its start.
pub open spec fn reversed_message() -> Seq<char> {
    "End time must be after start time"@
}

/// Reads a date-time text: RFC 3339 (any offset) first, else
/// `YYYY-MM-DDTHH:MM:SS` taken as UTC.
pub fn parse_datetime(s: &str) -> (r: Result<i64, TempoError>)
    ensures
        match datetime_of(s@) {
            Some(t) => r == Ok::<i64, TempoError>(t) && instant_ok(t as int),
            None => r matches Err(TempoError::InvalidTimeRange(m)) && m@ == unparsable_message(s@),
        },
{
    if let Some(t) = parse_rfc3339(s) {
        return Ok(t);
    }
    if let Some(t) = parse_naive_utc(s) {
        return Ok(t);
    }
    let mut message = "Cannot parse datetime: '".to_owned();
    message.append(s);
    message.append("'. Use ISO 8601 format.");
    Err(TempoError::InvalidTimeRange(message))
}

/// A plain event as given in JSON input, before validation.
#[derive(Clone, Debug)]
pub struct JsonEventInput {
    pub title: String,
    pub start: String,
    pub end: String,
    pub timezone: Option<String>,
    pub rrule: Option<String>,
    pub metadata: Option<HashMap<String, String>>,
}

/// The fields of a validated input event.
struct ParsedEventInput {
    title: String,
    start: i64,
    end: i64,
    timezone: String,
    recurrence: Option<RecurrenceRule>,
    metadata: HashMap<String, String>,
}

/// `r` is the error of reading the times `start` and `end`: the first that
/// names no instant, else an end that is not after the start.
pub open spec fn time_pair_error(start: Seq<char>, end: Seq<char>, e: TempoError) -> bool {
    match (datetime_of(start), datetime_of(end)) {
        (None, _) => e matches TempoError::InvalidTimeRange(m) && m@ == unparsable_message(start),
        (Some(_), None) => e matches TempoError::InvalidTimeRange(m) && m@ == unparsable_message(end),
        (Some(_), Some(_)) => e matches TempoError::InvalidTimeRange(m) && m@ == reversed_message(),
    }
}

/// The times `start` and `end` name instants, the end after the start.
pub open spec fn time_pair_ok(start: Seq<char>, end: Seq<char>) -> bool {
    datetime_of(start) is Some && datetime_of(end) is Some && datetime_of(start)->0 < datetime_of(end)->0
}

/// The event fields that `input` yields, once its times are valid: the
/// time-zone label defaults to "UTC" and the metadata to empty.
pub open spec fn input_fields_ok(
    input: JsonEventInput,
    title: String,
    start: i64,
    end: i64,
    timezone: String,
    recurrence: Option<RecurrenceRule>,
    metadata: Map<String, String>,
) -> bool {
    &&& title == input.title
    &&& start == datetime_of(input.start@)->0
    &&& end == datetime_of(input.end@)->0
    &&& match input.timezone {
        Some(t) => timezone == t,
        None => timezone@ == "UTC"@,
    }
    &&& match input.rrule {
        Some(rule) => recurrence == Some(RecurrenceRule { rrule: rule }),
        None => recurrence is None,
    }
    &&& match input.metadata {
        Some(m) => metadata == m@,
        None => metadata == Map::<String, String>::empty(),
    }
}

fn parse_time_pair(start: &String, end: &String) -> (r: Result<(i64, i64), TempoError>)
    ensures
        r is Ok <==> time_pair_ok(start@, end@),
        match r {
            Ok((s, e)) => s == datetime_of(start@)->0 && e == datetime_of(end@)->0 && instant_ok(
                s as int,
            ) && instant_ok(e as int),
            Err(e) => time_pair_error(start@, end@, e),
        },
{
    let s = match parse_datetime(start.as_str()) {
        Ok(t) => t,
        Err(e) => return Err(e),
    };
    let e = match parse_datetime(end.as_str()) {
        Ok(t) => t,
        Err(e) => return Err(e),
    };
    if e <= s {
        return Err(TempoError::InvalidTimeRange("End time must be after start time".to_owned()));
    }
    Ok((s, e))
}

fn parse_json_event_input(input: &JsonEventInput) -> (r: Result<ParsedEventInput, TempoError>)
    ensures
        r is Ok <==> time_pair_ok(input.start@, input.end@),
        match r {
            Ok(p) => input_fields_ok(
                *input,
                p.title,
                p.start,
                p.end,
                p.timezone,
                p.recurrence,
                p.metadata@,
            ) && instant_ok(p.start as int) && instant_ok(p.end as int),
            Err(e) => time_pair_error(input.start@, input.end@, e),
        },
{
    let (start, end) = match parse_time_pair(&input.start, &input.end) {
        Ok(pair) => pair,
        Err(e) => return Err(e),
    };
    let timezone = match &input.timezone {
        Some(t) => t.clone(),
        None => "UTC".to_owned(),
    };
    let recurrence = match &input.rrule {
        Some(rule) => Some(RecurrenceRule { rrule: rule.clone() }),
        None => None,
    };
    let metadata = match &input.metadata {
        Some(m) => m.clone(),
        None => HashMap::new(),
    };
    Ok(ParsedEventInput { title: input.title.clone(), start, end, timezone, recurrence, metadata })
}

/// A draft event from JSON input; fails when a time cannot be read or the
/// end is not after the start.
pub fn json_event_to_proposed(input: &JsonEventInput) -> (r: Result<ProposedEvent, TempoError>)
    ensures
        r is Ok <==> time_pair_ok(input.start@, input.end@),
        match r {
            Ok(p) => input_fields_ok(
                *input,
                p.title,
                p.start,
                p.end,
                p.timezone,
                p.recurrence,
                p.metadata@,
            ) && p.wf(),
            Err(e) => time_pair_error(input.start@, input.end@, e),
        },
{
    let parsed = match parse_json_event_input(input) {
        Ok(p) => p,
        Err(e) => return Err(e),
    };
    Ok(
        ProposedEvent {
            title: parsed.title,
            start: parsed.start,
            end: parsed.end,
            timezone: parsed.timezone,
            recurrence: parsed.recurrence,
            metadata: parsed.metadata,
        },
    )
}

/// An event with a fresh identifier from JSON input; fails when a time
/// cannot be read or the end is not after the start.
pub fn json_event_to_event(input: &JsonEventInput) -> (r: Result<Event, TempoError>)
    ensures
        r is Ok <==> time_pair_ok(input.start@, input.end@),
        match r {
            Ok(e) => input_fields_ok(
                *input,
                e.title,
                e.start,
                e.end,
                e.timezone,
                e.recurrence,
                e.metadata@,
            ) && e.wf(),
            Err(e) => time_pair_error(input.start@, input.end@, e),
        },
{
    let parsed = match parse_json_event_input(input) {
        Ok(p) => p,
        Err(e) => return Err(e),
    };
    Ok(
        Event {
            id: EventId::new(),
            title: parsed.title,
            start: parsed.start,
            end: parsed.end,
            timezone: parsed.timezone,
            recurrence: parsed.recurrence,
            metadata: parsed.metadata,
        },
    )
}

/// A start or end of a Google Calendar event: a date-time, or a date for
/// all-day events, with an optional time-zone name.
#[derive(Clone, Debug)]
pub struct GCalDateTime {
    pub date_time: Option<String>,
    pub date: Option<String>,
    pub time_zone: Option<String>,
}

/// An event as the Google Calendar API lists it.
#[derive(Clone, Debug)]
pub struct GCalEvent {
    pub id: Option<String>,
    pub summary: Option<String>,
    pub start: GCalDateTime,
    pub end: GCalDateTime,
    pub description: Option<String>,
    pub location: Option<String>,
    pub status: Option<String>,
}

/// The text of a Google Calendar time: its date-time, else its date.
pub open spec fn gcal_text(t: GCalDateTime) -> Option<String> {
    match t.date_time {
        Some(s) => Some(s),
        None => t.date,
    }
}

fn gcal_time_text(t: &GCalDateTime) -> (r: Option<&String>)
    ensures
        match gcal_text(*t) {
            Some(s) => r == Some(&s),
            None => r is None,
        },
{
    match &t.date_time {
        Some(s) => Some(s),
        None => match &t.date {
            Some(s) => Some(s),
            None => None,
        },
    }
}

/// The metadata entry for `name` in `m`: present with `value` when the
/// field is given, absent otherwise.
pub open spec fn entry_matches(m: Map<String, String>, name: Seq<char>, value: Option<String>) -> bool {
    match value {
        Some(v) => exists|k: String| k@ == name && #[trigger] m.contains_key(k) && m[k] == v,
        None => forall|k: String| k@ == name ==> !(#[trigger] m.contains_key(k)),
    }
}

/// `m` records the Google identifier, description and location of `input`
/// that are given, under "google_calendar_id", "description" and
/// "location", and nothing else.
pub open spec fn gcal_metadata(m: Map<String, String>, input: GCalEvent) -> bool {
    &&& entry_matches(m, "google_calendar_id"@, input.id)
    &&& entry_matches(m, "description"@, input.description)
    &&& entry_matches(m, "location"@, input.location)
    &&& forall|k: String|
        #[trigger] m.contains_key(k) ==> k@ == "google_calendar_id"@ || k@ == "description"@ || k@
            == "location"@
}

/// An event with a fresh identifier from a Google Calendar event. The
/// title defaults to "Busy" and the time-zone label to the start's zone or
/// "UTC"; the metadata records the Google identifier, description and
/// location that are given.
pub fn gcal_event_to_event(input: &GCalEvent) -> (r: Result<Event, TempoError>)
    ensures
        match (gcal_text(input.start), gcal_text(input.end)) {
            (None, _) => r matches Err(TempoError::InvalidInput(m)) && m@ == "Missing start dateTime"@,
            (Some(_), None) => r matches Err(TempoError::InvalidInput(m)) && m@ == "Missing end dateTime"@,
            (Some(s), Some(e)) => {
                &&& r is Ok <==> time_pair_ok(s@, e@)
                &&& match r {
                    Ok(ev) => {
                        &&& ev.start == datetime_of(s@)->0
                        &&& ev.end == datetime_of(e@)->0
                        &&& ev.wf()
                        &&& ev.recurrence is None
                        &&& match input.summary {
                            Some(t) => ev.title == t,
                            None => ev.title@ == "Busy"@,
                        }
                        &&& match input.start.time_zone {
                            Some(z) => ev.timezone == z,
                            None => ev.timezone@ == "UTC"@,
                        }
                        &&& obeys_key_model::<String>() ==> gcal_metadata(ev.metadata@, *input)
                    },
                    Err(err) => time_pair_error(s@, e@, err),
                }
            },
        },
{
    let start_text = match gcal_time_text(&input.start) {
        Some(s) => s,
        None => return Err(TempoError::InvalidInput("Missing start dateTime".to_owned())),
    };
    let end_text = match gcal_time_text(&input.end) {
        Some(s) => s,
        None => return Err(TempoError::InvalidInput("Missing end dateTime".to_owned())),
    };
    let (start, end) = match parse_time_pair(start_text, end_text) {
        Ok(pair) => pair,
        Err(e) => return Err(e),
    };
    let title = match &input.summary {
        Some(t) => t.clone(),
        None => "Busy".to_owned(),
    };
    let timezone = match &input.start.time_zone {
        Some(z) => z.clone(),
        None => "UTC".to_owned(),
    };
    let mut metadata: HashMap<String, String> = HashMap::new();
    let id_key = "google_calendar_id".to_owned();
    let description_key = "description".to_owned();
    let location_key = "location".to_owned();
    proof {
        reveal_strlit("google_calendar_id");
        reveal_strlit("description");
        reveal_strlit("location");
        broadcast use axiom_random_state_builds_valid_hashers;
    }
    assert(id_key@.len() == 18 && description_key@.len() == 11 && location_key@.len() == 8);
    let ghost keys = (id_key, description_key, location_key);
    let ghost m0 = metadata@;
    if let Some(id) = &input.id {
        metadata.insert(id_key, id.clone());
    }
    let ghost m1 = metadata@;
    if let Some(desc) = &input.description {
        metadata.insert(description_key, desc.clone());
    }
    let ghost m2 = metadata@;
    if let Some(loc) = &input.location {
        metadata.insert(location_key, loc.clone());
    }
    proof {
        if obeys_key_model::<String>() {
            let (k1, k2, k3) = keys;
            assert(m0 == Map::<String, String>::empty());
            assert(m1 == match input.id {
                Some(v) => m0.insert(k1, v),
                None => m0,
            });
            assert(m2 == match input.description {
                Some(v) => m1.insert(k2, v),
                None => m1,
            });
            assert(metadata@ == match input.location {
                Some(v) => m2.insert(k3, v),
                None => m2,
            });
            let m = metadata@;
            assert forall|k: String| #[trigger] m.contains_key(k) implies k == k1 || k == k2 || k == k3 by {}
            if input.id is Some {
                assert(m.contains_key(k1));
            }
            if input.description is Some {
                assert(m.contains_key(k2));
            }
            if input.location is Some {
                assert(m.contains_key(k3));
            }
            assert(gcal_metadata(m, *input));
        }
    }
    Ok(Event { id: EventId::new(), title, start, end, timezone, recurrence: None, metadata })
}

} // verus!
