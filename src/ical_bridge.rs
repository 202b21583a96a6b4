//! Reading events from iCalendar text and writing events as iCalendar
//! text, through the icalendar crate.
use icalendar::Calendar as IcalCalendar;
use icalendar::CalendarDateTime as C;
use icalendar::DatePerhapsTime as D;
use icalendar::Event as IcalEvent;
use icalendar::{Component, EventLike};
use std::collections::HashMap;
use vstd::prelude::*;
use vstd::string::StringExecFns;

use crate::error::TempoError;
use crate::event::{id_text, Event, EventId, RecurrenceRule};
use crate::time_utils::{instant_ok, MAX_INSTANT};

verus! {

#[verifier::external_type_specification]
#[verifier::external_body]
pub struct ExIcalCalendar(IcalCalendar);

#[verifier::external_type_specification]
#[verifier::external_body]
pub struct ExIcalEvent(IcalEvent);

#[verifier::external_type_specification]
#[verifier::external_body]
pub struct ExIcalComponent(icalendar::CalendarComponent);

/// A start or end time read from an iCalendar event, in whole seconds.
#[derive(Clone, Copy, Debug, PartialEq, Eq, Structural)]
pub enum IcalTime {
    /// A time in UTC.
    Utc(i64),
    /// A local time without zone, its wall-clock reading taken as UTC.
    Floating(i64),
    /// A local time with a zone reference, its wall-clock reading taken as UTC.
    Zoned(i64),
    /// A date without time: its midnight in UTC.
    Date(i64),
}

impl IcalTime {
    /// The instant that the time stands for: zone references are not
    /// resolved, so every form is read on the UTC timeline.
    pub open spec fn spec_seconds(self) -> i64 {
        match self {
            IcalTime::Utc(s) => s,
            IcalTime::Floating(s) => s,
            IcalTime::Zoned(s) => s,
            IcalTime::Date(s) => s,
        }
    }

    pub fn seconds(&self) -> (r: i64)
        ensures
            r == self.spec_seconds(),
    {
        match self {
            IcalTime::Utc(s) => *s,
            IcalTime::Floating(s) => *s,
            IcalTime::Zoned(s) => *s,
            IcalTime::Date(s) => *s,
        }
    }
}

/// For each component of the iCalendar text, in order, whether it is a
/// VEVENT; `None` when the text is rejected.
pub uninterp spec fn ical_event_slots(text: Seq<char>) -> Option<Seq<bool>>;

/// Relies on icalendar's `FromStr` for `Calendar` and its `components`
/// field: one entry per component, in order, holding the component when it
/// is an event; or the parser's message. The parse depends on the text alone.
#[verifier::external_body]
fn ical_parse_components(text: &str) -> (r: Result<Vec<Option<IcalEvent>>, String>)
    ensures
        match r {
            Ok(v) => ical_event_slots(text@) == Some(v@.map_values(|c: Option<IcalEvent>| c is Some)),
            Err(_) => ical_event_slots(text@) is None,
        },
{
    let cal = text.parse::<IcalCalendar>()?;
    Ok(cal.components.into_iter().map(|c| match c {
        icalendar::CalendarComponent::Event(e) => Some(e),
        _ => None,
    }).collect())
}

/// How many entries of `slots` are set.
pub open spec fn count_set(slots: Seq<bool>) -> nat
    decreases slots.len(),
{
    if slots.len() == 0 {
        0
    } else {
        count_set(slots.drop_last()) + if slots.last() {
            1nat
        } else {
            0nat
        }
    }
}

/// Relies on icalendar's `Component::get_summary`: the SUMMARY text.
#[verifier::external_body]
fn ical_summary(ev: &IcalEvent) -> (r: Option<String>) {
    ev.get_summary().map(|s| s.to_string())
}

/// Relies on icalendar's `Component::property_value`: the RRULE text.
#[verifier::external_body]
fn ical_rrule(ev: &IcalEvent) -> (r: Option<String>) {
    ev.property_value("RRULE").map(|s| s.to_string())
}

/// Relies on icalendar's `EventLike::get_start` and chrono's timestamps:
/// the DTSTART time; chrono's dates lie within the instants the library holds.
#[verifier::external_body]
fn ical_start(ev: &IcalEvent) -> (r: Option<IcalTime>)
    ensures
        r matches Some(t) ==> instant_ok(t.spec_seconds() as int),
{
    ev.get_start().map(|d| match d {
        D::DateTime(C::Utc(u)) => IcalTime::Utc(u.timestamp()),
        D::DateTime(C::Floating(n)) => IcalTime::Floating(n.and_utc().timestamp()),
        D::DateTime(C::WithTimezone { date_time, .. }) => IcalTime::Zoned(date_time.and_utc().timestamp()),
        D::Date(day) => IcalTime::Date(day.and_time(chrono::NaiveTime::MIN).and_utc().timestamp()),
    })
}

/// Relies on icalendar's `EventLike::get_end` and chrono's timestamps: the
/// DTEND time; chrono's dates lie within the instants the library holds.
#[verifier::external_body]
fn ical_end(ev: &IcalEvent) -> (r: Option<IcalTime>)
    ensures
        r matches Some(t) ==> instant_ok(t.spec_seconds() as int),
{
    ev.get_end().map(|d| match d {
        D::DateTime(C::Utc(u)) => IcalTime::Utc(u.timestamp()),
        D::DateTime(C::Floating(n)) => IcalTime::Floating(n.and_utc().timestamp()),
        D::DateTime(C::WithTimezone { date_time, .. }) => IcalTime::Zoned(date_time.and_utc().timestamp()),
        D::Date(day) => IcalTime::Date(day.and_time(chrono::NaiveTime::MIN).and_utc().timestamp()),
    })
}

/// Length given to an event without DTEND: one hour.
pub const DEFAULT_ICAL_DURATION: i64 = 3600;

/// Builds an event, with the identifier `id`, from the fields of an
/// iCalendar event: the title defaults to "(untitled)", DTSTART is
/// required, DTEND defaults to one hour after the start, and the
/// time-zone label is "UTC".
pub fn event_from_ical_fields(
    id: EventId,
    summary: Option<String>,
    start: Option<IcalTime>,
    end: Option<IcalTime>,
    rrule: Option<String>,
) -> (r: Result<Event, TempoError>)
    requires
        start matches Some(t) ==> instant_ok(t.spec_seconds() as int),
    ensures
        match start {
            None => r matches Err(TempoError::InvalidIcal(m)) && m@ == "Missing DTSTART field"@,
            Some(s) => match end {
                None if s.spec_seconds() > MAX_INSTANT - DEFAULT_ICAL_DURATION => r matches Err(
                    TempoError::InvalidTimeRange(_),
                ),
                _ => r matches Ok(e) && {
                    &&& e.id == id
                    &&& match summary {
                        Some(t) => e.title == t,
                        None => e.title@ == "(untitled)"@,
                    }
                    &&& e.start == s.spec_seconds()
                    &&& e.end == match end {
                        Some(t) => t.spec_seconds(),
                        None => (s.spec_seconds() + DEFAULT_ICAL_DURATION) as i64,
                    }
                    &&& e.timezone@ == "UTC"@
                    &&& match rrule {
                        Some(rule) => e.recurrence == Some(RecurrenceRule { rrule: rule }),
                        None => e.recurrence is None,
                    }
                    &&& e.metadata@ == Map::<String, String>::empty()
                },
            },
        },
{
    let title = match summary {
        Some(t) => t,
        None => "(untitled)".to_owned(),
    };
    let start = match start {
        Some(t) => t.seconds(),
        None => return Err(TempoError::InvalidIcal("Missing DTSTART field".to_owned())),
    };
    let end = match end {
        Some(t) => t.seconds(),
        None => {
            if start > MAX_INSTANT - DEFAULT_ICAL_DURATION {
                return Err(TempoError::InvalidTimeRange("event ends past the last instant".to_owned()));
            }
            start + DEFAULT_ICAL_DURATION
        },
    };
    let recurrence = match rrule {
        Some(rule) => Some(RecurrenceRule { rrule: rule }),
        None => None,
    };
    Ok(
        Event {
            id,
            title,
            start,
            end,
            timezone: "UTC".to_owned(),
            recurrence,
            metadata: HashMap::new(),
        },
    )
}

/// Parses iCalendar text into events with fresh identifiers, one per
/// VEVENT component, in order. Text that the parser rejects gives
/// `InvalidIcal` with the parser's message.
pub fn parse_ical(ical_data: &str) -> (r: Result<Vec<Event>, TempoError>)
    ensures
        ical_event_slots(ical_data@) is None ==> (r matches Err(TempoError::InvalidIcal(m))
            && "Parse error: "@.is_prefix_of(m@)),
        match r {
            Ok(events) => {
                &&& ical_event_slots(ical_data@) is Some
                &&& events@.len() == count_set(ical_event_slots(ical_data@)->0)
                &&& forall|i: int|
                    0 <= i < events@.len() ==> {
                        &&& instant_ok((#[trigger] events@[i]).start as int)
                        &&& instant_ok(events@[i].end as int)
                        &&& events@[i].timezone@ == "UTC"@
                        &&& events@[i].metadata@ == Map::<String, String>::empty()
                    }
            },
            Err(e) => e is InvalidIcal || e is InvalidTimeRange,
        },
{
    let components = match ical_parse_components(ical_data) {
        Ok(c) => c,
        Err(message) => {
            let prefix = "Parse error: ";
            let text = prefix.to_owned().concat(message.as_str());
            assert(prefix@.is_prefix_of(text@)) by {
                assert(text@.subrange(0, prefix@.len() as int) =~= prefix@);
            }
            return Err(TempoError::InvalidIcal(text));
        },
    };
    let ghost slots = components@.map_values(|c: Option<IcalEvent>| c is Some);
    let n = components.len();
    let mut events: Vec<Event> = Vec::new();
    let mut i: usize = 0;
    while i < n
        invariant
            i <= n,
            n == components@.len(),
            slots == components@.map_values(|c: Option<IcalEvent>| c is Some),
            ical_event_slots(ical_data@) == Some(slots),
            events@.len() == count_set(slots.take(i as int)),
            forall|k: int|
                0 <= k < events@.len() ==> {
                    &&& instant_ok((#[trigger] events@[k]).start as int)
                    &&& instant_ok(events@[k].end as int)
                    &&& events@[k].timezone@ == "UTC"@
                    &&& events@[k].metadata@ == Map::<String, String>::empty()
                },
        decreases n - i,
    {
        assert(slots.take(i + 1).drop_last() =~= slots.take(i as int));
        if let Some(ev) = &components[i] {
            let event = match event_from_ical_fields(
                EventId::new(),
                ical_summary(ev),
                ical_start(ev),
                ical_end(ev),
                ical_rrule(ev),
            ) {
                Ok(e) => e,
                Err(e) => return Err(e),
            };
            events.push(event);
        }
        i = i + 1;
    }
    assert(slots.take(n as int) =~= slots);
    Ok(events)
}

/// Relies on icalendar's `Calendar::new` and `Calendar::name`: an empty
/// calendar with a name.
#[verifier::external_body]
fn ical_named_calendar(name: &str) -> (r: IcalCalendar) {
    let mut cal = IcalCalendar::new();
    cal.name(name);
    cal
}

/// Relies on icalendar's `Event` builder (`summary`, `starts`, `ends`,
/// `uid`, `done`) and on chrono's `DateTime::from_timestamp` for instants
/// the library holds.
#[verifier::external_body]
fn ical_event(title: &str, start: i64, end: i64, uid: &str) -> (r: IcalEvent)
    requires
        instant_ok(start as int),
        instant_ok(end as int),
{
    let at = |t: i64| chrono::DateTime::from_timestamp(t, 0).unwrap();
    icalendar::Event::new().summary(title).starts(at(start)).ends(at(end)).uid(uid).done()
}

/// Relies on icalendar's `Component::add_property`: sets the RRULE property.
#[verifier::external_body]
fn ical_add_rrule(ev: &mut IcalEvent, rule: &str) {
    ev.add_property("RRULE", rule);
}

/// Relies on icalendar's `Calendar::push`: adds a component.
#[verifier::external_body]
fn ical_push(cal: &mut IcalCalendar, ev: IcalEvent) {
    cal.push(ev);
}

/// Relies on icalendar's `Display` for `Calendar`: the calendar's text.
#[verifier::external_body]
fn ical_text(cal: &IcalCalendar) -> (r: String) {
    cal.to_string()
}

/// Writes events as an iCalendar text named "Tempo Calendar", one VEVENT
/// per event with its title, times, identifier and recurrence rule.
pub fn events_to_ical(events: &[Event]) -> (r: String)
    requires
        forall|i: int| 0 <= i < events@.len() ==> (#[trigger] events@[i]).wf(),
{
    let mut cal = ical_named_calendar("Tempo Calendar");
    let mut i: usize = 0;
    while i < events.len()
        invariant
            i <= events@.len(),
            forall|k: int| 0 <= k < events@.len() ==> (#[trigger] events@[k]).wf(),
        decreases events@.len() - i,
    {
        let event = &events[i];
        assert(event.wf());
        let uid = id_text(event.id.0);
        let mut component = ical_event(event.title.as_str(), event.start, event.end, uid.as_str());
        if let Some(recurrence) = &event.recurrence {
            ical_add_rrule(&mut component, recurrence.rrule.as_str());
        }
        ical_push(&mut cal, component);
        i = i + 1;
    }
    ical_text(&cal)
}

} // verus!
