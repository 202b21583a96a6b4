use chrono::{DateTime, Timelike, Utc};
use tempo::{event_from_ical_fields, events_to_ical, parse_ical, EventId, IcalTime, TempoError};

fn clock(t: i64) -> DateTime<Utc> {
    DateTime::<Utc>::from_timestamp(t, 0).unwrap()
}

#[test]
fn parse_simple_ical() {
    let ical = "BEGIN:VCALENDAR\r\n\
        VERSION:2.0\r\n\
        BEGIN:VEVENT\r\n\
        SUMMARY:Team Standup\r\n\
        DTSTART:20250115T090000Z\r\n\
        DTEND:20250115T093000Z\r\n\
        END:VEVENT\r\n\
        END:VCALENDAR\r\n";

    let events = parse_ical(ical).unwrap();
    assert_eq!(events.len(), 1);
    assert_eq!(events[0].title, "Team Standup");
    assert_eq!(clock(events[0].start).hour(), 9);
    assert_eq!(clock(events[0].end).minute(), 30);
}

#[test]
fn parse_ical_with_rrule() {
    let ical = "BEGIN:VCALENDAR\r\n\
        VERSION:2.0\r\n\
        BEGIN:VEVENT\r\n\
        SUMMARY:Daily Standup\r\n\
        DTSTART:20250115T090000Z\r\n\
        DTEND:20250115T091500Z\r\n\
        RRULE:FREQ=DAILY;COUNT=5\r\n\
        END:VEVENT\r\n\
        END:VCALENDAR\r\n";

    let events = parse_ical(ical).unwrap();
    assert_eq!(events.len(), 1);
    assert!(events[0].recurrence.is_some());
    assert_eq!(events[0].recurrence.as_ref().unwrap().rrule, "FREQ=DAILY;COUNT=5");
}

#[test]
fn parse_multiple_events() {
    let ical = "BEGIN:VCALENDAR\r\n\
        VERSION:2.0\r\n\
        BEGIN:VEVENT\r\n\
        SUMMARY:Meeting A\r\n\
        DTSTART:20250115T090000Z\r\n\
        DTEND:20250115T100000Z\r\n\
        END:VEVENT\r\n\
        BEGIN:VEVENT\r\n\
        SUMMARY:Meeting B\r\n\
        DTSTART:20250115T140000Z\r\n\
        DTEND:20250115T150000Z\r\n\
        END:VEVENT\r\n\
        END:VCALENDAR\r\n";

    let events = parse_ical(ical).unwrap();
    assert_eq!(events.len(), 2);
}

#[test]
fn export_and_reparse_round_trip() {
    let ical = "BEGIN:VCALENDAR\r\n\
        VERSION:2.0\r\n\
        BEGIN:VEVENT\r\n\
        SUMMARY:Round Trip Test\r\n\
        DTSTART:20250115T100000Z\r\n\
        DTEND:20250115T110000Z\r\n\
        END:VEVENT\r\n\
        END:VCALENDAR\r\n";

    let events = parse_ical(ical).unwrap();
    let exported = events_to_ical(&events);
    let reparsed = parse_ical(&exported).unwrap();

    assert_eq!(events.len(), reparsed.len());
    assert_eq!(events[0].title, reparsed[0].title);
    assert_eq!(events[0].start, reparsed[0].start);
    assert_eq!(events[0].end, reparsed[0].end);
}

#[test]
fn parse_invalid_ical_produces_no_events() {
    let result = parse_ical("not valid ical data");
    match result {
        Ok(events) => assert!(events.is_empty(), "Expected no events from invalid iCal"),
        Err(_) => {}
    }
}

#[test]
fn ical_fields_defaults() {
    let id = EventId::new();
    let event = event_from_ical_fields(id, None, Some(IcalTime::Date(86_400)), None, None).unwrap();
    assert_eq!(event.id, id);
    assert_eq!(event.title, "(untitled)");
    assert_eq!(event.start, 86_400);
    assert_eq!(event.end, 86_400 + 3600);
    assert_eq!(event.timezone, "UTC");
    assert!(event.recurrence.is_none());
}

#[test]
fn ical_fields_need_a_start() {
    let err = event_from_ical_fields(EventId::new(), Some("X".to_string()), None, Some(IcalTime::Utc(5)), None)
        .unwrap_err();
    assert_eq!(err, TempoError::InvalidIcal("Missing DTSTART field".to_string()));
}

#[test]
fn export_keeps_identifier_and_rule() {
    let ical = "BEGIN:VCALENDAR\r\n\
        VERSION:2.0\r\n\
        BEGIN:VEVENT\r\n\
        SUMMARY:Weekly\r\n\
        DTSTART:20250115T100000Z\r\n\
        RRULE:FREQ=WEEKLY\r\n\
        END:VEVENT\r\n\
        END:VCALENDAR\r\n";
    let events = parse_ical(ical).unwrap();
    assert_eq!(events[0].end - events[0].start, 3600);
    let exported = events_to_ical(&events);
    assert!(exported.contains("RRULE:FREQ=WEEKLY"));
    assert!(exported.contains(&events[0].id.to_text()));
    assert!(exported.contains("Tempo Calendar"));
}

#[test]
fn one_event_per_vevent_only() {
    let ical = "BEGIN:VCALENDAR\r\n\
        VERSION:2.0\r\n\
        BEGIN:VTODO\r\n\
        SUMMARY:Chore\r\n\
        END:VTODO\r\n\
        BEGIN:VEVENT\r\n\
        SUMMARY:Only\r\n\
        DTSTART:20250115T100000Z\r\n\
        END:VEVENT\r\n\
        END:VCALENDAR\r\n";
    let events = parse_ical(ical).unwrap();
    assert_eq!(events.len(), 1);
    assert_eq!(events[0].title, "Only");
}
