use tempo::{expand_event, occurrences_from_starts, Event, EventId, RecurrenceRule, TempoError, MAX_INSTANT};

fn event(start: i64, end: i64, rule: Option<&str>) -> Event {
    Event {
        id: EventId::new(),
        title: "E".to_string(),
        start,
        end,
        timezone: "UTC".to_string(),
        recurrence: rule.map(|r| RecurrenceRule { rrule: r.to_string() }),
        metadata: Default::default(),
    }
}

#[test]
fn plain_event_outside_window_gives_nothing() {
    let e = event(0, 3600, None);
    assert!(expand_event(&e, 3600, 7200).unwrap().is_empty());
    let inside = expand_event(&e, 1800, 7200).unwrap();
    assert_eq!(inside.len(), 1);
    assert_eq!((inside[0].start, inside[0].end), (0, 3600));
    assert!(!inside[0].is_recurring);
}

#[test]
fn occurrences_keep_the_event_length() {
    let e = event(100, 160, Some("FREQ=DAILY"));
    let occs = occurrences_from_starts(&e, &vec![1000, 5000]).unwrap();
    assert_eq!(occs.len(), 2);
    assert_eq!((occs[0].start, occs[0].end), (1000, 1060));
    assert_eq!((occs[1].start, occs[1].end), (5000, 5060));
    assert!(occs.iter().all(|o| o.is_recurring && o.event_id == e.id));
}

#[test]
fn occurrence_past_the_last_instant_is_an_error() {
    let e = event(0, 100, Some("FREQ=DAILY"));
    let result = occurrences_from_starts(&e, &vec![MAX_INSTANT - 50]);
    assert!(matches!(result, Err(TempoError::InvalidTimeRange(_))));
    assert!(occurrences_from_starts(&e, &vec![MAX_INSTANT - 100]).is_ok());
}

#[test]
fn daily_rule_counts_starts_in_window() {
    let day = 86_400;
    let e = event(0, 600, Some("FREQ=DAILY;COUNT=10"));
    let occs = expand_event(&e, 2 * day + 1, 5 * day).unwrap();
    let starts: Vec<i64> = occs.iter().map(|o| o.start).collect();
    assert_eq!(starts, vec![3 * day, 4 * day]);
}

#[test]
fn rule_with_line_break_is_rejected() {
    let e = event(0, 600, Some("FREQ=DAILY;COUNT=1\nRDATE:20250101T090000"));
    match expand_event(&e, 0, 86_400 * 10) {
        Err(TempoError::InvalidRrule(message)) => {
            assert!(message.starts_with("FREQ=DAILY;COUNT=1\nRDATE:20250101T090000: "))
        }
        other => panic!("unexpected {:?}", other),
    }
}

#[test]
fn rejected_rule_message_starts_with_the_rule() {
    let e = event(0, 600, Some("FREQ=NEVER"));
    match expand_event(&e, 0, 86_400) {
        Err(TempoError::InvalidRrule(message)) => {
            assert!(message.starts_with("FREQ=NEVER: "));
            assert!(message.len() > "FREQ=NEVER: ".len());
        }
        other => panic!("unexpected {:?}", other),
    }
}
