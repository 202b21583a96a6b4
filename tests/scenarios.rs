use chrono::{TimeZone, Utc};
use tempo::{Calendar, CalendarStore, Event, EventId, ProposedEvent};

fn at(hour: u32) -> i64 {
    Utc.with_ymd_and_hms(2025, 3, 3, hour, 0, 0).unwrap().timestamp()
}

fn event(title: &str, start: i64, end: i64) -> Event {
    Event {
        id: EventId::new(),
        title: title.to_string(),
        start,
        end,
        timezone: "UTC".to_string(),
        recurrence: None,
        metadata: Default::default(),
    }
}

fn draft(title: &str, start: i64, end: i64) -> ProposedEvent {
    ProposedEvent {
        title: title.to_string(),
        start,
        end,
        timezone: "UTC".to_string(),
        recurrence: None,
        metadata: Default::default(),
    }
}

#[test]
fn single_event_is_one_plain_occurrence() {
    let mut cal = Calendar::new("c".to_string());
    cal.add_event(event("Review", at(9), at(10)));
    let occs = cal.occurrences_in_range(at(8), at(11)).unwrap();
    assert_eq!(occs.len(), 1);
    assert_eq!(occs[0].title, "Review");
    assert!(!occs[0].is_recurring);
}

#[test]
fn two_slots_around_one_event() {
    let mut store = CalendarStore::new();
    store.get_or_create_calendar("default").add_event(event("Review", at(9), at(10)));
    let slots = store.find_available_slots(at(8), at(12), 30 * 60, None).unwrap();
    assert_eq!(slots.len(), 2);
    assert_eq!((slots[0].start, slots[0].end), (at(8), at(9)));
    assert_eq!((slots[1].start, slots[1].end), (at(10), at(12)));
}

#[test]
fn internal_conflict_in_proposal() {
    let mut store = CalendarStore::new();
    let id = store.create_proposal("AB".to_string(), vec![draft("A", at(9), at(11)), draft("B", at(10), at(12))]);
    let report = store.check_conflicts(&id, None, true).unwrap();
    assert!(report.has_conflicts);
    assert_eq!(report.conflicts.len(), 1);
    assert_eq!(report.conflicts[0].overlap_minutes, 60);
    assert_eq!(report.conflicts[0].conflicting_event_id, None);
}

#[test]
fn conflict_with_existing_then_commit_anyway() {
    let mut store = CalendarStore::new();
    let existing = event("Existing", at(9), at(10));
    let existing_id = existing.id;
    store.get_or_create_calendar("default").add_event(existing);
    let id = store.create_proposal("D".to_string(), vec![draft("Proposed", at(9), at(11))]);
    let report = store.check_conflicts(&id, None, true).unwrap();
    assert_eq!(report.conflicts.len(), 1);
    assert_eq!(report.conflicts[0].overlap_minutes, 60);
    assert_eq!(report.conflicts[0].conflicting_event_id, Some(existing_id));
    store.commit_proposal(&id, "default").unwrap();
    let occs = store.occurrences_in_range(at(9), at(11), Some("default")).unwrap();
    assert_eq!(occs.len(), 2);
    assert!(occs[0].start < occs[1].end && occs[1].start < occs[0].end);
}
