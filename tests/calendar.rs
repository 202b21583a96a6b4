use chrono::{TimeZone, Utc};
use tempo::{Calendar, CalendarStore, Event, EventId, ProposalId, ProposedEvent, RecurrenceRule, TempoError};

fn utc(year: i32, month: u32, day: u32, hour: u32) -> i64 {
    Utc.with_ymd_and_hms(year, month, day, hour, 0, 0).unwrap().timestamp()
}

fn make_event(title: &str, start: i64, end: i64) -> Event {
    Event {
        id: EventId::new(),
        title: title.to_string(),
        start,
        end,
        timezone: "UTC".to_string(),
        recurrence: None,
        metadata: Default::default(),
    }
}

fn proposed(title: &str, start: i64, end: i64) -> ProposedEvent {
    ProposedEvent {
        title: title.to_string(),
        start,
        end,
        timezone: "UTC".to_string(),
        recurrence: None,
        metadata: Default::default(),
    }
}

#[test]
fn calendar_add_and_query() {
    let mut cal = Calendar::new("test".to_string());
    cal.add_event(make_event("Meeting", utc(2025, 1, 1, 9), utc(2025, 1, 1, 10)));
    cal.add_event(make_event("Lunch", utc(2025, 1, 1, 12), utc(2025, 1, 1, 13)));

    let occs = cal.occurrences_in_range(utc(2025, 1, 1, 0), utc(2025, 1, 2, 0)).unwrap();
    assert_eq!(occs.len(), 2);
    assert_eq!(occs[0].title, "Meeting");
    assert_eq!(occs[1].title, "Lunch");
}

#[test]
fn calendar_query_filters_by_range() {
    let mut cal = Calendar::new("test".to_string());
    cal.add_event(make_event("Morning", utc(2025, 1, 1, 9), utc(2025, 1, 1, 10)));
    cal.add_event(make_event("Afternoon", utc(2025, 1, 1, 14), utc(2025, 1, 1, 15)));

    let occs = cal.occurrences_in_range(utc(2025, 1, 1, 8), utc(2025, 1, 1, 11)).unwrap();
    assert_eq!(occs.len(), 1);
    assert_eq!(occs[0].title, "Morning");
}

#[test]
fn calendar_remove_event() {
    let mut cal = Calendar::new("test".to_string());
    let event = make_event("ToRemove", utc(2025, 1, 1, 9), utc(2025, 1, 1, 10));
    let id = event.id;
    cal.add_event(event);
    assert!(cal.remove_event(&id).is_some());
    let occs = cal.occurrences_in_range(utc(2025, 1, 1, 0), utc(2025, 1, 2, 0)).unwrap();
    assert!(occs.is_empty());
}

#[test]
fn store_default_calendar_exists() {
    let store = CalendarStore::new();
    assert!(store.get_calendar("default").is_some());
}

#[test]
fn store_get_or_create_is_case_insensitive() {
    let mut store = CalendarStore::new();
    store.get_or_create_calendar("Work");
    assert!(store.get_calendar("work").is_some());
    assert!(store.get_calendar("WORK").is_some());
}

#[test]
fn store_proposal_workflow() {
    let mut store = CalendarStore::new();

    let cal = store.get_or_create_calendar("default");
    cal.add_event(make_event("Existing", utc(2025, 1, 1, 9), utc(2025, 1, 1, 10)));

    let proposal_id = store.create_proposal(
        "Option A".to_string(),
        vec![proposed("New Meeting", utc(2025, 1, 1, 14), utc(2025, 1, 1, 15))],
    );

    let report = store.check_conflicts(&proposal_id, None, true).unwrap();
    assert!(!report.has_conflicts);

    let ids = store.commit_proposal(&proposal_id, "default").unwrap();
    assert_eq!(ids.len(), 1);

    let occs = store
        .occurrences_in_range(utc(2025, 1, 1, 0), utc(2025, 1, 2, 0), Some("default"))
        .unwrap();
    assert_eq!(occs.len(), 2);
}

#[test]
fn find_available_slots_with_buffer() {
    let mut store = CalendarStore::new();
    let cal = store.get_or_create_calendar("default");
    cal.add_event(make_event("Meeting", utc(2025, 1, 1, 9), utc(2025, 1, 1, 10)));

    let slots = store
        .find_available_slots(utc(2025, 1, 1, 8), utc(2025, 1, 1, 12), 30 * 60, Some("default"))
        .unwrap();
    assert_eq!(slots.len(), 2);
    assert_eq!(slots[0].start, utc(2025, 1, 1, 8));
    assert_eq!(slots[0].end, utc(2025, 1, 1, 9));
    assert_eq!(slots[1].start, utc(2025, 1, 1, 10));
    assert_eq!(slots[1].end, utc(2025, 1, 1, 12));
}

#[test]
fn proposal_not_found_returns_error() {
    let store = CalendarStore::new();
    let fake_id = ProposalId::new();
    let result = store.check_conflicts(&fake_id, None, true);
    assert!(result.is_err());
    let err = result.unwrap_err();
    assert!(matches!(err, TempoError::ProposalNotFound(_)));
}

#[test]
fn store_proposal_detects_conflicts() {
    let mut store = CalendarStore::new();

    let cal = store.get_or_create_calendar("default");
    cal.add_event(make_event("Existing", utc(2025, 1, 1, 9), utc(2025, 1, 1, 10)));

    let proposal_id = store.create_proposal(
        "Conflicting".to_string(),
        vec![proposed("Overlap", utc(2025, 1, 1, 9), utc(2025, 1, 1, 11))],
    );

    let report = store.check_conflicts(&proposal_id, None, true).unwrap();
    assert!(report.has_conflicts);
    assert_eq!(report.conflicts.len(), 1);
    assert_eq!(report.conflicts[0].overlap_minutes, 60);
}

#[test]
fn add_event_with_same_id_replaces() {
    let mut cal = Calendar::new("test".to_string());
    let first = make_event("First", utc(2025, 1, 1, 9), utc(2025, 1, 1, 10));
    let mut second = make_event("Second", utc(2025, 1, 1, 11), utc(2025, 1, 1, 12));
    second.id = first.id;
    cal.add_event(first);
    cal.add_event(second);
    assert_eq!(cal.events().len(), 1);
    assert_eq!(cal.events()[0].title, "Second");
}

#[test]
fn remove_missing_event_gives_none() {
    let mut cal = Calendar::new("test".to_string());
    cal.add_event(make_event("Kept", 0, 60));
    assert!(cal.remove_event(&EventId::new()).is_none());
    assert_eq!(cal.events().len(), 1);
    cal.clear();
    assert!(cal.events().is_empty());
}

#[test]
fn recurring_event_expands_within_window() {
    let mut cal = Calendar::new("test".to_string());
    let mut standup = make_event("Standup", utc(2025, 1, 15, 9), utc(2025, 1, 15, 9) + 15 * 60);
    standup.recurrence = Some(RecurrenceRule { rrule: "FREQ=DAILY;COUNT=5".to_string() });
    cal.add_event(standup);
    let occs = cal.occurrences_in_range(utc(2025, 1, 16, 0), utc(2025, 1, 18, 0)).unwrap();
    assert_eq!(occs.len(), 2);
    assert!(occs.iter().all(|o| o.is_recurring && o.end - o.start == 15 * 60));
    assert_eq!(occs[0].start, utc(2025, 1, 16, 9));
    assert_eq!(occs[1].start, utc(2025, 1, 17, 9));
}

#[test]
fn recurrence_is_capped() {
    let mut cal = Calendar::new("test".to_string());
    let mut tick = make_event("Tick", utc(2025, 1, 1, 0), utc(2025, 1, 1, 0) + 30);
    tick.recurrence = Some(RecurrenceRule { rrule: "FREQ=MINUTELY".to_string() });
    cal.add_event(tick);
    let occs = cal.occurrences_in_range(utc(2025, 1, 1, 0), utc(2025, 1, 10, 0)).unwrap();
    assert_eq!(occs.len(), 1000);
}

#[test]
fn invalid_rule_is_reported() {
    let mut cal = Calendar::new("test".to_string());
    let mut bad = make_event("Bad", utc(2025, 1, 1, 9), utc(2025, 1, 1, 10));
    bad.recurrence = Some(RecurrenceRule { rrule: "FREQ=SOMETIMES".to_string() });
    cal.add_event(bad);
    let err = cal.occurrences_in_range(utc(2025, 1, 1, 0), utc(2025, 1, 2, 0)).unwrap_err();
    match err {
        TempoError::InvalidRrule(message) => assert!(message.starts_with("FREQ=SOMETIMES: ")),
        other => panic!("unexpected error {:?}", other),
    }
}

#[test]
fn unknown_calendar_is_not_found() {
    let store = CalendarStore::new();
    let err = store.occurrences_in_range(0, 3600, Some("Holidays")).unwrap_err();
    assert_eq!(err, TempoError::CalendarNotFound("Holidays".to_string()));
    assert!(store.free_busy(0, 3600, Some("Holidays")).is_err());
    assert!(store.find_available_slots(0, 3600, 60, Some("Holidays")).is_err());
}

#[test]
fn query_over_all_calendars_is_sorted() {
    let mut store = CalendarStore::new();
    store.get_or_create_calendar("Work").add_event(make_event("Late", 7200, 9000));
    store.get_or_create_calendar("default").add_event(make_event("Early", 0, 600));
    store.get_or_create_calendar("Home").add_event(make_event("Middle", 3600, 4000));
    let occs = store.occurrences_in_range(0, 10_000, None).unwrap();
    let titles: Vec<&str> = occs.iter().map(|o| o.title.as_str()).collect();
    assert_eq!(titles, vec!["Early", "Middle", "Late"]);
}

#[test]
fn store_free_busy_reports_totals() {
    let mut store = CalendarStore::new();
    store.get_or_create_calendar("default").add_event(make_event("Meeting", utc(2025, 1, 1, 9), utc(2025, 1, 1, 10)));
    let fb = store.free_busy(utc(2025, 1, 1, 8), utc(2025, 1, 1, 12), None).unwrap();
    assert_eq!(fb.total_busy_minutes, 60);
    assert_eq!(fb.total_free_minutes, 180);
    assert_eq!(fb.free_periods.len(), 2);
}

#[test]
fn committed_proposal_is_gone() {
    let mut store = CalendarStore::new();
    let id = store.create_proposal("P".to_string(), vec![proposed("X", 0, 3600)]);
    assert_eq!(store.list_proposals().len(), 1);
    store.commit_proposal(&id, "Team").unwrap();
    assert!(matches!(store.check_conflicts(&id, None, true), Err(TempoError::ProposalNotFound(_))));
    assert!(matches!(store.commit_proposal(&id, "Team"), Err(TempoError::ProposalNotFound(_))));
    assert!(store.list_proposals().is_empty());
    assert_eq!(store.get_calendar("team").unwrap().events().len(), 1);
}

#[test]
fn withdrawn_proposal_is_gone() {
    let mut store = CalendarStore::new();
    let id = store.create_proposal("P".to_string(), vec![proposed("X", 0, 3600)]);
    let withdrawn = store.withdraw_proposal(&id).unwrap();
    assert_eq!(withdrawn.name, "P");
    assert!(withdrawn.created_at > 0);
    assert!(store.withdraw_proposal(&id).is_none());
    assert!(matches!(store.check_conflicts(&id, None, true), Err(TempoError::ProposalNotFound(_))));
}

#[test]
fn not_found_error_names_the_proposal() {
    let store = CalendarStore::new();
    let id = ProposalId(0x0123_4567_89ab_cdef_0123_4567_89ab_cdef);
    assert_eq!(id.to_text(), "01234567-89ab-cdef-0123-456789abcdef");
    match store.check_conflicts(&id, None, false) {
        Err(TempoError::ProposalNotFound(text)) => assert_eq!(text, "01234567-89ab-cdef-0123-456789abcdef"),
        other => panic!("unexpected {:?}", other),
    }
}

#[test]
fn empty_proposal_has_no_conflicts() {
    let mut store = CalendarStore::new();
    let id = store.create_proposal("Empty".to_string(), vec![]);
    let report = store.check_conflicts(&id, Some("missing"), true).unwrap();
    assert!(!report.has_conflicts);
    assert!(report.conflicts.is_empty());
    assert_eq!(report.proposal_id, id);
}

#[test]
fn commit_returns_ids_in_order() {
    let mut store = CalendarStore::new();
    let id = store.create_proposal(
        "Two".to_string(),
        vec![proposed("First", 0, 60), proposed("Second", 120, 180)],
    );
    let ids = store.commit_proposal(&id, "DEFAULT").unwrap();
    let events = store.get_calendar("default").unwrap().events();
    assert_eq!(events.len(), 2);
    assert_eq!(events[0].id, ids[0]);
    assert_eq!(events[0].title, "First");
    assert_eq!(events[1].id, ids[1]);
    assert_eq!(events[1].title, "Second");
}

#[test]
fn propose_and_commit_commits_when_free() {
    let mut store = CalendarStore::new();
    store.get_or_create_calendar("default").add_event(make_event("Existing", 0, 3600));
    let outcome = store
        .propose_and_commit("P".to_string(), vec![proposed("New", 3600, 7200)], "default")
        .unwrap();
    match outcome {
        tempo::ProposeOutcome::Committed(ids) => assert_eq!(ids.len(), 1),
        other => panic!("unexpected {:?}", other),
    }
    assert!(store.list_proposals().is_empty());
    assert_eq!(store.get_calendar("default").unwrap().events().len(), 2);
}

#[test]
fn propose_and_commit_reports_conflicts_and_stores_nothing() {
    let mut store = CalendarStore::new();
    store.get_or_create_calendar("default").add_event(make_event("Existing", 0, 3600));
    let outcome = store
        .propose_and_commit(
            "P".to_string(),
            vec![proposed("A", 1800, 5400), proposed("B", 5000, 9000)],
            "Default",
        )
        .unwrap();
    match outcome {
        tempo::ProposeOutcome::Conflicted(conflicts) => {
            assert_eq!(conflicts.len(), 2);
            assert_eq!(conflicts[0].overlap_minutes, 30);
            assert_eq!(conflicts[1].conflicting_event_id, None);
        }
        other => panic!("unexpected {:?}", other),
    }
    assert!(store.list_proposals().is_empty());
    assert_eq!(store.get_calendar("default").unwrap().events().len(), 1);
}

#[test]
fn propose_and_commit_into_missing_calendar_fails_cleanly() {
    let mut store = CalendarStore::new();
    let result = store.propose_and_commit("P".to_string(), vec![proposed("A", 0, 60)], "Nowhere");
    assert_eq!(result.unwrap_err(), TempoError::CalendarNotFound("Nowhere".to_string()));
    assert!(store.list_proposals().is_empty());
    assert!(store.get_calendar("nowhere").is_none());
}

#[test]
fn equal_starts_keep_calendar_then_insertion_order() {
    let mut store = CalendarStore::new();
    store.get_or_create_calendar("default").add_event(make_event("First", 0, 600));
    store.get_or_create_calendar("default").add_event(make_event("Second", 0, 300));
    store.get_or_create_calendar("Other").add_event(make_event("Third", 0, 900));
    let occs = store.occurrences_in_range(0, 1000, None).unwrap();
    let titles: Vec<&str> = occs.iter().map(|o| o.title.as_str()).collect();
    assert_eq!(titles, vec!["First", "Second", "Third"]);
    let named = store.occurrences_in_range(0, 1000, Some("DEFAULT")).unwrap();
    let own = store.get_calendar("default").unwrap().occurrences_in_range(0, 1000).unwrap();
    let a: Vec<&str> = named.iter().map(|o| o.title.as_str()).collect();
    let b: Vec<&str> = own.iter().map(|o| o.title.as_str()).collect();
    assert_eq!(a, b);
}
