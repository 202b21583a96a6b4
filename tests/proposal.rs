use chrono::{TimeZone, Utc};
use tempo::{detect_conflicts, EventId, EventOccurrence};

fn utc(year: i32, month: u32, day: u32, hour: u32) -> i64 {
    Utc.with_ymd_and_hms(year, month, day, hour, 0, 0).unwrap().timestamp()
}

fn make_occurrence(title: &str, start: i64, end: i64) -> EventOccurrence {
    EventOccurrence {
        event_id: EventId::new(),
        title: title.to_string(),
        start,
        end,
        is_recurring: false,
        metadata: Default::default(),
    }
}

#[test]
fn no_conflicts_when_no_overlap() {
    let proposed = vec![make_occurrence("New", utc(2025, 1, 1, 14), utc(2025, 1, 1, 15))];
    let existing = vec![make_occurrence("Old", utc(2025, 1, 1, 9), utc(2025, 1, 1, 10))];
    let conflicts = detect_conflicts(&proposed, &existing, true);
    assert!(conflicts.is_empty());
}

#[test]
fn detects_overlap_with_existing() {
    let proposed = vec![make_occurrence("New", utc(2025, 1, 1, 9), utc(2025, 1, 1, 11))];
    let existing = vec![make_occurrence("Old", utc(2025, 1, 1, 10), utc(2025, 1, 1, 12))];
    let conflicts = detect_conflicts(&proposed, &existing, true);
    assert_eq!(conflicts.len(), 1);
    assert_eq!(conflicts[0].overlap_minutes, 60);
    assert_eq!(conflicts[0].proposed_event_title, "New");
    assert_eq!(conflicts[0].conflicting_event_title, "Old");
}

#[test]
fn detects_internal_conflicts() {
    let proposed = vec![
        make_occurrence("A", utc(2025, 1, 1, 9), utc(2025, 1, 1, 11)),
        make_occurrence("B", utc(2025, 1, 1, 10), utc(2025, 1, 1, 12)),
    ];
    let conflicts = detect_conflicts(&proposed, &[], true);
    assert_eq!(conflicts.len(), 1);
    assert_eq!(conflicts[0].overlap_minutes, 60);
}

#[test]
fn skips_internal_conflicts_when_disabled() {
    let proposed = vec![
        make_occurrence("A", utc(2025, 1, 1, 9), utc(2025, 1, 1, 11)),
        make_occurrence("B", utc(2025, 1, 1, 10), utc(2025, 1, 1, 12)),
    ];
    let conflicts = detect_conflicts(&proposed, &[], false);
    assert!(conflicts.is_empty());
}

#[test]
fn adjacent_events_no_conflict() {
    let proposed = vec![make_occurrence("New", utc(2025, 1, 1, 10), utc(2025, 1, 1, 11))];
    let existing = vec![make_occurrence("Old", utc(2025, 1, 1, 9), utc(2025, 1, 1, 10))];
    let conflicts = detect_conflicts(&proposed, &existing, true);
    assert!(conflicts.is_empty());
}

#[test]
fn conflict_minutes_are_symmetric() {
    let a = make_occurrence("A", utc(2025, 1, 1, 9), utc(2025, 1, 1, 11));
    let b = make_occurrence("B", 0, 0);
    let b = EventOccurrence { start: a.start + 3600 + 1800, end: a.end + 7200, ..b };
    let forward = detect_conflicts(&[a.clone()], &[b.clone()], false);
    let backward = detect_conflicts(&[b.clone()], &[a.clone()], false);
    assert_eq!(forward.len(), 1);
    assert_eq!(backward.len(), 1);
    assert_eq!(forward[0].overlap_minutes, 30);
    assert_eq!(backward[0].overlap_minutes, 30);
    assert_eq!(forward[0].conflicting_event_id, Some(b.event_id));
    assert_eq!(backward[0].conflicting_event_id, Some(a.event_id));
}

#[test]
fn sub_minute_overlap_is_no_conflict() {
    let a = make_occurrence("A", 1000, 2000);
    let b = make_occurrence("B", 1959, 3000);
    assert!(detect_conflicts(&[a], &[b], true).is_empty());
}

#[test]
fn conflicts_come_existing_first_then_internal_pairs_in_order() {
    let proposed = vec![
        make_occurrence("P0", 0, 7200),
        make_occurrence("P1", 3600, 10_800),
        make_occurrence("P2", 5400, 9000),
    ];
    let existing = vec![make_occurrence("E0", 1800, 3600), make_occurrence("E1", 9000, 12_000)];
    let conflicts = detect_conflicts(&proposed, &existing, true);
    let summary: Vec<(String, String, Option<bool>, i64)> = conflicts
        .iter()
        .map(|c| {
            (
                c.proposed_event_title.clone(),
                c.conflicting_event_title.clone(),
                c.conflicting_event_id.map(|_| true),
                c.overlap_minutes,
            )
        })
        .collect();
    assert_eq!(
        summary,
        vec![
            ("P0".to_string(), "E0".to_string(), Some(true), 30),
            ("P1".to_string(), "E1".to_string(), Some(true), 30),
            ("P0".to_string(), "P1".to_string(), None, 60),
            ("P0".to_string(), "P2".to_string(), None, 30),
            ("P1".to_string(), "P2".to_string(), None, 60),
        ]
    );
}
