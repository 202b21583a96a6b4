use chrono::{TimeZone, Utc};
use tempo::{compute_free_busy, find_free_slots, merge_ranges, EventId, EventOccurrence, TimeRange};

fn utc(year: i32, month: u32, day: u32, hour: u32) -> i64 {
    Utc.with_ymd_and_hms(year, month, day, hour, 0, 0).unwrap().timestamp()
}

fn mins(n: i64) -> i64 {
    n * 60
}

fn occurrence(title: &str, start: i64, end: i64) -> EventOccurrence {
    EventOccurrence {
        event_id: EventId::new(),
        title: title.to_string(),
        start,
        end,
        is_recurring: false,
        metadata: Default::default(),
    }
}

#[test]
fn overlapping_ranges_detected() {
    let a = TimeRange::new(utc(2025, 1, 1, 9), utc(2025, 1, 1, 11));
    let b = TimeRange::new(utc(2025, 1, 1, 10), utc(2025, 1, 1, 12));
    assert!(a.overlaps(&b));
    assert!(b.overlaps(&a));
}

#[test]
fn adjacent_ranges_do_not_overlap() {
    let a = TimeRange::new(utc(2025, 1, 1, 9), utc(2025, 1, 1, 10));
    let b = TimeRange::new(utc(2025, 1, 1, 10), utc(2025, 1, 1, 11));
    assert!(!a.overlaps(&b));
    assert!(!b.overlaps(&a));
}

#[test]
fn disjoint_ranges_do_not_overlap() {
    let a = TimeRange::new(utc(2025, 1, 1, 9), utc(2025, 1, 1, 10));
    let b = TimeRange::new(utc(2025, 1, 1, 14), utc(2025, 1, 1, 15));
    assert!(!a.overlaps(&b));
}

#[test]
fn contained_range_overlaps() {
    let outer = TimeRange::new(utc(2025, 1, 1, 8), utc(2025, 1, 1, 17));
    let inner = TimeRange::new(utc(2025, 1, 1, 10), utc(2025, 1, 1, 12));
    assert!(outer.overlaps(&inner));
    assert!(inner.overlaps(&outer));
}

#[test]
fn overlap_duration_partial() {
    let a = TimeRange::new(utc(2025, 1, 1, 9), utc(2025, 1, 1, 11));
    let b = TimeRange::new(utc(2025, 1, 1, 10), utc(2025, 1, 1, 12));
    assert_eq!(a.overlap_duration(&b), mins(60));
}

#[test]
fn overlap_duration_no_overlap() {
    let a = TimeRange::new(utc(2025, 1, 1, 9), utc(2025, 1, 1, 10));
    let b = TimeRange::new(utc(2025, 1, 1, 10), utc(2025, 1, 1, 11));
    assert_eq!(a.overlap_duration(&b), 0);
}

#[test]
fn free_slots_with_no_busy_periods() {
    let range = TimeRange::new(utc(2025, 1, 1, 8), utc(2025, 1, 1, 17));
    let slots = find_free_slots(&[], &range, mins(30));
    assert_eq!(slots.len(), 1);
    assert_eq!(slots[0], range);
}

#[test]
fn free_slots_between_busy_periods() {
    let range = TimeRange::new(utc(2025, 1, 1, 8), utc(2025, 1, 1, 17));
    let busy = vec![
        TimeRange::new(utc(2025, 1, 1, 9), utc(2025, 1, 1, 10)),
        TimeRange::new(utc(2025, 1, 1, 14), utc(2025, 1, 1, 15)),
    ];
    let slots = find_free_slots(&busy, &range, mins(30));
    assert_eq!(slots.len(), 3);
    assert_eq!(slots[0], TimeRange::new(utc(2025, 1, 1, 8), utc(2025, 1, 1, 9)));
    assert_eq!(slots[1], TimeRange::new(utc(2025, 1, 1, 10), utc(2025, 1, 1, 14)));
    assert_eq!(slots[2], TimeRange::new(utc(2025, 1, 1, 15), utc(2025, 1, 1, 17)));
}

#[test]
fn free_slots_filters_by_min_duration() {
    let range = TimeRange::new(utc(2025, 1, 1, 8), utc(2025, 1, 1, 12));
    let busy = vec![
        TimeRange::new(utc(2025, 1, 1, 8), utc(2025, 1, 1, 9)),
        TimeRange::new(utc(2025, 1, 1, 9), utc(2025, 1, 1, 10)),
    ];
    let slots = find_free_slots(&busy, &range, mins(60));
    assert_eq!(slots.len(), 1);
    assert_eq!(slots[0], TimeRange::new(utc(2025, 1, 1, 10), utc(2025, 1, 1, 12)));
}

#[test]
fn free_slots_with_overlapping_busy_periods() {
    let range = TimeRange::new(utc(2025, 1, 1, 8), utc(2025, 1, 1, 17));
    let busy = vec![
        TimeRange::new(utc(2025, 1, 1, 9), utc(2025, 1, 1, 11)),
        TimeRange::new(utc(2025, 1, 1, 10), utc(2025, 1, 1, 12)),
    ];
    let slots = find_free_slots(&busy, &range, mins(30));
    assert_eq!(slots.len(), 2);
    assert_eq!(slots[0], TimeRange::new(utc(2025, 1, 1, 8), utc(2025, 1, 1, 9)));
    assert_eq!(slots[1], TimeRange::new(utc(2025, 1, 1, 12), utc(2025, 1, 1, 17)));
}

#[test]
fn fully_booked_returns_no_slots() {
    let range = TimeRange::new(utc(2025, 1, 1, 9), utc(2025, 1, 1, 10));
    let busy = vec![TimeRange::new(utc(2025, 1, 1, 8), utc(2025, 1, 1, 11))];
    let slots = find_free_slots(&busy, &range, mins(1));
    assert!(slots.is_empty());
}

#[test]
fn free_busy_with_no_events() {
    let range = TimeRange::new(utc(2025, 1, 1, 8), utc(2025, 1, 1, 17));
    let result = compute_free_busy(&[], &range);
    assert!(result.busy_periods.is_empty());
    assert_eq!(result.free_periods.len(), 1);
    assert_eq!(result.total_busy_minutes, 0);
    assert_eq!(result.total_free_minutes, 540);
}

#[test]
fn free_busy_with_events() {
    let range = TimeRange::new(utc(2025, 1, 1, 8), utc(2025, 1, 1, 12));
    let occurrences = vec![occurrence("Meeting", utc(2025, 1, 1, 9), utc(2025, 1, 1, 10))];
    let result = compute_free_busy(&occurrences, &range);
    assert_eq!(result.busy_periods.len(), 1);
    assert_eq!(result.busy_periods[0].event_titles, vec!["Meeting"]);
    assert_eq!(result.total_busy_minutes, 60);
    assert_eq!(result.total_free_minutes, 180);
}

#[test]
fn touching_ranges_share_no_time() {
    let a = TimeRange::new(1000, 2000);
    let b = TimeRange::new(2000, 3000);
    assert!(!a.overlaps(&b));
    assert!(!b.overlaps(&a));
    assert_eq!(a.overlap_duration(&b), 0);
    assert_eq!(b.overlap_duration(&a), 0);
}

#[test]
fn merge_of_empty_is_empty() {
    assert!(merge_ranges(&[]).is_empty());
}

#[test]
fn merge_joins_overlapping_and_touching_ranges() {
    let input = vec![
        TimeRange::new(50, 60),
        TimeRange::new(10, 20),
        TimeRange::new(20, 30),
        TimeRange::new(15, 25),
        TimeRange::new(32, 40),
    ];
    let merged = merge_ranges(&input);
    assert_eq!(merged, vec![TimeRange::new(10, 30), TimeRange::new(32, 40), TimeRange::new(50, 60)]);
}

#[test]
fn merge_is_idempotent() {
    let input = vec![
        TimeRange::new(5, 9),
        TimeRange::new(1, 3),
        TimeRange::new(2, 6),
        TimeRange::new(12, 12),
        TimeRange::new(20, 25),
    ];
    let once = merge_ranges(&input);
    let twice = merge_ranges(&once);
    assert_eq!(once, twice);
    for w in once.windows(2) {
        assert!(w[0].end < w[1].start);
    }
}

#[test]
fn free_slots_never_shorter_than_minimum() {
    let range = TimeRange::new(0, 10_000);
    let busy = vec![
        TimeRange::new(100, 200),
        TimeRange::new(250, 1000),
        TimeRange::new(1030, 5000),
        TimeRange::new(9000, 12_000),
    ];
    for min in [0, 1, 30, 50, 60, 4000] {
        for slot in find_free_slots(&busy, &range, min) {
            assert!(slot.end - slot.start >= min);
            assert!(slot.end > slot.start);
        }
    }
    let slots = find_free_slots(&busy, &range, 50);
    assert_eq!(slots, vec![TimeRange::new(0, 100), TimeRange::new(200, 250), TimeRange::new(5000, 9000)]);
    let slots = find_free_slots(&busy, &range, 51);
    assert_eq!(slots, vec![TimeRange::new(0, 100), TimeRange::new(5000, 9000)]);
}

#[test]
fn free_and_busy_partition_the_range() {
    let range = TimeRange::new(utc(2025, 1, 1, 8), utc(2025, 1, 1, 18));
    let occurrences = vec![
        occurrence("A", utc(2025, 1, 1, 7), utc(2025, 1, 1, 9)),
        occurrence("B", utc(2025, 1, 1, 10), utc(2025, 1, 1, 12)),
        occurrence("C", utc(2025, 1, 1, 11), utc(2025, 1, 1, 13)),
        occurrence("B", utc(2025, 1, 1, 12), utc(2025, 1, 1, 13)),
        occurrence("D", utc(2025, 1, 1, 17), utc(2025, 1, 1, 20)),
        occurrence("E", utc(2025, 1, 1, 20), utc(2025, 1, 1, 21)),
    ];
    let result = compute_free_busy(&occurrences, &range);
    let busy: i64 = result.busy_periods.iter().map(|b| b.range.end - b.range.start).sum();
    let free: i64 = result.free_periods.iter().map(|f| f.end - f.start).sum();
    assert_eq!(busy + free, range.end - range.start);
    assert_eq!(result.busy_periods.len(), 3);
    assert_eq!(result.busy_periods[1].event_titles, vec!["B", "C"]);
    assert_eq!(result.total_busy_minutes, 60 + 180 + 60);
    assert_eq!(result.total_free_minutes, 600 - 300);
    assert_eq!(
        result.free_periods,
        vec![
            TimeRange::new(utc(2025, 1, 1, 9), utc(2025, 1, 1, 10)),
            TimeRange::new(utc(2025, 1, 1, 13), utc(2025, 1, 1, 17)),
        ]
    );
}

#[test]
fn zero_length_busy_range_splits_free_time() {
    let range = TimeRange::new(0, 100);
    let busy = vec![TimeRange::new(40, 40)];
    let slots = find_free_slots(&busy, &range, 0);
    assert_eq!(slots, vec![TimeRange::new(0, 40), TimeRange::new(40, 100)]);
    for s in &slots {
        assert!(!s.overlaps(&busy[0]));
    }
}
