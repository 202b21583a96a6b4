use tempo::TempoError;

#[test]
fn not_found_errors_are_classified() {
    assert!(TempoError::CalendarNotFound("test".to_string()).is_not_found());
    assert!(TempoError::EventNotFound("test".to_string()).is_not_found());
    assert!(TempoError::ProposalNotFound("p".to_string()).is_not_found());
    assert!(!TempoError::InvalidInput("bad".to_string()).is_not_found());
    assert!(!TempoError::InvalidRrule("r".to_string()).is_not_found());
    assert!(!TempoError::InvalidTimeRange("t".to_string()).is_not_found());
    assert!(!TempoError::InvalidIcal("i".to_string()).is_not_found());
}

#[test]
fn error_messages_name_kind_and_subject() {
    assert_eq!(TempoError::CalendarNotFound("work".to_string()).message(), "Calendar not found: work");
    assert_eq!(TempoError::EventNotFound("e1".to_string()).message(), "Event not found: e1");
    assert_eq!(TempoError::ProposalNotFound("p1".to_string()).message(), "Proposal not found: p1");
    assert_eq!(TempoError::InvalidIcal("x".to_string()).message(), "Invalid iCal data: x");
    assert_eq!(TempoError::InvalidRrule("y".to_string()).message(), "Invalid RRULE: y");
    assert_eq!(TempoError::InvalidTimeRange("z".to_string()).message(), "Invalid time range: z");
    assert_eq!(TempoError::InvalidInput("bad".to_string()).message(), "Invalid input: bad");
}
