//! An in-memory scheduling engine: named calendars of (possibly recurring)
//! events, interval algebra over half-open time ranges, free/busy
//! aggregation, and a propose / check / commit workflow for tentative
//! schedules.
//!
//! Every instant is a whole number of seconds from the Unix epoch (UTC).

pub mod calendar;
pub mod conversions;
pub mod error;
pub mod event;
pub mod ical_bridge;
pub mod proposal;
pub mod recurrence;
pub mod sort;
pub mod time_utils;

pub use calendar::{Calendar, CalendarStore, ProposeOutcome};
pub use conversions::{
    gcal_event_to_event, json_event_to_event, json_event_to_proposed, parse_datetime, GCalDateTime, GCalEvent,
    JsonEventInput,
};
pub use error::TempoError;
pub use ical_bridge::{event_from_ical_fields, events_to_ical, parse_ical, IcalTime};
pub use event::{Event, EventId, EventOccurrence, RecurrenceRule};
pub use proposal::{detect_conflicts, Conflict, ConflictReport, Proposal, ProposalId, ProposedEvent};
pub use recurrence::{expand_event, occurrences_from_starts, MAX_RECURRENCE_OCCURRENCES};
pub use time_utils::{
    compute_free_busy, find_free_slots, merge_ranges, BusyPeriod, FreeBusyResult, TimeRange, MAX_INSTANT,
    MIN_INSTANT,
};
