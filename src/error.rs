//! The library's closed error taxonomy.
use vstd::prelude::*;
use vstd::string::StringExecFns;

verus! {

/// Errors of the scheduling engine; each carries the identifier or text at fault.
#[derive(Clone, Debug, PartialEq, Eq)]
pub enum TempoError {
    CalendarNotFound(String),
    EventNotFound(String),
    ProposalNotFound(String),
    InvalidIcal(String),
    InvalidRrule(String),
    InvalidTimeRange(String),
    InvalidInput(String),
}

/// The text that an error is shown with: its kind, then what it carries.
pub open spec fn message_of(e: TempoError) -> Seq<char> {
    match e {
        TempoError::CalendarNotFound(s) => "Calendar not found: "@ + s@,
        TempoError::EventNotFound(s) => "Event not found: "@ + s@,
        TempoError::ProposalNotFound(s) => "Proposal not found: "@ + s@,
        TempoError::InvalidIcal(s) => "Invalid iCal data: "@ + s@,
        TempoError::InvalidRrule(s) => "Invalid RRULE: "@ + s@,
        TempoError::InvalidTimeRange(s) => "Invalid time range: "@ + s@,
        TempoError::InvalidInput(s) => "Invalid input: "@ + s@,
    }
}

impl TempoError {
    /// The error names a calendar, event or proposal that does not exist.
    pub fn is_not_found(&self) -> (r: bool)
        ensures
            r == (self is CalendarNotFound || self is EventNotFound || self is ProposalNotFound),
    {
        match self {
            TempoError::CalendarNotFound(_) | TempoError::EventNotFound(_) | TempoError::ProposalNotFound(
                _,
            ) => true,
            _ => false,
        }
    }

    /// The text that the error is shown with.
    pub fn message(&self) -> (r: String)
        ensures
            r@ == message_of(*self),
    {
        match self {
            TempoError::CalendarNotFound(s) => "Calendar not found: ".to_owned().concat(s.as_str()),
            TempoError::EventNotFound(s) => "Event not found: ".to_owned().concat(s.as_str()),
            TempoError::ProposalNotFound(s) => "Proposal not found: ".to_owned().concat(s.as_str()),
            TempoError::InvalidIcal(s) => "Invalid iCal data: ".to_owned().concat(s.as_str()),
            TempoError::InvalidRrule(s) => "Invalid RRULE: ".to_owned().concat(s.as_str()),
            TempoError::InvalidTimeRange(s) => "Invalid time range: ".to_owned().concat(s.as_str()),
            TempoError::InvalidInput(s) => "Invalid input: ".to_owned().concat(s.as_str()),
        }
    }
}

} // verus!
