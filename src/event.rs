//! Stored events, their identifiers, and the occurrences they project to.
use std::collections::HashMap;
use vstd::arithmetic::power2::pow2;
use vstd::prelude::*;

use crate::sort::Timed;
use crate::time_utils::{instant_ok, TimeRange};

verus! {

/// The lower-case hexadecimal digit of `d` (0 to 15).
pub open spec fn hex_digit(d: int) -> char {
    seq!['0', '1', '2', '3', '4', '5', '6', '7', '8', '9', 'a', 'b', 'c', 'd', 'e', 'f'][d]
}

/// The `j`-th of the 32 hexadecimal digits of `v`, most significant first.
pub open spec fn nibble(v: u128, j: int) -> int {
    (v as int / pow2((4 * (31 - j)) as nat) as int) % 16
}

/// The text of a 128-bit identifier in uuid's hyphenated lower-case form:
/// 32 hexadecimal digits, most significant first, in groups of 8, 4, 4, 4
/// and 12 joined by hyphens.
pub open spec fn uuid_text(v: u128) -> Seq<char> {
    Seq::new(
        36,
        |i: int|
            if i == 8 || i == 13 || i == 18 || i == 23 {
                '-'
            } else {
                let hyphens_before = if i > 23 {
                    4int
                } else if i > 18 {
                    3int
                } else if i > 13 {
                    2int
                } else if i > 8 {
                    1int
                } else {
                    0int
                };
                hex_digit(nibble(v, i - hyphens_before))
            },
    )
}

/// Relies on `uuid::Uuid::new_v4`: a random 128-bit identifier. Nothing is
/// promised of its value.
#[verifier::external_body]
pub(crate) fn random_id() -> (r: u128) {
    uuid::Uuid::new_v4().as_u128()
}

/// Relies on `uuid::Uuid::from_u128` and its `Display`: the hyphenated
/// lower-case text of the identifier's big-endian value.
#[verifier::external_body]
pub(crate) fn id_text(v: u128) -> (r: String)
    ensures
        r@ == uuid_text(v),
{
    uuid::Uuid::from_u128(v).to_string()
}

/// Identifies a stored event.
#[derive(Clone, Copy, Debug, PartialEq, Eq, Hash, Structural)]
pub struct EventId(pub u128);

impl EventId {
    /// A fresh random identifier.
    pub fn new() -> (r: EventId) {
        EventId(random_id())
    }

    /// The identifier's hyphenated text.
    pub fn to_text(&self) -> (r: String)
        ensures
            r@ == uuid_text(self.0),
    {
        id_text(self.0)
    }
}

/// An opaque recurrence rule, in the text of an iCalendar RRULE value.
#[derive(Clone, Debug)]
pub struct RecurrenceRule {
    pub rrule: String,
}

/// A stored event; `timezone` is a display label only.
#[derive(Clone, Debug)]
pub struct Event {
    pub id: EventId,
    pub title: String,
    pub start: i64,
    pub end: i64,
    pub timezone: String,
    pub recurrence: Option<RecurrenceRule>,
    pub metadata: HashMap<String, String>,
}

/// One concrete instantiation of an event.
#[derive(Clone, Debug)]
pub struct EventOccurrence {
    pub event_id: EventId,
    pub title: String,
    pub start: i64,
    pub end: i64,
    pub is_recurring: bool,
    pub metadata: HashMap<String, String>,
}

/// What an occurrence holds, with its metadata as a map.
pub type OccurrenceView = (EventId, String, i64, i64, bool, Map<String, String>);

impl View for EventOccurrence {
    type V = OccurrenceView;

    open spec fn view(&self) -> OccurrenceView {
        (self.event_id, self.title, self.start, self.end, self.is_recurring, self.metadata@)
    }
}

impl Event {
    /// Both ends are instants the library holds, and the event is not reversed.
    pub open spec fn wf(self) -> bool {
        instant_ok(self.start as int) && instant_ok(self.end as int) && self.start <= self.end
    }

    /// The single occurrence of the event at its own times.
    pub open spec fn spec_occurrence(self) -> OccurrenceView {
        (self.id, self.title, self.start, self.end, self.recurrence is Some, self.metadata@)
    }

    pub fn to_occurrence(&self) -> (r: EventOccurrence)
        ensures
            r@ == self.spec_occurrence(),
    {
        EventOccurrence {
            event_id: self.id,
            title: self.title.clone(),
            start: self.start,
            end: self.end,
            is_recurring: self.recurrence.is_some(),
            metadata: self.metadata.clone(),
        }
    }
}

impl EventOccurrence {
    /// Both ends are instants the library holds, and the occurrence is not reversed.
    pub open spec fn wf(self) -> bool {
        instant_ok(self.start as int) && instant_ok(self.end as int) && self.start <= self.end
    }

    pub open spec fn range(self) -> TimeRange {
        TimeRange { start: self.start, end: self.end }
    }
}

impl Timed for EventOccurrence {
    open spec fn start_key(&self) -> int {
        self.start as int
    }

    fn start_time(&self) -> (r: i64) {
        self.start
    }
}

/// Every occurrence of `s` is well formed.
pub open spec fn all_occurrences_wf(s: Seq<EventOccurrence>) -> bool {
    forall|i: int| 0 <= i < s.len() ==> (#[trigger] s[i]).wf()
}

} // verus!
