//! Log events, as far as the reader looks into them.

use vstd::prelude::*;

use crate::fields::FieldMap;
use crate::text;

verus! {

/// What happened, and how it went.
#[derive(Debug)]
pub struct EventInfo {
    pub action: String,
    pub category: String,
    pub outcome: String,
}

/// One event of the log.
#[derive(Debug)]
pub struct LogEvent {
    pub id: String,
    /// RFC 3339 timestamp.
    pub timestamp: String,
    pub severity_number: u8,
    pub event: EventInfo,
    /// Attribution fields by name.
    pub zeroclaw: FieldMap,
    pub trace_id: Option<String>,
    pub message: Option<String>,
    /// The free-form attributes, as compact JSON text.
    pub attributes: String,
}

/// A log event as a mathematical value.
pub struct EventView {
    pub id: Seq<char>,
    pub timestamp: Seq<char>,
    pub severity_number: u8,
    pub action: Seq<char>,
    pub category: Seq<char>,
    pub outcome: Seq<char>,
    pub fields: Map<Seq<char>, Seq<char>>,
    pub trace_id: Option<Seq<char>>,
    pub message: Option<Seq<char>>,
    pub attributes: Seq<char>,
}

impl View for LogEvent {
    type V = EventView;

    open spec fn view(&self) -> EventView {
        EventView {
            id: self.id@,
            timestamp: self.timestamp@,
            severity_number: self.severity_number,
            action: self.event.action@,
            category: self.event.category@,
            outcome: self.event.outcome@,
            fields: self.zeroclaw@,
            trace_id: text::text_view(self.trace_id),
            message: text::text_view(self.message),
            attributes: self.attributes@,
        }
    }
}

/// The view of an optional event.
pub open spec fn event_view(event: Option<LogEvent>) -> Option<EventView> {
    match event {
        Some(e) => Some(e@),
        None => None,
    }
}

/// The views of a run of events.
pub open spec fn event_views(events: Seq<LogEvent>) -> Seq<EventView> {
    Seq::new(events.len(), |i: int| events[i]@)
}

impl Clone for LogEvent {
    fn clone(&self) -> (copy: Self)
        ensures
            copy@ == self@,
    {
        LogEvent {
            id: self.id.clone(),
            timestamp: self.timestamp.clone(),
            severity_number: self.severity_number,
            event: EventInfo {
                action: self.event.action.clone(),
                category: self.event.category.clone(),
                outcome: self.event.outcome.clone(),
            },
            zeroclaw: self.zeroclaw.clone(),
            trace_id: text::copy_text(&self.trace_id),
            message: text::copy_text(&self.message),
            attributes: self.attributes.clone(),
        }
    }
}

/// A copy of an optional event.
pub fn copy_event(event: &Option<LogEvent>) -> (copy: Option<LogEvent>)
    ensures
        event_view(copy) == event_view(*event),
{
    match event {
        Some(e) => Some(e.clone()),
        None => None,
    }
}

// ---------------------------------------------------------------------------
// Laws
// ---------------------------------------------------------------------------

/// The view of an event leaves nothing of it out: two events with the same view
/// agree in every field.
pub proof fn law_event_view_is_faithful(e: LogEvent)
    ensures
        e@.id == e.id@,
        e@.timestamp == e.timestamp@,
        e@.severity_number == e.severity_number,
        e@.action == e.event.action@,
        e@.category == e.event.category@,
        e@.outcome == e.event.outcome@,
        e@.fields == e.zeroclaw@,
        e@.trace_id is Some <==> e.trace_id is Some,
        e.trace_id matches Some(t) ==> e@.trace_id == Some(t@),
        e@.message is Some <==> e.message is Some,
        e.message matches Some(m) ==> e@.message == Some(m@),
        e@.attributes == e.attributes@,
{
}

/// The views of events are taken one by one.
pub proof fn law_event_views(event: Option<LogEvent>, events: Seq<LogEvent>, i: int)
    ensures
        event_view(event) is Some <==> event is Some,
        event matches Some(e) ==> event_view(event) == Some(e@),
        event_views(events).len() == events.len(),
        0 <= i < events.len() ==> event_views(events)[i] == events[i]@,
{
}

}
