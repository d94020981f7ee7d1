//! Which events a query asks for.

use vstd::prelude::*;

use crate::event::{EventView, LogEvent};
use crate::fields;
use crate::fields::FieldMap;
use crate::text;

verus! {

/// The constraints of a query. An absent constraint admits every event.
#[derive(Debug, Clone)]
pub struct LogFilter {
    /// RFC 3339 lower bound (inclusive).
    pub since_ts: Option<String>,
    /// RFC 3339 upper bound (exclusive — used by pagination cursor).
    pub until_ts: Option<String>,
    /// Match against the cursor's id when `until_ts` ties.
    pub until_id: Option<String>,
    /// Byte offset at which a page of older events ends.
    pub until_line_offset: Option<u64>,
    /// Match exact event.action (case-insensitive).
    pub action: Option<String>,
    /// Match exact event.category (case-insensitive).
    pub category: Option<String>,
    /// Match exact event.outcome (case-insensitive).
    pub outcome: Option<String>,
    /// Minimum severity_number.
    pub severity_min: Option<u8>,
    /// Match exact trace_id.
    pub trace_id: Option<String>,
    /// Substring search across message + attributes.
    pub q: Option<String>,
    /// Hide events with event.category == "internal" by default.
    pub hide_internal: bool,
    /// Per-attribution-field exact-match constraints. Key is any `zeroclaw.*`
    /// attribution name. Empty map = no attribution filter.
    pub field_eq: FieldMap,
}

/// A filter as a mathematical value.
pub struct FilterView {
    pub since_ts: Option<Seq<char>>,
    pub until_ts: Option<Seq<char>>,
    pub until_id: Option<Seq<char>>,
    pub until_line_offset: Option<u64>,
    pub action: Option<Seq<char>>,
    pub category: Option<Seq<char>>,
    pub outcome: Option<Seq<char>>,
    pub severity_min: Option<u8>,
    pub trace_id: Option<Seq<char>>,
    pub q: Option<Seq<char>>,
    pub hide_internal: bool,
    pub field_eq: Map<Seq<char>, Seq<char>>,
}

impl View for LogFilter {
    type V = FilterView;

    open spec fn view(&self) -> FilterView {
        FilterView {
            since_ts: text::text_view(self.since_ts),
            until_ts: text::text_view(self.until_ts),
            until_id: text::text_view(self.until_id),
            until_line_offset: self.until_line_offset,
            action: text::text_view(self.action),
            category: text::text_view(self.category),
            outcome: text::text_view(self.outcome),
            severity_min: self.severity_min,
            trace_id: text::text_view(self.trace_id),
            q: text::text_view(self.q),
            hide_internal: self.hide_internal,
            field_eq: self.field_eq@,
        }
    }
}

/// The filter without any constraint.
pub open spec fn unconstrained() -> FilterView {
    FilterView {
        since_ts: None,
        until_ts: None,
        until_id: None,
        until_line_offset: None,
        action: None,
        category: None,
        outcome: None,
        severity_min: None,
        trace_id: None,
        q: None,
        hide_internal: false,
        field_eq: Map::empty(),
    }
}

/// `e` lies before the cursor `(until, until_id)`: it has an earlier
/// timestamp, or the same timestamp and a smaller id. Without an id the bound
/// excludes every event with the same timestamp.
pub open spec fn before_cursor(
    e: EventView,
    until: Seq<char>,
    until_id: Option<Seq<char>>,
) -> bool {
    ||| text::text_lt(e.timestamp, until)
    ||| e.timestamp == until && (until_id matches Some(id) && text::text_lt(e.id, id))
}

/// Both texts are the same up to the case of ASCII letters.
pub open spec fn same_ignoring_case(a: Seq<char>, b: Seq<char>) -> bool {
    text::lower(a) == text::lower(b)
}

/// The message of an event, empty when it has none.
pub open spec fn message_text(e: EventView) -> Seq<char> {
    match e.message {
        Some(m) => m,
        None => Seq::empty(),
    }
}

/// `e` meets every constraint of `f`, and the lower-cased search text `needle`
/// occurs in its lower-cased message or attributes.
pub open spec fn accepts(e: EventView, f: FilterView, needle: Option<Seq<char>>) -> bool {
    &&& !(f.hide_internal && e.category == "internal"@)
    &&& (f.since_ts matches Some(since) ==> !text::text_lt(e.timestamp, since))
    &&& (f.until_ts matches Some(until) ==> before_cursor(e, until, f.until_id))
    &&& (f.action matches Some(action) ==> same_ignoring_case(e.action, action))
    &&& (f.category matches Some(category) ==> same_ignoring_case(e.category, category))
    &&& (f.outcome matches Some(outcome) ==> same_ignoring_case(e.outcome, outcome))
    &&& (f.severity_min matches Some(min) ==> e.severity_number >= min)
    &&& fields::holds_all(e.fields, f.field_eq)
    &&& (f.trace_id matches Some(id) ==> e.trace_id == Some(id))
    &&& (needle matches Some(n) ==> text::contains_text(text::lower(message_text(e)), n)
        || text::contains_text(text::lower(e.attributes), n))
}

/// The search text of a filter, lower-cased.
pub open spec fn needle_of(f: FilterView) -> Option<Seq<char>> {
    match f.q {
        Some(q) => Some(text::lower(q)),
        None => None,
    }
}

/// `e` is an event that `f` asks for.
pub open spec fn selects(f: FilterView, e: EventView) -> bool {
    accepts(e, f, needle_of(f))
}

impl Default for LogFilter {
    fn default() -> (filter: Self)
        ensures
            filter@ == unconstrained(),
    {
        LogFilter {
            since_ts: None,
            until_ts: None,
            until_id: None,
            until_line_offset: None,
            action: None,
            category: None,
            outcome: None,
            severity_min: None,
            trace_id: None,
            q: None,
            hide_internal: false,
            field_eq: FieldMap::new(),
        }
    }
}

impl LogFilter {
    /// The search text, lower-cased once for a whole query.
    pub fn needle(&self) -> (needle: Option<String>)
        ensures
            text::text_view(needle) == needle_of(self@),
    {
        match &self.q {
            Some(q) => Some(text::lowered_text(q.as_str())),
            None => None,
        }
    }
}

fn within_cursor(event: &LogEvent, until: &str, until_id: &Option<String>) -> (yes: bool)
    ensures
        yes == before_cursor(event@, until@, text::text_view(*until_id)),
{
    if text::text_before(event.timestamp.as_str(), until) {
        return true;
    }
    match until_id {
        Some(id) => text::text_eq(event.timestamp.as_str(), until) && text::text_before(
            event.id.as_str(),
            id.as_str(),
        ),
        None => false,
    }
}

fn meets_text(constraint: &Option<String>, value: &str) -> (yes: bool)
    ensures
        yes == (text::text_view(*constraint) matches Some(want) ==> same_ignoring_case(
            value@,
            want,
        )),
{
    match constraint {
        Some(want) => text::eq_ignoring_case(value, want.as_str()),
        None => true,
    }
}

fn mentions(event: &LogEvent, needle: &str) -> (yes: bool)
    ensures
        yes == (text::contains_text(text::lower(message_text(event@)), needle@)
            || text::contains_text(text::lower(event@.attributes), needle@)),
{
    let n: Vec<char> = text::chars_of(needle);
    let message: Vec<char> = match &event.message {
        Some(m) => text::lowered_chars(m.as_str()),
        None => Vec::new(),
    };
    assert(message@ =~= text::lower(message_text(event@)));
    if text::occurs_in(message.as_slice(), n.as_slice()) {
        return true;
    }
    let attributes: Vec<char> = text::lowered_chars(event.attributes.as_str());
    text::occurs_in(attributes.as_slice(), n.as_slice())
}

/// True when `event` meets every constraint of `filter` and mentions `needle`,
/// the filter's lower-cased search text.
pub fn matches_filter(event: &LogEvent, filter: &LogFilter, needle: Option<&str>) -> (yes: bool)
    ensures
        yes == accepts(
            event@,
            filter@,
            match needle {
                Some(n) => Some(n@),
                None => None,
            },
        ),
{
    if filter.hide_internal && text::text_eq(event.event.category.as_str(), "internal") {
        return false;
    }
    if let Some(since) = &filter.since_ts {
        if text::text_before(event.timestamp.as_str(), since.as_str()) {
            return false;
        }
    }
    if let Some(until) = &filter.until_ts {
        if !within_cursor(event, until.as_str(), &filter.until_id) {
            return false;
        }
    }
    if !meets_text(&filter.action, event.event.action.as_str()) {
        return false;
    }
    if !meets_text(&filter.category, event.event.category.as_str()) {
        return false;
    }
    if !meets_text(&filter.outcome, event.event.outcome.as_str()) {
        return false;
    }
    if let Some(min) = filter.severity_min {
        if event.severity_number < min {
            return false;
        }
    }
    if !filter.field_eq.is_within(&event.zeroclaw) {
        return false;
    }
    if let Some(want) = &filter.trace_id {
        let same: bool = match &event.trace_id {
            Some(got) => text::text_eq(got.as_str(), want.as_str()),
            None => false,
        };
        if !same {
            return false;
        }
    }
    if let Some(n) = needle {
        if !mentions(event, n) {
            return false;
        }
    }
    true
}

/// The filter without constraints asks for every event.
pub proof fn law_unconstrained_selects_all(e: EventView)
    ensures
        selects(unconstrained(), e),
{
}

/// A timestamp cursor never asks again for the event it was taken from.
pub proof fn law_cursor_excludes_its_event(f: FilterView, e: EventView)
    requires
        f.until_ts == Some(e.timestamp),
        f.until_id == Some(e.id) || f.until_id is None,
    ensures
        !selects(f, e),
{
    text::lemma_text_lt_irreflexive(e.timestamp);
    text::lemma_text_lt_irreflexive(e.id);
}

/// Filters that differ only in the case of ASCII letters in their action,
/// category, outcome and search text ask for the same events.
pub proof fn law_filter_ignores_case(f: FilterView, g: FilterView, e: EventView)
    requires
        f.action is Some <==> g.action is Some,
        f.action matches Some(a) ==> same_ignoring_case(a, g.action->0),
        f.category is Some <==> g.category is Some,
        f.category matches Some(c) ==> same_ignoring_case(c, g.category->0),
        f.outcome is Some <==> g.outcome is Some,
        f.outcome matches Some(o) ==> same_ignoring_case(o, g.outcome->0),
        f.q is Some <==> g.q is Some,
        f.q matches Some(q) ==> same_ignoring_case(q, g.q->0),
        g == (FilterView {
            action: g.action,
            category: g.category,
            outcome: g.outcome,
            q: g.q,
            ..f
        }),
    ensures
        selects(f, e) == selects(g, e),
{
}

/// The view of a filter has each of its constraints.
pub proof fn law_filter_view_is_faithful(f: LogFilter)
    ensures
        f@.since_ts == text::text_view(f.since_ts),
        f@.until_ts == text::text_view(f.until_ts),
        f@.until_id == text::text_view(f.until_id),
        f@.until_line_offset == f.until_line_offset,
        f@.action == text::text_view(f.action),
        f@.category == text::text_view(f.category),
        f@.outcome == text::text_view(f.outcome),
        f@.severity_min == f.severity_min,
        f@.trace_id == text::text_view(f.trace_id),
        f@.q == text::text_view(f.q),
        f@.hide_internal == f.hide_internal,
        f@.field_eq == f.field_eq@,
{
}

/// Each constraint of a filter counts for itself: a filter asks for an event
/// exactly when every one of its constraints alone asks for it. The byte offset
/// is no constraint on events.
pub proof fn law_constraints_count_one_by_one(f: FilterView, e: EventView)
    ensures
        selects(f, e) <==> {
            &&& selects(FilterView { since_ts: f.since_ts, ..unconstrained() }, e)
            &&& selects(
                FilterView { until_ts: f.until_ts, until_id: f.until_id, ..unconstrained() },
                e,
            )
            &&& selects(FilterView { action: f.action, ..unconstrained() }, e)
            &&& selects(FilterView { category: f.category, ..unconstrained() }, e)
            &&& selects(FilterView { outcome: f.outcome, ..unconstrained() }, e)
            &&& selects(FilterView { severity_min: f.severity_min, ..unconstrained() }, e)
            &&& selects(FilterView { trace_id: f.trace_id, ..unconstrained() }, e)
            &&& selects(FilterView { q: f.q, ..unconstrained() }, e)
            &&& selects(FilterView { hide_internal: f.hide_internal, ..unconstrained() }, e)
            &&& selects(FilterView { field_eq: f.field_eq, ..unconstrained() }, e)
        },
{
}

/// A lower time bound asks for the events that are not before it.
pub proof fn law_since_alone(since: Seq<char>, e: EventView)
    ensures
        selects(FilterView { since_ts: Some(since), ..unconstrained() }, e) <==> e.timestamp
            == since || text::text_lt(since, e.timestamp),
{
    text::lemma_text_lt_total(since, e.timestamp);
    text::lemma_text_lt_irreflexive(since);
    if text::text_lt(since, e.timestamp) && text::text_lt(e.timestamp, since) {
        text::lemma_text_lt_transitive(since, e.timestamp, since);
    }
}

/// An upper time bound asks for the events before it, and where it comes with
/// an id, for those at that time with a smaller id. An id without a time is no
/// constraint.
pub proof fn law_until_alone(until: Seq<char>, id: Seq<char>, e: EventView)
    ensures
        selects(FilterView { until_ts: Some(until), ..unconstrained() }, e) <==> text::text_lt(
            e.timestamp,
            until,
        ),
        selects(
            FilterView { until_ts: Some(until), until_id: Some(id), ..unconstrained() },
            e,
        ) <==> text::text_lt(e.timestamp, until) || (e.timestamp == until && text::text_lt(
            e.id,
            id,
        )),
        selects(FilterView { until_id: Some(id), ..unconstrained() }, e),
{
}

/// An action asks for the events with that action, whatever the case of its
/// ASCII letters.
pub proof fn law_action_alone(want: Seq<char>, e: EventView)
    ensures
        selects(FilterView { action: Some(want), ..unconstrained() }, e) <==> text::lower(e.action)
            == text::lower(want),
{
}

/// A category asks for the events with that category, whatever the case of its
/// ASCII letters.
pub proof fn law_category_alone(want: Seq<char>, e: EventView)
    ensures
        selects(FilterView { category: Some(want), ..unconstrained() }, e) <==> text::lower(
            e.category,
        ) == text::lower(want),
{
}

/// An outcome asks for the events with that outcome, whatever the case of its
/// ASCII letters.
pub proof fn law_outcome_alone(want: Seq<char>, e: EventView)
    ensures
        selects(FilterView { outcome: Some(want), ..unconstrained() }, e) <==> text::lower(
            e.outcome,
        ) == text::lower(want),
{
}

/// A severity asks for the events that are at least that severe.
pub proof fn law_severity_alone(min: u8, e: EventView)
    ensures
        selects(FilterView { severity_min: Some(min), ..unconstrained() }, e) <==> min
            <= e.severity_number,
{
}

/// A trace id asks for the events with exactly that trace id; an event without
/// one is not among them.
pub proof fn law_trace_id_alone(id: Seq<char>, e: EventView)
    ensures
        selects(FilterView { trace_id: Some(id), ..unconstrained() }, e) <==> e.trace_id == Some(
            id,
        ),
{
}

/// Hiding internal events leaves out those of the category `internal` and no
/// others.
pub proof fn law_hide_internal_alone(e: EventView)
    ensures
        selects(FilterView { hide_internal: true, ..unconstrained() }, e) <==> e.category
            != "internal"@,
{
}

/// Attribution constraints ask for the events that have each of the named
/// fields with the wanted value.
pub proof fn law_fields_alone(wanted: Map<Seq<char>, Seq<char>>, e: EventView)
    ensures
        selects(FilterView { field_eq: wanted, ..unconstrained() }, e) <==> forall|key: Seq<char>|
         #[trigger]
            wanted.dom().contains(key) ==> e.fields.dom().contains(key) && e.fields[key]
                == wanted[key],
{
}

/// A search text asks for the events whose message or attributes hold it,
/// whatever the case of its ASCII letters.
pub proof fn law_search_alone(q: Seq<char>, e: EventView)
    ensures
        selects(FilterView { q: Some(q), ..unconstrained() }, e) <==> text::contains_text(
            text::lower(e.attributes),
            text::lower(q),
        ) || exists|m: Seq<char>|
            e.message == Some(m) && text::contains_text(#[trigger] text::lower(m), text::lower(q)),
{
    let n = text::lower(q);
    if e.message is None && text::contains_text(text::lower(message_text(e)), n) {
        let k = choose|k: int| text::occurs_at(text::lower(message_text(e)), n, k);
        assert(n.len() == 0);
        assert(text::lower(e.attributes).subrange(0, 0) =~= n);
        assert(text::occurs_at(text::lower(e.attributes), n, 0));
    }
    if e.message is Some && text::contains_text(text::lower(message_text(e)), n) {
        assert(text::contains_text(text::lower(e.message->0), n));
    }
}

/// A needle of its own adds a search to a filter, on top of everything but the
/// filter's own search text.
pub proof fn law_needle_adds_a_search(f: FilterView, e: EventView, q: Seq<char>)
    ensures
        accepts(e, f, None) <==> selects(FilterView { q: None, ..f }, e),
        accepts(e, f, Some(text::lower(q))) <==> selects(FilterView { q: Some(q), ..f }, e),
        needle_of(f) is Some <==> f.q is Some,
        f.q matches Some(own) ==> needle_of(f) == Some(text::lower(own)),
{
}

}
