//! Reading pages and events from files and directories held in memory.

use serde_json::Value;

use zeroclaw_log::anchor;
use zeroclaw_log::archive::{DirEntry, DirListing, EntryMeta};
use zeroclaw_log::cursor::{CursorKind, SegmentCursor};
use zeroclaw_log::error::LogError;
use zeroclaw_log::event::{EventInfo, LogEvent};
use zeroclaw_log::fields::FieldMap;
use zeroclaw_log::log_file;
use zeroclaw_log::log_file::LogFile;
use zeroclaw_log::filter::LogFilter;
use zeroclaw_log::lines::{LogLine, SegmentContent};
use zeroclaw_log::page::LogPage;
use zeroclaw_log::query;
use zeroclaw_log::segment;
use zeroclaw_log::segment::SegmentMeta;
use zeroclaw_log::store::{LogDir, StoredFile};
use zeroclaw_log::stream;

fn text(value: &str) -> Value {
    Value::String(value.to_string())
}

/// The JSON line of an event, without the line break.
fn json_line(event: &LogEvent) -> String {
    let mut info = serde_json::Map::new();
    info.insert("action".to_string(), text(&event.event.action));
    info.insert("category".to_string(), text(&event.event.category));
    info.insert("outcome".to_string(), text(&event.event.outcome));
    let mut line = serde_json::Map::new();
    line.insert("id".to_string(), text(&event.id));
    line.insert("@timestamp".to_string(), text(&event.timestamp));
    line.insert("severity_number".to_string(), Value::from(event.severity_number));
    line.insert("event".to_string(), Value::Object(info));
    if let Some(trace_id) = &event.trace_id {
        line.insert("trace_id".to_string(), text(trace_id));
    }
    if let Some(message) = &event.message {
        line.insert("message".to_string(), text(message));
    }
    line.insert(
        "attributes".to_string(),
        serde_json::from_str(&event.attributes).unwrap(),
    );
    Value::Object(line).to_string()
}

/// The lines of a file with these events. An event without an id gets one that
/// no other event has.
fn jsonl(file_tag: &str, events: &[LogEvent]) -> SegmentContent {
    let mut lines = Vec::new();
    for (i, event) in events.iter().enumerate() {
        let mut event = event.clone();
        if event.id.is_empty() {
            event.id = format!("{file_tag}-{i}");
        }
        lines.push(LogLine { text: format!("{}\n", json_line(&event)), event: Some(event) });
    }
    SegmentContent { lines, complete: true }
}

fn write_jsonl(events: &[LogEvent]) -> LogFile {
    LogFile::Open(jsonl("evt", events))
}

fn make_event(action: &str, agent: Option<&str>) -> LogEvent {
    let mut zeroclaw = FieldMap::new();
    if let Some(alias) = agent {
        zeroclaw.insert("agent_alias".to_string(), alias.to_string());
    }
    LogEvent {
        id: String::new(),
        timestamp: "2026-05-15T18:00:00.000Z".to_string(),
        severity_number: 9,
        event: EventInfo {
            action: action.to_string(),
            category: "agent".to_string(),
            outcome: "unknown".to_string(),
        },
        zeroclaw,
        trace_id: None,
        message: None,
        attributes: "{}".to_string(),
    }
}

fn stamped(action: &str, id: &str, timestamp: &str, message: &str) -> LogEvent {
    let mut event = make_event(action, None);
    event.id = id.to_string();
    event.timestamp = timestamp.to_string();
    event.message = Some(message.to_string());
    event
}

fn load_page(log: &LogFile, filter: &LogFilter, limit: usize) -> LogPage {
    log_file::load_page(log, filter, limit).unwrap()
}

/// A directory with a log called `trace.jsonl`.
struct Dir {
    files: Vec<(String, SegmentContent, i128)>,
}

const ACTIVE: &str = "trace.jsonl";

impl Dir {
    fn new() -> Dir {
        Dir { files: Vec::new() }
    }

    fn write(&mut self, name: &str, events: &[LogEvent]) {
        self.files.retain(|(n, _, _)| n != name);
        let modified = self.files.len() as i128;
        let tag = format!("{name}-{}", self.files.len());
        self.files.push((name.to_string(), jsonl(&tag, events), modified));
    }

    fn rename(&mut self, from: &str, to: &str) {
        for (name, _, _) in self.files.iter_mut() {
            if name == from {
                *name = to.to_string();
            }
        }
    }

    fn remove(&mut self, name: &str) {
        self.files.retain(|(n, _, _)| n != name);
    }

    fn set_mtime(&mut self, name: &str, when: i128) {
        for (n, _, modified) in self.files.iter_mut() {
            if n == name {
                *modified = when;
            }
        }
    }

    fn modified(&self, name: &str) -> i128 {
        self.files.iter().find(|(n, _, _)| n == name).unwrap().2
    }

    fn listing(&self) -> DirListing {
        DirListing::Entries(
            self.files
                .iter()
                .map(|(name, _, modified)| DirEntry {
                    name: Some(name.clone()),
                    meta: Some(EntryMeta { is_file: true, modified: Some(*modified) }),
                })
                .collect(),
        )
    }

    fn has_active(&self) -> bool {
        self.files.iter().any(|(name, _, _)| name == ACTIVE)
    }

    fn snapshot(&self) -> LogDir {
        LogDir {
            listing: self.listing(),
            active_exists: self.has_active(),
            files: self
                .files
                .iter()
                .map(|(name, content, _)| StoredFile {
                    name: Some(name.clone()),
                    content: content.clone(),
                })
                .collect(),
        }
    }

    fn query(
        &self,
        reads_archives: bool,
        filter: &LogFilter,
        limit: usize,
        cursor: Option<&SegmentCursor>,
    ) -> LogPage {
        let dir = self.snapshot();
        query::query_log_page(
            &Some(ACTIVE.to_string()),
            reads_archives,
            &dir,
            &dir,
            filter,
            limit,
            cursor,
        )
        .unwrap()
    }

    fn find(&self, reads_archives: bool, id: &str) -> Option<LogEvent> {
        query::find_event_across_segments(
            &Some(ACTIVE.to_string()),
            reads_archives,
            &self.snapshot(),
            id,
        )
        .unwrap()
    }

    fn segments(&self, reads_archives: bool) -> Vec<SegmentMeta> {
        segment::enumerate_segment_metas(
            &Some(ACTIVE.to_string()),
            reads_archives,
            &self.listing(),
            self.has_active(),
        )
        .unwrap()
    }
}

fn messages(page: &LogPage) -> Vec<&str> {
    page.events.iter().map(|e| e.message.as_deref().unwrap_or_default()).collect()
}

#[test]
fn empty_file_returns_at_end() {
    let page = load_page(&LogFile::Missing, &LogFilter::default(), 10);
    assert!(page.events.is_empty());
    assert!(page.at_end);
}

#[test]
fn returns_newest_first_within_limit() {
    let mut events = Vec::new();
    for index in 0..5 {
        let mut event = make_event("test", None);
        event.timestamp = format!("2026-05-15T19:00:0{index}.000Z");
        event.message = Some(format!("event-{index}"));
        events.push(event);
    }
    let log = write_jsonl(&events);

    let page = load_page(&log, &LogFilter::default(), 3);
    assert_eq!(page.events.len(), 3);
    assert_eq!(page.events[0].message.as_deref(), Some("event-4"));
    assert_eq!(page.events[1].message.as_deref(), Some("event-3"));
    assert_eq!(page.events[2].message.as_deref(), Some("event-2"));
    assert!(!page.at_end);
}

#[test]
fn filter_by_agent() {
    let log = write_jsonl(&[
        make_event("a", Some("clamps")),
        make_event("b", Some("glados")),
        make_event("c", Some("clamps")),
    ]);

    let mut field_eq = FieldMap::new();
    field_eq.insert("agent_alias".into(), "clamps".into());
    let filter = LogFilter { field_eq, ..Default::default() };
    let page = load_page(&log, &filter, 10);
    assert_eq!(page.events.len(), 2);
}

#[test]
fn filter_by_native_trace_id() {
    let mut a = make_event("a", None);
    a.trace_id = Some("turn-1".into());
    let mut b = make_event("b", None);
    b.trace_id = Some("turn-2".into());
    let mut c = make_event("c", None);
    c.trace_id = Some("turn-1".into());
    let log = write_jsonl(&[a, b, c]);

    let filter = LogFilter { trace_id: Some("turn-1".into()), ..Default::default() };
    assert_eq!(load_page(&log, &filter, 10).events.len(), 2);

    let filter = LogFilter { trace_id: Some("turn-missing".into()), ..Default::default() };
    assert_eq!(load_page(&log, &filter, 10).events.len(), 0);
}

#[test]
fn hide_internal_drops_internal_category() {
    let mut agent_event = make_event("a", None);
    agent_event.event.category = "agent".into();
    let mut internal_event = make_event("b", None);
    internal_event.event.category = "internal".into();
    let log = write_jsonl(&[agent_event, internal_event]);

    let filter = LogFilter { hide_internal: true, ..Default::default() };
    let page = load_page(&log, &filter, 10);
    assert_eq!(page.events.len(), 1);
    assert_eq!(page.events[0].event.action, "a");
}

#[test]
fn substring_query_matches_message_and_attributes() {
    let mut with_alpha_message = make_event("a", None);
    with_alpha_message.message = Some("alpha bravo".into());
    let mut with_attr_payload = make_event("b", None);
    let mut attributes = serde_json::Map::new();
    attributes.insert("k".to_string(), text("delta echo"));
    with_attr_payload.attributes = Value::Object(attributes).to_string();
    let mut with_foxtrot_message = make_event("c", None);
    with_foxtrot_message.message = Some("foxtrot".into());
    let log = write_jsonl(&[with_alpha_message, with_attr_payload, with_foxtrot_message]);

    let filter = LogFilter { q: Some("bravo".into()), ..Default::default() };
    let page = load_page(&log, &filter, 10);
    assert_eq!(page.events.len(), 1);
    assert_eq!(page.events[0].event.action, "a");

    let attr_filter = LogFilter { q: Some("delta".into()), ..Default::default() };
    let attr_page = load_page(&log, &attr_filter, 10);
    assert_eq!(attr_page.events.len(), 1);
    assert_eq!(attr_page.events[0].event.action, "b");
}

#[test]
fn cursor_pagination_returns_older_pages() {
    let mut events = Vec::new();
    for index in 0..6 {
        let mut event = make_event("test", None);
        event.timestamp = format!("2026-05-15T19:00:0{index}.000Z");
        event.message = Some(format!("event-{index}"));
        events.push(event);
    }
    let log = write_jsonl(&events);

    let first_page = load_page(&log, &LogFilter::default(), 3);
    assert_eq!(first_page.events[0].message.as_deref(), Some("event-5"));
    let (cursor_ts, cursor_id) = first_page.next_cursor.unwrap();

    let older_filter = LogFilter {
        until_ts: Some(cursor_ts),
        until_id: Some(cursor_id),
        ..Default::default()
    };
    let older_page = load_page(&log, &older_filter, 3);
    assert_eq!(older_page.events[0].message.as_deref(), Some("event-2"));
    assert_eq!(older_page.events[1].message.as_deref(), Some("event-1"));
    assert_eq!(older_page.events[2].message.as_deref(), Some("event-0"));
    assert!(older_page.at_end);
}

fn same_timestamp_events(ids: &[&str]) -> Vec<LogEvent> {
    ids.iter()
        .map(|id| stamped("test", id, "2026-05-15T19:00:00.000Z", &format!("event-{id}")))
        .collect()
}

#[test]
fn same_timestamp_pagination_walks_all_events_exactly_once() {
    let ids = ["evt-a", "evt-b", "evt-c", "evt-d", "evt-e"];
    let log = write_jsonl(&same_timestamp_events(&ids));

    let mut seen_ids: Vec<String> = Vec::new();
    let mut page_filter = LogFilter::default();
    let page_size = 2;
    let mut pages_walked = 0;

    loop {
        pages_walked += 1;
        assert!(pages_walked < 20, "pagination must terminate, did not");

        let page = load_page(&log, &page_filter, page_size);
        for event in &page.events {
            assert!(
                !seen_ids.contains(&event.id),
                "duplicate id {:?} across pages",
                event.id
            );
            seen_ids.push(event.id.clone());
        }

        if page.at_end {
            break;
        }

        let (cursor_ts, cursor_id) = page
            .next_cursor
            .expect("non-final page must expose a cursor so caller can request older events");
        page_filter = LogFilter {
            until_ts: Some(cursor_ts),
            until_id: Some(cursor_id),
            ..Default::default()
        };
    }

    let mut expected: Vec<String> = ids.iter().map(|id| id.to_string()).collect();
    expected.sort();
    let mut actual = seen_ids.clone();
    actual.sort();
    assert_eq!(actual, expected, "pagination must visit every tied event exactly once");
}

#[test]
fn same_timestamp_cursor_does_not_duplicate_boundary_event() {
    let log = write_jsonl(&same_timestamp_events(&["evt-a", "evt-b", "evt-c"]));

    let page1 = load_page(&log, &LogFilter::default(), 1);
    assert_eq!(page1.events.len(), 1);
    assert_eq!(page1.events[0].id, "evt-c");
    let (cursor_ts, cursor_id) = page1.next_cursor.clone().unwrap();
    assert_eq!(cursor_id, "evt-c");

    let page2_filter = LogFilter {
        until_ts: Some(cursor_ts),
        until_id: Some(cursor_id),
        ..Default::default()
    };
    let page2 = load_page(&log, &page2_filter, 1);
    assert_eq!(page2.events.len(), 1);
    assert_eq!(page2.events[0].id, "evt-b");
    assert_ne!(page2.events[0].id, page1.events[0].id);
}

#[test]
fn line_offset_pagination_walks_scrambled_ids_exactly_once() {
    let ids = ["evt-c", "evt-a", "evt-e", "evt-b", "evt-d"];
    let log = write_jsonl(&same_timestamp_events(&ids));

    let mut seen_ids: Vec<String> = Vec::new();
    let mut page_filter = LogFilter::default();
    let page_size = 2;
    let mut pages_walked = 0;

    loop {
        pages_walked += 1;
        assert!(pages_walked < 20, "pagination must terminate");

        let page = load_page(&log, &page_filter, page_size);
        for event in &page.events {
            assert!(
                !seen_ids.contains(&event.id),
                "duplicate id {:?} across pages",
                event.id
            );
            seen_ids.push(event.id.clone());
        }

        let Some(line_offset) = page.next_cursor_line_offset else {
            break;
        };

        page_filter = LogFilter { until_line_offset: Some(line_offset), ..Default::default() };
    }

    let mut expected: Vec<String> = ids.iter().map(|id| id.to_string()).collect();
    expected.sort();
    let mut actual = seen_ids.clone();
    actual.sort();
    assert_eq!(
        actual, expected,
        "byte-offset cursor must visit every event exactly once even when ids are scrambled"
    );
}

#[test]
fn line_offset_cursor_resumes_with_no_overlap_or_gap() {
    let mut events = Vec::new();
    for index in 0..6 {
        events.push(stamped(
            "test",
            &format!("evt-{index}"),
            &format!("2026-05-15T19:00:0{index}.000Z"),
            &format!("event-{index}"),
        ));
    }
    let log = write_jsonl(&events);

    let page_size = 2;
    let mut all_seen_ids: Vec<String> = Vec::new();
    let mut page_filter = LogFilter::default();

    loop {
        let page = load_page(&log, &page_filter, page_size);
        for event in &page.events {
            assert!(
                !all_seen_ids.contains(&event.id),
                "duplicate {:?} across pages",
                event.id
            );
            all_seen_ids.push(event.id.clone());
        }
        let Some(line_offset) = page.next_cursor_line_offset else {
            break;
        };
        page_filter = LogFilter { until_line_offset: Some(line_offset), ..Default::default() };
    }

    let expected: Vec<String> = (0..6).rev().map(|i| format!("evt-{i}")).collect();
    assert_eq!(
        all_seen_ids, expected,
        "byte-offset cursor must walk the file in newest-first page order without losing or duplicating events"
    );
}

#[test]
fn line_offset_cursor_advances_monotonically() {
    let mut events = Vec::new();
    for index in 0..5 {
        let mut event = make_event("test", None);
        event.timestamp = format!("2026-05-15T19:00:0{index}.000Z");
        event.message = Some(format!("event-{index}"));
        events.push(event);
    }
    let log = write_jsonl(&events);

    let mut prev_offset: Option<u64> = None;
    let mut page_filter = LogFilter::default();
    let page_size = 1;

    loop {
        let page = load_page(&log, &page_filter, page_size);
        if page.events.is_empty() {
            break;
        }
        let offset = page
            .next_cursor_line_offset
            .expect("non-empty page must expose a line offset cursor");
        if let Some(prev) = prev_offset {
            assert!(
                offset < prev,
                "next_cursor_line_offset must strictly decrease across pages as we walk to older events (prev={prev}, next={offset})"
            );
        }
        prev_offset = Some(offset);
        page_filter = LogFilter { until_line_offset: Some(offset), ..Default::default() };
    }
}

#[test]
fn line_offset_cursor_at_file_start_returns_empty_page() {
    let mut events = Vec::new();
    for index in 0..3 {
        let mut event = make_event("test", None);
        event.timestamp = format!("2026-05-15T19:00:0{index}.000Z");
        events.push(event);
    }
    let log = write_jsonl(&events);

    let filter = LogFilter { until_line_offset: Some(0), ..Default::default() };
    let page = load_page(&log, &filter, 10);
    assert!(
        page.events.is_empty(),
        "until_line_offset=0 must skip every line and yield an empty page"
    );
    assert!(page.next_cursor_line_offset.is_none());
    assert!(
        page.at_end,
        "empty page (regardless of cursor state) must report at_end so \
         callers stop paginating instead of looping on a cursor that \
         cannot advance"
    );
}

#[test]
fn empty_page_with_filter_excludes_everything_reports_at_end() {
    let mut events = Vec::new();
    for index in 0..4 {
        let mut event = make_event("test", None);
        event.timestamp = format!("2026-05-15T19:00:0{index}.000Z");
        events.push(event);
    }
    let log = write_jsonl(&events);

    let filter = LogFilter { action: Some("does-not-exist".into()), ..Default::default() };
    let page = load_page(&log, &filter, 10);
    assert!(page.events.is_empty());
    assert!(page.at_end, "empty page after a full-file scan must report at_end");
    assert!(page.next_cursor_line_offset.is_none());

    let filter_with_cursor = LogFilter {
        action: Some("does-not-exist".into()),
        until_line_offset: Some(50),
        ..Default::default()
    };
    let page2 = load_page(&log, &filter_with_cursor, 10);
    assert!(page2.events.is_empty());
    assert!(
        page2.at_end,
        "empty page under an until_line_offset cursor must also report at_end"
    );
}

#[test]
fn action_filter_matches_case_insensitively() {
    let log = write_jsonl(&[make_event("LlmRequest", None), make_event("tool_call", None)]);
    let filter = LogFilter { action: Some("llmrequest".into()), ..Default::default() };
    let page = load_page(&log, &filter, 10);
    assert_eq!(page.events.len(), 1);
    assert_eq!(page.events[0].event.action, "LlmRequest");
}

#[test]
fn category_filter_matches_case_insensitively() {
    let mut agent_ev = make_event("a", None);
    agent_ev.event.category = "agent".into();
    let mut tool_ev = make_event("b", None);
    tool_ev.event.category = "tool".into();
    let log = write_jsonl(&[agent_ev, tool_ev]);
    let filter = LogFilter { category: Some("AGENT".into()), ..Default::default() };
    let page = load_page(&log, &filter, 10);
    assert_eq!(page.events.len(), 1);
    assert_eq!(page.events[0].event.action, "a");
}

#[test]
fn outcome_filter_matches_case_insensitively() {
    let mut ok_ev = make_event("a", None);
    ok_ev.event.outcome = "success".into();
    let mut fail_ev = make_event("b", None);
    fail_ev.event.outcome = "failure".into();
    let log = write_jsonl(&[ok_ev, fail_ev]);
    let filter = LogFilter { outcome: Some("FAILURE".into()), ..Default::default() };
    let page = load_page(&log, &filter, 10);
    assert_eq!(page.events.len(), 1);
    assert_eq!(page.events[0].event.action, "b");
}

/// Two older events in an archive without a number, two newer ones in the
/// active file.
fn archive_and_active() -> Dir {
    let mut dir = Dir::new();
    dir.write(
        "trace.20260101-000000.jsonl",
        &[
            stamped("a", "", "2026-01-01T00:00:00.000Z", "old-a"),
            stamped("b", "", "2026-01-01T00:00:01.000Z", "old-b"),
        ],
    );
    dir.write(
        "trace.jsonl",
        &[
            stamped("c", "", "2026-06-01T00:00:00.000Z", "new-c"),
            stamped("d", "", "2026-06-01T00:00:01.000Z", "new-d"),
        ],
    );
    dir
}

#[test]
fn multi_segment_reads_across_active_and_archive() {
    let dir = archive_and_active();
    let page = dir.query(true, &LogFilter::default(), 10, None);

    assert_eq!(page.events.len(), 4, "all 4 events across segments");
    assert_eq!(page.events[0].message.as_deref(), Some("new-d"));
    assert_eq!(page.events[1].message.as_deref(), Some("new-c"));
    assert_eq!(page.events[2].message.as_deref(), Some("old-b"));
    assert_eq!(page.events[3].message.as_deref(), Some("old-a"));
    assert!(page.at_end, "entire stream was scanned");
}

#[test]
fn segment_cursor_paginates_into_archive() {
    let dir = archive_and_active();

    let page1 = dir.query(true, &LogFilter::default(), 2, None);
    assert_eq!(page1.events.len(), 2);
    assert_eq!(page1.events[0].message.as_deref(), Some("new-d"));
    assert_eq!(page1.events[1].message.as_deref(), Some("new-c"));
    assert!(!page1.at_end, "there are older events in the archive");
    let cursor_wire = page1.next_segment_cursor.clone().expect("cursor must be set");

    let cursor = SegmentCursor::from_wire(&cursor_wire).expect("valid cursor wire format");
    let page2 = dir.query(true, &LogFilter::default(), 2, Some(&cursor));
    assert_eq!(page2.events.len(), 2);
    assert_eq!(page2.events[0].message.as_deref(), Some("old-b"));
    assert_eq!(page2.events[1].message.as_deref(), Some("old-a"));
    assert!(page2.at_end, "no older events remain");
}

fn four_events() -> [LogEvent; 4] {
    [
        stamped("a", "", "2026-01-01T00:00:00.000Z", "ev-a"),
        stamped("b", "", "2026-01-01T00:00:01.000Z", "ev-b"),
        stamped("c", "", "2026-01-01T00:00:02.000Z", "ev-c"),
        stamped("d", "", "2026-01-01T00:00:03.000Z", "ev-d"),
    ]
}

#[test]
fn segment_cursor_survives_active_file_rotation_between_pages() {
    let mut dir = Dir::new();
    dir.write("trace.jsonl", &four_events());

    let page1 = dir.query(true, &LogFilter::default(), 2, None);
    assert_eq!(page1.events.len(), 2);
    assert_eq!(page1.events[0].message.as_deref(), Some("ev-d"));
    assert_eq!(page1.events[1].message.as_deref(), Some("ev-c"));
    let cursor_wire = page1.next_segment_cursor.clone().expect("cursor must be set");

    dir.rename("trace.jsonl", "trace.20260101-000000.jsonl");
    dir.write("trace.jsonl", &[stamped("e", "", "2026-01-01T00:00:04.000Z", "ev-e")]);

    let cursor = SegmentCursor::from_wire(&cursor_wire).expect("valid cursor");
    let page2 = dir.query(true, &LogFilter::default(), 2, Some(&cursor));
    assert_eq!(page2.events.len(), 2, "expected [b, a] not newly-written events");
    assert_eq!(
        page2.events[0].message.as_deref(),
        Some("ev-b"),
        "oldest-of-page-1 must not duplicate into page 2"
    );
    assert_eq!(page2.events[1].message.as_deref(), Some("ev-a"));
    assert!(page2.at_end, "all events seen");
}

#[test]
fn query_log_page_recovers_when_rotation_races_enumeration() {
    let mut dir = Dir::new();
    dir.write("trace.jsonl", &four_events());

    let page1 = dir.query(true, &LogFilter::default(), 2, None);
    assert_eq!(page1.events[0].message.as_deref(), Some("ev-d"));
    assert_eq!(page1.events[1].message.as_deref(), Some("ev-c"));
    let cursor_wire = page1.next_segment_cursor.clone().expect("cursor must be set");

    dir.rename("trace.jsonl", "trace.20260101-000000.jsonl");
    dir.write("trace.jsonl", &[stamped("e", "", "2026-01-01T00:00:04.000Z", "ev-e")]);

    let cursor = SegmentCursor::from_wire(&cursor_wire).expect("valid cursor");
    let page2 = dir.query(true, &LogFilter::default(), 2, Some(&cursor));
    assert_eq!(
        page2.events.len(),
        2,
        "expected the two older events, got {:?}",
        messages(&page2)
    );
    assert_eq!(
        page2.events[0].message.as_deref(),
        Some("ev-b"),
        "page 2 must resume below the anchor, not return post-rotation writes"
    );
    assert_eq!(page2.events[1].message.as_deref(), Some("ev-a"));
}

#[test]
fn find_event_across_segments_searches_active_then_archives() {
    let mut dir = Dir::new();
    let mut archived = make_event("find-test", None);
    archived.id = "archived-id".into();
    archived.message = Some("in-archive".into());
    dir.write("trace.20260101-000000.jsonl", &[archived]);

    let mut live = make_event("find-test", None);
    live.id = "live-id".into();
    live.message = Some("in-active".into());
    dir.write("trace.jsonl", &[live]);

    let hit = dir.find(true, "live-id");
    assert_eq!(hit.expect("active hit").message.as_deref(), Some("in-active"));

    let hit = dir.find(true, "archived-id");
    assert_eq!(
        hit.expect("archive hit").message.as_deref(),
        Some("in-archive"),
        "an id that has rotated out of the active file must still resolve"
    );

    assert!(dir.find(true, "no-such-id").is_none());
}

#[test]
fn rolling_scope_does_not_merge_orphaned_archives() {
    let mut dir = Dir::new();
    dir.write(
        "trace.20260101-000000.jsonl",
        &[stamped(
            "legacy",
            "orphaned",
            "2026-01-01T00:00:00.000Z",
            "from-a-previous-rotating-config",
        )],
    );
    dir.write(
        "trace.jsonl",
        &[stamped("current", "live", "2026-01-02T00:00:00.000Z", "in-the-rolling-window")],
    );

    let page = dir.query(false, &LogFilter::default(), 10, None);
    assert_eq!(
        page.events.len(),
        1,
        "rolling must read the active file alone, got {:?}",
        messages(&page)
    );
    assert_eq!(page.events[0].message.as_deref(), Some("in-the-rolling-window"));

    assert!(
        dir.find(false, "orphaned").is_none(),
        "an orphaned archive's events are not part of the rolling stream"
    );

    let page = dir.query(true, &LogFilter::default(), 10, None);
    assert_eq!(page.events.len(), 2, "rotating merges retained archives");
    assert!(dir.find(true, "orphaned").is_some());
}

#[test]
fn cursor_into_a_pruned_segment_holds_position_instead_of_restarting() {
    let mut dir = Dir::new();
    let archive = "trace.0000000003-20260101-000000.jsonl";

    let mut old = make_event("a", None);
    old.id = "id-old".into();
    old.timestamp = "2026-01-01T00:00:00.000Z".into();
    dir.write(archive, &[old]);

    let mut live = make_event("b", None);
    live.id = "id-live".into();
    live.timestamp = "2026-06-01T00:00:00.000Z".into();
    dir.write("trace.jsonl", &[live]);

    let cursor = SegmentCursor { kind: CursorKind::Archive { seq: 3, off: 4096 } };
    let page = dir.query(true, &LogFilter::default(), 5, Some(&cursor));
    assert_eq!(
        page.events.len(),
        1,
        "the addressed archive is present, so its event is returned"
    );

    dir.remove(archive);
    let page = dir.query(true, &LogFilter::default(), 5, Some(&cursor));
    assert!(
        page.events.is_empty(),
        "a pruned segment must not resolve to a different one, got {:?}",
        page.events.iter().map(|e| e.id.as_str()).collect::<Vec<_>>()
    );
    assert!(page.at_end, "the client is at the end of surviving history");
}

#[test]
fn active_cursor_follows_its_anchor_into_the_rotated_archive() {
    let mut dir = Dir::new();
    dir.write(
        "trace.jsonl",
        &[
            stamped("a", "id-a", "2026-01-01T00:00:00.000Z", "old-a"),
            stamped("b", "id-b", "2026-01-01T00:00:01.000Z", "old-b"),
        ],
    );
    dir.rename("trace.jsonl", "trace.0000000001-20260101-000000.jsonl");
    dir.write("trace.jsonl", &[stamped("c", "id-c", "2026-06-01T00:00:00.000Z", "new-c")]);

    let cursor = SegmentCursor {
        kind: CursorKind::Active { off: 4096, anchor_id: Some("id-b".into()) },
    };
    let page = dir.query(true, &LogFilter::default(), 5, Some(&cursor));
    assert_eq!(
        messages(&page),
        vec!["old-a"],
        "the anchor must be found in the archive it rotated into, and the \
         post-rotation active event must not reappear"
    );
}

#[test]
fn segment_order_survives_multiple_rotations_during_one_read() {
    let mut dir = Dir::new();
    let seg_b = "trace.0000000002-20260101-000200.jsonl";
    let seg_a = "trace.0000000001-20260101-000100.jsonl";
    dir.write(seg_b, &[stamped("b", "id-b", "2026-01-01T00:02:00.000Z", "segment-b")]);
    dir.write(seg_a, &[stamped("a", "id-a", "2026-01-01T00:01:00.000Z", "segment-a")]);
    dir.write("trace.jsonl", &[stamped("c", "id-c", "2026-01-01T00:03:00.000Z", "segment-c")]);

    let base: i128 = 1_800_000_000 * 1_000_000_000;
    dir.set_mtime(seg_b, base);
    dir.set_mtime(seg_a, base + 3600 * 1_000_000_000);
    assert!(
        dir.modified(seg_a) > dir.modified(seg_b),
        "test setup: the lower-sequence segment must carry the newer mtime"
    );

    let page = dir.query(true, &LogFilter::default(), 10, None);
    assert_eq!(
        messages(&page),
        vec!["segment-c", "segment-b", "segment-a"],
        "segments must be merged newest-first by sequence, not by mtime"
    );
}

#[test]
fn legacy_archives_sort_before_numbered_ones() {
    let mut dir = Dir::new();
    dir.write(
        "trace.20260101-000000.jsonl",
        &[stamped("old", "id-old", "2026-01-01T00:00:00.000Z", "legacy")],
    );
    dir.write(
        "trace.0000000001-20260101-000100.jsonl",
        &[stamped("new", "id-new", "2026-01-01T00:01:00.000Z", "numbered")],
    );
    dir.write(
        "trace.jsonl",
        &[stamped("live", "id-live", "2026-01-01T00:02:00.000Z", "active")],
    );

    let page = dir.query(true, &LogFilter::default(), 10, None);
    assert_eq!(
        messages(&page),
        vec!["active", "numbered", "legacy"],
        "a legacy archive must read as older than every numbered archive"
    );
}

#[test]
fn cursor_wire_format_round_trips_and_rejects_malformed_tokens() {
    let archive = SegmentCursor { kind: CursorKind::Archive { seq: 7, off: 4096 } };
    assert_eq!(archive.to_wire(), "7:4096");
    assert_eq!(SegmentCursor::from_wire("7:4096"), Some(archive));

    let active = SegmentCursor {
        kind: CursorKind::Active { off: 512, anchor_id: Some("evt-1".into()) },
    };
    assert_eq!(active.to_wire(), "active:512:evt-1");
    assert_eq!(SegmentCursor::from_wire("active:512:evt-1"), Some(active));

    let bare = SegmentCursor { kind: CursorKind::Active { off: 512, anchor_id: None } };
    assert_eq!(bare.to_wire(), "active:512");
    assert_eq!(SegmentCursor::from_wire("active:512"), Some(bare));

    assert_eq!(SegmentCursor::from_wire("active:512:"), None);

    assert_eq!(SegmentCursor::from_wire("active:abc"), None);
    assert_eq!(SegmentCursor::from_wire("active:abc:evt-1"), None);
    assert_eq!(SegmentCursor::from_wire(""), None);
}

#[test]
fn query_returns_all_segments_even_when_active_is_empty_after_rotation() {
    let mut dir = Dir::new();
    dir.write(
        "trace.0000000001-20260101-000000.jsonl",
        &[
            stamped("a", "id-a", "2026-01-01T00:00:00.000Z", "archived-a"),
            stamped("b", "id-b", "2026-01-01T00:00:01.000Z", "archived-b"),
        ],
    );
    dir.write("trace.jsonl", &[]);

    let page = dir.query(true, &LogFilter::default(), 10, None);
    assert_eq!(
        messages(&page),
        vec!["archived-b", "archived-a"],
        "archive events must appear even when the active file is empty"
    );
    assert!(page.at_end);
}

#[test]
fn re_enumeration_detects_new_segment_that_appeared_after_first_snapshot() {
    let mut dir = Dir::new();
    let mut live = make_event("live", None);
    live.id = "id-live".into();
    live.message = Some("active".into());
    dir.write("trace.jsonl", &[live]);

    let before = dir.segments(true);
    assert_eq!(before.len(), 1, "only the active file before rotation");

    let archive = "trace.0000000001-20260101-000000.jsonl";
    dir.rename("trace.jsonl", archive);
    let mut new_live = make_event("new", None);
    new_live.id = "id-new".into();
    new_live.message = Some("new-active".into());
    dir.write("trace.jsonl", &[new_live]);

    let after = dir.segments(true);
    assert_eq!(
        after.len(),
        2,
        "the archive created by rotation must appear in the second enumeration"
    );
    assert!(
        after.iter().any(|s| s.name.as_deref() == Some(archive)),
        "the rotated archive must be in the new snapshot"
    );
    assert!(after.len() > before.len());
}

#[test]
fn a_query_holds_one_descriptor_regardless_of_segment_count() {
    let mut dir = Dir::new();
    for seq in 1..=40u64 {
        dir.write(
            &format!("trace.{seq:010}-20260101-000000.jsonl"),
            &[stamped(
                "archived",
                &format!("id-{seq}"),
                &format!("2026-01-01T00:{:02}:00.000Z", seq % 60),
                &format!("seg-{seq}"),
            )],
        );
    }
    dir.write(
        "trace.jsonl",
        &[stamped("live", "id-live", "2026-06-01T00:00:00.000Z", "active")],
    );

    let segs = dir.segments(true);
    assert_eq!(segs.len(), 41, "every segment is in scope, uncapped");
    assert!(segs.last().unwrap().is_active, "the active file sorts last");

    let page = dir.query(true, &LogFilter::default(), 100, None);
    assert_eq!(
        page.events.len(),
        41,
        "all 41 events must be reachable in a single read"
    );
    assert_eq!(page.events[0].message.as_deref(), Some("active"));
    assert_eq!(
        page.events.last().unwrap().message.as_deref(),
        Some("seg-1"),
        "the oldest archive is still reached"
    );
    assert!(page.at_end);
}

#[test]
fn archives_are_out_of_scope_for_a_policy_that_does_not_own_them() {
    let mut dir = Dir::new();
    for seq in 1..=12u64 {
        let mut ev = make_event("archived", None);
        ev.id = format!("id-{seq}");
        ev.message = Some(format!("seg-{seq}"));
        dir.write(&format!("trace.{seq:010}-20260101-000000.jsonl"), &[ev]);
    }
    let mut live = make_event("live", None);
    live.id = "id-live".into();
    live.message = Some("active".into());
    dir.write("trace.jsonl", &[live]);

    let segs = dir.segments(false);
    assert_eq!(segs.len(), 1, "only the active file is in scope");
    assert!(segs[0].is_active);

    let page = dir.query(false, &LogFilter::default(), 100, None);
    assert_eq!(messages(&page), vec!["active"], "archive events must stay invisible");
}

// ---------------------------------------------------------------------------
// Beyond whole, undisturbed files
// ---------------------------------------------------------------------------

fn numbered(count: usize) -> Vec<LogEvent> {
    (0..count)
        .map(|i| {
            stamped(
                "test",
                &format!("evt-{i}"),
                &format!("2026-05-15T19:00:{i:02}.000Z"),
                &format!("event-{i}"),
            )
        })
        .collect()
}

fn numbered_widely(count: usize) -> Vec<LogEvent> {
    (0..count).map(|i| stamped("test", &format!("evt-{i}"), "t", "m")).collect()
}

#[test]
fn a_file_that_cannot_be_opened_fails_the_page_and_the_lookup() {
    let log = LogFile::Unopenable;
    assert_eq!(
        log_file::load_page(&log, &LogFilter::default(), 10).unwrap_err(),
        LogError::OpenFailed
    );
    assert_eq!(log_file::find_event_by_id(&log, "evt-0").unwrap_err(), LogError::OpenFailed);
}

#[test]
fn a_read_failure_fails_the_page_unless_the_cap_comes_first() {
    let mut content = jsonl("evt", &numbered(3));
    let second_end = (content.lines[0].text.len() + content.lines[1].text.len()) as u64;
    content.complete = false;
    let log = LogFile::Open(content);
    assert_eq!(
        log_file::load_page(&log, &LogFilter::default(), 10).unwrap_err(),
        LogError::ReadFailed
    );
    assert_eq!(log_file::find_event_by_id(&log, "evt-0").unwrap_err(), LogError::ReadFailed);

    let capped = LogFilter { until_line_offset: Some(second_end), ..Default::default() };
    let page = load_page(&log, &capped, 10);
    assert_eq!(messages(&page), vec!["event-0"]);
    assert!(!page.at_end);
}

#[test]
fn a_missing_file_holds_no_event() {
    assert!(log_file::find_event_by_id(&LogFile::Missing, "evt-0").unwrap().is_none());
}

#[test]
fn the_last_event_with_an_id_wins() {
    let mut events = numbered(3);
    events[2].id = "evt-0".into();
    let log = write_jsonl(&events);
    let found = log_file::find_event_by_id(&log, "evt-0").unwrap().unwrap();
    assert_eq!(found.message.as_deref(), Some("event-2"));
    let found = log_file::find_event_by_id(&log, "evt-1").unwrap().unwrap();
    assert_eq!(found.message.as_deref(), Some("event-1"));
    assert!(log_file::find_event_by_id(&log, "evt-9").unwrap().is_none());
}

#[test]
fn across_segments_the_newest_segment_and_its_first_event_win() {
    let mut dir = Dir::new();
    let mut events = numbered(2);
    events[1].id = "evt-0".into();
    dir.write("trace.0000000001-20260101-000000.jsonl", &events);
    dir.write("trace.0000000002-20260101-000000.jsonl", &[
        stamped("x", "evt-0", "t", "newer-first"),
        stamped("x", "evt-0", "t", "newer-second"),
    ]);
    dir.write("trace.jsonl", &numbered(0));
    assert_eq!(dir.find(true, "evt-0").unwrap().message.as_deref(), Some("newer-first"));
}

#[test]
fn blank_and_malformed_lines_are_passed_over_but_counted() {
    let mut content = jsonl("evt", &numbered(2));
    content.lines.insert(1, LogLine { text: "  \n".into(), event: None });
    content.lines.insert(2, LogLine { text: "not json\n".into(), event: None });
    let ends: Vec<u64> = content
        .lines
        .iter()
        .scan(0u64, |end, line| {
            *end += line.text.len() as u64;
            Some(*end)
        })
        .collect();
    let log = LogFile::Open(content);
    let page = load_page(&log, &LogFilter::default(), 1);
    assert_eq!(messages(&page), vec!["event-1"]);
    assert_eq!(page.next_cursor_line_offset, Some(ends[3]));
    let older = LogFilter { until_line_offset: Some(ends[3]), ..Default::default() };
    let page = load_page(&log, &older, 1);
    assert_eq!(messages(&page), vec!["event-0"]);
    assert_eq!(page.next_cursor_line_offset, Some(ends[0]));
}

#[test]
fn byte_offsets_count_bytes_and_not_characters() {
    let mut events = numbered(2);
    events[0].message = Some("输出 ü".into());
    let content = jsonl("evt", &events);
    let first_end = content.lines[0].text.len() as u64;
    assert!(first_end > content.lines[0].text.chars().count() as u64);
    let log = LogFile::Open(content);
    let page = load_page(&log, &LogFilter::default(), 2);
    assert_eq!(page.next_cursor_line_offset, Some(first_end));
}

#[test]
fn the_limit_is_brought_into_range() {
    let log = write_jsonl(&numbered(3));
    let page = load_page(&log, &LogFilter::default(), 0);
    assert_eq!(messages(&page), vec!["event-2"]);
    let page = load_page(&log, &LogFilter::default(), usize::MAX);
    assert_eq!(page.events.len(), 3);
    assert_eq!(zeroclaw_log::page::clamp_limit(usize::MAX), 10_000);
    assert_eq!(zeroclaw_log::page::clamp_limit(0), 1);
    assert_eq!(zeroclaw_log::page::clamp_limit(37), 37);
}

#[test]
fn a_scan_takes_its_limit_as_given() {
    let mut dir = Dir::new();
    dir.write("trace.jsonl", &numbered_widely(10_050));
    let snapshot = dir.snapshot();
    let segs = dir.segments(true);
    let filter = LogFilter::default();

    let page = stream::do_scan(&segs, &snapshot, &filter, 10_020, 0, None);
    assert_eq!(page.events.len(), 10_020);
    assert!(!page.at_end);
    let page = stream::do_scan(&segs, &snapshot, &filter, 10_050, 0, None);
    assert_eq!(page.events.len(), 10_050);
    assert!(page.at_end);
    let page = stream::do_scan(&segs, &snapshot, &filter, 0, 0, None);
    assert!(page.events.is_empty());
    assert!(!page.at_end);

    let page = dir.query(true, &filter, 10_050, None);
    assert_eq!(page.events.len(), 10_000);
    assert!(!page.at_end);
    let page = load_page(&LogFile::Open(dir.files[0].1.clone()), &filter, 10_050);
    assert_eq!(page.events.len(), 10_000);
}

#[test]
fn an_anchor_is_found_at_an_offset_where_it_is_anchored() {
    let mut content = jsonl("evt", &numbered(3));
    content.lines.insert(1, LogLine { text: "\n".into(), event: None });
    for id in ["evt-0", "evt-1", "evt-2"] {
        let off = anchor::find_anchor_offset(Some(&content), id).unwrap();
        assert!(anchor::anchor_is_at_offset(Some(&content), off, id));
    }
    assert_eq!(
        anchor::find_anchor_offset(Some(&content), "evt-0"),
        Some(content.lines[0].text.len() as u64)
    );
    assert_eq!(anchor::find_anchor_offset(Some(&content), "evt-9"), None);
    assert_eq!(anchor::find_anchor_offset(None, "evt-0"), None);
    assert!(!anchor::anchor_is_at_offset(None, 0, "evt-0"));
    assert!(!anchor::anchor_is_at_offset(Some(&content), 0, "evt-1"));
}

#[test]
fn time_bounds_include_the_lower_and_exclude_the_upper() {
    let log = write_jsonl(&numbered(4));
    let filter = LogFilter {
        since_ts: Some("2026-05-15T19:00:01.000Z".into()),
        until_ts: Some("2026-05-15T19:00:03.000Z".into()),
        ..Default::default()
    };
    assert_eq!(messages(&load_page(&log, &filter, 10)), vec!["event-2", "event-1"]);
}

#[test]
fn severity_is_a_minimum() {
    let mut events = numbered(3);
    events[0].severity_number = 5;
    events[1].severity_number = 13;
    events[2].severity_number = 17;
    let log = write_jsonl(&events);
    let filter = LogFilter { severity_min: Some(13), ..Default::default() };
    assert_eq!(messages(&load_page(&log, &filter, 10)), vec!["event-2", "event-1"]);
}

#[test]
fn a_search_ignores_ascii_case_on_both_sides() {
    let mut events = numbered(2);
    events[0].message = Some("Alpha BRAVO".into());
    events[1].message = None;
    events[1].attributes = "{\"K\":\"Delta\"}".into();
    let log = write_jsonl(&events);
    let filter = LogFilter { q: Some("bRaVo".into()), ..Default::default() };
    assert_eq!(load_page(&log, &filter, 10).events[0].id, "evt-0");
    let filter = LogFilter { q: Some("\"k\":\"DELTA".into()), ..Default::default() };
    assert_eq!(load_page(&log, &filter, 10).events[0].id, "evt-1");
}

#[test]
fn an_offset_without_a_cursor_caps_the_active_file_only() {
    let mut dir = Dir::new();
    dir.write("trace.0000000001-20260101-000000.jsonl", &[stamped("x", "x", "t", "archived")]);
    dir.write("trace.jsonl", &numbered(2));
    let filter = LogFilter { until_line_offset: Some(1), ..Default::default() };
    assert_eq!(messages(&dir.query(true, &filter, 10, None)), vec!["archived"]);

    dir.remove("trace.jsonl");
    assert_eq!(messages(&dir.query(true, &filter, 10, None)), vec!["archived"]);
}

#[test]
fn an_anchorless_cursor_applies_its_offset_to_the_active_file() {
    let mut dir = Dir::new();
    dir.write("trace.jsonl", &numbered(2));
    let first_end = dir.files[0].1.lines[0].text.len() as u64;
    let cursor = SegmentCursor {
        kind: CursorKind::Active { off: first_end + 1, anchor_id: None },
    };
    assert_eq!(messages(&dir.query(true, &LogFilter::default(), 5, Some(&cursor))), vec![
        "event-0"
    ]);

    dir.rename("trace.jsonl", "trace.0000000001-20260101-000000.jsonl");
    let page = dir.query(true, &LogFilter::default(), 5, Some(&cursor));
    assert!(page.events.is_empty());
    assert!(page.at_end);
}

#[test]
fn a_cursor_whose_event_is_gone_is_at_the_end() {
    let mut dir = Dir::new();
    dir.write("trace.jsonl", &numbered(2));
    let cursor = SegmentCursor {
        kind: CursorKind::Active { off: 10, anchor_id: Some("pruned".into()) },
    };
    let page = dir.query(true, &LogFilter::default(), 5, Some(&cursor));
    assert!(page.events.is_empty());
    assert!(page.at_end);
    assert!(page.next_segment_cursor.is_none());
}

#[test]
fn walking_by_segment_cursor_visits_every_event_once() {
    let mut dir = Dir::new();
    let all = numbered(9);
    dir.write("trace.0000000001-20260101-000000.jsonl", &all[0..4]);
    dir.write("trace.0000000002-20260102-000000.jsonl", &all[4..7]);
    dir.write("trace.jsonl", &all[7..9]);
    let mut seen = Vec::new();
    let mut cursor: Option<SegmentCursor> = None;
    for _ in 0..20 {
        let page = dir.query(true, &LogFilter::default(), 2, cursor.as_ref());
        seen.extend(page.events.iter().map(|e| e.id.clone()));
        if page.at_end {
            break;
        }
        cursor = SegmentCursor::from_wire(&page.next_segment_cursor.unwrap());
    }
    let expected: Vec<String> = (0..9).rev().map(|i| format!("evt-{i}")).collect();
    assert_eq!(seen, expected);
}

#[test]
fn an_archive_cursor_gives_the_same_page_after_a_rotation() {
    let mut dir = Dir::new();
    let all = numbered(6);
    dir.write("trace.0000000001-20260101-000000.jsonl", &all[0..4]);
    dir.write("trace.jsonl", &all[4..6]);
    let end: usize = dir.files[0].1.lines[0..3].iter().map(|l| l.text.len()).sum();
    let cursor = SegmentCursor { kind: CursorKind::Archive { seq: 1, off: end as u64 } };
    let before = dir.query(true, &LogFilter::default(), 5, Some(&cursor));
    dir.rename("trace.jsonl", "trace.0000000002-20260101-000000.jsonl");
    dir.write("trace.jsonl", &[stamped("e", "e", "t", "fresh")]);
    let after = dir.query(true, &LogFilter::default(), 5, Some(&cursor));
    assert_eq!(messages(&before), vec!["event-1", "event-0"]);
    assert_eq!(messages(&after), vec!["event-1", "event-0"]);
}

#[test]
fn paging_stops_at_an_archive_without_a_number() {
    let mut dir = Dir::new();
    dir.write("trace.20260101-000000.jsonl", &numbered(3));
    dir.write("trace.jsonl", &[]);
    let page = dir.query(true, &LogFilter::default(), 2, None);
    assert_eq!(messages(&page), vec!["event-2", "event-1"]);
    assert!(page.next_segment_cursor.is_none());
    assert!(page.next_cursor_line_offset.is_none());
    assert!(page.next_cursor.is_some());
    assert!(page.at_end);
}

#[test]
fn cursors_of_a_page_name_its_oldest_event() {
    let mut dir = Dir::new();
    let all = numbered(4);
    dir.write("trace.0000000007-20260101-000000.jsonl", &all[0..2]);
    dir.write("trace.jsonl", &all[2..4]);
    let archive_end: usize = dir.files[0].1.lines.iter().map(|l| l.text.len()).sum();
    let active_end = dir.files[1].1.lines[0].text.len();

    let page = dir.query(true, &LogFilter::default(), 2, None);
    assert_eq!(page.next_segment_cursor, Some(format!("active:{active_end}:evt-2")));
    assert_eq!(page.next_cursor_line_offset, Some(active_end as u64));

    let page = dir.query(true, &LogFilter::default(), 3, None);
    assert_eq!(page.next_segment_cursor, Some(format!("7:{archive_end}")));
    assert_eq!(page.next_cursor_line_offset, None);
    assert_eq!(
        page.next_cursor,
        Some(("2026-05-15T19:00:01.000Z".to_string(), "evt-1".to_string()))
    );
}

#[test]
fn a_rotation_between_listing_and_scan_is_read_on_the_second_look() {
    // Listed before the rotation, opened after it.
    let mut dir = Dir::new();
    dir.write("trace.jsonl", &numbered(2));
    let listed_early = dir.listing();
    dir.rename("trace.jsonl", "trace.0000000001-20260101-000000.jsonl");
    dir.write("trace.jsonl", &[stamped("e", "e", "t", "fresh")]);
    let first = LogDir { listing: listed_early, ..dir.snapshot() };
    let second = dir.snapshot();
    let name = Some(ACTIVE.to_string());

    let page =
        query::query_log_page(&name, true, &first, &second, &LogFilter::default(), 10, None)
            .unwrap();
    assert_eq!(messages(&page), vec!["fresh", "event-1", "event-0"]);

    // A page that does not claim to be complete is answered as it is.
    let mut busy = Dir::new();
    busy.write("trace.jsonl", &numbered(3));
    let first = busy.snapshot();
    let page =
        query::query_log_page(&name, true, &first, &second, &LogFilter::default(), 1, None)
            .unwrap();
    assert_eq!(messages(&page), vec!["event-2"]);
    assert!(!page.at_end);

    // Without archives in scope there is no second look.
    let page =
        query::query_log_page(&name, false, &first, &second, &LogFilter::default(), 10, None)
            .unwrap();
    assert_eq!(messages(&page), vec!["event-2", "event-1", "event-0"]);
}

#[test]
fn a_second_listing_that_fails_fails_the_query() {
    let mut dir = Dir::new();
    dir.write("trace.jsonl", &numbered(1));
    let first = dir.snapshot();
    let second = LogDir { listing: DirListing::Failed, ..dir.snapshot() };
    let name = Some(ACTIVE.to_string());
    assert_eq!(
        query::query_log_page(&name, true, &first, &second, &LogFilter::default(), 10, None)
            .unwrap_err(),
        LogError::ListFailed
    );
    assert_eq!(
        query::find_event_across_segments(&name, true, &second, "evt-0").unwrap_err(),
        LogError::ListFailed
    );
    assert!(query::find_event_across_segments(&name, false, &second, "evt-0").unwrap().is_some());
}

#[test]
fn a_path_without_a_file_name_has_no_archives_to_enumerate() {
    let dir = Dir::new().snapshot();
    assert_eq!(
        query::query_log_page(&None, true, &dir, &dir, &LogFilter::default(), 10, None)
            .unwrap_err(),
        LogError::NoFileName
    );
    let page =
        query::query_log_page(&None, false, &dir, &dir, &LogFilter::default(), 10, None).unwrap();
    assert!(page.events.is_empty());
    assert!(page.at_end);
}

#[test]
fn a_missing_directory_is_an_empty_stream() {
    let dir = LogDir { listing: DirListing::NotFound, active_exists: false, files: Vec::new() };
    let name = Some(ACTIVE.to_string());
    let page =
        query::query_log_page(&name, true, &dir, &dir, &LogFilter::default(), 10, None).unwrap();
    assert!(page.events.is_empty());
    assert!(page.at_end);
}

#[test]
fn an_unreadable_segment_does_not_hide_the_others() {
    let mut dir = Dir::new();
    let all = numbered(5);
    dir.write("trace.0000000001-20260101-000000.jsonl", &all[0..2]);
    dir.write("trace.0000000002-20260101-000000.jsonl", &all[2..4]);
    dir.write("trace.jsonl", &all[4..5]);

    // One that was pruned after it was listed.
    let mut snapshot = dir.snapshot();
    snapshot.files.remove(1);
    let name = Some(ACTIVE.to_string());
    let page =
        query::query_log_page(&name, true, &snapshot, &snapshot, &LogFilter::default(), 10, None)
            .unwrap();
    assert_eq!(messages(&page), vec!["event-4", "event-1", "event-0"]);

    // One whose read fails after its first line.
    let mut snapshot = dir.snapshot();
    snapshot.files[1].content.lines.truncate(1);
    snapshot.files[1].content.complete = false;
    let page =
        query::query_log_page(&name, true, &snapshot, &snapshot, &LogFilter::default(), 10, None)
            .unwrap();
    assert_eq!(messages(&page), vec!["event-4", "event-2", "event-1", "event-0"]);
    let found = query::find_event_across_segments(&name, true, &snapshot, "evt-1").unwrap();
    assert_eq!(found.unwrap().message.as_deref(), Some("event-1"));
}

#[test]
fn every_event_on_a_page_can_be_looked_up() {
    let mut dir = Dir::new();
    let all = numbered(5);
    dir.write("trace.0000000001-20260101-000000.jsonl", &all[0..3]);
    dir.write("trace.jsonl", &all[3..5]);
    let page = dir.query(true, &LogFilter::default(), 10, None);
    assert_eq!(page.events.len(), 5);
    for event in &page.events {
        assert_eq!(dir.find(true, &event.id).unwrap().id, event.id);
    }
}

#[test]
fn a_query_of_the_active_file_agrees_with_its_page() {
    let mut dir = Dir::new();
    dir.write("trace.0000000001-20260101-000000.jsonl", &numbered(2));
    dir.write("trace.jsonl", &numbered(5));
    let alone = LogFile::Open(dir.files[1].1.clone());
    let offset = load_page(&alone, &LogFilter::default(), 1).next_cursor_line_offset;
    for filter in [
        LogFilter::default(),
        LogFilter { until_line_offset: offset, ..Default::default() },
    ] {
        let page = load_page(&alone, &filter, 2);
        let answer = dir.query(false, &filter, 2, None);
        assert_eq!(messages(&answer), messages(&page));
        assert_eq!(answer.next_cursor, page.next_cursor);
        assert_eq!(answer.next_cursor_line_offset, page.next_cursor_line_offset);
    }
    for limit in [2, 5, 9] {
        let page = load_page(&alone, &LogFilter::default(), limit);
        assert_eq!(dir.query(false, &LogFilter::default(), limit, None).at_end, page.at_end);
    }
    dir.remove("trace.jsonl");
    let absent = dir.query(false, &LogFilter::default(), 2, None);
    assert!(absent.events.is_empty());
    assert!(absent.at_end);
}

#[test]
fn errors_say_what_failed() {
    assert_eq!(LogError::NoFileName.message(), "log path has no file name");
    assert_eq!(LogError::ListFailed.message(), "reading log dir");
    assert_eq!(LogError::OpenFailed.message(), "opening log");
    assert_eq!(LogError::ReadFailed.message(), "reading log line");
}

#[test]
fn the_log_path_is_the_one_the_writer_uses() {
    assert_eq!(
        log_file::current_log_path(&Some("/var/log/trace.jsonl".to_string())),
        Some("/var/log/trace.jsonl".to_string())
    );
    assert_eq!(log_file::current_log_path(&None), None);
}
