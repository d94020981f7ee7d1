//! The lines of a segment and their byte offsets.

use vstd::prelude::*;

use crate::event;
use crate::event::{EventView, LogEvent};
use crate::text;

verus! {

/// One line of a segment, with its line break, and what decoding its trimmed
/// text gives; `None` when the line does not hold an event.
#[derive(Debug, Clone)]
pub struct LogLine {
    pub text: String,
    pub event: Option<LogEvent>,
}

/// What reading an open segment gives.
#[derive(Debug, Clone)]
pub struct SegmentContent {
    pub lines: Vec<LogLine>,
    /// False when a read failed after these lines.
    pub complete: bool,
}

/// A line as a mathematical value.
pub struct LineView {
    pub text: Seq<char>,
    pub event: Option<EventView>,
}

/// The content of a segment as a mathematical value.
pub struct ContentView {
    pub lines: Seq<LineView>,
    pub complete: bool,
}

impl View for LogLine {
    type V = LineView;

    open spec fn view(&self) -> LineView {
        LineView { text: self.text@, event: event::event_view(self.event) }
    }
}

impl View for SegmentContent {
    type V = ContentView;

    open spec fn view(&self) -> ContentView {
        ContentView { lines: line_views(self.lines@), complete: self.complete }
    }
}

/// The views of a run of lines.
pub open spec fn line_views(lines: Seq<LogLine>) -> Seq<LineView> {
    Seq::new(lines.len(), |i: int| lines[i]@)
}

/// The view of the content of a segment that may not have been openable.
pub open spec fn content_view(content: Option<&SegmentContent>) -> Option<ContentView> {
    match content {
        Some(c) => Some(c@),
        None => None,
    }
}

/// The number of bytes in the first `n` lines.
pub open spec fn offset_after(lines: Seq<LineView>, n: int) -> nat
    decreases n,
{
    if n <= 0 {
        0
    } else {
        offset_after(lines, n - 1) + text::byte_len(lines[n - 1].text)
    }
}

/// The byte offset just past line `i`.
pub open spec fn line_end(lines: Seq<LineView>, i: int) -> nat {
    offset_after(lines, i + 1)
}

/// A byte offset as it is counted: it stays at the greatest 64-bit value once
/// it has reached that.
pub open spec fn counted(offset: nat) -> u64 {
    if offset <= u64::MAX {
        offset as u64
    } else {
        u64::MAX
    }
}

/// Every byte offset in the segment fits in 64 bits.
pub open spec fn offsets_fit(lines: Seq<LineView>) -> bool {
    offset_after(lines, lines.len() as int) <= u64::MAX
}

/// The line holds nothing but white space.
pub open spec fn is_blank(line: LineView) -> bool {
    text::trim(line.text).len() == 0
}

/// The event that a line holds. A blank line holds none.
pub open spec fn event_of(line: LineView) -> Option<EventView> {
    if is_blank(line) {
        None
    } else {
        line.event
    }
}

/// The line holds an event with this id.
pub open spec fn carries(line: LineView, id: Seq<char>) -> bool {
    event_of(line) matches Some(e) && e.id == id
}

/// Offsets never decrease.
pub proof fn lemma_offset_monotone(lines: Seq<LineView>, a: int, b: int)
    requires
        a <= b,
    ensures
        offset_after(lines, a) <= offset_after(lines, b),
    decreases b - a,
{
    if a < b {
        lemma_offset_monotone(lines, a, b - 1);
    }
}

/// Offsets within a segment are at most its size.
pub proof fn lemma_offset_bound(lines: Seq<LineView>, n: int)
    requires
        n <= lines.len(),
    ensures
        offset_after(lines, n) <= offset_after(lines, lines.len() as int),
{
    lemma_offset_monotone(lines, n, lines.len() as int);
}

/// A line that holds an event is at least one byte long.
pub proof fn lemma_event_line_has_bytes(line: LineView)
    requires
        event_of(line) is Some,
    ensures
        text::byte_len(line.text) > 0,
{
    if line.text.len() == 0 {
        assert(text::trim(line.text) =~= line.text);
    } else {
        vstd::utf8::encode_utf8_first_scalar(line.text);
        vstd::utf8::encode_utf8_decode_utf8(line.text);
        if vstd::utf8::encode_utf8(line.text).len() == 0 {
            assert(vstd::utf8::decode_utf8(vstd::utf8::encode_utf8(line.text)).len() == 0);
        }
    }
}

/// Lines that hold events end at increasing offsets.
pub proof fn lemma_event_ends_increase(lines: Seq<LineView>, i: int, j: int)
    requires
        0 <= i < j < lines.len(),
        event_of(lines[j]) is Some,
    ensures
        line_end(lines, i) < line_end(lines, j),
{
    lemma_offset_monotone(lines, i + 1, j);
    lemma_event_line_has_bytes(lines[j]);
}

// ---------------------------------------------------------------------------
// Laws
// ---------------------------------------------------------------------------

/// The view of a segment's content has each of its lines, with its text and the
/// event that was decoded from it.
pub proof fn law_content_view_is_faithful(content: SegmentContent, i: int)
    ensures
        content@.complete == content.complete,
        content@.lines.len() == content.lines@.len(),
        0 <= i < content.lines@.len() ==> content@.lines[i].text == content.lines@[i].text@,
        0 <= i < content.lines@.len() ==> content@.lines[i].event == event::event_view(
            content.lines@[i].event,
        ),
        content_view(Some(&content)) == Some(content@),
        content_view(None) is None,
{
}

/// Byte offsets count the bytes of whole lines: a segment starts at zero, and a
/// line ends as many bytes after its start as its text has in UTF-8.
pub proof fn law_offsets_count_bytes(lines: Seq<LineView>, i: int)
    ensures
        offset_after(lines, 0) == 0,
        0 <= i < lines.len() ==> line_end(lines, i) == offset_after(lines, i)
            + vstd::utf8::encode_utf8(lines[i].text).len(),
        0 < i <= lines.len() ==> offset_after(lines, i) == line_end(lines, i - 1),
        offsets_fit(lines) <==> offset_after(lines, lines.len() as int) <= u64::MAX,
{
}

/// An offset that fits in 64 bits is counted exactly; a greater one counts as
/// the greatest that does.
pub proof fn law_counted(offset: nat)
    ensures
        offset <= u64::MAX ==> counted(offset) == offset,
        offset >= u64::MAX ==> counted(offset) == u64::MAX,
{
}

/// A line holds the event that was decoded from it, unless it is nothing but
/// white space; then it holds none.
pub proof fn law_line_holds_its_event(line: LineView, id: Seq<char>)
    ensures
        (exists|k: int| 0 <= k < line.text.len() && !text::is_white_space(#[trigger] line.text[k]))
            ==> event_of(line) == line.event && !is_blank(line),
        (forall|k: int| 0 <= k < line.text.len() ==> text::is_white_space(#[trigger] line.text[k]))
            ==> event_of(line) is None && is_blank(line),
        carries(line, id) <==> exists|e: EventView| event_of(line) == Some(e) && #[trigger] e.id
            == id,
{
    text::law_trim_of_white_space_is_empty(line.text);
    if carries(line, id) {
        assert((event_of(line)->0).id == id);
    }
}

}
