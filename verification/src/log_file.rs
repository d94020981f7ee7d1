//! Reading a single log file.

use vstd::prelude::*;

use crate::error::LogError;
use crate::event;
use crate::event::{EventView, LogEvent};
use crate::filter;
use crate::filter::{FilterView, LogFilter};
use crate::lines;
use crate::lines::{ContentView, LineView, SegmentContent};
use crate::page;
use crate::page::{LogPage, PageView};
use crate::scan;
use crate::scan::{LineStep, PageScan};
use crate::segment::SegmentRef;
use crate::text;

verus! {

/// A log file as it was found.
#[derive(Debug, Clone)]
pub enum LogFile {
    /// There is no such file.
    Missing,
    /// The file exists and cannot be opened.
    Unopenable,
    /// The file was opened, and this is what reading it gave.
    Open(SegmentContent),
}

/// A log file as a mathematical value.
pub enum FileView {
    Missing,
    Unopenable,
    Open(ContentView),
}

impl View for LogFile {
    type V = FileView;

    open spec fn view(&self) -> FileView {
        match self {
            LogFile::Missing => FileView::Missing,
            LogFile::Unopenable => FileView::Unopenable,
            LogFile::Open(content) => FileView::Open(content@),
        }
    }
}

/// The outcome of a page query as a mathematical value.
pub open spec fn page_result(result: Result<LogPage, LogError>) -> Result<PageView, LogError> {
    match result {
        Ok(p) => Ok(p@),
        Err(e) => Err(e),
    }
}

/// The outcome of a lookup as a mathematical value.
pub open spec fn lookup_result(result: Result<Option<LogEvent>, LogError>) -> Result<
    Option<EventView>,
    LogError,
> {
    match result {
        Ok(found) => Ok(event::event_view(found)),
        Err(e) => Err(e),
    }
}

/// The page of a file whose lines were read as far as they are needed.
pub open spec fn page_of_file(segment: Seq<LineView>, f: FilterView, limit: usize) -> PageView {
    page::file_page(
        scan::hits_in(segment, f, SegmentRef::Active, f.until_line_offset),
        page::clamped(limit) as int,
        scan::reaches_cap(segment, f.until_line_offset),
    )
}

/// The page of a log file. A missing file has an empty page. A read that fails
/// fails the page, unless the scan stopped at its byte offset before that.
pub open spec fn loaded_page(file: FileView, f: FilterView, limit: usize) -> Result<
    PageView,
    LogError,
> {
    match file {
        FileView::Missing => Ok(page::empty_page()),
        FileView::Unopenable => Err(LogError::OpenFailed),
        FileView::Open(content) => {
            let stopped = scan::reaches_cap(content.lines, f.until_line_offset);
            if !content.complete && !stopped {
                Err(LogError::ReadFailed)
            } else {
                Ok(page_of_file(content.lines, f, limit))
            }
        },
    }
}

/// The last event with this id among the first `n` lines.
pub open spec fn last_with_id(segment: Seq<LineView>, id: Seq<char>, n: int) -> Option<EventView>
    decreases n,
{
    if n <= 0 {
        None
    } else if lines::carries(segment[n - 1], id) {
        lines::event_of(segment[n - 1])
    } else {
        last_with_id(segment, id, n - 1)
    }
}

/// What looking an id up in a log file gives: the last event with that id.
pub open spec fn found_by_id(file: FileView, id: Seq<char>) -> Result<
    Option<EventView>,
    LogError,
> {
    match file {
        FileView::Missing => Ok(None),
        FileView::Unopenable => Err(LogError::OpenFailed),
        FileView::Open(content) => if content.complete {
            Ok(last_with_id(content.lines, id, content.lines.len() as int))
        } else {
            Err(LogError::ReadFailed)
        },
    }
}

/// A lookup in progress: the last event with the id so far.
pub struct IdLookup<'a> {
    pub id: &'a str,
    pub found: Option<LogEvent>,
}

impl<'a> IdLookup<'a> {
    /// Begin to look `id` up.
    pub fn new(id: &'a str) -> (lookup: Self)
        ensures
            lookup.id@ == id@,
            lookup.found is None,
    {
        IdLookup { id, found: None }
    }

    /// Say whether to decode a line.
    pub fn offer_line<'b>(&self, line: &'b str) -> (step: LineStep<'b>)
        ensures
            if text::trim(line@).len() == 0 {
                step is Skip
            } else {
                step matches LineStep::Decode(t) && t@ == text::trim(line@)
            },
    {
        let trimmed: &'b str = text::trim_text(line);
        if trimmed.is_empty() {
            LineStep::Skip
        } else {
            LineStep::Decode(trimmed)
        }
    }

    /// Take in what decoding a line gave. A later event with the id replaces
    /// an earlier one.
    pub fn offer_event(&mut self, decoded: Option<LogEvent>)
        ensures
            final(self).id@ == old(self).id@,
            event::event_view(final(self).found) == (match decoded {
                Some(e) if e.id@ == old(self).id@ => Some(e@),
                _ => event::event_view(old(self).found),
            }),
    {
        if let Some(e) = decoded {
            if text::text_eq(e.id.as_str(), self.id) {
                self.found = Some(e);
            }
        }
    }
}

/// Load a page of a log file.
pub fn load_page(file: &LogFile, filter: &LogFilter, limit: usize) -> (result: Result<
    LogPage,
    LogError,
>)
    ensures
        page_result(result) == loaded_page(file@, filter@, limit),
{
    let content: &SegmentContent = match file {
        LogFile::Missing => {
            return Ok(LogPage::empty());
        },
        LogFile::Unopenable => {
            return Err(LogError::OpenFailed);
        },
        LogFile::Open(content) => content,
    };
    let mut page_scan: PageScan = PageScan::new(filter, page::clamp_limit(limit));
    page_scan.begin_segment(SegmentRef::Active, filter.until_line_offset);
    scan::scan_lines(&mut page_scan, content);
    if !content.complete && !page_scan.stopped() {
        return Err(LogError::ReadFailed);
    }
    assert(page_scan@.hits =~= scan::hits_in(
        content@.lines,
        filter@,
        SegmentRef::Active,
        filter@.until_line_offset,
    ));
    Ok(page_scan.finish_file())
}

/// Find an event by its id in a log file. The last event with that id counts.
pub fn find_event_by_id(file: &LogFile, id: &str) -> (result: Result<Option<LogEvent>, LogError>)
    ensures
        lookup_result(result) == found_by_id(file@, id@),
{
    let content: &SegmentContent = match file {
        LogFile::Missing => {
            return Ok(None);
        },
        LogFile::Unopenable => {
            return Err(LogError::OpenFailed);
        },
        LogFile::Open(content) => content,
    };
    let ghost segment = content@.lines;
    let mut lookup: IdLookup = IdLookup::new(id);
    let mut i: usize = 0;
    while i < content.lines.len()
        invariant
            i <= segment.len(),
            segment == content@.lines,
            segment.len() == content.lines@.len(),
            lookup.id@ == id@,
            event::event_view(lookup.found) == last_with_id(segment, id@, i as int),
        decreases content.lines@.len() - i,
    {
        let line = &content.lines[i];
        assert(segment[i as int] == line@);
        if let LineStep::Decode(_) = lookup.offer_line(line.text.as_str()) {
            lookup.offer_event(event::copy_event(&line.event));
        }
        i += 1;
    }
    if content.complete {
        Ok(lookup.found)
    } else {
        Err(LogError::ReadFailed)
    }
}

/// The path of the current log: the one that the writer is configured to use.
pub fn current_log_path(runtime_trace_path: &Option<String>) -> (path: Option<String>)
    ensures
        text::text_view(path) == text::text_view(*runtime_trace_path),
{
    text::copy_text(runtime_trace_path)
}

// ---------------------------------------------------------------------------
// Laws
// ---------------------------------------------------------------------------

/// Of several events with one id the last in the file is found, and one is
/// found exactly when the file holds one.
pub proof fn law_last_write_wins(segment: Seq<LineView>, id: Seq<char>)
    ensures
        match last_with_id(segment, id, segment.len() as int) {
            Some(e) => exists|l: int|
                {
                    &&& 0 <= l < segment.len()
                    &&& lines::carries(#[trigger] segment[l], id)
                    &&& lines::event_of(segment[l]) == Some(e)
                    &&& forall|m: int|
                        l < m < segment.len() ==> !lines::carries(#[trigger] segment[m], id)
                },
            None => forall|m: int|
                0 <= m < segment.len() ==> !lines::carries(#[trigger] segment[m], id),
        },
{
    lemma_last_with_id(segment, id, segment.len() as int);
}

proof fn lemma_last_with_id(segment: Seq<LineView>, id: Seq<char>, n: int)
    requires
        0 <= n <= segment.len(),
    ensures
        match last_with_id(segment, id, n) {
            Some(e) => exists|l: int|
                {
                    &&& 0 <= l < n
                    &&& lines::carries(#[trigger] segment[l], id)
                    &&& lines::event_of(segment[l]) == Some(e)
                    &&& forall|m: int|
                        l < m < n ==> !lines::carries(#[trigger] segment[m], id)
                },
            None => forall|m: int| 0 <= m < n ==> !lines::carries(#[trigger] segment[m], id),
        },
    decreases n,
{
    if n > 0 {
        if lines::carries(segment[n - 1], id) {
            assert(lines::event_of(segment[n - 1]) == last_with_id(segment, id, n));
        } else {
            lemma_last_with_id(segment, id, n - 1);
        }
    }
}

/// A file that is not there has an empty page that is at its end, and no
/// event in it is found.
pub proof fn law_missing_file_is_empty(f: FilterView, limit: usize, id: Seq<char>)
    ensures
        loaded_page(FileView::Missing, f, limit) == Ok::<PageView, LogError>(page::empty_page()),
        found_by_id(FileView::Missing, id) == Ok::<Option<EventView>, LogError>(None),
{
}

/// The views of a file and of the outcomes of reading it leave nothing out.
pub proof fn law_outcome_views_are_faithful(
    content: SegmentContent,
    p: LogPage,
    found: Option<LogEvent>,
    e: LogError,
)
    ensures
        LogFile::Missing@ == FileView::Missing,
        LogFile::Unopenable@ == FileView::Unopenable,
        LogFile::Open(content)@ == FileView::Open(content@),
        page_result(Ok(p)) == Ok::<PageView, LogError>(p@),
        page_result(Err(e)) == Err::<PageView, LogError>(e),
        lookup_result(Ok(found)) == Ok::<Option<EventView>, LogError>(event::event_view(found)),
        lookup_result(Err(e)) == Err::<Option<EventView>, LogError>(e),
{
}

/// A file that cannot be opened fails a page and a lookup. A read that fails
/// fails a lookup, and a page unless the lines before it reach the page's
/// offset. Otherwise there is a page, and a lookup has an outcome.
pub proof fn law_when_reading_a_file_fails(
    content: ContentView,
    f: FilterView,
    limit: usize,
    id: Seq<char>,
)
    ensures
        loaded_page(FileView::Unopenable, f, limit) == Err::<PageView, LogError>(
            LogError::OpenFailed,
        ),
        found_by_id(FileView::Unopenable, id) == Err::<Option<EventView>, LogError>(
            LogError::OpenFailed,
        ),
        found_by_id(FileView::Open(content), id) is Err <==> !content.complete,
        found_by_id(FileView::Open(content), id) matches Err(e) ==> e == LogError::ReadFailed,
        content.complete ==> found_by_id(FileView::Open(content), id) == Ok::<
            Option<EventView>,
            LogError,
        >(last_with_id(content.lines, id, content.lines.len() as int)),
        loaded_page(FileView::Open(content), f, limit) is Err <==> !content.complete && !(
        f.until_line_offset matches Some(c) && content.lines.len() > 0 && c
            <= lines::offset_after(content.lines, content.lines.len() as int)),
        loaded_page(FileView::Open(content), f, limit) matches Err(e) ==> e
            == LogError::ReadFailed,
        loaded_page(FileView::Open(content), f, limit) matches Ok(p) ==> p == page_of_file(
            content.lines,
            f,
            limit,
        ),
{
    scan::law_scan_stops_at_the_cap(content.lines, f.until_line_offset);
}

/// A page of a file, told from its lines. The matching lines are those that end
/// below the page's offset and hold an event that the filter asks for. The page
/// holds the events of the last of them, newest first, as many as the limit
/// allows within the range that is served; its cursors are those of the oldest
/// event on it; and it is at its end when it is empty, or when it holds the event
/// of every matching line and no line reaches the offset.
pub proof fn law_page_of_a_file(segment: Seq<LineView>, f: FilterView, limit: usize) -> (on: Seq<
    int,
>)
    ensures
        forall|a: int, b: int| 0 <= a < b < on.len() ==> #[trigger] on[a] < #[trigger] on[b],
        forall|l: int|
            #![trigger on.contains(l)]
            on.contains(l) <==> 0 <= l < segment.len() && (f.until_line_offset matches Some(c)
                ==> lines::line_end(segment, l) < c) && lines::event_of(segment[l]) is Some
                && filter::selects(f, lines::event_of(segment[l])->0),
        ({
            let p = page_of_file(segment, f, limit);
            let most = if limit < 1 {
                1
            } else if limit > 10_000 {
                10_000
            } else {
                limit as int
            };
            let n = if on.len() <= most {
                on.len() as int
            } else {
                most
            };
            &&& p.events.len() == n
            &&& forall|k: int|
                0 <= k < n ==> Some(#[trigger] p.events[k]) == lines::event_of(
                    segment[on[on.len() - 1 - k]],
                )
            &&& n == 0 ==> p.next_cursor is None && p.next_cursor_line_offset is None
            &&& n > 0 ==> p.next_cursor == Some((p.events[n - 1].timestamp, p.events[n - 1].id))
            &&& n > 0 ==> p.next_cursor_line_offset == Some(
                lines::counted(lines::line_end(segment, on[on.len() - n])),
            )
            &&& p.next_segment_cursor is None
            &&& p.at_end <==> n == 0 || (n == on.len() && !(f.until_line_offset matches Some(c)
                && segment.len() > 0 && c <= lines::offset_after(segment, segment.len() as int)))
        }),
{
    let cap = f.until_line_offset;
    let hits = scan::hits_in(segment, f, SegmentRef::Active, cap);
    let on = scan::law_hits_are_the_matching_lines(segment, f, SegmentRef::Active, cap);
    scan::law_scan_stops_at_the_cap(segment, cap);
    page::law_limit_is_brought_into_range(limit);
    let most = page::clamped(limit) as int;
    let p = page_of_file(segment, f, limit);
    page::law_file_page(hits, most, scan::reaches_cap(segment, cap), 0);
    assert forall|k: int| 0 <= k < p.events.len() implies Some(#[trigger] p.events[k])
        == lines::event_of(segment[on[on.len() - 1 - k]]) by {
        page::law_file_page(hits, most, scan::reaches_cap(segment, cap), k);
        assert(lines::event_of(segment[on[on.len() - 1 - k]]) == Some(
            hits[hits.len() - 1 - k].event,
        ));
    }
    if p.events.len() > 0 {
        let o = on[on.len() - p.events.len()];
        assert(hits[hits.len() - p.events.len()].end == lines::counted(
            lines::line_end(segment, o),
        ));
    }
    on
}

}
