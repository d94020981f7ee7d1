//! Pages of events.

use vstd::prelude::*;

use crate::cursor;
use crate::cursor::CursorView;
use crate::event;
use crate::event::{EventView, LogEvent};
use crate::segment::SegmentRef;
use crate::text;

verus! {

/// The most events a page holds.
pub const MAX_PAGE: usize = 10_000;

/// One page of events.
#[derive(Debug, Clone)]
pub struct LogPage {
    /// Newest first.
    pub events: Vec<LogEvent>,
    /// Timestamp and id of the oldest event on this page. Deprecated: it
    /// breaks ties by id and can drop events; page by offset instead.
    pub next_cursor: Option<(String, String)>,
    /// Byte offset past the oldest event on this page. Pass it back as
    /// `until_line_offset` to walk older pages. `None` when the page is empty,
    /// and when the oldest event lies in an archive.
    pub next_cursor_line_offset: Option<u64>,
    /// Segment-aware cursor for the oldest event on this page. `None` when the
    /// page is empty, and when that event lies in an archive without a number.
    pub next_segment_cursor: Option<String>,
    /// True when there is nothing older to page back to.
    pub at_end: bool,
}

/// A page as a mathematical value.
pub struct PageView {
    pub events: Seq<EventView>,
    pub next_cursor: Option<(Seq<char>, Seq<char>)>,
    pub next_cursor_line_offset: Option<u64>,
    pub next_segment_cursor: Option<Seq<char>>,
    pub at_end: bool,
}

impl View for LogPage {
    type V = PageView;

    open spec fn view(&self) -> PageView {
        PageView {
            events: event::event_views(self.events@),
            next_cursor: match self.next_cursor {
                Some((ts, id)) => Some((ts@, id@)),
                None => None,
            },
            next_cursor_line_offset: self.next_cursor_line_offset,
            next_segment_cursor: text::text_view(self.next_segment_cursor),
            at_end: self.at_end,
        }
    }
}

/// A matching event, where it came from, and the byte offset just past it.
#[derive(Debug)]
pub struct Hit {
    pub event: LogEvent,
    pub source: SegmentRef,
    pub end: u64,
}

/// A hit as a mathematical value.
pub struct HitView {
    pub event: EventView,
    pub source: SegmentRef,
    pub end: u64,
}

impl View for Hit {
    type V = HitView;

    open spec fn view(&self) -> HitView {
        HitView { event: self.event@, source: self.source, end: self.end }
    }
}

/// The views of a run of hits.
pub open spec fn hit_views(hits: Seq<Hit>) -> Seq<HitView> {
    Seq::new(hits.len(), |i: int| hits[i]@)
}

/// A requested page size brought into the range that is served.
pub open spec fn clamped(limit: usize) -> usize {
    if limit < 1 {
        1
    } else if limit > MAX_PAGE {
        MAX_PAGE
    } else {
        limit
    }
}

/// The last `n` of `s`, or all of it when it is shorter.
pub open spec fn last_n(s: Seq<HitView>, n: int) -> Seq<HitView> {
    if s.len() <= n {
        s
    } else {
        s.skip(s.len() - n)
    }
}

/// The events of `hits`, newest first.
pub open spec fn newest_first(hits: Seq<HitView>) -> Seq<EventView> {
    Seq::new(hits.len(), |i: int| hits[hits.len() - 1 - i].event)
}

/// Timestamp and id of the oldest of `kept`.
pub open spec fn oldest_stamp(kept: Seq<HitView>) -> Option<(Seq<char>, Seq<char>)> {
    if kept.len() > 0 {
        Some((kept[0].event.timestamp, kept[0].event.id))
    } else {
        None
    }
}

/// The page that a query which finds nothing answers with.
pub open spec fn empty_page() -> PageView {
    PageView {
        events: Seq::empty(),
        next_cursor: None,
        next_cursor_line_offset: None,
        next_segment_cursor: None,
        at_end: true,
    }
}

/// The page of a single file with the matches `hits`, oldest first. `stopped`
/// says that the scan ended at a byte offset before the end of the file.
pub open spec fn file_page(hits: Seq<HitView>, limit: int, stopped: bool) -> PageView {
    let kept = last_n(hits, limit);
    PageView {
        events: newest_first(kept),
        next_cursor: oldest_stamp(kept),
        next_cursor_line_offset: if kept.len() > 0 {
            Some(kept[0].end)
        } else {
            None
        },
        next_segment_cursor: None,
        at_end: kept.len() == 0 || (hits.len() <= limit && !stopped),
    }
}

/// The cursor that resumes just before `hit`. An archive without a number
/// cannot be addressed.
pub open spec fn cursor_before(hit: HitView) -> Option<CursorView> {
    match hit.source {
        SegmentRef::Active => Some(
            CursorView::Active { off: hit.end, anchor: Some(hit.event.id) },
        ),
        SegmentRef::Archive(Some(seq)) => Some(CursorView::Archive { seq, off: hit.end }),
        SegmentRef::Archive(None) => None,
    }
}

/// The wire token of the cursor that resumes just before `hit`.
pub open spec fn token_before(hit: HitView) -> Option<Seq<char>> {
    match cursor_before(hit) {
        Some(c) => Some(cursor::wire_of_cursor(c)),
        None => None,
    }
}

/// The page of a stream of segments with the matches `hits`, oldest first.
///
/// There is nothing older to page back to when every match is on the page, or
/// when no cursor can address the oldest event on it.
pub open spec fn stream_page(hits: Seq<HitView>, limit: int) -> PageView {
    let kept = last_n(hits, limit);
    PageView {
        events: newest_first(kept),
        next_cursor: oldest_stamp(kept),
        next_cursor_line_offset: if kept.len() > 0 && kept[0].source == SegmentRef::Active {
            Some(kept[0].end)
        } else {
            None
        },
        next_segment_cursor: if kept.len() > 0 {
            token_before(kept[0])
        } else {
            None
        },
        at_end: hits.len() <= limit || (kept.len() > 0 && cursor_before(kept[0]) is None),
    }
}

/// Bring a requested page size into the range that is served.
pub fn clamp_limit(limit: usize) -> (clamped_limit: usize)
    ensures
        clamped_limit == clamped(limit),
        1 <= clamped_limit <= MAX_PAGE,
{
    if limit < 1 {
        1
    } else if limit > MAX_PAGE {
        MAX_PAGE
    } else {
        limit
    }
}

impl LogPage {
    /// An empty page that is at its end.
    pub fn empty() -> (page: Self)
        ensures
            page@ == empty_page(),
    {
        let page = LogPage {
            events: Vec::new(),
            next_cursor: None,
            next_cursor_line_offset: None,
            next_segment_cursor: None,
            at_end: true,
        };
        assert(page@.events =~= Seq::<EventView>::empty());
        page
    }
}

// ---------------------------------------------------------------------------
// Laws
// ---------------------------------------------------------------------------

/// The view of a page leaves nothing of it out.
pub proof fn law_page_view_is_faithful(p: LogPage)
    ensures
        p@.events == event::event_views(p.events@),
        p@.next_cursor is Some <==> p.next_cursor is Some,
        p.next_cursor matches Some(stamp) ==> p@.next_cursor == Some((stamp.0@, stamp.1@)),
        p@.next_cursor_line_offset == p.next_cursor_line_offset,
        p@.next_segment_cursor == text::text_view(p.next_segment_cursor),
        p@.at_end == p.at_end,
{
}

/// A page size from one to ten thousand is served as it is; a smaller one counts
/// as one, a greater one as ten thousand.
pub proof fn law_limit_is_brought_into_range(limit: usize)
    ensures
        1 <= limit <= 10_000 ==> clamped(limit) == limit,
        limit == 0 ==> clamped(limit) == 1,
        limit > 10_000 ==> clamped(limit) == 10_000,
{
}

/// The empty page holds no event, offers no cursor and is at its end.
pub proof fn law_empty_page()
    ensures
        empty_page().events.len() == 0,
        empty_page().next_cursor is None,
        empty_page().next_cursor_line_offset is None,
        empty_page().next_segment_cursor is None,
        empty_page().at_end,
{
}

/// A page of a file holds the last of the matches, in reverse: as many as the
/// limit allows. Its cursors are those of the oldest event on it. It is at its
/// end when it is empty, or holds every match and the scan was not cut off.
pub proof fn law_file_page(hits: Seq<HitView>, limit: int, stopped: bool, k: int)
    requires
        limit >= 0,
    ensures
        ({
            let p = file_page(hits, limit, stopped);
            let n = if hits.len() <= limit {
                hits.len() as int
            } else {
                limit
            };
            &&& p.events.len() == n
            &&& 0 <= k < n ==> p.events[k] == hits[hits.len() - 1 - k].event
            &&& n == 0 ==> p.next_cursor is None && p.next_cursor_line_offset is None
            &&& n > 0 ==> p.next_cursor == Some((p.events[n - 1].timestamp, p.events[n - 1].id))
            &&& n > 0 ==> p.next_cursor_line_offset == Some(hits[hits.len() - n].end)
            &&& p.next_segment_cursor is None
            &&& p.at_end <==> n == 0 || (n == hits.len() && !stopped)
        }),
{
    let kept = last_n(hits, limit);
    if hits.len() > limit && limit > 0 {
        assert(kept[0] == hits[hits.len() - limit]);
        if 0 <= k < limit {
            assert(kept[limit - 1 - k] == hits[hits.len() - 1 - k]);
        }
    }
}

/// A page of a stream holds the last of the matches, in reverse: as many as the
/// limit allows. Its cursors are those of the oldest event on it: the offset
/// where that event lies in the active file, the token of an active cursor with
/// that event as its anchor there, and that of an archive cursor where it lies in
/// a numbered archive. The page is at its end when it holds every match, or when
/// its oldest event lies in an archive without a number.
pub proof fn law_stream_page(hits: Seq<HitView>, limit: int, k: int)
    requires
        limit >= 0,
    ensures
        ({
            let p = stream_page(hits, limit);
            let n = if hits.len() <= limit {
                hits.len() as int
            } else {
                limit
            };
            let oldest = hits[hits.len() - n];
            &&& p.events.len() == n
            &&& 0 <= k < n ==> p.events[k] == hits[hits.len() - 1 - k].event
            &&& n == 0 ==> p.next_cursor is None && p.next_cursor_line_offset is None
                && p.next_segment_cursor is None
            &&& n > 0 ==> p.next_cursor == Some((p.events[n - 1].timestamp, p.events[n - 1].id))
            &&& n > 0 ==> match oldest.source {
                SegmentRef::Active => {
                    &&& p.next_cursor_line_offset == Some(oldest.end)
                    &&& p.next_segment_cursor == Some(
                        cursor::wire_of_cursor(
                            CursorView::Active { off: oldest.end, anchor: Some(oldest.event.id) },
                        ),
                    )
                },
                SegmentRef::Archive(Some(seq)) => {
                    &&& p.next_cursor_line_offset is None
                    &&& p.next_segment_cursor == Some(
                        cursor::wire_of_cursor(CursorView::Archive { seq, off: oldest.end }),
                    )
                },
                SegmentRef::Archive(None) => {
                    &&& p.next_cursor_line_offset is None
                    &&& p.next_segment_cursor is None
                },
            }
            &&& p.at_end <==> n == hits.len() || (n > 0 && oldest.source == SegmentRef::Archive(
                None,
            ))
        }),
{
    let kept = last_n(hits, limit);
    if hits.len() > limit && limit > 0 {
        assert(kept[0] == hits[hits.len() - limit]);
        if 0 <= k < limit {
            assert(kept[limit - 1 - k] == hits[hits.len() - 1 - k]);
        }
    }
}

/// The views of matches leave nothing of them out.
pub proof fn law_hit_views_are_faithful(hits: Seq<Hit>, i: int)
    ensures
        hit_views(hits).len() == hits.len(),
        0 <= i < hits.len() ==> hit_views(hits)[i] == (HitView {
            event: hits[i].event@,
            source: hits[i].source,
            end: hits[i].end,
        }),
{
}

}
