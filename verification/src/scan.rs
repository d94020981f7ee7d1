//! Scanning segments line by line into a sliding window of matches.

use std::collections::VecDeque;

use vstd::prelude::*;

use crate::cursor::{CursorKind, SegmentCursor};
use crate::event;
use crate::event::LogEvent;
use crate::filter;
use crate::filter::{FilterView, LogFilter};
use crate::lines;
use crate::lines::{ContentView, LineView, SegmentContent};
use crate::page;
use crate::page::{Hit, HitView, LogPage};
use crate::segment::SegmentRef;
use crate::text;

verus! {

// ---------------------------------------------------------------------------
// What a scan finds
// ---------------------------------------------------------------------------

/// Line `i` ends below the cap.
pub open spec fn below_cap(segment: Seq<LineView>, cap: Option<u64>, i: int) -> bool {
    cap matches Some(c) ==> lines::line_end(segment, i) < c
}

/// Some line of the segment reaches the cap, so a scan stops there.
pub open spec fn reaches_cap(segment: Seq<LineView>, cap: Option<u64>) -> bool {
    exists|i: int| 0 <= i < segment.len() && !(#[trigger] below_cap(segment, cap, i))
}

/// Line `i` lies below the cap and holds an event that the filter asks for.
pub open spec fn is_match(
    segment: Seq<LineView>,
    f: FilterView,
    cap: Option<u64>,
    i: int,
) -> bool {
    &&& below_cap(segment, cap, i)
    &&& lines::event_of(segment[i]) matches Some(e) && filter::selects(f, e)
}

/// The match on line `i`.
pub open spec fn hit_on(segment: Seq<LineView>, source: SegmentRef, i: int) -> HitView {
    HitView {
        event: lines::event_of(segment[i])->0,
        source,
        end: lines::counted(lines::line_end(segment, i)),
    }
}

/// The matches among the first `n` lines, in file order.
pub open spec fn hits_upto(
    segment: Seq<LineView>,
    f: FilterView,
    source: SegmentRef,
    cap: Option<u64>,
    n: int,
) -> Seq<HitView>
    decreases n,
{
    if n <= 0 {
        Seq::empty()
    } else {
        let before = hits_upto(segment, f, source, cap, n - 1);
        if is_match(segment, f, cap, n - 1) {
            before.push(hit_on(segment, source, n - 1))
        } else {
            before
        }
    }
}

/// The matches in a segment, in file order.
pub open spec fn hits_in(
    segment: Seq<LineView>,
    f: FilterView,
    source: SegmentRef,
    cap: Option<u64>,
) -> Seq<HitView> {
    hits_upto(segment, f, source, cap, segment.len() as int)
}

/// The matches in a segment that may not be openable.
pub open spec fn hits_of(
    content: Option<ContentView>,
    f: FilterView,
    source: SegmentRef,
    cap: Option<u64>,
) -> Seq<HitView> {
    match content {
        Some(c) => hits_in(c.lines, f, source, cap),
        None => Seq::empty(),
    }
}

/// Past the first line that reaches the cap no line lies below it.
pub proof fn lemma_hits_stop_at_cap(
    segment: Seq<LineView>,
    f: FilterView,
    source: SegmentRef,
    cap: Option<u64>,
    i: int,
    n: int,
)
    requires
        0 <= i < n <= segment.len(),
        !below_cap(segment, cap, i),
    ensures
        hits_upto(segment, f, source, cap, n) == hits_upto(segment, f, source, cap, i),
    decreases n - i,
{
    lines::lemma_offset_monotone(segment, i + 1, n);
    assert(!below_cap(segment, cap, n - 1));
    if i < n - 1 {
        lemma_hits_stop_at_cap(segment, f, source, cap, i, n - 1);
    }
}

// ---------------------------------------------------------------------------
// The scan
// ---------------------------------------------------------------------------

/// What to do with a line that was just read.
pub enum LineStep<'a> {
    /// The line belongs to a newer page: read no further in this segment.
    Stop,
    /// The line is blank: read the next one.
    Skip,
    /// Decode this text and hand the outcome back.
    Decode(&'a str),
}

/// A scan in progress: the newest matches so far and the place in the current
/// segment.
pub struct PageScan<'a> {
    filter: &'a LogFilter,
    needle: Option<String>,
    limit: usize,
    window: VecDeque<Hit>,
    dropped_older: bool,
    source: SegmentRef,
    cap: Option<u64>,
    offset: u64,
    stopped: bool,
    hits: Ghost<Seq<HitView>>,
}

/// A scan as a mathematical value. `hits` are all matches since the scan
/// began, in stream order.
pub struct ScanView {
    pub filter: FilterView,
    pub limit: int,
    pub hits: Seq<HitView>,
    pub source: SegmentRef,
    pub cap: Option<u64>,
    pub offset: u64,
    pub stopped: bool,
}

/// The decision on a line that ends at `end`.
pub open spec fn step_for(scan: ScanView, line: Seq<char>, step: LineStep<'_>) -> bool {
    let end = lines::counted(scan.offset as nat + text::byte_len(line));
    if scan.cap matches Some(c) && end >= c {
        step is Stop
    } else if text::trim(line).len() == 0 {
        step is Skip
    } else {
        step matches LineStep::Decode(t) && t@ == text::trim(line)
    }
}

impl<'a> View for PageScan<'a> {
    type V = ScanView;

    closed spec fn view(&self) -> ScanView {
        ScanView {
            filter: self.filter@,
            limit: self.limit as int,
            hits: self.hits@,
            source: self.source,
            cap: self.cap,
            offset: self.offset,
            stopped: self.stopped,
        }
    }
}

impl<'a> PageScan<'a> {
    /// The window holds the newest matches, as many as the page may hold.
    pub closed spec fn wf(&self) -> bool {
        &&& text::text_view(self.needle) == filter::needle_of(self.filter@)
        &&& page::hit_views(self.window@) == page::last_n(self.hits@, self.limit as int)
        &&& self.dropped_older == (self.hits@.len() > self.limit)
    }

    /// Begin a scan for a page of at most `limit` events. The limit is taken as
    /// given.
    pub fn new(filter: &'a LogFilter, limit: usize) -> (scan: Self)
        ensures
            scan.wf(),
            scan@ == (ScanView {
                filter: filter@,
                limit: limit as int,
                hits: Seq::empty(),
                source: SegmentRef::Active,
                cap: None,
                offset: 0,
                stopped: false,
            }),
    {
        let window: VecDeque<Hit> = VecDeque::new();
        assert(page::hit_views(window@) =~= Seq::<HitView>::empty());
        PageScan {
            filter,
            needle: filter.needle(),
            limit,
            window,
            dropped_older: false,
            source: SegmentRef::Active,
            cap: None,
            offset: 0,
            stopped: false,
            hits: Ghost(Seq::empty()),
        }
    }

    /// Turn to the next segment. Lines whose end reaches `cap` are not part of
    /// the page.
    pub fn begin_segment(&mut self, source: SegmentRef, cap: Option<u64>)
        requires
            old(self).wf(),
        ensures
            final(self).wf(),
            final(self)@ == (ScanView { source, cap, offset: 0, stopped: false, ..old(self)@ }),
    {
        self.source = source;
        self.cap = cap;
        self.offset = 0;
        self.stopped = false;
    }

    /// True when a line of the current segment reached the cap.
    pub fn stopped(&self) -> (stopped: bool)
        ensures
            stopped == self@.stopped,
    {
        self.stopped
    }

    /// Take in the next line of the current segment, line break included, and
    /// say what to do with it.
    pub fn offer_line<'b>(&mut self, line: &'b str) -> (step: LineStep<'b>)
        requires
            old(self).wf(),
        ensures
            final(self).wf(),
            step_for(old(self)@, line@, step),
            step is Stop ==> final(self)@ == (ScanView { stopped: true, ..old(self)@ }),
            !(step is Stop) ==> final(self)@ == (ScanView {
                offset: lines::counted(old(self)@.offset as nat + text::byte_len(line@)),
                ..old(self)@
            }),
    {
        let end: u64 = self.offset.saturating_add(text::byte_count(line) as u64);
        if let Some(cap) = self.cap {
            if end >= cap {
                self.stopped = true;
                return LineStep::Stop;
            }
        }
        self.offset = end;
        let trimmed: &'b str = text::trim_text(line);
        if trimmed.is_empty() {
            LineStep::Skip
        } else {
            LineStep::Decode(trimmed)
        }
    }

    /// Take in what decoding the last line gave. An event that the filter asks
    /// for enters the window, and the oldest one leaves it when it is full.
    pub fn offer_event(&mut self, decoded: Option<LogEvent>)
        requires
            old(self).wf(),
        ensures
            final(self).wf(),
            final(self)@ == (ScanView {
                hits: match decoded {
                    Some(e) => if filter::selects(old(self)@.filter, e@) {
                        old(self)@.hits.push(
                            HitView {
                                event: e@,
                                source: old(self)@.source,
                                end: old(self)@.offset,
                            },
                        )
                    } else {
                        old(self)@.hits
                    },
                    None => old(self)@.hits,
                },
                ..old(self)@
            }),
    {
        let event: LogEvent = match decoded {
            Some(e) => e,
            None => {
                return;
            },
        };
        let needle: Option<&str> = match &self.needle {
            Some(n) => Some(n.as_str()),
            None => None,
        };
        if !filter::matches_filter(&event, self.filter, needle) {
            return;
        }
        let ghost before = self.window@;
        let hit = Hit { event, source: self.source, end: self.offset };
        let ghost added = hit@;
        self.window.push_back(hit);
        proof {
            self.hits@ = self.hits@.push(added);
            assert(page::hit_views(self.window@) =~= page::hit_views(before).push(added));
        }
        let ghost pushed = self.window@;
        assert(page::hit_views(before).len() == before.len());
        if self.window.len() > self.limit {
            let _ = self.window.pop_front();
            self.dropped_older = true;
            assert(page::hit_views(self.window@) =~= page::hit_views(pushed).skip(1));
        }
        assert(page::hit_views(self.window@) =~= page::last_n(self.hits@, self.limit as int));
    }

    /// The page of a scan over a single file.
    pub fn finish_file(self) -> (log_page: LogPage)
        requires
            self.wf(),
        ensures
            log_page@ == page::file_page(self@.hits, self@.limit, self@.stopped),
    {
        let ghost kept = page::last_n(self.hits@, self.limit as int);
        let next_cursor: Option<(String, String)> = self.oldest_stamp();
        let next_cursor_line_offset: Option<u64> = if self.window.len() > 0 {
            assert(self.window@[0]@ == kept[0]);
            Some(self.window[0].end)
        } else {
            None
        };
        let at_end: bool = self.window.len() == 0 || (!self.dropped_older && !self.stopped);
        assert(self.window@.len() == kept.len());
        let events: Vec<LogEvent> = into_events(self.window);
        LogPage {
            events,
            next_cursor,
            next_cursor_line_offset,
            next_segment_cursor: None,
            at_end,
        }
    }

    /// The page of a scan over a stream of segments.
    pub fn finish_stream(self) -> (log_page: LogPage)
        requires
            self.wf(),
        ensures
            log_page@ == page::stream_page(self@.hits, self@.limit),
    {
        let ghost kept = page::last_n(self.hits@, self.limit as int);
        assert(self.window@.len() == kept.len());
        let next_cursor: Option<(String, String)> = self.oldest_stamp();
        let mut next_cursor_line_offset: Option<u64> = None;
        let mut next_segment_cursor: Option<String> = None;
        let mut unaddressable: bool = false;
        if self.window.len() > 0 {
            let oldest: &Hit = &self.window[0];
            assert(oldest@ == kept[0]);
            match oldest.source {
                SegmentRef::Active => {
                    next_cursor_line_offset = Some(oldest.end);
                    next_segment_cursor = Some(
                        (SegmentCursor {
                            kind: CursorKind::Active {
                                off: oldest.end,
                                anchor_id: Some(oldest.event.id.clone()),
                            },
                        }).to_wire(),
                    );
                },
                SegmentRef::Archive(Some(seq)) => {
                    next_segment_cursor = Some(
                        (SegmentCursor {
                            kind: CursorKind::Archive { seq, off: oldest.end },
                        }).to_wire(),
                    );
                },
                SegmentRef::Archive(None) => {
                    unaddressable = true;
                },
            }
        }
        let at_end: bool = !self.dropped_older || unaddressable;
        let events: Vec<LogEvent> = into_events(self.window);
        LogPage { events, next_cursor, next_cursor_line_offset, next_segment_cursor, at_end }
    }

    /// Timestamp and id of the oldest event in the window.
    fn oldest_stamp(&self) -> (stamp: Option<(String, String)>)
        requires
            self.wf(),
        ensures
            (match stamp {
                Some((ts, id)) => Some((ts@, id@)),
                None => None,
            }) == page::oldest_stamp(page::last_n(self@.hits, self@.limit)),
    {
        let ghost kept = page::last_n(self.hits@, self.limit as int);
        assert(self.window@.len() == kept.len());
        if self.window.len() > 0 {
            let oldest: &LogEvent = &self.window[0].event;
            assert(self.window@[0]@ == kept[0]);
            Some((oldest.timestamp.clone(), oldest.id.clone()))
        } else {
            None
        }
    }
}

/// The events of a window, newest first.
fn into_events(window: VecDeque<Hit>) -> (events: Vec<LogEvent>)
    ensures
        event::event_views(events@) == page::newest_first(page::hit_views(window@)),
{
    let ghost all = window@;
    let mut rest: VecDeque<Hit> = window;
    let mut events: Vec<LogEvent> = Vec::new();
    while rest.len() > 0
        invariant
            rest@.len() + events@.len() == all.len(),
            rest@ == all.take(rest@.len() as int),
            forall|i: int|
                0 <= i < events@.len() ==> (#[trigger] events@[i])@ == all[all.len() - 1 - i].event@,
        decreases rest@.len(),
    {
        if let Some(hit) = rest.pop_back() {
            events.push(hit.event);
        }
        assert(rest@ =~= all.take(rest@.len() as int));
    }
    assert(event::event_views(events@) =~= page::newest_first(page::hit_views(all)));
    events
}

// ---------------------------------------------------------------------------
// Scanning what was read
// ---------------------------------------------------------------------------

/// Feed the lines of a segment to a scan that has just turned to it.
pub fn scan_lines(scan: &mut PageScan<'_>, content: &SegmentContent)
    requires
        old(scan).wf(),
        old(scan)@.offset == 0,
        !old(scan)@.stopped,
    ensures
        final(scan).wf(),
        final(scan)@.filter == old(scan)@.filter,
        final(scan)@.limit == old(scan)@.limit,
        final(scan)@.hits == old(scan)@.hits + hits_in(
            content@.lines,
            old(scan)@.filter,
            old(scan)@.source,
            old(scan)@.cap,
        ),
        final(scan)@.stopped == reaches_cap(content@.lines, old(scan)@.cap),
{
    let ghost first = scan@;
    let ghost segment = content@.lines;
    let mut i: usize = 0;
    assert(first.hits =~= first.hits + hits_upto(segment, first.filter, first.source, first.cap, 0));
    while i < content.lines.len()
        invariant_except_break
            !scan@.stopped,
            scan@.offset == lines::counted(lines::offset_after(segment, i as int)),
            forall|k: int| 0 <= k < i ==> #[trigger] below_cap(segment, first.cap, k),
        invariant
            i <= segment.len(),
            segment == content@.lines,
            segment.len() == content.lines@.len(),
            scan.wf(),
            scan@.filter == first.filter,
            scan@.limit == first.limit,
            scan@.source == first.source,
            scan@.cap == first.cap,
            scan@.hits == first.hits + hits_upto(
                segment,
                first.filter,
                first.source,
                first.cap,
                i as int,
            ),
        ensures
            scan@.hits == first.hits + hits_in(segment, first.filter, first.source, first.cap),
            scan@.stopped == reaches_cap(segment, first.cap),
        decreases content.lines@.len() - i,
    {
        let line = &content.lines[i];
        proof {
            assert(segment[i as int] == line@);
        }
        let ghost hits_before = scan@.hits;
        match scan.offer_line(line.text.as_str()) {
            LineStep::Stop => {
                proof {
                    assert(!below_cap(segment, first.cap, i as int));
                    lemma_hits_stop_at_cap(
                        segment,
                        first.filter,
                        first.source,
                        first.cap,
                        i as int,
                        segment.len() as int,
                    );
                }
                break;
            },
            LineStep::Skip => {},
            LineStep::Decode(_) => {
                let decoded: Option<LogEvent> = event::copy_event(&line.event);
                assert(event::event_view(decoded) == lines::event_of(segment[i as int]));
                scan.offer_event(decoded);
            },
        }
        proof {
            assert(below_cap(segment, first.cap, i as int));
            assert(scan@.hits =~= first.hits + hits_upto(
                segment,
                first.filter,
                first.source,
                first.cap,
                i + 1,
            ));
        }
        i += 1;
    }
}

// ---------------------------------------------------------------------------
// Laws
// ---------------------------------------------------------------------------

/// The matches of a segment are its matching lines, each once and in file
/// order: a line is among them exactly when it ends below the cap and holds an
/// event that the filter asks for, and its match is that event as it stands
/// there, the segment it was read from and the offset just past it.
pub proof fn law_hits_are_the_matching_lines(
    segment: Seq<LineView>,
    f: FilterView,
    source: SegmentRef,
    cap: Option<u64>,
) -> (on: Seq<int>)
    ensures
        on.len() == hits_in(segment, f, source, cap).len(),
        forall|a: int, b: int| 0 <= a < b < on.len() ==> #[trigger] on[a] < #[trigger] on[b],
        forall|k: int|
            0 <= k < on.len() ==> 0 <= #[trigger] on[k] < segment.len() && lines::event_of(
                segment[on[k]],
            ) == Some(hits_in(segment, f, source, cap)[k].event) && hits_in(
                segment,
                f,
                source,
                cap,
            )[k].source == source && hits_in(segment, f, source, cap)[k].end == lines::counted(
                lines::line_end(segment, on[k]),
            ),
        forall|l: int|
            #![trigger on.contains(l)]
            on.contains(l) <==> 0 <= l < segment.len() && (cap matches Some(c) ==> lines::line_end(
                segment,
                l,
            ) < c) && lines::event_of(segment[l]) is Some && filter::selects(
                f,
                lines::event_of(segment[l])->0,
            ),
{
    lemma_matching_lines(segment, f, source, cap, segment.len() as int)
}

proof fn lemma_matching_lines(
    segment: Seq<LineView>,
    f: FilterView,
    source: SegmentRef,
    cap: Option<u64>,
    n: int,
) -> (on: Seq<int>)
    requires
        0 <= n <= segment.len(),
    ensures
        on.len() == hits_upto(segment, f, source, cap, n).len(),
        forall|a: int, b: int| 0 <= a < b < on.len() ==> #[trigger] on[a] < #[trigger] on[b],
        forall|k: int|
            0 <= k < on.len() ==> 0 <= #[trigger] on[k] < n && lines::event_of(segment[on[k]])
                == Some(hits_upto(segment, f, source, cap, n)[k].event) && hits_upto(
                segment,
                f,
                source,
                cap,
                n,
            )[k].source == source && hits_upto(segment, f, source, cap, n)[k].end == lines::counted(
                lines::line_end(segment, on[k]),
            ),
        forall|l: int|
            #![trigger on.contains(l)]
            on.contains(l) <==> 0 <= l < n && (cap matches Some(c) ==> lines::line_end(segment, l)
                < c) && lines::event_of(segment[l]) is Some && filter::selects(
                f,
                lines::event_of(segment[l])->0,
            ),
    decreases n,
{
    if n == 0 {
        Seq::empty()
    } else {
        let before = lemma_matching_lines(segment, f, source, cap, n - 1);
        if is_match(segment, f, cap, n - 1) {
            let on = before.push(n - 1);
            assert forall|l: int|
                #![trigger on.contains(l)]
                on.contains(l) <==> 0 <= l < n && (cap matches Some(c) ==> lines::line_end(
                    segment,
                    l,
                ) < c) && lines::event_of(segment[l]) is Some && filter::selects(
                    f,
                    lines::event_of(segment[l])->0,
                ) by {
                assert(on[before.len() as int] == n - 1);
                if before.contains(l) {
                    let k = choose|k: int| 0 <= k < before.len() && before[k] == l;
                    assert(on[k] == l);
                }
                if on.contains(l) && l != n - 1 {
                    let k = choose|k: int| 0 <= k < on.len() && on[k] == l;
                    assert(before[k] == l);
                }
            }
            on
        } else {
            assert forall|l: int|
                #![trigger before.contains(l)]
                before.contains(l) <==> 0 <= l < n && (cap matches Some(c) ==> lines::line_end(
                    segment,
                    l,
                ) < c) && lines::event_of(segment[l]) is Some && filter::selects(
                    f,
                    lines::event_of(segment[l])->0,
                ) by {}
            before
        }
    }
}

/// A segment that cannot be opened has no match, and one that can be has those
/// among its lines.
pub proof fn law_hits_of_a_segment(
    content: ContentView,
    f: FilterView,
    source: SegmentRef,
    cap: Option<u64>,
)
    ensures
        hits_of(None, f, source, cap) == Seq::<HitView>::empty(),
        hits_of(Some(content), f, source, cap) == hits_in(content.lines, f, source, cap),
{
}

/// A scan stops at a cap exactly when the segment is not empty and reaches as
/// far as the cap.
pub proof fn law_scan_stops_at_the_cap(segment: Seq<LineView>, cap: Option<u64>)
    ensures
        reaches_cap(segment, cap) <==> (cap matches Some(c) && segment.len() > 0 && c
            <= lines::offset_after(segment, segment.len() as int)),
{
    if let Some(c) = cap {
        if reaches_cap(segment, cap) {
            let i = choose|i: int| 0 <= i < segment.len() && !(#[trigger] below_cap(segment, cap, i));
            lines::lemma_offset_bound(segment, i + 1);
        }
        if segment.len() > 0 && c <= lines::offset_after(segment, segment.len() as int) {
            assert(!below_cap(segment, cap, segment.len() - 1));
        }
    }
}

/// A line is decoded, with the white space around it cut off, exactly when it
/// ends below the cap and has anything on it. It is passed over when it has
/// nothing on it, and the scan stops when it reaches the cap.
pub proof fn law_step_for_a_line(scan: ScanView, line: Seq<char>, step: LineStep<'_>)
    requires
        step_for(scan, line, step),
        scan.offset + text::byte_len(line) <= u64::MAX,
    ensures
        step is Stop <==> (scan.cap matches Some(c) && c <= scan.offset + text::byte_len(line)),
        step matches LineStep::Decode(t) ==> t@ == text::trim(line) && t@.len() > 0,
        step is Skip ==> text::trim(line).len() == 0,
{
}

}
