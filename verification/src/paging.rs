//! What following cursors from page to page gives.

use vstd::prelude::*;

use crate::anchor;
use crate::event::EventView;
use crate::log_file;
use crate::filter;
use crate::filter::FilterView;
use crate::lines;
use crate::lines::{ContentView, LineView};
use crate::page;
use crate::page::HitView;
use crate::scan;
use crate::segment::SegmentRef;
use crate::text;

verus! {

// ---------------------------------------------------------------------------
// Matches and lines
// ---------------------------------------------------------------------------

/// Match `k` among the first `n` lines lies on a line, and the matches before
/// it are those on the lines before that.
pub proof fn lemma_hit_line(
    segment: Seq<LineView>,
    f: FilterView,
    source: SegmentRef,
    cap: Option<u64>,
    n: int,
    k: int,
) -> (l: int)
    requires
        n <= segment.len(),
        0 <= k < scan::hits_upto(segment, f, source, cap, n).len(),
    ensures
        0 <= l < n,
        scan::is_match(segment, f, cap, l),
        scan::hits_upto(segment, f, source, cap, n)[k] == scan::hit_on(segment, source, l),
        scan::hits_upto(segment, f, source, cap, l) == scan::hits_upto(
            segment,
            f,
            source,
            cap,
            n,
        ).take(k),
    decreases n,
{
    let all = scan::hits_upto(segment, f, source, cap, n);
    let before = scan::hits_upto(segment, f, source, cap, n - 1);
    if k < before.len() {
        let l = lemma_hit_line(segment, f, source, cap, n - 1, k);
        assert(all.take(k) =~= before.take(k));
        l
    } else {
        assert(all.take(k) =~= before);
        n - 1
    }
}

/// A cap just past a matching line leaves the matches before that line.
pub proof fn lemma_cap_at_match(
    segment: Seq<LineView>,
    f: FilterView,
    g: FilterView,
    source: SegmentRef,
    cap: Option<u64>,
    l: int,
)
    requires
        lines::offsets_fit(segment),
        0 <= l < segment.len(),
        scan::is_match(segment, f, cap, l),
        forall|e: EventView| #[trigger] filter::selects(g, e) == filter::selects(f, e),
    ensures
        scan::hits_in(segment, g, source, Some(lines::counted(lines::line_end(segment, l))))
            == scan::hits_upto(segment, f, source, cap, l),
{
    let tight = Some(lines::counted(lines::line_end(segment, l)));
    lines::lemma_offset_bound(segment, l + 1);
    lemma_tight_cap(segment, f, g, source, cap, l, l);
    assert(!scan::below_cap(segment, tight, l));
    scan::lemma_hits_stop_at_cap(segment, g, source, tight, l, segment.len() as int);
}

proof fn lemma_tight_cap(
    segment: Seq<LineView>,
    f: FilterView,
    g: FilterView,
    source: SegmentRef,
    cap: Option<u64>,
    l: int,
    n: int,
)
    requires
        lines::offsets_fit(segment),
        0 <= n <= l < segment.len(),
        scan::is_match(segment, f, cap, l),
        forall|e: EventView| #[trigger] filter::selects(g, e) == filter::selects(f, e),
    ensures
        scan::hits_upto(segment, g, source, Some(lines::counted(lines::line_end(segment, l))), n)
            == scan::hits_upto(segment, f, source, cap, n),
    decreases n,
{
    if n > 0 {
        let tight = Some(lines::counted(lines::line_end(segment, l)));
        lemma_tight_cap(segment, f, g, source, cap, l, n - 1);
        lines::lemma_offset_bound(segment, l + 1);
        lines::lemma_event_ends_increase(segment, n - 1, l);
        assert(scan::below_cap(segment, tight, n - 1));
        assert(scan::below_cap(segment, cap, n - 1));
        if let Some(e) = lines::event_of(segment[n - 1]) {
            assert(filter::selects(g, e) == filter::selects(f, e));
        }
    }
}

/// The matches on a page, newest first, are followed by the matches before
/// its oldest one.
pub proof fn lemma_newest_first_splits(hits: Seq<HitView>, limit: int)
    requires
        1 <= limit,
    ensures
        page::newest_first(hits) == page::newest_first(page::last_n(hits, limit))
            + page::newest_first(hits.take(hits.len() - page::last_n(hits, limit).len())),
{
    let kept = page::last_n(hits, limit);
    let older = hits.take(hits.len() - kept.len());
    assert(page::newest_first(hits) =~= page::newest_first(kept) + page::newest_first(older));
}

/// Resuming just past an anchored event gives strictly older events: every
/// match lies on a line before it.
pub proof fn law_resuming_past_an_anchor_excludes_it(
    content: ContentView,
    f: FilterView,
    source: SegmentRef,
    id: Seq<char>,
    k: int,
)
    requires
        lines::offsets_fit(content.lines),
        anchor::anchor_end(Some(content), id) is Some,
        0 <= k < scan::hits_in(
            content.lines,
            f,
            source,
            anchor::anchor_end(Some(content), id),
        ).len(),
    ensures
        exists|l: int|
            0 <= l < anchor::first_carrier(content.lines, id, 0) && #[trigger] scan::hit_on(
                content.lines,
                source,
                l,
            ) == scan::hits_in(
                content.lines,
                f,
                source,
                anchor::anchor_end(Some(content), id),
            )[k],
{
    let segment = content.lines;
    let cap = anchor::anchor_end(Some(content), id);
    let c = anchor::first_carrier(segment, id, 0);
    anchor::lemma_first_carrier(segment, id, 0);
    lines::lemma_offset_bound(segment, c + 1);
    let l = lemma_hit_line(segment, f, source, cap, segment.len() as int, k);
    if l >= c {
        lines::lemma_offset_monotone(segment, c + 1, l + 1);
    }
    assert(scan::hit_on(segment, source, l) == scan::hits_in(segment, f, source, cap)[k]);
}

// ---------------------------------------------------------------------------
// Paging through a file by byte offset
// ---------------------------------------------------------------------------

/// The filter with its page bounded by a byte offset.
pub open spec fn up_to_offset(f: FilterView, off: u64) -> FilterView {
    FilterView { until_line_offset: Some(off), ..f }
}

/// Every event of a file that the filter asks for, newest first.
pub open spec fn matches_in_file(segment: Seq<LineView>, f: FilterView) -> Seq<EventView> {
    page::newest_first(scan::hits_in(segment, f, SegmentRef::Active, f.until_line_offset))
}

/// A page holds the newest matches, as many as were asked for within the
/// range that is served, and it is empty only when there is no match.
pub proof fn law_page_holds_the_newest_matches(
    segment: Seq<LineView>,
    f: FilterView,
    limit: usize,
)
    ensures
        ({
            let p = log_file::page_of_file(segment, f, limit);
            let all = matches_in_file(segment, f);
            &&& p.events.len() <= page::clamped(limit)
            &&& p.events == all.take(p.events.len() as int)
            &&& p.events.len() < page::clamped(limit) ==> p.events == all
        }),
{
    let hits = scan::hits_in(segment, f, SegmentRef::Active, f.until_line_offset);
    let n = page::clamped(limit) as int;
    lemma_newest_first_splits(hits, n);
    let p = log_file::page_of_file(segment, f, limit);
    let all = matches_in_file(segment, f);
    assert(p.events =~= all.take(p.events.len() as int));
    if p.events.len() < n {
        assert(p.events =~= all);
    }
}

/// An empty page is at its end and offers no cursor, so that callers stop.
pub proof fn law_empty_page_is_at_end(segment: Seq<LineView>, f: FilterView, limit: usize)
    ensures
        ({
            let p = log_file::page_of_file(segment, f, limit);
            &&& p.events.len() == 0 <==> matches_in_file(segment, f).len() == 0
            &&& p.events.len() == 0 <==> p.next_cursor_line_offset is None
            &&& p.events.len() == 0 <==> p.next_cursor is None
            &&& p.events.len() == 0 ==> p.at_end
        }),
{
}

/// A page that is at its end holds every match.
pub proof fn law_page_at_end_is_complete(segment: Seq<LineView>, f: FilterView, limit: usize)
    ensures
        log_file::page_of_file(segment, f, limit).at_end ==> log_file::page_of_file(segment, f, limit).events
            == matches_in_file(segment, f),
{
}

/// Passing the offset of a page back gives the matches that follow it: none is
/// lost and none comes twice, however timestamps and ids are ordered.
pub proof fn law_offset_paging_continues(segment: Seq<LineView>, f: FilterView, limit: usize)
    requires
        lines::offsets_fit(segment),
        log_file::page_of_file(segment, f, limit).next_cursor_line_offset is Some,
    ensures
        matches_in_file(segment, f) == log_file::page_of_file(segment, f, limit).events + matches_in_file(
            segment,
            up_to_offset(f, log_file::page_of_file(segment, f, limit).next_cursor_line_offset->0),
        ),
{
    let cap = f.until_line_offset;
    let hits = scan::hits_in(segment, f, SegmentRef::Active, cap);
    let kept = page::last_n(hits, page::clamped(limit) as int);
    let g = up_to_offset(f, kept[0].end);
    let l = lemma_hit_line(
        segment,
        f,
        SegmentRef::Active,
        cap,
        segment.len() as int,
        hits.len() - kept.len(),
    );
    assert forall|e: EventView| #[trigger] filter::selects(g, e) == filter::selects(f, e) by {
        assert(filter::needle_of(g) == filter::needle_of(f));
    }
    lemma_cap_at_match(segment, f, g, SegmentRef::Active, cap, l);
    lemma_newest_first_splits(hits, page::clamped(limit) as int);
}

/// The offsets of successive pages strictly decrease.
pub proof fn law_offsets_decrease(segment: Seq<LineView>, f: FilterView, limit: usize)
    requires
        lines::offsets_fit(segment),
    ensures
        (log_file::page_of_file(segment, f, limit).next_cursor_line_offset matches Some(next)
            && f.until_line_offset matches Some(cap)) ==> log_file::page_of_file(
            segment,
            f,
            limit,
        ).next_cursor_line_offset->0 < f.until_line_offset->0,
{
    let cap = f.until_line_offset;
    let hits = scan::hits_in(segment, f, SegmentRef::Active, cap);
    let kept = page::last_n(hits, page::clamped(limit) as int);
    if kept.len() > 0 {
        let l = lemma_hit_line(
            segment,
            f,
            SegmentRef::Active,
            cap,
            segment.len() as int,
            hits.len() - kept.len(),
        );
        lines::lemma_offset_bound(segment, l + 1);
    }
}

/// The events of at most `pages` pages, each requested with the offset of the
/// one before, up to the first that is at its end.
pub open spec fn offset_walk(
    segment: Seq<LineView>,
    f: FilterView,
    limit: usize,
    pages: nat,
) -> Seq<EventView>
    decreases pages,
{
    if pages == 0 {
        Seq::empty()
    } else {
        let p = log_file::page_of_file(segment, f, limit);
        match p.next_cursor_line_offset {
            Some(off) if !p.at_end => p.events + offset_walk(
                segment,
                up_to_offset(f, off),
                limit,
                (pages - 1) as nat,
            ),
            _ => p.events,
        }
    }
}

/// Walking a file by byte offset visits every match exactly once, newest
/// first, and ends.
pub proof fn law_offset_walk_visits_every_match_once(
    segment: Seq<LineView>,
    f: FilterView,
    limit: usize,
    pages: nat,
)
    requires
        lines::offsets_fit(segment),
        pages > matches_in_file(segment, f).len(),
    ensures
        offset_walk(segment, f, limit, pages) == matches_in_file(segment, f),
    decreases pages,
{
    let p = log_file::page_of_file(segment, f, limit);
    law_empty_page_is_at_end(segment, f, limit);
    law_page_at_end_is_complete(segment, f, limit);
    if !p.at_end {
        let off = p.next_cursor_line_offset->0;
        law_offset_paging_continues(segment, f, limit);
        law_offset_walk_visits_every_match_once(
            segment,
            up_to_offset(f, off),
            limit,
            (pages - 1) as nat,
        );
    }
}

/// The events of at most `pages` pages, each requested with the offset of the
/// one before, up to the first that offers none.
pub open spec fn offset_walk_while_offered(
    segment: Seq<LineView>,
    f: FilterView,
    limit: usize,
    pages: nat,
) -> Seq<EventView>
    decreases pages,
{
    if pages == 0 {
        Seq::empty()
    } else {
        let p = log_file::page_of_file(segment, f, limit);
        match p.next_cursor_line_offset {
            Some(off) => p.events + offset_walk_while_offered(
                segment,
                up_to_offset(f, off),
                limit,
                (pages - 1) as nat,
            ),
            None => p.events,
        }
    }
}

/// Walking a file by byte offset for as long as a page offers one visits every
/// match exactly once, newest first, and ends: the last of the pages offers
/// none.
pub proof fn law_offset_walk_while_offered_visits_every_match_once(
    segment: Seq<LineView>,
    f: FilterView,
    limit: usize,
    pages: nat,
)
    requires
        lines::offsets_fit(segment),
        pages > matches_in_file(segment, f).len(),
    ensures
        offset_walk_while_offered(segment, f, limit, pages) == matches_in_file(segment, f),
        offset_walk_while_offered(segment, f, limit, pages) == offset_walk_while_offered(
            segment,
            f,
            limit,
            pages + 1,
        ),
    decreases pages,
{
    reveal_with_fuel(offset_walk_while_offered, 2);
    let p = log_file::page_of_file(segment, f, limit);
    law_empty_page_is_at_end(segment, f, limit);
    law_page_at_end_is_complete(segment, f, limit);
    if let Some(off) = p.next_cursor_line_offset {
        law_offset_paging_continues(segment, f, limit);
        law_offset_walk_while_offered_visits_every_match_once(
            segment,
            up_to_offset(f, off),
            limit,
            (pages - 1) as nat,
        );
    }
}

// ---------------------------------------------------------------------------
// Paging through a file by timestamp and id
// ---------------------------------------------------------------------------

/// The filter with its page bounded by a timestamp and an id.
pub open spec fn up_to_stamp(f: FilterView, stamp: (Seq<char>, Seq<char>)) -> FilterView {
    FilterView { until_ts: Some(stamp.0), until_id: Some(stamp.1), ..f }
}

/// The events of a file are in increasing order of timestamp, then id.
pub open spec fn stamps_increase(segment: Seq<LineView>) -> bool {
    forall|i: int, j: int|
        0 <= i < j < segment.len() ==> (match (
            #[trigger] lines::event_of(segment[i]),
            #[trigger] lines::event_of(segment[j]),
        ) {
            (Some(a), Some(b)) => filter::before_cursor(a, b.timestamp, Some(b.id)),
            _ => true,
        })
}

/// What lies before an event lies before every cursor which that event lies
/// before.
proof fn lemma_before_transitive(
    a: EventView,
    b: EventView,
    until: Seq<char>,
    until_id: Option<Seq<char>>,
)
    requires
        filter::before_cursor(a, b.timestamp, Some(b.id)),
        filter::before_cursor(b, until, until_id),
    ensures
        filter::before_cursor(a, until, until_id),
{
    if text::text_lt(a.timestamp, b.timestamp) && text::text_lt(b.timestamp, until) {
        text::lemma_text_lt_transitive(a.timestamp, b.timestamp, until);
    }
    if let Some(id) = until_id {
        if text::text_lt(a.id, b.id) && text::text_lt(b.id, id) {
            text::lemma_text_lt_transitive(a.id, b.id, id);
        }
    }
}

/// No event lies before itself.
proof fn lemma_before_irreflexive(e: EventView)
    ensures
        !filter::before_cursor(e, e.timestamp, Some(e.id)),
{
    text::lemma_text_lt_irreflexive(e.timestamp);
    text::lemma_text_lt_irreflexive(e.id);
}

proof fn lemma_stamp_bound(
    segment: Seq<LineView>,
    f: FilterView,
    source: SegmentRef,
    cap: Option<u64>,
    l: int,
    n: int,
)
    requires
        stamps_increase(segment),
        0 <= l < segment.len(),
        0 <= n <= segment.len(),
        scan::is_match(segment, f, cap, l),
    ensures
        ({
            let e = lines::event_of(segment[l])->0;
            scan::hits_upto(segment, up_to_stamp(f, (e.timestamp, e.id)), source, cap, n)
                == scan::hits_upto(
                segment,
                f,
                source,
                cap,
                if n <= l {
                    n
                } else {
                    l
                },
            )
        }),
    decreases n,
{
    if n > 0 {
        let e = lines::event_of(segment[l])->0;
        let g = up_to_stamp(f, (e.timestamp, e.id));
        lemma_stamp_bound(segment, f, source, cap, l, n - 1);
        assert(filter::needle_of(g) == filter::needle_of(f));
        if let Some(d) = lines::event_of(segment[n - 1]) {
            if n - 1 < l {
                assert(filter::before_cursor(d, e.timestamp, Some(e.id)));
                if let Some(until) = f.until_ts {
                    lemma_before_transitive(d, e, until, f.until_id);
                }
            } else {
                lemma_before_irreflexive(e);
                if n - 1 > l && filter::before_cursor(d, e.timestamp, Some(e.id)) {
                    assert(filter::before_cursor(e, d.timestamp, Some(d.id)));
                    lemma_before_transitive(e, d, e.timestamp, Some(e.id));
                }
            }
        }
    }
}

/// Where timestamps, and ids on equal timestamps, increase along the file,
/// passing timestamp and id of a page back gives the matches that follow it:
/// none is lost and none comes twice.
pub proof fn law_stamp_paging_continues(segment: Seq<LineView>, f: FilterView, limit: usize)
    requires
        stamps_increase(segment),
        log_file::page_of_file(segment, f, limit).next_cursor is Some,
    ensures
        matches_in_file(segment, f) == log_file::page_of_file(segment, f, limit).events
            + matches_in_file(
            segment,
            up_to_stamp(f, log_file::page_of_file(segment, f, limit).next_cursor->0),
        ),
{
    let cap = f.until_line_offset;
    let hits = scan::hits_in(segment, f, SegmentRef::Active, cap);
    let kept = page::last_n(hits, page::clamped(limit) as int);
    let l = lemma_hit_line(
        segment,
        f,
        SegmentRef::Active,
        cap,
        segment.len() as int,
        hits.len() - kept.len(),
    );
    lemma_stamp_bound(segment, f, SegmentRef::Active, cap, l, segment.len() as int);
    lemma_newest_first_splits(hits, page::clamped(limit) as int);
}

/// The events of at most `pages` pages, each requested with the timestamp and
/// id of the one before, up to the first that is at its end.
pub open spec fn stamp_walk(
    segment: Seq<LineView>,
    f: FilterView,
    limit: usize,
    pages: nat,
) -> Seq<EventView>
    decreases pages,
{
    if pages == 0 {
        Seq::empty()
    } else {
        let p = log_file::page_of_file(segment, f, limit);
        match p.next_cursor {
            Some(stamp) if !p.at_end => p.events + stamp_walk(
                segment,
                up_to_stamp(f, stamp),
                limit,
                (pages - 1) as nat,
            ),
            _ => p.events,
        }
    }
}

/// Where timestamps, and ids on equal timestamps, increase along the file,
/// walking it by timestamp and id visits every match exactly once, newest
/// first, and ends.
pub proof fn law_stamp_walk_visits_every_match_once(
    segment: Seq<LineView>,
    f: FilterView,
    limit: usize,
    pages: nat,
)
    requires
        stamps_increase(segment),
        pages > matches_in_file(segment, f).len(),
    ensures
        stamp_walk(segment, f, limit, pages) == matches_in_file(segment, f),
    decreases pages,
{
    let p = log_file::page_of_file(segment, f, limit);
    law_empty_page_is_at_end(segment, f, limit);
    law_page_at_end_is_complete(segment, f, limit);
    if !p.at_end {
        law_stamp_paging_continues(segment, f, limit);
        law_stamp_walk_visits_every_match_once(
            segment,
            up_to_stamp(f, p.next_cursor->0),
            limit,
            (pages - 1) as nat,
        );
    }
}

/// The events that a file's pages are cut from, told from its lines: those of
/// the lines that end below the offset and hold an event that the filter asks
/// for, newest first, each once.
pub proof fn law_matches_in_a_file(segment: Seq<LineView>, f: FilterView) -> (on: Seq<int>)
    ensures
        forall|a: int, b: int| 0 <= a < b < on.len() ==> #[trigger] on[a] < #[trigger] on[b],
        forall|l: int|
            #![trigger on.contains(l)]
            on.contains(l) <==> 0 <= l < segment.len() && (f.until_line_offset matches Some(c)
                ==> lines::line_end(segment, l) < c) && lines::event_of(segment[l]) is Some
                && filter::selects(f, lines::event_of(segment[l])->0),
        matches_in_file(segment, f).len() == on.len(),
        forall|k: int|
            0 <= k < on.len() ==> Some(#[trigger] matches_in_file(segment, f)[k])
                == lines::event_of(segment[on[on.len() - 1 - k]]),
{
    let cap = f.until_line_offset;
    let hits = scan::hits_in(segment, f, SegmentRef::Active, cap);
    let on = scan::law_hits_are_the_matching_lines(segment, f, SegmentRef::Active, cap);
    assert forall|k: int| 0 <= k < on.len() implies Some(#[trigger] matches_in_file(segment, f)[k])
        == lines::event_of(segment[on[on.len() - 1 - k]]) by {
        assert(lines::event_of(segment[on[on.len() - 1 - k]]) == Some(
            hits[hits.len() - 1 - k].event,
        ));
    }
    on
}

/// Bounding a filter by an offset, or by a timestamp and an id, changes nothing
/// else of it.
pub proof fn law_bounds_of_the_next_page(f: FilterView, off: u64, stamp: (Seq<char>, Seq<char>))
    ensures
        up_to_offset(f, off).until_line_offset == Some(off),
        (FilterView { until_line_offset: f.until_line_offset, ..up_to_offset(f, off) }) == f,
        up_to_stamp(f, stamp).until_ts == Some(stamp.0),
        up_to_stamp(f, stamp).until_id == Some(stamp.1),
        (FilterView { until_ts: f.until_ts, until_id: f.until_id, ..up_to_stamp(f, stamp) }) == f,
{
}

}
