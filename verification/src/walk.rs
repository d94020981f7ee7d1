//! What following segment cursors through a stream gives, while it rests and
//! while it is rotated.

use vstd::prelude::*;

use crate::anchor;
use crate::cursor;
use crate::cursor::CursorView;
use crate::error::LogError;
use crate::event::EventView;
use crate::filter;
use crate::filter::FilterView;
use crate::lines;
use crate::lines::{ContentView, LineView};
use crate::log_file;
use crate::log_file::FileView;
use crate::page;
use crate::page::{HitView, PageView};
use crate::paging;
use crate::query;
use crate::query::QueryView;
use crate::resolve;
use crate::scan;
use crate::segment;
use crate::segment::{SegmentRef, SegmentView};
use crate::store;
use crate::store::LogDir;
use crate::stream;

verus! {

// ---------------------------------------------------------------------------
// Matches and segments
// ---------------------------------------------------------------------------

/// The cap on segment `i` of a scan that ends in segment `end` at `cap`.
pub open spec fn cap_of(i: int, end: int, cap: Option<u64>) -> Option<u64> {
    if i == end {
        cap
    } else {
        None
    }
}

/// Match `k` in the first `n` segments lies on line `l` of segment `i`, and
/// the matches before it are those in the segments before that one and on the
/// lines before that line.
pub open spec fn is_place_of_hit(
    segs: Seq<SegmentView>,
    contents: Seq<Option<ContentView>>,
    f: FilterView,
    end: int,
    cap: Option<u64>,
    n: int,
    k: int,
    i: int,
    l: int,
) -> bool {
    let all = stream::hits_before(segs, contents, f, end, cap, n);
    let body = contents[i]->0.lines;
    let source = segment::ref_of(segs[i]);
    &&& 0 <= i < n
    &&& i <= end
    &&& contents[i] is Some
    &&& 0 <= l < body.len()
    &&& scan::is_match(body, f, cap_of(i, end, cap), l)
    &&& all[k] == scan::hit_on(body, source, l)
    &&& all.take(k) == stream::hits_before(segs, contents, f, end, cap, i) + scan::hits_upto(
        body,
        f,
        source,
        cap_of(i, end, cap),
        l,
    )
}

/// Every match has its place in the stream.
pub proof fn lemma_place_of_hit(
    segs: Seq<SegmentView>,
    contents: Seq<Option<ContentView>>,
    f: FilterView,
    end: int,
    cap: Option<u64>,
    n: int,
    k: int,
) -> (place: (int, int))
    requires
        n <= segs.len(),
        0 <= k < stream::hits_before(segs, contents, f, end, cap, n).len(),
    ensures
        is_place_of_hit(segs, contents, f, end, cap, n, k, place.0, place.1),
    decreases n,
{
    let all = stream::hits_before(segs, contents, f, end, cap, n);
    let before = stream::hits_before(segs, contents, f, end, cap, n - 1);
    if k < before.len() {
        let place = lemma_place_of_hit(segs, contents, f, end, cap, n - 1, k);
        assert(all.take(k) =~= before.take(k));
        place
    } else {
        let body = contents[n - 1]->0.lines;
        let source = segment::ref_of(segs[n - 1]);
        let here = stream::segment_hits(segs, contents, f, end, cap, n - 1);
        assert(all =~= before + here);
        let l = paging::lemma_hit_line(
            body,
            f,
            source,
            cap_of(n - 1, end, cap),
            body.len() as int,
            k - before.len(),
        );
        assert(all.take(k) =~= before + here.take(k - before.len()));
        (n - 1, l)
    }
}

/// Before the segment in which a scan ends, it takes in whole segments.
proof fn lemma_whole_segments(
    segs: Seq<SegmentView>,
    contents: Seq<Option<ContentView>>,
    f: FilterView,
    end: int,
    cap: Option<u64>,
    end2: int,
    cap2: Option<u64>,
    n: int,
)
    requires
        n <= end,
        n <= end2,
    ensures
        stream::hits_before(segs, contents, f, end, cap, n) == stream::hits_before(
            segs,
            contents,
            f,
            end2,
            cap2,
            n,
        ),
    decreases n,
{
    if n > 0 {
        lemma_whole_segments(segs, contents, f, end, cap, end2, cap2, n - 1);
    }
}

/// Past the segment in which a scan ends, nothing is added.
proof fn lemma_newer_segments(
    segs: Seq<SegmentView>,
    contents: Seq<Option<ContentView>>,
    f: FilterView,
    end: int,
    cap: Option<u64>,
    n: int,
)
    requires
        0 <= end < n,
    ensures
        stream::hits_before(segs, contents, f, end, cap, n) == stream::hits_before(
            segs,
            contents,
            f,
            end,
            cap,
            end + 1,
        ),
    decreases n,
{
    if n > end + 1 {
        lemma_newer_segments(segs, contents, f, end, cap, n - 1);
        let before = stream::hits_before(segs, contents, f, end, cap, n - 1);
        assert(before + Seq::<HitView>::empty() =~= before);
    }
}

/// A scan that ends just past a match gives the matches before it.
proof fn lemma_scan_up_to_hit(
    segs: Seq<SegmentView>,
    contents: Seq<Option<ContentView>>,
    f: FilterView,
    end: int,
    cap: Option<u64>,
    k: int,
    i: int,
    l: int,
)
    requires
        store::contents_fit(contents),
        contents.len() == segs.len(),
        is_place_of_hit(segs, contents, f, end, cap, segs.len() as int, k, i, l),
    ensures
        stream::stream_hits(
            segs,
            contents,
            f,
            i,
            Some(lines::counted(lines::line_end(contents[i]->0.lines, l))),
        ) == stream::stream_hits(segs, contents, f, end, cap).take(k),
{
    let body = contents[i]->0.lines;
    let tight = Some(lines::counted(lines::line_end(body, l)));
    paging::lemma_cap_at_match(
        body,
        f,
        f,
        segment::ref_of(segs[i]),
        cap_of(i, end, cap),
        l,
    );
    lemma_whole_segments(segs, contents, f, end, cap, i, tight, i);
    lemma_newer_segments(segs, contents, f, i, tight, segs.len() as int);
}

// ---------------------------------------------------------------------------
// Paging through a stream that rests
// ---------------------------------------------------------------------------

/// No two archives have the same number.
pub open spec fn numbers_distinct(segs: Seq<SegmentView>) -> bool {
    forall|i: int, j: int|
        0 <= i < j < segs.len() && (#[trigger] segs[i]).seq is Some ==> segs[i].seq != (
        #[trigger] segs[j]).seq
}

/// No number is used twice, at most one segment is active, and that one has no
/// number.
pub open spec fn well_addressed(segs: Seq<SegmentView>) -> bool {
    &&& numbers_distinct(segs)
    &&& forall|i: int, j: int|
        0 <= i < j < segs.len() ==> !((#[trigger] segs[i]).is_active && (
        #[trigger] segs[j]).is_active)
    &&& forall|i: int| 0 <= i < segs.len() && (#[trigger] segs[i]).is_active ==> segs[i].seq is None
}

/// Every event of a stream that a query asks for, newest first.
pub open spec fn matches_in_stream(
    segs: Seq<SegmentView>,
    contents: Seq<Option<ContentView>>,
    q: QueryView,
) -> Seq<EventView> {
    match resolve::scan_end(segs, contents, q.cursor, q.filter) {
        Some((end, cap)) => page::newest_first(
            stream::stream_hits(segs, contents, q.filter, end, cap),
        ),
        None => Seq::empty(),
    }
}

/// The query that continues a page with the cursor on it.
pub open spec fn continued(q: QueryView, token: Seq<char>) -> QueryView {
    QueryView { cursor: cursor::cursor_of_wire(token), ..q }
}

/// A cursor just past a match resolves to the place of that match.
proof fn lemma_cursor_resolves(
    segs: Seq<SegmentView>,
    contents: Seq<Option<ContentView>>,
    f: FilterView,
    cap: Option<u64>,
    i: int,
    l: int,
)
    requires
        well_addressed(segs),
        store::contents_fit(contents),
        contents.len() == segs.len(),
        0 <= i < segs.len(),
        contents[i] is Some,
        0 <= l < contents[i]->0.lines.len(),
        scan::is_match(contents[i]->0.lines, f, cap, l),
    ensures
        ({
            let body = contents[i]->0.lines;
            page::cursor_before(scan::hit_on(body, segment::ref_of(segs[i]), l)) matches Some(c)
                ==> resolve::resolved(segs, contents, c) == Some(
                (i, lines::counted(lines::line_end(body, l))),
            )
        }),
{
    let body = contents[i]->0.lines;
    let hit = scan::hit_on(body, segment::ref_of(segs[i]), l);
    lines::lemma_offset_bound(body, l + 1);
    match hit.source {
        SegmentRef::Active => {
            resolve::lemma_active_index(segs, 0);
            assert(resolve::active_index(segs, 0) == i);
            assert forall|j: int| 0 <= j < l implies lines::is_blank(#[trigger] body[j])
                || lines::line_end(body, j) < lines::line_end(body, l) by {
                lines::lemma_event_ends_increase(body, j, l);
            }
            assert(anchor::is_boundary_line(body, hit.end as int, l));
            assert(anchor::anchored_at(body, hit.end as int, hit.event.id));
        },
        SegmentRef::Archive(Some(seq)) => {
            resolve::lemma_numbered_index(segs, seq, 0);
            assert(resolve::numbered_index(segs, seq, 0) == i);
        },
        SegmentRef::Archive(None) => {},
    }
}

/// Passing the cursor of a page back gives the matches that follow it, across
/// segments: none is lost and none comes twice.
///
/// A cursor into the active file carries the id of an event, and a token
/// without an id is malformed, so that id must not be empty.
pub proof fn law_segment_paging_continues(
    segs: Seq<SegmentView>,
    contents: Seq<Option<ContentView>>,
    q: QueryView,
)
    requires
        well_addressed(segs),
        store::contents_fit(contents),
        contents.len() == segs.len(),
        query::attempt(segs, contents, q) matches Some(p) && p.next_segment_cursor is Some && (
        p.next_cursor_line_offset is Some ==> p.events.last().id.len() > 0),
    ensures
        ({
            let p = query::attempt(segs, contents, q)->0;
            let next = continued(q, p.next_segment_cursor->0);
            &&& next.cursor is Some
            &&& query::attempt(segs, contents, next) is Some
            &&& matches_in_stream(segs, contents, q) == p.events + matches_in_stream(
                segs,
                contents,
                next,
            )
        }),
{
    let f = q.filter;
    let (end, cap) = resolve::scan_end(segs, contents, q.cursor, f)->0;
    let hits = stream::stream_hits(segs, contents, f, end, cap);
    let limit = page::clamped(q.limit) as int;
    let kept = page::last_n(hits, limit);
    let k = hits.len() - kept.len();
    assert(kept[0] == hits[k]);
    let p = query::attempt(segs, contents, q)->0;
    let (i, l) = lemma_place_of_hit(segs, contents, f, end, cap, segs.len() as int, k);
    let c = page::cursor_before(kept[0])->0;
    lemma_cursor_resolves(segs, contents, f, cap_of(i, end, cap), i, l);
    lemma_scan_up_to_hit(segs, contents, f, end, cap, k, i, l);
    assert(p.events.last() == kept[0].event);
    cursor::law_wire_round_trip(c);
    paging::lemma_newest_first_splits(hits, limit);
}

/// A page that is at its end holds every match, unless no cursor can address
/// its oldest event.
pub proof fn law_stream_page_at_end_is_complete(
    segs: Seq<SegmentView>,
    contents: Seq<Option<ContentView>>,
    q: QueryView,
)
    ensures
        query::attempt(segs, contents, q) matches Some(p) ==> p.at_end ==> p.events
            == matches_in_stream(segs, contents, q) || p.next_segment_cursor is None,
        query::attempt(segs, contents, q) matches Some(p) ==> !p.at_end
            ==> p.next_segment_cursor is Some && p.events.len() == page::clamped(q.limit),
{
}

/// A page of a stream holds the newest matches, as many as were asked for
/// within the range that is served. An empty page is at its end and offers no
/// cursor.
pub proof fn law_stream_page_holds_the_newest_matches(
    segs: Seq<SegmentView>,
    contents: Seq<Option<ContentView>>,
    q: QueryView,
)
    ensures
        query::attempt(segs, contents, q) matches Some(p) ==> {
            let all = matches_in_stream(segs, contents, q);
            &&& p.events.len() <= page::clamped(q.limit)
            &&& p.events == all.take(p.events.len() as int)
            &&& p.events.len() < page::clamped(q.limit) ==> p.events == all
            &&& p.events.len() == 0 ==> p.at_end && p.next_segment_cursor is None
        },
{
    if let Some((end, cap)) = resolve::scan_end(segs, contents, q.cursor, q.filter) {
        let hits = stream::stream_hits(segs, contents, q.filter, end, cap);
        paging::lemma_newest_first_splits(hits, page::clamped(q.limit) as int);
        let p = query::attempt(segs, contents, q)->0;
        let all = matches_in_stream(segs, contents, q);
        assert(p.events =~= all.take(p.events.len() as int));
        if p.events.len() < page::clamped(q.limit) {
            assert(p.events =~= all);
        }
    }
}

/// Every event in the active segments has an id that is not empty.
pub open spec fn active_ids_present(
    segs: Seq<SegmentView>,
    contents: Seq<Option<ContentView>>,
) -> bool {
    forall|i: int, l: int|
        #![trigger contents[i]->0.lines[l]]
        0 <= i < segs.len() && segs[i].is_active && contents[i] is Some && 0 <= l
            < contents[i]->0.lines.len() ==> (lines::event_of(
            contents[i]->0.lines[l],
        ) matches Some(e) ==> e.id.len() > 0)
}

/// A cursor can address every segment.
pub open spec fn all_addressable(segs: Seq<SegmentView>) -> bool {
    forall|i: int|
        0 <= i < segs.len() ==> (#[trigger] segs[i]).is_active || segs[i].seq is Some
}

/// The events of at most `pages` pages, each requested with the cursor of the
/// one before, up to the first that is at its end.
pub open spec fn segment_walk(
    segs: Seq<SegmentView>,
    contents: Seq<Option<ContentView>>,
    q: QueryView,
    pages: nat,
) -> Seq<EventView>
    decreases pages,
{
    if pages == 0 {
        Seq::empty()
    } else {
        match query::attempt(segs, contents, q) {
            Some(p) => match p.next_segment_cursor {
                Some(token) if !p.at_end => p.events + segment_walk(
                    segs,
                    contents,
                    continued(q, token),
                    (pages - 1) as nat,
                ),
                _ => p.events,
            },
            None => Seq::empty(),
        }
    }
}

/// The oldest event on a page whose boundary lies in the active file has an
/// id that is not empty.
proof fn lemma_boundary_id(
    segs: Seq<SegmentView>,
    contents: Seq<Option<ContentView>>,
    q: QueryView,
)
    requires
        active_ids_present(segs, contents),
        contents.len() == segs.len(),
        query::attempt(segs, contents, q) matches Some(p) && p.next_cursor_line_offset is Some,
    ensures
        query::attempt(segs, contents, q)->0.events.last().id.len() > 0,
{
    let f = q.filter;
    let (end, cap) = resolve::scan_end(segs, contents, q.cursor, f)->0;
    let hits = stream::stream_hits(segs, contents, f, end, cap);
    let kept = page::last_n(hits, page::clamped(q.limit) as int);
    let k = hits.len() - kept.len();
    let (i, l) = lemma_place_of_hit(segs, contents, f, end, cap, segs.len() as int, k);
    assert(kept[0] == hits[k]);
    assert(query::attempt(segs, contents, q)->0.events.last() == kept[0].event);
    assert(contents[i]->0.lines[l] == contents[i]->0.lines[l]);
}

/// The oldest event on a page can be addressed when every segment can.
proof fn lemma_boundary_addressable(
    segs: Seq<SegmentView>,
    contents: Seq<Option<ContentView>>,
    q: QueryView,
)
    requires
        all_addressable(segs),
        contents.len() == segs.len(),
    ensures
        query::attempt(segs, contents, q) matches Some(p) ==> p.events.len() > 0
            ==> p.next_segment_cursor is Some,
{
    if let Some((end, cap)) = resolve::scan_end(segs, contents, q.cursor, q.filter) {
        let f = q.filter;
        let hits = stream::stream_hits(segs, contents, f, end, cap);
        let kept = page::last_n(hits, page::clamped(q.limit) as int);
        let k = hits.len() - kept.len();
        if kept.len() > 0 {
            let (i, l) = lemma_place_of_hit(segs, contents, f, end, cap, segs.len() as int, k);
            assert(kept[0] == hits[k]);
        }
    }
}

/// Walking a stream by segment cursors visits its matches newest first, each
/// at most once, and ends. It visits every one of them when a cursor can
/// address every segment.
pub proof fn law_segment_walk_visits_every_match_once(
    segs: Seq<SegmentView>,
    contents: Seq<Option<ContentView>>,
    q: QueryView,
    pages: nat,
)
    requires
        well_addressed(segs),
        active_ids_present(segs, contents),
        store::contents_fit(contents),
        contents.len() == segs.len(),
        pages > matches_in_stream(segs, contents, q).len(),
    ensures
        ({
            let all = matches_in_stream(segs, contents, q);
            let walked = segment_walk(segs, contents, q, pages);
            &&& walked.len() <= all.len()
            &&& walked == all.take(walked.len() as int)
            &&& all_addressable(segs) ==> walked == all
        }),
    decreases pages,
{
    let all = matches_in_stream(segs, contents, q);
    let walked = segment_walk(segs, contents, q, pages);
    law_stream_page_holds_the_newest_matches(segs, contents, q);
    law_stream_page_at_end_is_complete(segs, contents, q);
    if all_addressable(segs) {
        lemma_boundary_addressable(segs, contents, q);
    }
    match query::attempt(segs, contents, q) {
        Some(p) => {
            if !p.at_end {
                let next = continued(q, p.next_segment_cursor->0);
                if p.next_cursor_line_offset is Some {
                    lemma_boundary_id(segs, contents, q);
                }
                law_segment_paging_continues(segs, contents, q);
                law_segment_walk_visits_every_match_once(
                    segs,
                    contents,
                    next,
                    (pages - 1) as nat,
                );
                assert(walked =~= all.take(walked.len() as int));
            }
        },
        None => {
            assert(all.take(0) =~= all);
        },
    }
}

/// The segments of a directory are well addressed when their numbers are
/// distinct, and what they hold fits when the files do.
proof fn lemma_directory(
    active_name: Option<Seq<char>>,
    reads_archives: bool,
    dir: LogDir,
    segs: Seq<SegmentView>,
)
    requires
        query::segments_in(dir, active_name, reads_archives) == Ok::<Seq<SegmentView>, LogError>(
            segs,
        ),
        numbers_distinct(segs),
        store::files_fit(store::stored_views(dir.files@)),
    ensures
        well_addressed(segs),
        store::contents_fit(store::contents_of(store::stored_views(dir.files@), segs)),
{
    segment::law_active_segment_is_last(
        active_name,
        reads_archives,
        dir.listing,
        dir.active_exists,
    );
    let files = store::stored_views(dir.files@);
    let contents = store::contents_of(files, segs);
    assert forall|i: int| 0 <= i < contents.len() implies ((#[trigger] contents[i]) matches Some(c)
        ==> lines::offsets_fit(c.lines)) by {
        store::lemma_content_fits(files, segs[i].name, 0);
    }
}

/// The answers to queries over a directory that rests continue one another:
/// passing the cursor of an answer back gives the matches that follow it, and
/// none is lost or comes twice.
pub proof fn law_answers_continue(
    active_name: Option<Seq<char>>,
    reads_archives: bool,
    dir: LogDir,
    q: QueryView,
    segs: Seq<SegmentView>,
)
    requires
        query::segments_in(dir, active_name, reads_archives) == Ok::<Seq<SegmentView>, LogError>(
            segs,
        ),
        numbers_distinct(segs),
        store::files_fit(store::stored_views(dir.files@)),
        query::answer(active_name, reads_archives, dir, dir, q) matches Ok(p)
            && p.next_segment_cursor is Some && (p.next_cursor_line_offset is Some
            ==> p.events.last().id.len() > 0),
    ensures
        ({
            let contents = store::contents_of(store::stored_views(dir.files@), segs);
            let p = query::answer(active_name, reads_archives, dir, dir, q)->Ok_0;
            let next = continued(q, p.next_segment_cursor->0);
            &&& query::answer(active_name, reads_archives, dir, dir, next) is Ok
            &&& matches_in_stream(segs, contents, q) == p.events + matches_in_stream(
                segs,
                contents,
                next,
            )
            &&& query::answer(active_name, reads_archives, dir, dir, next)->Ok_0.events
                == matches_in_stream(segs, contents, next).take(
                query::answer(active_name, reads_archives, dir, dir, next)->Ok_0.events.len() as int,
            )
        }),
{
    let contents = store::contents_of(store::stored_views(dir.files@), segs);
    lemma_directory(active_name, reads_archives, dir, segs);
    query::law_resting_directory_is_read_once(active_name, reads_archives, dir, q);
    let p = query::answer(active_name, reads_archives, dir, dir, q)->Ok_0;
    let next = continued(q, p.next_segment_cursor->0);
    law_segment_paging_continues(segs, contents, q);
    query::law_resting_directory_is_read_once(active_name, reads_archives, dir, next);
    law_stream_page_holds_the_newest_matches(segs, contents, next);
}

/// The events of the answers to at most `pages` queries over a directory that
/// rests, each made with the cursor of the answer before, up to the first that
/// is at its end.
pub open spec fn query_walk(
    active_name: Option<Seq<char>>,
    reads_archives: bool,
    dir: LogDir,
    q: QueryView,
    pages: nat,
) -> Seq<EventView>
    decreases pages,
{
    if pages == 0 {
        Seq::empty()
    } else {
        match query::answer(active_name, reads_archives, dir, dir, q) {
            Ok(p) => match p.next_segment_cursor {
                Some(token) if !p.at_end => p.events + query_walk(
                    active_name,
                    reads_archives,
                    dir,
                    continued(q, token),
                    (pages - 1) as nat,
                ),
                _ => p.events,
            },
            Err(_) => Seq::empty(),
        }
    }
}

proof fn lemma_query_walk(
    active_name: Option<Seq<char>>,
    reads_archives: bool,
    dir: LogDir,
    q: QueryView,
    segs: Seq<SegmentView>,
    pages: nat,
)
    requires
        query::segments_in(dir, active_name, reads_archives) == Ok::<Seq<SegmentView>, LogError>(
            segs,
        ),
    ensures
        query_walk(active_name, reads_archives, dir, q, pages) == segment_walk(
            segs,
            store::contents_of(store::stored_views(dir.files@), segs),
            q,
            pages,
        ),
    decreases pages,
{
    if pages > 0 {
        let contents = store::contents_of(store::stored_views(dir.files@), segs);
        query::law_resting_directory_is_read_once(active_name, reads_archives, dir, q);
        if let Some(p) = query::attempt(segs, contents, q) {
            if let Some(token) = p.next_segment_cursor {
                lemma_query_walk(
                    active_name,
                    reads_archives,
                    dir,
                    continued(q, token),
                    segs,
                    (pages - 1) as nat,
                );
            }
        }
    }
}

/// Querying a directory that rests with the cursor of the answer before, up to
/// an answer that is at its end, visits the matches of the stream newest first,
/// each at most once, and ends. It visits every one of them when every archive
/// has a number. An answer that is not at its end offers a cursor that can be
/// read back.
pub proof fn law_query_walk_visits_every_match_once(
    active_name: Option<Seq<char>>,
    reads_archives: bool,
    dir: LogDir,
    q: QueryView,
    segs: Seq<SegmentView>,
    pages: nat,
)
    requires
        query::segments_in(dir, active_name, reads_archives) == Ok::<Seq<SegmentView>, LogError>(
            segs,
        ),
        numbers_distinct(segs),
        store::files_fit(store::stored_views(dir.files@)),
        active_ids_present(segs, store::contents_of(store::stored_views(dir.files@), segs)),
        pages > matches_in_stream(
            segs,
            store::contents_of(store::stored_views(dir.files@), segs),
            q,
        ).len(),
    ensures
        ({
            let contents = store::contents_of(store::stored_views(dir.files@), segs);
            let all = matches_in_stream(segs, contents, q);
            let walked = query_walk(active_name, reads_archives, dir, q, pages);
            &&& query::answer(active_name, reads_archives, dir, dir, q) matches Ok(p) && (
            !p.at_end ==> (p.next_segment_cursor matches Some(token) && cursor::cursor_of_wire(
                token,
            ) is Some))
            &&& walked.len() <= all.len()
            &&& walked == all.take(walked.len() as int)
            &&& all_addressable(segs) ==> walked == all
        }),
{
    let contents = store::contents_of(store::stored_views(dir.files@), segs);
    lemma_directory(active_name, reads_archives, dir, segs);
    lemma_query_walk(active_name, reads_archives, dir, q, segs, pages);
    law_segment_walk_visits_every_match_once(segs, contents, q, pages);
    query::law_resting_directory_is_read_once(active_name, reads_archives, dir, q);
    law_stream_page_at_end_is_complete(segs, contents, q);
    if let Some(p) = query::attempt(segs, contents, q) {
        if !p.at_end {
            if p.next_cursor_line_offset is Some {
                lemma_boundary_id(segs, contents, q);
            }
            law_segment_paging_continues(segs, contents, q);
        }
    }
}

// ---------------------------------------------------------------------------
// Paging through a stream while it is rotated
// ---------------------------------------------------------------------------

/// Line `l` of segment `i` is the only line of the stream that carries `id`.
pub open spec fn carried_once(
    contents: Seq<Option<ContentView>>,
    id: Seq<char>,
    i: int,
    l: int,
) -> bool {
    &&& 0 <= i < contents.len()
    &&& contents[i] is Some
    &&& 0 <= l < contents[i]->0.lines.len()
    &&& lines::carries(contents[i]->0.lines[l], id)
    &&& forall|j: int, m: int|
        #![trigger contents[j]->0.lines[m]]
        0 <= j < contents.len() && contents[j] is Some && 0 <= m < contents[j]->0.lines.len()
            && lines::carries(contents[j]->0.lines[m], id) ==> j == i && m == l
}

/// The segments that do not carry an anchor are passed over.
proof fn lemma_newest_anchor_at(
    contents: Seq<Option<ContentView>>,
    id: Seq<char>,
    i: int,
    l: int,
    n: int,
)
    requires
        carried_once(contents, id, i, l),
        i < n <= contents.len(),
    ensures
        resolve::newest_anchor(contents, id, n) == Some(
            (i, lines::counted(lines::line_end(contents[i]->0.lines, l))),
        ),
    decreases n,
{
    if n - 1 == i {
        let body = contents[i]->0.lines;
        anchor::lemma_first_carrier_at(body, id, l);
    } else {
        if contents[n - 1] is Some {
            let body = contents[n - 1]->0.lines;
            anchor::lemma_first_carrier(body, id, 0);
            let m = anchor::first_carrier(body, id, 0);
            if m < body.len() {
                assert(lines::carries(contents[n - 1]->0.lines[m], id));
            }
        }
        lemma_newest_anchor_at(contents, id, i, l, n - 1);
    }
}

/// A cursor into the active file resolves to the event it was issued for,
/// whichever segment that event now lies in.
pub proof fn law_active_cursor_follows_its_event(
    segs: Seq<SegmentView>,
    contents: Seq<Option<ContentView>>,
    id: Seq<char>,
    i: int,
    l: int,
)
    requires
        contents.len() == segs.len(),
        carried_once(contents, id, i, l),
    ensures
        ({
            let off = lines::counted(lines::line_end(contents[i]->0.lines, l));
            resolve::resolved(segs, contents, CursorView::Active { off, anchor: Some(id) })
                == Some((i, off))
        }),
{
    let off = lines::counted(lines::line_end(contents[i]->0.lines, l));
    let a = resolve::active_index(segs, 0);
    resolve::lemma_active_index(segs, 0);
    if a < segs.len() && anchor::content_anchored_at(contents[a], off as int, id) {
        let body = contents[a]->0.lines;
        let m = choose|m: int| #[trigger]
            anchor::is_boundary_line(body, off as int, m) && lines::carries(body[m], id);
        assert(lines::carries(contents[a]->0.lines[m], id));
    } else {
        lemma_newest_anchor_at(contents, id, i, l, segs.len() as int);
    }
}

/// The segments after a rotation: the active file has become the archive
/// `name` with the number `seq`, and there is a new active file.
pub open spec fn rotated_segments(
    segs: Seq<SegmentView>,
    name: Seq<char>,
    seq: u64,
) -> Seq<SegmentView> {
    segs.update(
        segs.len() - 1,
        SegmentView { name: Some(name), seq: Some(seq), is_active: false },
    ).push(segs.last())
}

/// The two runs of matches differ only in the segments they come from, and the
/// same matches can be addressed.
spec fn same_events(a: Seq<HitView>, b: Seq<HitView>) -> bool {
    &&& a.len() == b.len()
    &&& forall|k: int|
        0 <= k < a.len() ==> (#[trigger] a[k]).event == (#[trigger] b[k]).event
            && page::cursor_before(a[k]) is Some == page::cursor_before(b[k]) is Some
}

/// A rotation changes the source of a segment's matches and nothing else.
proof fn lemma_source_only(
    body: Seq<LineView>,
    f: FilterView,
    cap: Option<u64>,
    seq: u64,
    n: int,
)
    ensures
        same_events(
            scan::hits_upto(body, f, SegmentRef::Active, cap, n),
            scan::hits_upto(body, f, SegmentRef::Archive(Some(seq)), cap, n),
        ),
    decreases n,
{
    if n > 0 {
        lemma_source_only(body, f, cap, seq, n - 1);
    }
}

/// A rotation leaves the matches up to the former active file as they were.
proof fn lemma_rotation_keeps_matches(
    segs: Seq<SegmentView>,
    contents: Seq<Option<ContentView>>,
    fresh: Option<ContentView>,
    name: Seq<char>,
    seq: u64,
    f: FilterView,
    end: int,
    cap: Option<u64>,
    n: int,
)
    requires
        segs.len() > 0,
        contents.len() == segs.len(),
        segs.last().is_active,
        0 <= n <= segs.len(),
    ensures
        same_events(
            stream::hits_before(segs, contents, f, end, cap, n),
            stream::hits_before(
                rotated_segments(segs, name, seq),
                contents.push(fresh),
                f,
                end,
                cap,
                n,
            ),
        ),
        n < segs.len() ==> stream::hits_before(segs, contents, f, end, cap, n)
            == stream::hits_before(
            rotated_segments(segs, name, seq),
            contents.push(fresh),
            f,
            end,
            cap,
            n,
        ),
    decreases n,
{
    if n > 0 {
        lemma_rotation_keeps_matches(segs, contents, fresh, name, seq, f, end, cap, n - 1);
        let after = rotated_segments(segs, name, seq);
        assert(contents.push(fresh)[n - 1] == contents[n - 1]);
        if n == segs.len() {
            if let Some(c) = contents[n - 1] {
                lemma_source_only(c.lines, f, cap_of(n - 1, end, cap), seq, c.lines.len() as int);
            }
        } else {
            assert(after[n - 1] == segs[n - 1]);
        }
    }
}

/// The pages of two runs of matches with the same events.
proof fn lemma_same_page(a: Seq<HitView>, b: Seq<HitView>, limit: int)
    requires
        same_events(a, b),
        1 <= limit,
    ensures
        page::stream_page(a, limit).events == page::stream_page(b, limit).events,
        page::stream_page(a, limit).next_cursor == page::stream_page(b, limit).next_cursor,
        page::stream_page(a, limit).at_end == page::stream_page(b, limit).at_end,
{
    let ka = page::last_n(a, limit);
    let kb = page::last_n(b, limit);
    assert forall|k: int| 0 <= k < ka.len() implies (#[trigger] ka[k]).event == kb[k].event by {
        if a.len() > limit {
            assert(ka[k] == a[k + a.len() - limit]);
            assert(kb[k] == b[k + b.len() - limit]);
        }
    }
    assert(page::newest_first(ka) =~= page::newest_first(kb));
    if a.len() > limit {
        assert(ka[0] == a[a.len() - limit]);
        assert(kb[0] == b[b.len() - limit]);
    } else if a.len() > 0 {
        assert(ka[0].event == kb[0].event);
    }
}

/// A cursor into the active file survives a rotation: it gives the page that
/// it would have given before, though the event it names now lies in an
/// archive, and whatever the new active file holds.
pub proof fn law_active_cursor_survives_rotation(
    segs: Seq<SegmentView>,
    contents: Seq<Option<ContentView>>,
    fresh: Option<ContentView>,
    name: Seq<char>,
    seq: u64,
    filter: FilterView,
    limit: usize,
    id: Seq<char>,
    l: int,
)
    requires
        segs.len() > 0,
        contents.len() == segs.len(),
        segs.last().is_active,
        carried_once(contents.push(fresh), id, segs.len() - 1, l),
    ensures
        ({
            let off = lines::counted(lines::line_end(contents.last()->0.lines, l));
            let q = QueryView {
                filter,
                limit,
                cursor: Some(CursorView::Active { off, anchor: Some(id) }),
            };
            let before = query::attempt(segs, contents, q);
            let after = query::attempt(
                rotated_segments(segs, name, seq),
                contents.push(fresh),
                q,
            );
            &&& before is Some
            &&& after is Some
            &&& after->0.events == before->0.events
            &&& after->0.next_cursor == before->0.next_cursor
            &&& after->0.at_end == before->0.at_end
        }),
{
    let a = segs.len() - 1;
    let off = lines::counted(lines::line_end(contents[a]->0.lines, l));
    let after = rotated_segments(segs, name, seq);
    let all = contents.push(fresh);
    assert(all[a] == contents[a]);
    assert(carried_once(contents, id, a, l)) by {
        assert forall|j: int, m: int|
            #![trigger contents[j]->0.lines[m]]
            0 <= j < contents.len() && contents[j] is Some && 0 <= m
                < contents[j]->0.lines.len() && lines::carries(
                contents[j]->0.lines[m],
                id,
            ) implies j == a && m == l by {
            assert(all[j] == contents[j]);
            assert(lines::carries(all[j]->0.lines[m], id));
        }
    }
    law_active_cursor_follows_its_event(segs, contents, id, a, l);
    law_active_cursor_follows_its_event(after, all, id, a, l);
    lemma_rotation_keeps_matches(
        segs,
        contents,
        fresh,
        name,
        seq,
        filter,
        a,
        Some(off),
        segs.len() as int,
    );
    lemma_newer_segments(after, all, filter, a, Some(off), after.len() as int);
    lemma_same_page(
        stream::stream_hits(segs, contents, filter, a, Some(off)),
        stream::stream_hits(after, all, filter, a, Some(off)),
        page::clamped(limit) as int,
    );
}

/// An archive cursor survives a rotation: it gives the very page that it would
/// have given before.
pub proof fn law_archive_cursor_survives_rotation(
    segs: Seq<SegmentView>,
    contents: Seq<Option<ContentView>>,
    fresh: Option<ContentView>,
    name: Seq<char>,
    seq: u64,
    q: QueryView,
)
    requires
        segs.len() > 0,
        contents.len() == segs.len(),
        segs.last().is_active,
        segs.last().seq is None,
        q.cursor matches Some(CursorView::Archive { seq: wanted, .. }) && wanted != seq,
    ensures
        query::attempt(rotated_segments(segs, name, seq), contents.push(fresh), q)
            == query::attempt(segs, contents, q),
{
    let after = rotated_segments(segs, name, seq);
    let all = contents.push(fresh);
    if let Some(CursorView::Archive { seq: wanted, off }) = q.cursor {
        resolve::lemma_numbered_index(segs, wanted, 0);
        resolve::lemma_numbered_index(after, wanted, 0);
        let i = resolve::numbered_index(segs, wanted, 0);
        let j = resolve::numbered_index(after, wanted, 0);
        assert forall|k: int| 0 <= k < segs.len() - 1 implies after[k] == #[trigger] segs[k] by {}
        if i < segs.len() {
            assert(i < segs.len() - 1);
            assert(after[i].seq == Some(wanted));
            if j < i {
                assert(segs[j].seq == Some(wanted));
            }
            assert(i == j);
            lemma_rotation_keeps_matches(
                segs,
                contents,
                fresh,
                name,
                seq,
                q.filter,
                i,
                Some(off),
                i + 1,
            );
            lemma_newer_segments(segs, contents, q.filter, i, Some(off), segs.len() as int);
            lemma_newer_segments(after, all, q.filter, i, Some(off), after.len() as int);
        } else if j < after.len() {
            if j < segs.len() - 1 {
                assert(segs[j].seq == Some(wanted));
            }
        }
    }
}

// ---------------------------------------------------------------------------
// Queries and single files
// ---------------------------------------------------------------------------

/// A query without archives in scope and without a cursor gives what reading
/// the active file on its own gives: the same events and the same offset and
/// timestamp cursors. Without an offset to stop at, the two also agree on
/// whether there is more. Where the file is absent both give an empty page that
/// is at its end.
pub proof fn law_query_of_the_active_file_is_its_page(
    active_name: Option<Seq<char>>,
    first: LogDir,
    second: LogDir,
    filter: FilterView,
    limit: usize,
    content: ContentView,
)
    requires
        first.active_exists ==> store::content_named(
            store::stored_views(first.files@),
            active_name,
        ) == Some(content),
    ensures
        ({
            let q = QueryView { filter, limit, cursor: None };
            let answer = query::answer(active_name, false, first, second, q);
            if first.active_exists {
                let alone = log_file::page_of_file(content.lines, filter, limit);
                &&& answer matches Ok(p)
                &&& p.events == alone.events
                &&& p.next_cursor == alone.next_cursor
                &&& p.next_cursor_line_offset == alone.next_cursor_line_offset
                &&& filter.until_line_offset is None ==> p.at_end == alone.at_end
            } else {
                &&& answer == Ok::<PageView, LogError>(page::empty_page())
                &&& answer == log_file::loaded_page(FileView::Missing, filter, limit)
            }
        }),
{
    if first.active_exists {
        lemma_query_of_the_active_file(active_name, first, second, filter, limit, content);
    } else {
        segment::law_archives_out_of_scope_are_invisible(active_name, first.listing, false);
        let segs = Seq::<SegmentView>::empty();
        let contents = store::contents_of(store::stored_views(first.files@), segs);
        let (end, cap) = resolve::scan_end(segs, contents, None, filter)->0;
        let hits = stream::stream_hits(segs, contents, filter, end, cap);
        assert(hits.len() == 0);
        assert(page::newest_first(hits) =~= Seq::<EventView>::empty());
    }
}

proof fn lemma_query_of_the_active_file(
    active_name: Option<Seq<char>>,
    first: LogDir,
    second: LogDir,
    filter: FilterView,
    limit: usize,
    content: ContentView,
)
    requires
        first.active_exists,
        store::content_named(store::stored_views(first.files@), active_name) == Some(content),
    ensures
        ({
            let q = QueryView { filter, limit, cursor: None };
            let alone = log_file::page_of_file(content.lines, filter, limit);
            &&& query::answer(active_name, false, first, second, q) matches Ok(p)
            &&& p.events == alone.events
            &&& p.next_cursor == alone.next_cursor
            &&& p.next_cursor_line_offset == alone.next_cursor_line_offset
            &&& filter.until_line_offset is None ==> p.at_end == alone.at_end
        }),
{
    segment::law_archives_out_of_scope_are_invisible(active_name, first.listing, true);
    let segs = seq![segment::active_segment(active_name)];
    assert(query::segments_in(first, active_name, false) == Ok::<Seq<SegmentView>, LogError>(segs));
    let contents = store::contents_of(store::stored_views(first.files@), segs);
    let cap = filter.until_line_offset;
    assert(contents[0] == Some(content));
    resolve::lemma_active_index(segs, 0);
    assert(segs[0].is_active);
    assert(resolve::active_index(segs, 0) == 0);
    assert(resolve::scan_end(segs, contents, None, filter) == Some((0int, cap)));
    let hits = scan::hits_in(content.lines, filter, SegmentRef::Active, cap);
    assert(stream::hits_before(segs, contents, filter, 0, cap, 0) =~= Seq::<HitView>::empty());
    assert(stream::stream_hits(segs, contents, filter, 0, cap) =~= hits);
    let kept = page::last_n(hits, page::clamped(limit) as int);
    if kept.len() > 0 {
        let l = paging::lemma_hit_line(
            content.lines,
            filter,
            SegmentRef::Active,
            cap,
            content.lines.len() as int,
            hits.len() - kept.len(),
        );
        assert(kept[0] == hits[hits.len() - kept.len()]);
    }
}

// ---------------------------------------------------------------------------
// Pages and lookups
// ---------------------------------------------------------------------------

/// Every event on a page is one that the filter asks for, and a lookup of its
/// id finds an event: pages and lookups see the same stream.
pub proof fn law_events_on_a_page_can_be_found(
    segs: Seq<SegmentView>,
    contents: Seq<Option<ContentView>>,
    q: QueryView,
    k: int,
)
    requires
        contents.len() == segs.len(),
        query::attempt(segs, contents, q) matches Some(p) && 0 <= k < p.events.len(),
    ensures
        ({
            let e = query::attempt(segs, contents, q)->0.events[k];
            &&& filter::selects(q.filter, e)
            &&& query::newest_with_id(contents, e.id, contents.len() as int) matches Some(found)
                && found.id == e.id
        }),
{
    let f = q.filter;
    let (end, cap) = resolve::scan_end(segs, contents, q.cursor, f)->0;
    let hits = stream::stream_hits(segs, contents, f, end, cap);
    let kept = page::last_n(hits, page::clamped(q.limit) as int);
    let h = hits.len() - 1 - k;
    assert(kept[kept.len() - 1 - k] == hits[h]);
    let (i, l) = lemma_place_of_hit(segs, contents, f, end, cap, segs.len() as int, h);
    let e = hits[h].event;
    assert(query::attempt(segs, contents, q)->0.events[k] == e);
    assert(lines::carries(contents[i]->0.lines[l], e.id));
    query::law_lookup_finds_what_is_there(contents, e.id);
}

// ---------------------------------------------------------------------------
// Streams told from their lines
// ---------------------------------------------------------------------------

/// The matches of a scan, told from the lines of the stream. A line is among
/// them exactly when it lies in a segment that is not newer than the last one of
/// the scan and can be opened, ends below the cap if that segment is the last
/// one, and holds an event that the filter asks for. Each is there once, in
/// stream order, as the event stands in its line, with the segment it lies in and
/// the offset just past it.
pub proof fn law_scan_finds_every_match(
    segs: Seq<SegmentView>,
    contents: Seq<Option<ContentView>>,
    f: FilterView,
    end: int,
    cap: Option<u64>,
) -> (places: Seq<(int, int)>)
    ensures
        places.len() == stream::stream_hits(segs, contents, f, end, cap).len(),
        forall|a: int, b: int|
            0 <= a < b < places.len() ==> (#[trigger] places[a]).0 < (#[trigger] places[b]).0 || (
            places[a].0 == places[b].0 && places[a].1 < places[b].1),
        forall|k: int|
            0 <= k < places.len() ==> lines::event_of(
                contents[(#[trigger] places[k]).0]->0.lines[places[k].1],
            ) == Some(stream::stream_hits(segs, contents, f, end, cap)[k].event)
                && stream::stream_hits(segs, contents, f, end, cap)[k].source == (
            if segs[places[k].0].is_active {
                SegmentRef::Active
            } else {
                SegmentRef::Archive(segs[places[k].0].seq)
            }) && stream::stream_hits(segs, contents, f, end, cap)[k].end == lines::counted(
                lines::line_end(contents[places[k].0]->0.lines, places[k].1),
            ),
        forall|i: int, l: int|
            #![trigger places.contains((i, l))]
            places.contains((i, l)) <==> 0 <= i < segs.len() && i <= end && contents[i] is Some && 0
                <= l < contents[i]->0.lines.len() && (i == end ==> (cap matches Some(c)
                ==> lines::line_end(contents[i]->0.lines, l) < c)) && lines::event_of(
                contents[i]->0.lines[l],
            ) is Some && filter::selects(f, lines::event_of(contents[i]->0.lines[l])->0),
{
    lemma_places(segs, contents, f, end, cap, segs.len() as int)
}

proof fn lemma_places(
    segs: Seq<SegmentView>,
    contents: Seq<Option<ContentView>>,
    f: FilterView,
    end: int,
    cap: Option<u64>,
    n: int,
) -> (places: Seq<(int, int)>)
    requires
        0 <= n <= segs.len(),
    ensures
        places.len() == stream::hits_before(segs, contents, f, end, cap, n).len(),
        forall|a: int, b: int|
            0 <= a < b < places.len() ==> (#[trigger] places[a]).0 < (#[trigger] places[b]).0 || (
            places[a].0 == places[b].0 && places[a].1 < places[b].1),
        forall|k: int|
            0 <= k < places.len() ==> lines::event_of(
                contents[(#[trigger] places[k]).0]->0.lines[places[k].1],
            ) == Some(stream::hits_before(segs, contents, f, end, cap, n)[k].event)
                && stream::hits_before(segs, contents, f, end, cap, n)[k].source == (
            if segs[places[k].0].is_active {
                SegmentRef::Active
            } else {
                SegmentRef::Archive(segs[places[k].0].seq)
            }) && stream::hits_before(segs, contents, f, end, cap, n)[k].end == lines::counted(
                lines::line_end(contents[places[k].0]->0.lines, places[k].1),
            ),
        forall|i: int, l: int|
            #![trigger places.contains((i, l))]
            places.contains((i, l)) <==> 0 <= i < n && i <= end && contents[i] is Some && 0
                <= l < contents[i]->0.lines.len() && (i == end ==> (cap matches Some(c)
                ==> lines::line_end(contents[i]->0.lines, l) < c)) && lines::event_of(
                contents[i]->0.lines[l],
            ) is Some && filter::selects(f, lines::event_of(contents[i]->0.lines[l])->0),
    decreases n,
{
    if n == 0 {
        Seq::empty()
    } else {
        let before = lemma_places(segs, contents, f, end, cap, n - 1);
        let old_hits = stream::hits_before(segs, contents, f, end, cap, n - 1);
        let here = stream::segment_hits(segs, contents, f, end, cap, n - 1);
        let all = stream::hits_before(segs, contents, f, end, cap, n);
        assert(all =~= old_hits + here);
        if n - 1 <= end && contents[n - 1] is Some {
            let body = contents[n - 1]->0.lines;
            let source = segment::ref_of(segs[n - 1]);
            let on = scan::law_hits_are_the_matching_lines(
                body,
                f,
                source,
                cap_of(n - 1, end, cap),
            );
            let new = Seq::new(on.len(), |k: int| (n - 1, on[k]));
            let places = before + new;
            assert forall|k: int| 0 <= k < before.len() implies (#[trigger] before[k]).0 < n
                - 1 by {
                assert(before.contains((before[k].0, before[k].1)));
            }
            assert forall|a: int, b: int| 0 <= a < b < places.len() implies (
            #[trigger] places[a]).0 < (#[trigger] places[b]).0 || (places[a].0 == places[b].0
                && places[a].1 < places[b].1) by {
                if b < before.len() {
                    assert(places[a] == before[a] && places[b] == before[b]);
                } else if a < before.len() {
                    assert(places[a] == before[a]);
                    assert(places[b] == new[b - before.len()]);
                } else {
                    assert(on[a - before.len()] < on[b - before.len()]);
                }
            }
            assert forall|k: int| 0 <= k < places.len() implies lines::event_of(
                contents[(#[trigger] places[k]).0]->0.lines[places[k].1],
            ) == Some(all[k].event) && all[k].source == (if segs[places[k].0].is_active {
                SegmentRef::Active
            } else {
                SegmentRef::Archive(segs[places[k].0].seq)
            }) && all[k].end == lines::counted(
                lines::line_end(contents[places[k].0]->0.lines, places[k].1),
            ) by {
                if k < before.len() {
                    assert(places[k] == before[k]);
                    assert(all[k] == old_hits[k]);
                } else {
                    let h = k - before.len();
                    assert(all[k] == here[h]);
                    assert(places[k] == (n - 1, on[h]));
                    assert(lines::event_of(body[on[h]]) == Some(here[h].event));
                }
            }
            assert forall|i: int, l: int|
                #![trigger places.contains((i, l))]
                places.contains((i, l)) <==> 0 <= i < n && i <= end && contents[i] is Some && 0 <= l
                    < contents[i]->0.lines.len() && (i == end ==> (cap matches Some(c)
                    ==> lines::line_end(contents[i]->0.lines, l) < c)) && lines::event_of(
                    contents[i]->0.lines[l],
                ) is Some && filter::selects(f, lines::event_of(contents[i]->0.lines[l])->0) by {
                assert(before.contains((i, l)) ==> i < n - 1);
                if before.contains((i, l)) {
                    let k = choose|k: int| 0 <= k < before.len() && before[k] == (i, l);
                    assert(places[k] == (i, l));
                }
                if i == n - 1 && on.contains(l) {
                    let k = choose|k: int| 0 <= k < on.len() && on[k] == l;
                    assert(places[before.len() + k] == (i, l));
                }
                if places.contains((i, l)) {
                    let k = choose|k: int| 0 <= k < places.len() && places[k] == (i, l);
                    if k < before.len() {
                        assert(before[k] == (i, l));
                        assert(before.contains((i, l)));
                    } else {
                        assert(on[k - before.len()] == l);
                        assert(on.contains(l));
                    }
                }
            }
            places
        } else {
            assert(here.len() == 0);
            assert(all =~= old_hits);
            before
        }
    }
}

/// A page of a stream, told from its lines, for a scan that ends in segment
/// `end` at `cap`. The page holds the events of the last of the matching lines,
/// newest first, as many as the limit allows within the range that is served. Its
/// cursors are those of the oldest event on it. It is at its end exactly when it
/// holds the event of every matching line, or its oldest event lies in an archive
/// without a number; so a page at its end that can be addressed has every such
/// event.
pub proof fn law_page_of_a_stream(
    segs: Seq<SegmentView>,
    contents: Seq<Option<ContentView>>,
    q: QueryView,
    end: int,
    cap: Option<u64>,
) -> (places: Seq<(int, int)>)
    requires
        resolve::scan_end(segs, contents, q.cursor, q.filter) == Some((end, cap)),
    ensures
        forall|a: int, b: int|
            0 <= a < b < places.len() ==> (#[trigger] places[a]).0 < (#[trigger] places[b]).0 || (
            places[a].0 == places[b].0 && places[a].1 < places[b].1),
        forall|i: int, l: int|
            #![trigger places.contains((i, l))]
            places.contains((i, l)) <==> 0 <= i < segs.len() && i <= end && contents[i] is Some && 0
                <= l < contents[i]->0.lines.len() && (i == end ==> (cap matches Some(c)
                ==> lines::line_end(contents[i]->0.lines, l) < c)) && lines::event_of(
                contents[i]->0.lines[l],
            ) is Some && filter::selects(q.filter, lines::event_of(contents[i]->0.lines[l])->0),
        matches_in_stream(segs, contents, q).len() == places.len(),
        forall|k: int|
            0 <= k < places.len() ==> Some(#[trigger] matches_in_stream(segs, contents, q)[k])
                == lines::event_of(
                contents[places[places.len() - 1 - k].0]->0.lines[places[places.len() - 1 - k].1],
            ),
        ({
            let most = if q.limit < 1 {
                1
            } else if q.limit > 10_000 {
                10_000
            } else {
                q.limit as int
            };
            let n = if places.len() <= most {
                places.len() as int
            } else {
                most
            };
            let (i, l) = places[places.len() - n];
            let off = lines::counted(lines::line_end(contents[i]->0.lines, l));
            &&& query::attempt(segs, contents, q) matches Some(p)
            &&& p.events == matches_in_stream(segs, contents, q).take(n)
            &&& p.events.len() == n
            &&& n == 0 ==> p.next_cursor is None && p.next_cursor_line_offset is None
                && p.next_segment_cursor is None
            &&& n > 0 ==> p.next_cursor == Some((p.events[n - 1].timestamp, p.events[n - 1].id))
            &&& n > 0 && segs[i].is_active ==> p.next_cursor_line_offset == Some(off)
                && p.next_segment_cursor == Some(
                cursor::wire_of_cursor(
                    CursorView::Active { off, anchor: Some(p.events[n - 1].id) },
                ),
            )
            &&& n > 0 && !segs[i].is_active ==> p.next_cursor_line_offset is None
                && p.next_segment_cursor == match segs[i].seq {
                Some(seq) => Some(cursor::wire_of_cursor(CursorView::Archive { seq, off })),
                None => None,
            }
            &&& p.at_end <==> n == places.len() || (!segs[i].is_active && segs[i].seq is None)
        }),
{
    let f = q.filter;
    let hits = stream::stream_hits(segs, contents, f, end, cap);
    let places = law_scan_finds_every_match(segs, contents, f, end, cap);
    page::law_limit_is_brought_into_range(q.limit);
    let most = page::clamped(q.limit) as int;
    let all = matches_in_stream(segs, contents, q);
    let p = query::attempt(segs, contents, q)->0;
    page::law_stream_page(hits, most, 0);
    assert forall|k: int| 0 <= k < places.len() implies Some(#[trigger] all[k]) == lines::event_of(
        contents[places[places.len() - 1 - k].0]->0.lines[places[places.len() - 1 - k].1],
    ) by {
        let at = places[places.len() - 1 - k];
        assert(all[k] == hits[hits.len() - 1 - k].event);
    }
    assert forall|k: int| 0 <= k < p.events.len() implies #[trigger] p.events[k] == all[k] by {
        page::law_stream_page(hits, most, k);
    }
    assert(p.events =~= all.take(p.events.len() as int));
    if p.events.len() > 0 {
        let n = p.events.len() as int;
        let at = places[places.len() - n];
        page::law_stream_page(hits, most, n - 1);
        assert(hits[hits.len() - n].end == lines::counted(
            lines::line_end(contents[at.0]->0.lines, at.1),
        ));
    }
    places
}

/// Without a cursor and without an offset a query leaves out no event of the
/// stream that the filter asks for, in whichever segment it lies.
pub proof fn law_query_without_a_cursor_covers_the_stream(
    segs: Seq<SegmentView>,
    contents: Seq<Option<ContentView>>,
    q: QueryView,
    i: int,
    l: int,
)
    requires
        q.cursor is None,
        q.filter.until_line_offset is None,
        0 <= i < segs.len(),
        contents[i] is Some,
        0 <= l < contents[i]->0.lines.len(),
        lines::event_of(contents[i]->0.lines[l]) matches Some(e) && filter::selects(q.filter, e),
    ensures
        matches_in_stream(segs, contents, q).contains(
            lines::event_of(contents[i]->0.lines[l])->0,
        ),
        query::attempt(segs, contents, q) matches Some(p) && (p.at_end && (p.next_segment_cursor
            is Some || all_addressable(segs)) ==> p.events.contains(
            lines::event_of(contents[i]->0.lines[l])->0,
        )),
{
    resolve::lemma_active_index(segs, 0);
    let end = segs.len() - 1;
    let places = law_page_of_a_stream(segs, contents, q, end, None);
    assert(places.contains((i, l)));
    let k = choose|k: int| 0 <= k < places.len() && places[k] == (i, l);
    let all = matches_in_stream(segs, contents, q);
    let m = places.len() - 1 - k;
    assert(Some(all[m]) == lines::event_of(
        contents[places[places.len() - 1 - m].0]->0.lines[places[places.len() - 1 - m].1],
    ));
    let p = query::attempt(segs, contents, q)->0;
    if p.at_end && (p.next_segment_cursor is Some || all_addressable(segs)) {
        let n = p.events.len() as int;
        if n < places.len() {
            let at = places[places.len() - n];
            assert(places.contains((at.0, at.1)));
            assert(segs[at.0].is_active || segs[at.0].seq is Some);
        }
        assert(all.take(n) =~= all);
    }
}

/// A cursor whose event is carried once, on line `l` of segment `i`, resumes
/// right before that event, whatever offset the cursor carries: the lines with
/// anything on them that lie below the cap are exactly those before it. The
/// matches it leads to are exactly the matching lines before that event, so no
/// page it gives holds that event or a newer one.
pub proof fn law_active_cursor_resumes_before_its_event(
    segs: Seq<SegmentView>,
    contents: Seq<Option<ContentView>>,
    q: QueryView,
    off: u64,
    id: Seq<char>,
    i: int,
    l: int,
) -> (places: Seq<(int, int)>)
    requires
        contents.len() == segs.len(),
        store::contents_fit(contents),
        carried_once(contents, id, i, l),
        q.cursor == Some(CursorView::Active { off, anchor: Some(id) }),
    ensures
        resolve::resolved(
            segs,
            contents,
            CursorView::Active { off, anchor: Some(id) },
        ) matches Some((j, cap)) && j == i && forall|m: int|
            0 <= m < contents[i]->0.lines.len() && !lines::is_blank(
                #[trigger] contents[i]->0.lines[m],
            ) ==> (lines::line_end(contents[i]->0.lines, m) < cap <==> m < l),
        forall|a: int, b: int|
            0 <= a < b < places.len() ==> (#[trigger] places[a]).0 < (#[trigger] places[b]).0 || (
            places[a].0 == places[b].0 && places[a].1 < places[b].1),
        forall|j: int, m: int|
            #![trigger places.contains((j, m))]
            places.contains((j, m)) <==> 0 <= j < segs.len() && contents[j] is Some && 0 <= m
                < contents[j]->0.lines.len() && (j < i || (j == i && m < l)) && lines::event_of(
                contents[j]->0.lines[m],
            ) is Some && filter::selects(q.filter, lines::event_of(contents[j]->0.lines[m])->0),
        matches_in_stream(segs, contents, q).len() == places.len(),
        forall|k: int|
            0 <= k < places.len() ==> Some(#[trigger] matches_in_stream(segs, contents, q)[k])
                == lines::event_of(
                contents[places[places.len() - 1 - k].0]->0.lines[places[places.len() - 1 - k].1],
            ),
        query::attempt(segs, contents, q) matches Some(p) && p.events.len() <= places.len()
            && p.events == matches_in_stream(segs, contents, q).take(p.events.len() as int),
        query::attempt(segs, contents, q) matches Some(p) && forall|k: int|
            0 <= k < p.events.len() ==> (#[trigger] p.events[k]).id != id,
{
    let c = CursorView::Active { off, anchor: Some(id) };
    let body = contents[i]->0.lines;
    resolve::law_anchored_cursor_resolves_before_its_event(segs, contents, off, id);
    assert(lines::carries(contents[i]->0.lines[l], id));
    let (j, cap) = resolve::resolved(segs, contents, c)->0;
    let at = choose|at: int|
        {
            &&& 0 <= at < contents[j]->0.lines.len()
            &&& lines::carries(#[trigger] contents[j]->0.lines[at], id)
            &&& cap <= lines::line_end(contents[j]->0.lines, at)
            &&& forall|m: int|
                0 <= m < at && !lines::is_blank(#[trigger] contents[j]->0.lines[m])
                    ==> lines::line_end(contents[j]->0.lines, m) < cap
        };
    assert(j == i && at == l);
    assert forall|m: int| 0 <= m < body.len() && !lines::is_blank(#[trigger] body[m]) implies (
    lines::line_end(body, m) < cap <==> m < l) by {
        if m >= l {
            lines::lemma_offset_monotone(body, l + 1, m + 1);
        }
    }
    let places = law_page_of_a_stream(segs, contents, q, i, Some(cap));
    assert forall|a: int, m: int|
        #![trigger places.contains((a, m))]
        places.contains((a, m)) <==> 0 <= a < segs.len() && contents[a] is Some && 0 <= m
            < contents[a]->0.lines.len() && (a < i || (a == i && m < l)) && lines::event_of(
            contents[a]->0.lines[m],
        ) is Some && filter::selects(q.filter, lines::event_of(contents[a]->0.lines[m])->0) by {
        if a == i && 0 <= m < body.len() && lines::event_of(body[m]) is Some {
            assert(!lines::is_blank(body[m]));
        }
    }
    let p = query::attempt(segs, contents, q)->0;
    let all = matches_in_stream(segs, contents, q);
    assert forall|k: int| 0 <= k < p.events.len() implies (#[trigger] p.events[k]).id != id by {
        let (a, m) = places[places.len() - 1 - k];
        assert(places.contains((a, m)));
        assert(p.events[k] == all[k]);
        assert(Some(all[k]) == lines::event_of(contents[a]->0.lines[m]));
        if p.events[k].id == id {
            assert(lines::carries(contents[a]->0.lines[m], id));
        }
    }
    places
}

/// A query goes on with the cursor that a token stands for, and changes nothing
/// else.
pub proof fn law_continued_query(q: QueryView, token: Seq<char>)
    ensures
        continued(q, token).filter == q.filter,
        continued(q, token).limit == q.limit,
        continued(q, token).cursor == cursor::cursor_of_wire(token),
{
}

/// A cursor that addresses what is gone leads to no match.
pub proof fn law_lost_cursor_matches_nothing(
    segs: Seq<SegmentView>,
    contents: Seq<Option<ContentView>>,
    q: QueryView,
)
    ensures
        query::attempt(segs, contents, q) is None ==> matches_in_stream(segs, contents, q).len()
            == 0,
{
}

}
