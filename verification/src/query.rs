//! Queries over the active file and every retained archive.

use vstd::prelude::*;

use crate::anchor;
use crate::cursor;
use crate::cursor::{CursorView, SegmentCursor};
use crate::error::LogError;
use crate::event;
use crate::event::{EventView, LogEvent};
use crate::log_file;
use crate::log_file::IdLookup;
use crate::filter::{FilterView, LogFilter};
use crate::lines;
use crate::lines::{ContentView, LineView, SegmentContent};
use crate::page;
use crate::page::{LogPage, PageView};
use crate::resolve;
use crate::scan::LineStep;
use crate::segment;
use crate::segment::{SegmentMeta, SegmentView};
use crate::store;
use crate::store::{LogDir, StoredView};
use crate::stream;
use crate::text;

verus! {

// ---------------------------------------------------------------------------
// What a page query answers
// ---------------------------------------------------------------------------

/// The segments that a query over a directory sees.
pub open spec fn segments_in(
    dir: LogDir,
    active_name: Option<Seq<char>>,
    reads_archives: bool,
) -> Result<Seq<SegmentView>, LogError> {
    segment::enumerated(active_name, reads_archives, dir.listing, dir.active_exists)
}

/// What is asked of the log.
pub struct QueryView {
    pub filter: FilterView,
    pub limit: usize,
    pub cursor: Option<CursorView>,
}

/// The page of one attempt over `segs`, whose contents are `contents`. `None`
/// when the cursor addresses history that is no longer present.
pub open spec fn attempt(
    segs: Seq<SegmentView>,
    contents: Seq<Option<ContentView>>,
    q: QueryView,
) -> Option<PageView> {
    match resolve::scan_end(segs, contents, q.cursor, q.filter) {
        Some((end, cap)) => Some(
            page::stream_page(
                stream::stream_hits(segs, contents, q.filter, end, cap),
                page::clamped(q.limit) as int,
            ),
        ),
        None => None,
    }
}

/// The page of the last attempt.
pub open spec fn last_answer(
    segs: Seq<SegmentView>,
    files: Seq<StoredView>,
    q: QueryView,
) -> PageView {
    match attempt(segs, store::contents_of(files, segs), q) {
        Some(p) => p,
        None => page::empty_page(),
    }
}

/// The answer after listing the directory again: when segments have appeared
/// since `known` were seen, the page is read anew.
pub open spec fn answer_after_relisting(
    known: int,
    seen: PageView,
    listed: Result<Seq<SegmentView>, LogError>,
    files: Seq<StoredView>,
    q: QueryView,
) -> Result<PageView, LogError> {
    match listed {
        Err(e) => Err(e),
        Ok(segs) => if segs.len() > known {
            Ok(last_answer(segs, files, q))
        } else {
            Ok(seen)
        },
    }
}

/// The answer after the first attempt. A page that claims to be complete, with
/// archives in scope, is held against a second listing: a rotation between
/// listing and scan makes a page claim that falsely.
pub open spec fn answer_after_attempt(
    known: int,
    first: Option<PageView>,
    reads_archives: bool,
    relisted: Result<Seq<SegmentView>, LogError>,
    files: Seq<StoredView>,
    q: QueryView,
) -> Result<PageView, LogError> {
    match first {
        None => Ok(page::empty_page()),
        Some(p) => if reads_archives && p.at_end {
            answer_after_relisting(known, p, relisted, files, q)
        } else {
            Ok(p)
        },
    }
}

/// The answer to a query that first finds the directory as `first`, and as
/// `second` when it looks again.
pub open spec fn answer(
    active_name: Option<Seq<char>>,
    reads_archives: bool,
    first: LogDir,
    second: LogDir,
    q: QueryView,
) -> Result<PageView, LogError> {
    match segments_in(first, active_name, reads_archives) {
        Err(e) => Err(e),
        Ok(segs) => answer_after_attempt(
            segs.len() as int,
            attempt(segs, store::contents_of(store::stored_views(first.files@), segs), q),
            reads_archives,
            segments_in(second, active_name, reads_archives),
            store::stored_views(second.files@),
            q,
        ),
    }
}

// ---------------------------------------------------------------------------
// A page query step by step
// ---------------------------------------------------------------------------

/// What to do next to answer a page query.
#[derive(Debug)]
pub enum QueryStage {
    /// List the segments.
    List,
    /// Read a page from these segments.
    Fetch(Vec<SegmentMeta>),
    /// List the segments again: `page` was read when `known` of them were seen.
    Relist { page: LogPage, known: usize },
    /// Read a page from these segments, for the last time.
    Refetch(Vec<SegmentMeta>),
    /// The answer.
    Done(Result<LogPage, LogError>),
}

/// What reading a page gave.
#[derive(Debug)]
pub enum Fetched {
    /// The cursor addresses history that is no longer present.
    AtEnd(LogPage),
    /// The page of a scan.
    Scanned(LogPage),
}

/// A stage as a mathematical value.
pub enum StageView {
    List,
    Fetch(Seq<SegmentView>),
    Relist { page: PageView, known: int },
    Refetch(Seq<SegmentView>),
    Done(Result<PageView, LogError>),
}

/// What reading a page gave, as a mathematical value.
pub enum FetchedView {
    AtEnd(PageView),
    Scanned(PageView),
}

impl View for QueryStage {
    type V = StageView;

    open spec fn view(&self) -> StageView {
        match self {
            QueryStage::List => StageView::List,
            QueryStage::Fetch(segs) => StageView::Fetch(segment::segment_views(segs@)),
            QueryStage::Relist { page, known } => StageView::Relist {
                page: page@,
                known: *known as int,
            },
            QueryStage::Refetch(segs) => StageView::Refetch(segment::segment_views(segs@)),
            QueryStage::Done(result) => StageView::Done(log_file::page_result(*result)),
        }
    }
}

impl View for Fetched {
    type V = FetchedView;

    open spec fn view(&self) -> FetchedView {
        match self {
            Fetched::AtEnd(p) => FetchedView::AtEnd(p@),
            Fetched::Scanned(p) => FetchedView::Scanned(p@),
        }
    }
}

/// The outcome of a listing as a mathematical value.
pub open spec fn listing_result(listed: Result<Vec<SegmentMeta>, LogError>) -> Result<
    Seq<SegmentView>,
    LogError,
> {
    match listed {
        Ok(segs) => Ok(segment::segment_views(segs@)),
        Err(e) => Err(e),
    }
}

/// The stage after a listing.
pub open spec fn stage_after_listing(
    stage: StageView,
    listed: Result<Seq<SegmentView>, LogError>,
) -> StageView {
    match (stage, listed) {
        (StageView::List, Ok(segs)) => StageView::Fetch(segs),
        (StageView::Relist { page, known }, Ok(segs)) => if segs.len() > known {
            StageView::Refetch(segs)
        } else {
            StageView::Done(Ok(page))
        },
        (StageView::List, Err(e)) => StageView::Done(Err(e)),
        (StageView::Relist { .. }, Err(e)) => StageView::Done(Err(e)),
        _ => stage,
    }
}

/// The stage after reading a page.
pub open spec fn stage_after_fetch(
    stage: StageView,
    reads_archives: bool,
    fetched: FetchedView,
) -> StageView {
    match (stage, fetched) {
        (StageView::Fetch(segs), FetchedView::Scanned(page)) => if reads_archives && page.at_end {
            StageView::Relist { page, known: segs.len() as int }
        } else {
            StageView::Done(Ok(page))
        },
        (StageView::Fetch(_), FetchedView::AtEnd(page)) => StageView::Done(Ok(page)),
        (StageView::Refetch(_), FetchedView::Scanned(page)) => StageView::Done(Ok(page)),
        (StageView::Refetch(_), FetchedView::AtEnd(page)) => StageView::Done(Ok(page)),
        _ => stage,
    }
}

impl QueryStage {
    /// Go on after listing the segments. In a stage that does not ask for a
    /// listing nothing changes.
    pub fn listed(self, segs: Result<Vec<SegmentMeta>, LogError>) -> (next: Self)
        ensures
            next@ == stage_after_listing(self@, listing_result(segs)),
    {
        match (self, segs) {
            (QueryStage::List, Ok(segs)) => QueryStage::Fetch(segs),
            (QueryStage::List, Err(e)) => QueryStage::Done(Err(e)),
            (QueryStage::Relist { page, known }, Ok(segs)) => {
                if segs.len() > known {
                    QueryStage::Refetch(segs)
                } else {
                    QueryStage::Done(Ok(page))
                }
            },
            (QueryStage::Relist { .. }, Err(e)) => QueryStage::Done(Err(e)),
            (stage, _) => stage,
        }
    }

    /// Go on after reading a page. In a stage that does not ask for a page
    /// nothing changes.
    pub fn fetched(self, reads_archives: bool, fetched: Fetched) -> (next: Self)
        ensures
            next@ == stage_after_fetch(self@, reads_archives, fetched@),
    {
        match (self, fetched) {
            (QueryStage::Fetch(segs), Fetched::Scanned(page)) => {
                if reads_archives && page.at_end {
                    QueryStage::Relist { page, known: segs.len() }
                } else {
                    QueryStage::Done(Ok(page))
                }
            },
            (QueryStage::Fetch(_), Fetched::AtEnd(page)) => QueryStage::Done(Ok(page)),
            (QueryStage::Refetch(_), Fetched::Scanned(page)) => QueryStage::Done(Ok(page)),
            (QueryStage::Refetch(_), Fetched::AtEnd(page)) => QueryStage::Done(Ok(page)),
            (stage, _) => stage,
        }
    }
}

// ---------------------------------------------------------------------------
// A page query over a directory
// ---------------------------------------------------------------------------

/// What an attempt gives, as it is handed to `QueryStage::fetched`.
pub open spec fn fetched_of(page: Option<PageView>) -> FetchedView {
    match page {
        Some(p) => FetchedView::Scanned(p),
        None => FetchedView::AtEnd(page::empty_page()),
    }
}

/// List the segments of the stream as found in `dir`.
pub fn list_segments(active_name: &Option<String>, reads_archives: bool, dir: &LogDir) -> (segs:
    Result<Vec<SegmentMeta>, LogError>)
    ensures
        listing_result(segs) == segments_in(*dir, text::text_view(*active_name), reads_archives),
{
    segment::enumerate_segment_metas(
        active_name,
        reads_archives,
        &dir.listing,
        dir.active_exists,
    )
}

/// Read a page from `segs` as found in `dir`, with the limit brought into the
/// range that is served.
pub fn fetch_page(
    segs: &Vec<SegmentMeta>,
    dir: &LogDir,
    filter: &LogFilter,
    limit: usize,
    segment_cursor: Option<&SegmentCursor>,
) -> (fetched: Fetched)
    ensures
        fetched@ == fetched_of(
            attempt(
                segment::segment_views(segs@),
                store::contents_of(
                    store::stored_views(dir.files@),
                    segment::segment_views(segs@),
                ),
                (QueryView {
                    filter: filter@,
                    limit,
                    cursor: cursor::cursor_ref_view(segment_cursor),
                }),
            ),
        ),
{
    match resolve::resolve_or_at_end(segs, dir, segment_cursor, filter) {
        Ok((end, cap)) => Fetched::Scanned(
            stream::do_scan(segs, dir, filter, page::clamp_limit(limit), end, cap),
        ),
        Err(at_end_page) => Fetched::AtEnd(at_end_page),
    }
}

/// The answer that is reached from a stage.
spec fn answer_from(
    stage: StageView,
    active_name: Option<Seq<char>>,
    reads_archives: bool,
    first: LogDir,
    second: LogDir,
    q: QueryView,
) -> Result<PageView, LogError> {
    let relisted = segments_in(second, active_name, reads_archives);
    let files = store::stored_views(second.files@);
    match stage {
        StageView::List => answer(active_name, reads_archives, first, second, q),
        StageView::Fetch(segs) => answer_after_attempt(
            segs.len() as int,
            attempt(segs, store::contents_of(store::stored_views(first.files@), segs), q),
            reads_archives,
            relisted,
            files,
            q,
        ),
        StageView::Relist { page, known } => answer_after_relisting(
            known,
            page,
            relisted,
            files,
            q,
        ),
        StageView::Refetch(segs) => Ok(last_answer(segs, files, q)),
        StageView::Done(result) => result,
    }
}

/// How many steps are left at most.
spec fn steps_left(stage: StageView) -> int {
    match stage {
        StageView::List => 4,
        StageView::Fetch(_) => 3,
        StageView::Relist { .. } => 2,
        StageView::Refetch(_) => 1,
        StageView::Done(_) => 0,
    }
}

/// Read one page across the active file and every retained archive.
///
/// `first` is the directory as the query finds it, `second` as it finds it
/// when it looks again. A rotation between listing and scan can make a page
/// claim to be complete while the rotated-away content is absent. So a page
/// that claims to be complete, with archives in scope, is held against a
/// second listing, and read anew when segments have appeared. A second
/// rotation inside that retry is accepted; at that point the rotated content
/// appears on the next request.
pub fn query_log_page(
    active_name: &Option<String>,
    reads_archives: bool,
    first: &LogDir,
    second: &LogDir,
    filter: &LogFilter,
    limit: usize,
    segment_cursor: Option<&SegmentCursor>,
) -> (result: Result<LogPage, LogError>)
    ensures
        log_file::page_result(result) == answer(
            text::text_view(*active_name),
            reads_archives,
            *first,
            *second,
            (QueryView {
                filter: filter@,
                limit,
                cursor: cursor::cursor_ref_view(segment_cursor),
            }),
        ),
{
    let ghost q = QueryView {
        filter: filter@,
        limit,
        cursor: cursor::cursor_ref_view(segment_cursor),
    };
    let ghost name = text::text_view(*active_name);
    let mut stage: QueryStage = QueryStage::List;
    loop
        invariant
            q == (QueryView {
                filter: filter@,
                limit,
                cursor: cursor::cursor_ref_view(segment_cursor),
            }),
            name == text::text_view(*active_name),
            answer_from(stage@, name, reads_archives, *first, *second, q) == answer(
                name,
                reads_archives,
                *first,
                *second,
                q,
            ),
        decreases steps_left(stage@),
    {
        if let QueryStage::Done(result) = stage {
            return result;
        }
        stage = match &stage {
            QueryStage::List => stage.listed(list_segments(active_name, reads_archives, first)),
            QueryStage::Fetch(segs) => {
                let fetched: Fetched = fetch_page(segs, first, filter, limit, segment_cursor);
                stage.fetched(reads_archives, fetched)
            },
            QueryStage::Relist { .. } => stage.listed(
                list_segments(active_name, reads_archives, second),
            ),
            QueryStage::Refetch(segs) => {
                let fetched: Fetched = fetch_page(segs, second, filter, limit, segment_cursor);
                stage.fetched(reads_archives, fetched)
            },
            QueryStage::Done(_) => stage,
        };
    }
}

// ---------------------------------------------------------------------------
// Looking an event up
// ---------------------------------------------------------------------------

/// The first event with this id in a segment.
pub open spec fn first_with_id(content: Option<ContentView>, id: Seq<char>) -> Option<EventView> {
    match content {
        Some(c) => {
            let i = anchor::first_carrier(c.lines, id, 0);
            if i < c.lines.len() {
                lines::event_of(c.lines[i])
            } else {
                None
            }
        },
        None => None,
    }
}

/// The event with this id in the newest of the first `n` segments that holds
/// one.
pub open spec fn newest_with_id(
    contents: Seq<Option<ContentView>>,
    id: Seq<char>,
    n: int,
) -> Option<EventView>
    decreases n,
{
    if n <= 0 {
        None
    } else {
        match first_with_id(contents[n - 1], id) {
            Some(e) => Some(e),
            None => newest_with_id(contents, id, n - 1),
        }
    }
}

/// What looking an id up across the segments of a directory gives.
pub open spec fn found_across(
    active_name: Option<Seq<char>>,
    reads_archives: bool,
    dir: LogDir,
    id: Seq<char>,
) -> Result<Option<EventView>, LogError> {
    match segments_in(dir, active_name, reads_archives) {
        Ok(segs) => Ok(
            newest_with_id(
                store::contents_of(store::stored_views(dir.files@), segs),
                id,
                segs.len() as int,
            ),
        ),
        Err(e) => Err(e),
    }
}

/// The first event with this id in a segment. One that cannot be opened is
/// skipped, and one whose read fails counts with the lines before that.
pub fn find_in_segment(content: Option<&SegmentContent>, id: &str) -> (found: Option<LogEvent>)
    ensures
        event::event_view(found) == first_with_id(lines::content_view(content), id@),
{
    let body: &SegmentContent = match content {
        Some(c) => c,
        None => {
            return None;
        },
    };
    let ghost segment: Seq<LineView> = body@.lines;
    let mut lookup: IdLookup = IdLookup::new(id);
    let mut i: usize = 0;
    while i < body.lines.len()
        invariant
            i <= segment.len(),
            content == Some(body),
            segment == body@.lines,
            segment.len() == body.lines@.len(),
            lookup.id@ == id@,
            lookup.found is None,
            forall|j: int| 0 <= j < i ==> !lines::carries(#[trigger] segment[j], id@),
        decreases body.lines@.len() - i,
    {
        let line = &body.lines[i];
        assert(segment[i as int] == line@);
        if let LineStep::Decode(_) = lookup.offer_line(line.text.as_str()) {
            lookup.offer_event(event::copy_event(&line.event));
        }
        if lookup.found.is_some() {
            proof {
                anchor::lemma_first_carrier_at(segment, id@, i as int);
            }
            return lookup.found;
        }
        i += 1;
    }
    proof {
        anchor::lemma_first_carrier_at(segment, id@, i as int);
    }
    None
}

/// Find one event by id across the active file and every retained archive,
/// newest source first.
///
/// The outcome is `Ok(None)` when no segment holds the id. A segment that
/// cannot be read is skipped rather than failing the lookup, so one unreadable
/// file does not hide an event that another segment still has.
pub fn find_event_across_segments(
    active_name: &Option<String>,
    reads_archives: bool,
    dir: &LogDir,
    id: &str,
) -> (result: Result<Option<LogEvent>, LogError>)
    ensures
        log_file::lookup_result(result) == found_across(
            text::text_view(*active_name),
            reads_archives,
            *dir,
            id@,
        ),
{
    let segs: Vec<SegmentMeta> = match list_segments(active_name, reads_archives, dir) {
        Ok(segs) => segs,
        Err(e) => {
            return Err(e);
        },
    };
    let ghost views = segment::segment_views(segs@);
    let ghost contents = store::contents_of(store::stored_views(dir.files@), views);
    let mut next: Option<usize> = resolve::newest(segs.len());
    loop
        invariant
            views == segment::segment_views(segs@),
            contents == store::contents_of(store::stored_views(dir.files@), views),
            Ok::<Seq<SegmentView>, LogError>(views) == segments_in(
                *dir,
                text::text_view(*active_name),
                reads_archives,
            ),
            next matches Some(i) ==> i < segs@.len(),
            newest_with_id(contents, id@, segs@.len() as int) == newest_with_id(
                contents,
                id@,
                match next {
                    Some(i) => i + 1,
                    None => 0,
                },
            ),
        decreases
                (match next {
                    Some(i) => i + 1,
                    None => 0,
                }),
    {
        let i: usize = match next {
            Some(i) => i,
            None => {
                return Ok(None);
            },
        };
        assert(views[i as int] == segs@[i as int]@);
        let found: Option<LogEvent> = find_in_segment(dir.open_segment(&segs[i]), id);
        if found.is_some() {
            return Ok(found);
        }
        next = resolve::older(i);
    }
}

// ---------------------------------------------------------------------------
// Laws
// ---------------------------------------------------------------------------

/// A directory that rests needs no second look: the answer is the page of one
/// attempt, or an empty page when the cursor addresses what is gone.
pub proof fn law_resting_directory_is_read_once(
    active_name: Option<Seq<char>>,
    reads_archives: bool,
    dir: LogDir,
    q: QueryView,
)
    ensures
        answer(active_name, reads_archives, dir, dir, q) == (match segments_in(
            dir,
            active_name,
            reads_archives,
        ) {
            Ok(segs) => Ok(last_answer(segs, store::stored_views(dir.files@), q)),
            Err(e) => Err(e),
        }),
{
}

/// When a rotation lands between listing and scan, so that the page claims to
/// be complete and a second listing shows more segments, the answer is the
/// page over those.
pub proof fn law_new_segments_are_read(
    active_name: Option<Seq<char>>,
    first: LogDir,
    second: LogDir,
    q: QueryView,
    segs: Seq<SegmentView>,
    more: Seq<SegmentView>,
)
    requires
        segments_in(first, active_name, true) == Ok::<Seq<SegmentView>, LogError>(segs),
        segments_in(second, active_name, true) == Ok::<Seq<SegmentView>, LogError>(more),
        more.len() > segs.len(),
        attempt(
            segs,
            store::contents_of(store::stored_views(first.files@), segs),
            q,
        ) matches Some(p) && p.at_end,
    ensures
        answer(active_name, true, first, second, q) == Ok::<PageView, LogError>(
            last_answer(more, store::stored_views(second.files@), q),
        ),
{
}

/// Archives that are out of scope have no influence on the answer.
pub proof fn law_archives_out_of_scope_do_not_matter(
    active_name: Option<Seq<char>>,
    first: LogDir,
    second: LogDir,
    other: LogDir,
    q: QueryView,
)
    requires
        other.active_exists == first.active_exists,
        content_is_same(active_name, first, other),
    ensures
        answer(active_name, false, first, second, q) == answer(
            active_name,
            false,
            other,
            second,
            q,
        ),
{
    let segs = segments_in(first, active_name, false)->Ok_0;
    segment::law_archives_out_of_scope_are_invisible(
        active_name,
        first.listing,
        first.active_exists,
    );
    segment::law_archives_out_of_scope_are_invisible(
        active_name,
        other.listing,
        other.active_exists,
    );
    assert(store::contents_of(store::stored_views(first.files@), segs) =~= store::contents_of(
        store::stored_views(other.files@),
        segs,
    ));
}

/// Opening the active file gives the same in both directories.
pub open spec fn content_is_same(
    active_name: Option<Seq<char>>,
    first: LogDir,
    other: LogDir,
) -> bool {
    store::content_named(store::stored_views(first.files@), active_name)
        == store::content_named(store::stored_views(other.files@), active_name)
}

/// A cursor into an archive that is gone is answered with an empty page that
/// is at its end, never with another position.
pub proof fn law_pruned_archive_is_the_end(
    active_name: Option<Seq<char>>,
    reads_archives: bool,
    first: LogDir,
    second: LogDir,
    q: QueryView,
    segs: Seq<SegmentView>,
    seq: u64,
    off: u64,
)
    requires
        segments_in(first, active_name, reads_archives) == Ok::<Seq<SegmentView>, LogError>(segs),
        forall|i: int| 0 <= i < segs.len() ==> (#[trigger] segs[i]).seq != Some(seq),
        q.cursor == Some(CursorView::Archive { seq, off }),
    ensures
        answer(active_name, reads_archives, first, second, q) == Ok::<PageView, LogError>(
            page::empty_page(),
        ),
{
    resolve::lemma_numbered_index(segs, seq, 0);
}

/// No line of any segment carries `id`.
pub open spec fn carried_nowhere(contents: Seq<Option<ContentView>>, id: Seq<char>) -> bool {
    forall|i: int, l: int|
        #![trigger contents[i]->0.lines[l]]
        0 <= i < contents.len() && contents[i] is Some && 0 <= l < contents[i]->0.lines.len()
            ==> !lines::carries(contents[i]->0.lines[l], id)
}

proof fn lemma_no_anchor(contents: Seq<Option<ContentView>>, id: Seq<char>, n: int)
    requires
        carried_nowhere(contents, id),
        n <= contents.len(),
    ensures
        resolve::newest_anchor(contents, id, n) is None,
        newest_with_id(contents, id, n) is None,
    decreases n,
{
    if n > 0 {
        lemma_no_anchor(contents, id, n - 1);
        if contents[n - 1] is Some {
            let body = contents[n - 1]->0.lines;
            anchor::lemma_first_carrier(body, id, 0);
            let l = anchor::first_carrier(body, id, 0);
            if l < body.len() {
                assert(lines::carries(contents[n - 1]->0.lines[l], id));
            }
        }
    }
}

/// A cursor whose event was rotated out and then pruned is answered with an
/// empty page that is at its end.
pub proof fn law_pruned_event_is_the_end(
    active_name: Option<Seq<char>>,
    reads_archives: bool,
    first: LogDir,
    second: LogDir,
    q: QueryView,
    segs: Seq<SegmentView>,
    off: u64,
    id: Seq<char>,
)
    requires
        segments_in(first, active_name, reads_archives) == Ok::<Seq<SegmentView>, LogError>(segs),
        carried_nowhere(store::contents_of(store::stored_views(first.files@), segs), id),
        q.cursor == Some(CursorView::Active { off, anchor: Some(id) }),
    ensures
        answer(active_name, reads_archives, first, second, q) == Ok::<PageView, LogError>(
            page::empty_page(),
        ),
{
    let contents = store::contents_of(store::stored_views(first.files@), segs);
    resolve::lemma_active_index(segs, 0);
    lemma_no_anchor(contents, id, segs.len() as int);
    let a = resolve::active_index(segs, 0);
    if a < segs.len() && anchor::content_anchored_at(contents[a], off as int, id) {
        let body = contents[a]->0.lines;
        let m = choose|m: int| #[trigger]
            anchor::is_boundary_line(body, off as int, m) && lines::carries(body[m], id);
        assert(lines::carries(contents[a]->0.lines[m], id));
    }
}

/// A lookup gives an event with the id that was asked for, and it gives one
/// exactly when some segment of the stream holds one.
pub proof fn law_lookup_finds_what_is_there(
    contents: Seq<Option<ContentView>>,
    id: Seq<char>,
)
    ensures
        newest_with_id(contents, id, contents.len() as int) matches Some(e) ==> e.id == id,
        newest_with_id(contents, id, contents.len() as int) is None <==> carried_nowhere(
            contents,
            id,
        ),
{
    lemma_lookup(contents, id, contents.len() as int);
    if carried_nowhere(contents, id) {
        lemma_no_anchor(contents, id, contents.len() as int);
    }
}

proof fn lemma_lookup(contents: Seq<Option<ContentView>>, id: Seq<char>, n: int)
    requires
        n <= contents.len(),
    ensures
        newest_with_id(contents, id, n) matches Some(e) ==> e.id == id,
        newest_with_id(contents, id, n) is None ==> forall|i: int, l: int|
            #![trigger contents[i]->0.lines[l]]
            0 <= i < n && contents[i] is Some && 0 <= l < contents[i]->0.lines.len()
                ==> !lines::carries(contents[i]->0.lines[l], id),
    decreases n,
{
    if n > 0 {
        lemma_lookup(contents, id, n - 1);
        if contents[n - 1] is Some {
            anchor::lemma_first_carrier(contents[n - 1]->0.lines, id, 0);
        }
    }
}

/// What a lookup across segments gives is an event of the log as it stands
/// there: the whole event of a line that carries the id, in a segment such that
/// no newer one carries it, and no line before it in its own segment does. It
/// gives nothing exactly when no line of any segment carries the id.
pub proof fn law_lookup_gives_the_logged_event(
    contents: Seq<Option<ContentView>>,
    id: Seq<char>,
    n: int,
)
    requires
        0 <= n <= contents.len(),
    ensures
        match newest_with_id(contents, id, n) {
            Some(e) => exists|i: int, l: int|
                #![trigger contents[i]->0.lines[l]]
                {
                    &&& 0 <= i < n
                    &&& contents[i] is Some
                    &&& 0 <= l < contents[i]->0.lines.len()
                    &&& lines::event_of(contents[i]->0.lines[l]) == Some(e)
                    &&& e.id == id
                    &&& forall|m: int|
                        0 <= m < l ==> !lines::carries(#[trigger] contents[i]->0.lines[m], id)
                    &&& forall|j: int, m: int|
                        #![trigger contents[j]->0.lines[m]]
                        i < j < n && contents[j] is Some && 0 <= m < contents[j]->0.lines.len()
                            ==> !lines::carries(contents[j]->0.lines[m], id)
                },
            None => forall|j: int, m: int|
                #![trigger contents[j]->0.lines[m]]
                0 <= j < n && contents[j] is Some && 0 <= m < contents[j]->0.lines.len()
                    ==> !lines::carries(contents[j]->0.lines[m], id),
        },
    decreases n,
{
    if n > 0 {
        law_lookup_gives_the_logged_event(contents, id, n - 1);
        if contents[n - 1] is Some {
            let body = contents[n - 1]->0.lines;
            anchor::lemma_first_carrier(body, id, 0);
            let l = anchor::first_carrier(body, id, 0);
            if l < body.len() {
                assert(lines::event_of(contents[n - 1]->0.lines[l]) == newest_with_id(
                    contents,
                    id,
                    n,
                ));
                assert(forall|m: int|
                    0 <= m < l ==> !lines::carries(
                        #[trigger] contents[n - 1]->0.lines[m],
                        id,
                    ));
            } else {
                assert(forall|m: int|
                    0 <= m < body.len() ==> !lines::carries(
                        #[trigger] contents[n - 1]->0.lines[m],
                        id,
                    ));
                if let Some(e) = newest_with_id(contents, id, n - 1) {
                    let (i, k) = choose|i: int, k: int|
                        #![trigger contents[i]->0.lines[k]]
                        {
                            &&& 0 <= i < n - 1
                            &&& contents[i] is Some
                            &&& 0 <= k < contents[i]->0.lines.len()
                            &&& lines::event_of(contents[i]->0.lines[k]) == Some(e)
                            &&& e.id == id
                            &&& forall|m: int|
                                0 <= m < k ==> !lines::carries(
                                    #[trigger] contents[i]->0.lines[m],
                                    id,
                                )
                            &&& forall|j: int, m: int|
                                #![trigger contents[j]->0.lines[m]]
                                i < j < n - 1 && contents[j] is Some && 0 <= m
                                    < contents[j]->0.lines.len() ==> !lines::carries(
                                    contents[j]->0.lines[m],
                                    id,
                                )
                        };
                    assert(lines::event_of(contents[i]->0.lines[k]) == Some(e));
                }
            }
        }
    }
}

/// A lookup across segments looks in the segments that a query sees, and fails
/// exactly when they cannot be enumerated.
pub proof fn law_lookup_sees_what_a_query_sees(
    active_name: Option<Seq<char>>,
    reads_archives: bool,
    dir: LogDir,
    id: Seq<char>,
)
    ensures
        match segments_in(dir, active_name, reads_archives) {
            Ok(segs) => found_across(active_name, reads_archives, dir, id) == Ok::<
                Option<EventView>,
                LogError,
            >(
                newest_with_id(
                    store::contents_of(store::stored_views(dir.files@), segs),
                    id,
                    segs.len() as int,
                ),
            ),
            Err(e) => found_across(active_name, reads_archives, dir, id) == Err::<
                Option<EventView>,
                LogError,
            >(e),
        },
        segments_in(dir, active_name, reads_archives) == segment::enumerated(
            active_name,
            reads_archives,
            dir.listing,
            dir.active_exists,
        ),
{
}

/// A page that does not claim to be complete is the answer, and so is one with
/// archives out of scope; neither is held against a second listing.
pub proof fn law_unfinished_page_is_the_answer(
    active_name: Option<Seq<char>>,
    reads_archives: bool,
    first: LogDir,
    second: LogDir,
    q: QueryView,
    segs: Seq<SegmentView>,
    p: PageView,
)
    requires
        segments_in(first, active_name, reads_archives) == Ok::<Seq<SegmentView>, LogError>(segs),
        attempt(segs, store::contents_of(store::stored_views(first.files@), segs), q) == Some(p),
        !p.at_end || !reads_archives,
    ensures
        answer(active_name, reads_archives, first, second, q) == Ok::<PageView, LogError>(p),
{
}

/// A complete page stays the answer when a second listing shows no more
/// segments, and the query fails when that listing does.
pub proof fn law_complete_page_is_held_against_a_second_listing(
    active_name: Option<Seq<char>>,
    first: LogDir,
    second: LogDir,
    q: QueryView,
    segs: Seq<SegmentView>,
    p: PageView,
)
    requires
        segments_in(first, active_name, true) == Ok::<Seq<SegmentView>, LogError>(segs),
        attempt(segs, store::contents_of(store::stored_views(first.files@), segs), q) == Some(p),
        p.at_end,
    ensures
        segments_in(second, active_name, true) matches Ok(more) ==> more.len() <= segs.len()
            ==> answer(active_name, true, first, second, q) == Ok::<PageView, LogError>(p),
        segments_in(second, active_name, true) matches Err(e) ==> answer(
            active_name,
            true,
            first,
            second,
            q,
        ) == Err::<PageView, LogError>(e),
{
}

/// A query fails when the segments cannot be enumerated at first.
pub proof fn law_query_fails_when_listing_fails(
    active_name: Option<Seq<char>>,
    reads_archives: bool,
    first: LogDir,
    second: LogDir,
    q: QueryView,
)
    ensures
        segments_in(first, active_name, reads_archives) matches Err(e) ==> answer(
            active_name,
            reads_archives,
            first,
            second,
            q,
        ) == Err::<PageView, LogError>(e),
{
}

/// An attempt gives no page exactly when its cursor addresses what is gone; the
/// last attempt then answers with an empty page.
pub proof fn law_attempt_fails_only_on_a_lost_cursor(
    segs: Seq<SegmentView>,
    files: Seq<StoredView>,
    q: QueryView,
)
    ensures
        attempt(segs, store::contents_of(files, segs), q) is None <==> (q.cursor matches Some(c)
            && resolve::resolved(segs, store::contents_of(files, segs), c) is None),
        attempt(segs, store::contents_of(files, segs), q) is None ==> last_answer(segs, files, q)
            == page::empty_page(),
        attempt(segs, store::contents_of(files, segs), q) matches Some(p) ==> last_answer(
            segs,
            files,
            q,
        ) == p,
{
}

/// The views of listings, of fetched pages and of stages leave nothing out.
pub proof fn law_query_views_are_faithful(
    segs: Vec<SegmentMeta>,
    e: LogError,
    p: LogPage,
    known: usize,
)
    ensures
        listing_result(Ok(segs)) == Ok::<Seq<SegmentView>, LogError>(
            segment::segment_views(segs@),
        ),
        listing_result(Err(e)) == Err::<Seq<SegmentView>, LogError>(e),
        Fetched::AtEnd(p)@ == FetchedView::AtEnd(p@),
        Fetched::Scanned(p)@ == FetchedView::Scanned(p@),
        QueryStage::Done(Ok(p))@ == StageView::Done(Ok(p@)),
        QueryStage::Done(Err(e))@ == StageView::Done(Err(e)),
        QueryStage::Fetch(segs)@ == StageView::Fetch(segment::segment_views(segs@)),
        QueryStage::Refetch(segs)@ == StageView::Refetch(segment::segment_views(segs@)),
        (QueryStage::Relist { page: p, known })@ == (StageView::Relist {
            page: p@,
            known: known as int,
        }),
{
}

/// A query whose cursor addresses what is gone is answered with an empty page
/// that is at its end, without a second look.
pub proof fn law_lost_cursor_is_answered_at_once(
    active_name: Option<Seq<char>>,
    reads_archives: bool,
    first: LogDir,
    second: LogDir,
    q: QueryView,
    segs: Seq<SegmentView>,
)
    requires
        segments_in(first, active_name, reads_archives) == Ok::<Seq<SegmentView>, LogError>(segs),
        attempt(segs, store::contents_of(store::stored_views(first.files@), segs), q) is None,
    ensures
        answer(active_name, reads_archives, first, second, q) == Ok::<PageView, LogError>(
            page::empty_page(),
        ),
{
}

}
