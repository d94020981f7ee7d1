//! Scanning the segments of a stream.

use vstd::prelude::*;

use crate::filter::{FilterView, LogFilter};
use crate::lines;
use crate::lines::{ContentView, SegmentContent};
use crate::page;
use crate::page::{HitView, LogPage};
use crate::scan;
use crate::scan::PageScan;
use crate::segment;
use crate::segment::{SegmentMeta, SegmentView};
use crate::store;
use crate::store::LogDir;

verus! {

/// Whether a segment is part of a scan.
#[derive(Debug, Clone, Copy, PartialEq, Eq, Structural)]
pub enum ScanScope {
    /// The segment is newer than the cursor.
    Newer,
    /// The segment is scanned below this cap, or whole when there is none.
    Below(Option<u64>),
}

/// The scope of segment `i` in a scan that ends in segment `end` at `cap`.
pub open spec fn scope_of(i: int, end: int, cap: Option<u64>) -> ScanScope {
    if i > end {
        ScanScope::Newer
    } else if i == end {
        ScanScope::Below(cap)
    } else {
        ScanScope::Below(None)
    }
}

/// The matches in segment `i` of a scan that ends in segment `end` at `cap`.
pub open spec fn segment_hits(
    segs: Seq<SegmentView>,
    contents: Seq<Option<ContentView>>,
    f: FilterView,
    end: int,
    cap: Option<u64>,
    i: int,
) -> Seq<HitView> {
    match scope_of(i, end, cap) {
        ScanScope::Newer => Seq::empty(),
        ScanScope::Below(c) => scan::hits_of(contents[i], f, segment::ref_of(segs[i]), c),
    }
}

/// The matches in the first `n` segments of a scan that ends in segment `end`
/// at `cap`, in stream order.
pub open spec fn hits_before(
    segs: Seq<SegmentView>,
    contents: Seq<Option<ContentView>>,
    f: FilterView,
    end: int,
    cap: Option<u64>,
    n: int,
) -> Seq<HitView>
    decreases n,
{
    if n <= 0 {
        Seq::empty()
    } else {
        hits_before(segs, contents, f, end, cap, n - 1) + segment_hits(
            segs,
            contents,
            f,
            end,
            cap,
            n - 1,
        )
    }
}

/// The matches of a scan that ends in segment `end` at `cap`.
pub open spec fn stream_hits(
    segs: Seq<SegmentView>,
    contents: Seq<Option<ContentView>>,
    f: FilterView,
    end: int,
    cap: Option<u64>,
) -> Seq<HitView> {
    hits_before(segs, contents, f, end, cap, segs.len() as int)
}

/// The scope of segment `i` in a scan that ends in segment `end` at `cap`.
pub fn scan_scope(i: usize, end: usize, cap: Option<u64>) -> (scope: ScanScope)
    ensures
        scope == scope_of(i as int, end as int, cap),
{
    if i > end {
        ScanScope::Newer
    } else if i == end {
        ScanScope::Below(cap)
    } else {
        ScanScope::Below(None)
    }
}

/// Scan one segment, feeding matching events into the window.
///
/// A segment that cannot be opened is skipped, and one whose read fails counts
/// with the lines before that: one bad file should not hide the history in
/// every other segment. `until_off` bounds the scan to lines that end strictly
/// below it, which is how a cursor excludes the page it already returned.
pub fn scan_segment(
    page_scan: &mut PageScan<'_>,
    seg: &SegmentMeta,
    content: Option<&SegmentContent>,
    until_off: Option<u64>,
)
    requires
        old(page_scan).wf(),
    ensures
        final(page_scan).wf(),
        final(page_scan)@.filter == old(page_scan)@.filter,
        final(page_scan)@.limit == old(page_scan)@.limit,
        final(page_scan)@.hits == old(page_scan)@.hits + scan::hits_of(
            lines::content_view(content),
            old(page_scan)@.filter,
            segment::ref_of(seg@),
            until_off,
        ),
{
    page_scan.begin_segment(seg.segment_ref(), until_off);
    match content {
        Some(c) => {
            scan::scan_lines(page_scan, c);
        },
        None => {
            assert(page_scan@.hits =~= page_scan@.hits + Seq::<HitView>::empty());
        },
    }
}

/// Scan `segs` up to and including `cursor_idx`, stopping at `cursor_off`
/// bytes inside that segment, and assemble the page of at most `limit` events.
/// The limit is taken as given.
pub fn do_scan(
    segs: &Vec<SegmentMeta>,
    dir: &LogDir,
    filter: &LogFilter,
    limit: usize,
    cursor_idx: usize,
    cursor_off: Option<u64>,
) -> (log_page: LogPage)
    ensures
        log_page@ == page::stream_page(
            stream_hits(
                segment::segment_views(segs@),
                store::contents_of(
                    store::stored_views(dir.files@),
                    segment::segment_views(segs@),
                ),
                filter@,
                cursor_idx as int,
                cursor_off,
            ),
            limit as int,
        ),
{
    let ghost views = segment::segment_views(segs@);
    let ghost files = store::stored_views(dir.files@);
    let ghost contents = store::contents_of(files, views);
    let mut page_scan: PageScan = PageScan::new(filter, limit);
    let mut i: usize = 0;
    while i < segs.len()
        invariant
            i <= segs@.len(),
            views == segment::segment_views(segs@),
            files == store::stored_views(dir.files@),
            contents == store::contents_of(files, views),
            page_scan.wf(),
            page_scan@.filter == filter@,
            page_scan@.limit == limit,
            page_scan@.hits == hits_before(
                views,
                contents,
                filter@,
                cursor_idx as int,
                cursor_off,
                i as int,
            ),
        decreases segs@.len() - i,
    {
        let seg: &SegmentMeta = &segs[i];
        assert(views[i as int] == seg@);
        match scan_scope(i, cursor_idx, cursor_off) {
            ScanScope::Newer => {
                assert(page_scan@.hits =~= page_scan@.hits + Seq::<HitView>::empty());
            },
            ScanScope::Below(until_off) => {
                let content = dir.open_segment(seg);
                scan_segment(&mut page_scan, seg, content, until_off);
            },
        }
        i += 1;
    }
    page_scan.finish_stream()
}

}
