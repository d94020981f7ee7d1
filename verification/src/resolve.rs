//! Finding where in the stream a cursor says to resume.

use vstd::prelude::*;

use crate::anchor;
use crate::cursor;
use crate::cursor::{CursorKind, CursorView, SegmentCursor};
use crate::filter::{FilterView, LogFilter};
use crate::lines;
use crate::lines::ContentView;
use crate::page;
use crate::page::LogPage;
use crate::segment;
use crate::segment::{SegmentMeta, SegmentView};
use crate::store;
use crate::store::LogDir;

verus! {

// ---------------------------------------------------------------------------
// Where a cursor points
// ---------------------------------------------------------------------------

/// The first segment from `i` on with this number, or the number of segments.
pub open spec fn numbered_index(segs: Seq<SegmentView>, seq: u64, i: int) -> int
    decreases segs.len() - i,
{
    if i >= segs.len() {
        segs.len() as int
    } else if segs[i].seq == Some(seq) {
        i
    } else {
        numbered_index(segs, seq, i + 1)
    }
}

/// The first active segment from `i` on, or the number of segments.
pub open spec fn active_index(segs: Seq<SegmentView>, i: int) -> int
    decreases segs.len() - i,
{
    if i >= segs.len() {
        segs.len() as int
    } else if segs[i].is_active {
        i
    } else {
        active_index(segs, i + 1)
    }
}

/// `numbered_index` is the least position from `i` on with this number.
pub proof fn lemma_numbered_index(segs: Seq<SegmentView>, seq: u64, i: int)
    requires
        0 <= i <= segs.len(),
    ensures
        i <= numbered_index(segs, seq, i) <= segs.len(),
        numbered_index(segs, seq, i) < segs.len() ==> segs[numbered_index(segs, seq, i)].seq
            == Some(seq),
        forall|j: int|
            i <= j < numbered_index(segs, seq, i) ==> (#[trigger] segs[j]).seq != Some(seq),
    decreases segs.len() - i,
{
    if i < segs.len() && segs[i].seq != Some(seq) {
        lemma_numbered_index(segs, seq, i + 1);
    }
}

/// `active_index` is the least position from `i` on that is active.
pub proof fn lemma_active_index(segs: Seq<SegmentView>, i: int)
    requires
        0 <= i <= segs.len(),
    ensures
        i <= active_index(segs, i) <= segs.len(),
        active_index(segs, i) < segs.len() ==> segs[active_index(segs, i)].is_active,
        forall|j: int| i <= j < active_index(segs, i) ==> !(#[trigger] segs[j]).is_active,
    decreases segs.len() - i,
{
    if i < segs.len() && !segs[i].is_active {
        lemma_active_index(segs, i + 1);
    }
}

/// Segment `i` and a byte offset in it, when there is a segment `i`.
pub open spec fn place_in(segs: Seq<SegmentView>, i: int, off: u64) -> Option<(int, u64)> {
    if i < segs.len() {
        Some((i, off))
    } else {
        None
    }
}

/// The newest of the first `n` segments that holds the anchor, and the byte
/// offset just past the anchored event.
pub open spec fn newest_anchor(
    contents: Seq<Option<ContentView>>,
    anchor_id: Seq<char>,
    n: int,
) -> Option<(int, u64)>
    decreases n,
{
    if n <= 0 {
        None
    } else {
        match anchor::anchor_end(contents[n - 1], anchor_id) {
            Some(end) => Some((n - 1, end)),
            None => newest_anchor(contents, anchor_id, n - 1),
        }
    }
}

/// Where a cursor says to resume: a segment and a byte cap in it. `None` when
/// the cursor addresses history that is no longer present.
///
/// The number of an archive is permanent, so an archive cursor needs no more.
/// The active file is replaced on every rotation. A cursor into it holds while
/// the anchored event is still at the recorded boundary; otherwise the newest
/// segment that holds that event is where to resume. Without an anchor the
/// offset is applied to the active file as it is.
pub open spec fn resolved(
    segs: Seq<SegmentView>,
    contents: Seq<Option<ContentView>>,
    c: CursorView,
) -> Option<(int, u64)> {
    match c {
        CursorView::Archive { seq, off } => place_in(segs, numbered_index(segs, seq, 0), off),
        CursorView::Active { off, anchor: None } => place_in(segs, active_index(segs, 0), off),
        CursorView::Active { off, anchor: Some(id) } => {
            let i = active_index(segs, 0);
            if i < segs.len() && anchor::content_anchored_at(contents[i], off as int, id) {
                Some((i, off))
            } else {
                newest_anchor(contents, id, segs.len() as int)
            }
        },
    }
}

/// Where a scan ends, given where the cursor, if there is one, was resolved
/// to: the last segment of the scan, and the byte cap in it. `None` when the
/// cursor addresses history that is no longer present.
///
/// Without a cursor, the offset of the filter caps the active file; without
/// that, the scan takes in the whole stream.
pub open spec fn end_of_scan(
    segs: Seq<SegmentView>,
    resolution: Option<Option<(int, u64)>>,
    f: FilterView,
) -> Option<(int, Option<u64>)> {
    match resolution {
        Some(Some((i, off))) => Some((i, Some(off))),
        Some(None) => None,
        None => {
            let i = active_index(segs, 0);
            match f.until_line_offset {
                Some(off) if i < segs.len() => Some((i, Some(off))),
                _ => Some(
                    (
                        if segs.len() == 0 {
                            0
                        } else {
                            segs.len() - 1
                        },
                        None,
                    ),
                ),
            }
        },
    }
}

/// Where a scan ends, from the cursor.
pub open spec fn scan_end(
    segs: Seq<SegmentView>,
    contents: Seq<Option<ContentView>>,
    c: Option<CursorView>,
    f: FilterView,
) -> Option<(int, Option<u64>)> {
    end_of_scan(
        segs,
        match c {
            Some(c) => Some(resolved(segs, contents, c)),
            None => None,
        },
        f,
    )
}

/// The view of a place in the stream.
pub open spec fn place_view(place: Option<(usize, u64)>) -> Option<(int, u64)> {
    match place {
        Some((i, off)) => Some((i as int, off)),
        None => None,
    }
}

/// The view of the resolution of an optional cursor.
pub open spec fn resolution_view(resolution: Option<Option<(usize, u64)>>) -> Option<
    Option<(int, u64)>,
> {
    match resolution {
        Some(place) => Some(place_view(place)),
        None => None,
    }
}

// ---------------------------------------------------------------------------
// Resolving step by step
// ---------------------------------------------------------------------------

/// What to find out next to resolve a cursor.
#[derive(Debug, Clone, Copy)]
pub enum ResolveStep<'a> {
    /// The cursor is resolved; `None` when what it addresses is gone.
    Done(Option<(usize, u64)>),
    /// Is the anchored event at the boundary `off` in this segment?
    Probe { index: usize, off: u64, anchor: &'a str },
    /// Where in this segment is the anchored event?
    Search { index: usize, anchor: &'a str },
}

/// A step as a mathematical value.
pub enum StepView {
    Done(Option<(int, u64)>),
    Probe { index: int, off: u64, anchor: Seq<char> },
    Search { index: int, anchor: Seq<char> },
}

impl<'a> View for ResolveStep<'a> {
    type V = StepView;

    open spec fn view(&self) -> StepView {
        match *self {
            ResolveStep::Done(place) => StepView::Done(place_view(place)),
            ResolveStep::Probe { index, off, anchor } => StepView::Probe {
                index: index as int,
                off,
                anchor: anchor@,
            },
            ResolveStep::Search { index, anchor } => StepView::Search {
                index: index as int,
                anchor: anchor@,
            },
        }
    }
}

/// The newest of `count` segments.
pub open spec fn newest_of(count: int) -> Option<int> {
    if count > 0 {
        Some(count - 1)
    } else {
        None
    }
}

/// Go on to search segment `index`, or give up when there is none.
pub open spec fn search_step(index: Option<int>, anchor: Seq<char>) -> StepView {
    match index {
        Some(index) => StepView::Search { index, anchor },
        None => StepView::Done(None),
    }
}

/// The first step.
pub open spec fn first_step(segs: Seq<SegmentView>, c: CursorView) -> StepView {
    match c {
        CursorView::Archive { seq, off } => StepView::Done(
            place_in(segs, numbered_index(segs, seq, 0), off),
        ),
        CursorView::Active { off, anchor: None } => StepView::Done(
            place_in(segs, active_index(segs, 0), off),
        ),
        CursorView::Active { off, anchor: Some(anchor) } => {
            let index = active_index(segs, 0);
            if index < segs.len() {
                StepView::Probe { index, off, anchor }
            } else {
                search_step(newest_of(segs.len() as int), anchor)
            }
        },
    }
}

/// The step after a probe. When the anchored event is not at the recorded
/// boundary, the active file was rotated, and every segment is searched for
/// it, newest first.
pub open spec fn step_after_probe(step: StepView, count: int, at_offset: bool) -> StepView {
    match step {
        StepView::Probe { index, off, anchor } => if at_offset {
            StepView::Done(Some((index, off)))
        } else {
            search_step(newest_of(count), anchor)
        },
        _ => step,
    }
}

/// The step after searching a segment.
pub open spec fn step_after_search(step: StepView, end: Option<u64>) -> StepView {
    match step {
        StepView::Search { index, anchor } => match end {
            Some(end) => StepView::Done(Some((index, end))),
            None => search_step(newest_of(index), anchor),
        },
        _ => step,
    }
}

/// The newest of `count` segments.
pub fn newest(count: usize) -> (i: Option<usize>)
    ensures
        match i {
            Some(i) => newest_of(count as int) == Some(i as int),
            None => newest_of(count as int) is None,
        },
{
    if count > 0 {
        Some(count - 1)
    } else {
        None
    }
}

/// The next older segment, when there is one.
pub fn older(i: usize) -> (j: Option<usize>)
    ensures
        match j {
            Some(j) => newest_of(i as int) == Some(j as int),
            None => newest_of(i as int) is None,
        },
{
    newest(i)
}

/// The first segment with this number.
pub fn position_of_number(segs: &Vec<SegmentMeta>, seq: u64) -> (i: Option<usize>)
    ensures
        match i {
            Some(i) => i < segs@.len() && i == numbered_index(
                segment::segment_views(segs@),
                seq,
                0,
            ),
            None => numbered_index(segment::segment_views(segs@), seq, 0) == segs@.len(),
        },
{
    let ghost views = segment::segment_views(segs@);
    let mut i: usize = 0;
    while i < segs.len()
        invariant
            i <= segs@.len(),
            views == segment::segment_views(segs@),
            numbered_index(views, seq, 0) == numbered_index(views, seq, i as int),
        decreases segs@.len() - i,
    {
        assert(views[i as int] == segs@[i as int]@);
        if let Some(n) = segs[i].seq {
            if n == seq {
                return Some(i);
            }
        }
        i += 1;
    }
    None
}

/// The active segment.
pub fn position_of_active(segs: &Vec<SegmentMeta>) -> (i: Option<usize>)
    ensures
        match i {
            Some(i) => i < segs@.len() && i == active_index(segment::segment_views(segs@), 0),
            None => active_index(segment::segment_views(segs@), 0) == segs@.len(),
        },
{
    let ghost views = segment::segment_views(segs@);
    let mut i: usize = 0;
    while i < segs.len()
        invariant
            i <= segs@.len(),
            views == segment::segment_views(segs@),
            active_index(views, 0) == active_index(views, i as int),
        decreases segs@.len() - i,
    {
        assert(views[i as int] == segs@[i as int]@);
        if segs[i].is_active {
            return Some(i);
        }
        i += 1;
    }
    None
}

impl<'a> ResolveStep<'a> {
    /// Begin to resolve a cursor.
    pub fn begin(segs: &Vec<SegmentMeta>, cursor: &'a SegmentCursor) -> (step: Self)
        ensures
            step@ == first_step(segment::segment_views(segs@), cursor@),
    {
        match &cursor.kind {
            CursorKind::Archive { seq, off } => {
                match position_of_number(segs, *seq) {
                    Some(index) => ResolveStep::Done(Some((index, *off))),
                    None => ResolveStep::Done(None),
                }
            },
            CursorKind::Active { off, anchor_id } => {
                match (position_of_active(segs), anchor_id) {
                    (Some(index), None) => ResolveStep::Done(Some((index, *off))),
                    (None, None) => ResolveStep::Done(None),
                    (Some(index), Some(id)) => ResolveStep::Probe {
                        index,
                        off: *off,
                        anchor: id.as_str(),
                    },
                    (None, Some(id)) => Self::search(newest(segs.len()), id.as_str()),
                }
            },
        }
    }

    /// Go on after a probe, with `count` segments in all. Another step does
    /// not change.
    pub fn probed(self, count: usize, at_offset: bool) -> (next: Self)
        ensures
            next@ == step_after_probe(self@, count as int, at_offset),
    {
        match self {
            ResolveStep::Probe { index, off, anchor } => {
                if at_offset {
                    ResolveStep::Done(Some((index, off)))
                } else {
                    Self::search(newest(count), anchor)
                }
            },
            other => other,
        }
    }

    /// Go on after searching a segment. Another step does not change.
    pub fn searched(self, end: Option<u64>) -> (next: Self)
        ensures
            next@ == step_after_search(self@, end),
    {
        match self {
            ResolveStep::Search { index, anchor } => {
                match end {
                    Some(end) => ResolveStep::Done(Some((index, end))),
                    None => Self::search(older(index), anchor),
                }
            },
            other => other,
        }
    }

    fn search(index: Option<usize>, anchor: &'a str) -> (step: Self)
        ensures
            step@ == search_step(
                match index {
                    Some(i) => Some(i as int),
                    None => None,
                },
                anchor@,
            ),
    {
        match index {
            Some(index) => ResolveStep::Search { index, anchor },
            None => ResolveStep::Done(None),
        }
    }
}

/// Where a scan ends, from what the cursor, if there is one, was resolved to.
pub fn place_scan_end(
    segs: &Vec<SegmentMeta>,
    resolution: Option<Option<(usize, u64)>>,
    filter: &LogFilter,
) -> (end: Option<(usize, Option<u64>)>)
    ensures
        (match end {
            Some((i, cap)) => Some((i as int, cap)),
            None => None,
        }) == end_of_scan(
            segment::segment_views(segs@),
            resolution_view(resolution),
            filter@,
        ),
{
    match resolution {
        Some(Some((i, off))) => Some((i, Some(off))),
        Some(None) => None,
        None => {
            match (filter.until_line_offset, position_of_active(segs)) {
                (Some(off), Some(i)) => Some((i, Some(off))),
                _ => match newest(segs.len()) {
                    Some(i) => Some((i, None)),
                    None => Some((0, None)),
                },
            }
        },
    }
}

// ---------------------------------------------------------------------------
// Resolving in a directory
// ---------------------------------------------------------------------------

/// What is reached from a step when it is answered truly.
spec fn resolved_from(step: StepView, contents: Seq<Option<ContentView>>) -> Option<(int, u64)> {
    match step {
        StepView::Done(place) => place,
        StepView::Probe { index, off, anchor } => if anchor::content_anchored_at(
            contents[index],
            off as int,
            anchor,
        ) {
            Some((index, off))
        } else {
            newest_anchor(contents, anchor, contents.len() as int)
        },
        StepView::Search { index, anchor } => newest_anchor(contents, anchor, index + 1),
    }
}

/// The segments that a step speaks of exist.
spec fn step_within(step: StepView, count: int) -> bool {
    match step {
        StepView::Done(Some((index, _))) => 0 <= index < count,
        StepView::Done(None) => true,
        StepView::Probe { index, .. } => 0 <= index < count,
        StepView::Search { index, .. } => 0 <= index < count,
    }
}

/// How many steps are left at most.
spec fn steps_left(step: StepView, count: int) -> int {
    match step {
        StepView::Done(_) => 0,
        StepView::Probe { .. } => count + 1,
        StepView::Search { index, .. } => index + 1,
    }
}

proof fn lemma_first_step(
    segs: Seq<SegmentView>,
    contents: Seq<Option<ContentView>>,
    c: CursorView,
)
    requires
        contents.len() == segs.len(),
    ensures
        resolved_from(first_step(segs, c), contents) == resolved(segs, contents, c),
        step_within(first_step(segs, c), segs.len() as int),
{
    if let CursorView::Archive { seq, .. } = c {
        lemma_numbered_index(segs, seq, 0);
    }
    lemma_active_index(segs, 0);
}

/// Find where a cursor says to resume, as an index into `segs` plus a byte
/// cap. `None` when the cursor addresses history that is no longer present.
pub fn resolve_cursor(segs: &Vec<SegmentMeta>, dir: &LogDir, cursor: &SegmentCursor) -> (place:
    Option<(usize, u64)>)
    ensures
        place_view(place) == resolved(
            segment::segment_views(segs@),
            store::contents_of(store::stored_views(dir.files@), segment::segment_views(segs@)),
            cursor@,
        ),
        place matches Some((i, _)) ==> i < segs@.len(),
{
    let ghost views = segment::segment_views(segs@);
    let ghost contents = store::contents_of(store::stored_views(dir.files@), views);
    let mut step: ResolveStep = ResolveStep::begin(segs, cursor);
    proof {
        lemma_first_step(views, contents, cursor@);
    }
    loop
        invariant
            views == segment::segment_views(segs@),
            contents == store::contents_of(store::stored_views(dir.files@), views),
            step_within(step@, segs@.len() as int),
            resolved_from(step@, contents) == resolved(views, contents, cursor@),
        decreases steps_left(step@, segs@.len() as int),
    {
        step = match step {
            ResolveStep::Done(place) => {
                return place;
            },
            ResolveStep::Probe { index, off, anchor } => {
                assert(views[index as int] == segs@[index as int]@);
                let content = dir.open_segment(&segs[index]);
                let at_offset: bool = anchor::anchor_is_at_offset(content, off, anchor);
                step.probed(segs.len(), at_offset)
            },
            ResolveStep::Search { index, anchor } => {
                assert(views[index as int] == segs@[index as int]@);
                let content = dir.open_segment(&segs[index]);
                let end: Option<u64> = anchor::find_anchor_offset(content, anchor);
                assert(newest_anchor(contents, anchor@, 0) is None);
                step.searched(end)
            },
        };
    }
}

/// Resolve the cursor, or answer with an empty page that is at its end when
/// the cursor addresses history that no longer exists.
pub fn resolve_or_at_end(
    segs: &Vec<SegmentMeta>,
    dir: &LogDir,
    segment_cursor: Option<&SegmentCursor>,
    filter: &LogFilter,
) -> (end: Result<(usize, Option<u64>), LogPage>)
    ensures
        match scan_end(
            segment::segment_views(segs@),
            store::contents_of(store::stored_views(dir.files@), segment::segment_views(segs@)),
            cursor::cursor_ref_view(segment_cursor),
            filter@,
        ) {
            Some((i, cap)) => end matches Ok((j, c)) && i == j && c == cap,
            None => end matches Err(p) && p@ == page::empty_page(),
        },
{
    let resolution: Option<Option<(usize, u64)>> = match segment_cursor {
        Some(c) => Some(resolve_cursor(segs, dir, c)),
        None => None,
    };
    match place_scan_end(segs, resolution, filter) {
        Some((i, cap)) => Ok((i, cap)),
        None => Err(LogPage::empty()),
    }
}

// ---------------------------------------------------------------------------
// Laws
// ---------------------------------------------------------------------------

/// An archive cursor resolves to the first segment with its number, at its
/// offset, and to nothing exactly when no segment has that number.
pub proof fn law_archive_cursor_resolves_by_number(
    segs: Seq<SegmentView>,
    contents: Seq<Option<ContentView>>,
    seq: u64,
    off: u64,
)
    ensures
        match resolved(segs, contents, CursorView::Archive { seq, off }) {
            Some((i, at)) => {
                &&& 0 <= i < segs.len()
                &&& segs[i].seq == Some(seq)
                &&& at == off
                &&& forall|j: int| 0 <= j < i ==> (#[trigger] segs[j]).seq != Some(seq)
            },
            None => forall|j: int| 0 <= j < segs.len() ==> (#[trigger] segs[j]).seq != Some(seq),
        },
{
    lemma_numbered_index(segs, seq, 0);
}

/// A cursor without an anchor resolves to the active file, at its offset, and to
/// nothing exactly when there is no active file.
pub proof fn law_anchorless_cursor_resolves_to_the_active_file(
    segs: Seq<SegmentView>,
    contents: Seq<Option<ContentView>>,
    off: u64,
)
    ensures
        match resolved(segs, contents, CursorView::Active { off, anchor: None }) {
            Some((i, at)) => {
                &&& 0 <= i < segs.len()
                &&& segs[i].is_active
                &&& at == off
                &&& forall|j: int| 0 <= j < i ==> !(#[trigger] segs[j]).is_active
            },
            None => forall|j: int| 0 <= j < segs.len() ==> !(#[trigger] segs[j]).is_active,
        },
{
    lemma_active_index(segs, 0);
}

/// A cursor with an anchor resolves to a place right before an event with the
/// anchor's id: a line of the segment carries it, that line is not below the
/// cap, and every line with anything on it before that line is. Whatever the
/// offset of the cursor says, it resolves to nothing exactly when no line of the
/// stream carries the anchor.
pub proof fn law_anchored_cursor_resolves_before_its_event(
    segs: Seq<SegmentView>,
    contents: Seq<Option<ContentView>>,
    off: u64,
    anchor: Seq<char>,
)
    requires
        contents.len() == segs.len(),
        store::contents_fit(contents),
    ensures
        match resolved(segs, contents, CursorView::Active { off, anchor: Some(anchor) }) {
            Some((i, cap)) => {
                &&& 0 <= i < segs.len()
                &&& contents[i] is Some
                &&& exists|l: int|
                    {
                        &&& 0 <= l < contents[i]->0.lines.len()
                        &&& lines::carries(#[trigger] contents[i]->0.lines[l], anchor)
                        &&& cap <= lines::line_end(contents[i]->0.lines, l)
                        &&& forall|j: int|
                            0 <= j < l && !lines::is_blank(#[trigger] contents[i]->0.lines[j])
                                ==> lines::line_end(contents[i]->0.lines, j) < cap
                    }
            },
            None => forall|i: int, l: int|
                #![trigger contents[i]->0.lines[l]]
                0 <= i < segs.len() && contents[i] is Some && 0 <= l < contents[i]->0.lines.len()
                    ==> !lines::carries(contents[i]->0.lines[l], anchor),
        },
{
    let a = active_index(segs, 0);
    lemma_active_index(segs, 0);
    if a < segs.len() && anchor::content_anchored_at(contents[a], off as int, anchor) {
        anchor::law_anchored_line(contents[a]->0, off as int, anchor);
    } else {
        lemma_search(contents, anchor, segs.len() as int);
    }
}

proof fn lemma_search(contents: Seq<Option<ContentView>>, anchor: Seq<char>, n: int)
    requires
        0 <= n <= contents.len(),
        store::contents_fit(contents),
    ensures
        match newest_anchor(contents, anchor, n) {
            Some((i, cap)) => {
                &&& 0 <= i < n
                &&& contents[i] is Some
                &&& exists|l: int|
                    {
                        &&& 0 <= l < contents[i]->0.lines.len()
                        &&& lines::carries(#[trigger] contents[i]->0.lines[l], anchor)
                        &&& cap <= lines::line_end(contents[i]->0.lines, l)
                        &&& forall|j: int|
                            0 <= j < l && !lines::is_blank(#[trigger] contents[i]->0.lines[j])
                                ==> lines::line_end(contents[i]->0.lines, j) < cap
                    }
            },
            None => forall|i: int, l: int|
                #![trigger contents[i]->0.lines[l]]
                0 <= i < n && contents[i] is Some && 0 <= l < contents[i]->0.lines.len()
                    ==> !lines::carries(contents[i]->0.lines[l], anchor),
        },
    decreases n,
{
    if n > 0 {
        lemma_search(contents, anchor, n - 1);
        if contents[n - 1] is Some {
            let body = contents[n - 1]->0.lines;
            anchor::law_anchor_offset(contents[n - 1]->0, anchor);
            if let Some(end) = anchor::anchor_end(contents[n - 1], anchor) {
                let l = choose|l: int|
                    {
                        &&& 0 <= l < body.len()
                        &&& lines::carries(#[trigger] body[l], anchor)
                        &&& end == lines::counted(lines::line_end(body, l))
                        &&& forall|j: int| 0 <= j < l ==> !lines::carries(#[trigger] body[j], anchor)
                    };
                lines::lemma_offset_bound(body, l + 1);
                assert forall|j: int| 0 <= j < l && !lines::is_blank(
                    #[trigger] body[j],
                ) implies lines::line_end(body, j) < end by {
                    lines::lemma_event_ends_increase(body, j, l);
                }
                assert(lines::carries(contents[n - 1]->0.lines[l], anchor));
            }
        } else {
            anchor::law_anchor_offset(ContentView { lines: Seq::empty(), complete: true }, anchor);
        }
    }
}

/// A search through the segments takes the newest one that carries the anchor,
/// and in it the first line that does.
pub proof fn law_search_takes_the_newest_segment(
    contents: Seq<Option<ContentView>>,
    anchor: Seq<char>,
    n: int,
)
    requires
        0 <= n <= contents.len(),
    ensures
        newest_anchor(contents, anchor, n) matches Some((i, end)) ==> {
            &&& 0 <= i < n
            &&& anchor::anchor_end(contents[i], anchor) == Some(end)
            &&& forall|j: int|
                i < j < n ==> anchor::anchor_end(#[trigger] contents[j], anchor) is None
        },
        newest_anchor(contents, anchor, n) is None ==> forall|j: int|
            0 <= j < n ==> anchor::anchor_end(#[trigger] contents[j], anchor) is None,
    decreases n,
{
    if n > 0 {
        law_search_takes_the_newest_segment(contents, anchor, n - 1);
    }
}

/// The active file is trusted at a cursor's offset while the anchored event is
/// there; otherwise the search decides.
pub proof fn law_anchored_cursor_prefers_its_boundary(
    segs: Seq<SegmentView>,
    contents: Seq<Option<ContentView>>,
    off: u64,
    anchor: Seq<char>,
    a: int,
)
    requires
        0 <= a < segs.len(),
        forall|j: int| 0 <= j < segs.len() ==> ((#[trigger] segs[j]).is_active <==> j == a),
    ensures
        resolved(segs, contents, CursorView::Active { off, anchor: Some(anchor) })
            == if anchor::content_anchored_at(contents[a], off as int, anchor) {
            Some((a, off))
        } else {
            newest_anchor(contents, anchor, segs.len() as int)
        },
{
    lemma_active_index(segs, 0);
    assert(segs[a].is_active);
}

/// A scan ends where its cursor was resolved to, and nowhere when that is gone.
/// Without a cursor it takes in the whole stream, but for an offset, which caps
/// the active file where there is one.
pub proof fn law_where_a_scan_ends(
    segs: Seq<SegmentView>,
    contents: Seq<Option<ContentView>>,
    c: CursorView,
    f: FilterView,
)
    ensures
        scan_end(segs, contents, Some(c), f) is Some <==> resolved(segs, contents, c) is Some,
        resolved(segs, contents, c) matches Some((i, off)) ==> scan_end(segs, contents, Some(c), f)
            == Some((i, Some(off))),
        scan_end(segs, contents, None, f) is Some,
        f.until_line_offset is None && segs.len() > 0 ==> scan_end(segs, contents, None, f) == Some(
            (segs.len() - 1, None::<u64>),
        ),
        (forall|j: int| 0 <= j < segs.len() ==> !(#[trigger] segs[j]).is_active) && segs.len() > 0
            ==> scan_end(segs, contents, None, f) == Some((segs.len() - 1, None::<u64>)),
        forall|a: int|
            #![trigger segs[a]]
            0 <= a < segs.len() && segs[a].is_active && (forall|j: int|
                0 <= j < a ==> !(#[trigger] segs[j]).is_active) && f.until_line_offset is Some
                ==> scan_end(segs, contents, None, f) == Some((a, f.until_line_offset)),
{
    lemma_active_index(segs, 0);
    assert forall|a: int|
        #![trigger segs[a]]
        0 <= a < segs.len() && segs[a].is_active && (forall|j: int|
            0 <= j < a ==> !(#[trigger] segs[j]).is_active)
            && f.until_line_offset is Some implies scan_end(segs, contents, None, f) == Some(
        (a, f.until_line_offset),
    ) by {
        let i = active_index(segs, 0);
        if i < a {
            assert(segs[i].is_active);
        }
        if a < i {
            assert(!segs[a].is_active);
        }
    }
}

/// The views of places keep segment and offset.
pub proof fn law_place_views(i: usize, off: u64)
    ensures
        place_view(Some((i, off))) == Some((i as int, off)),
        place_view(None) is None,
        resolution_view(Some(Some((i, off)))) == Some(Some((i as int, off))),
        resolution_view(Some(None)) == Some(None::<(int, u64)>),
        resolution_view(None) is None,
{
}

}
