//! Finding the event that anchors a cursor.

use vstd::prelude::*;

use crate::event;
use crate::event::LogEvent;
use crate::lines;
use crate::lines::{ContentView, LineView, SegmentContent};
use crate::scan::LineStep;
use crate::text;

verus! {

/// Line `i` is the first line that is not blank and ends at or after `off`.
pub open spec fn is_boundary_line(segment: Seq<LineView>, off: int, i: int) -> bool {
    &&& 0 <= i < segment.len()
    &&& !lines::is_blank(segment[i])
    &&& lines::line_end(segment, i) >= off
    &&& forall|j: int|
        0 <= j < i ==> lines::is_blank(#[trigger] segment[j]) || lines::line_end(segment, j) < off
}

/// The first non-blank line that ends at or after `off` carries the anchor.
pub open spec fn anchored_at(segment: Seq<LineView>, off: int, anchor: Seq<char>) -> bool {
    exists|i: int| #[trigger]
        is_boundary_line(segment, off, i) && lines::carries(segment[i], anchor)
}

/// The segment could be opened and is anchored at `off`.
pub open spec fn content_anchored_at(
    content: Option<ContentView>,
    off: int,
    anchor: Seq<char>,
) -> bool {
    content matches Some(c) && anchored_at(c.lines, off, anchor)
}

/// The first line from `i` on that carries `id`, or the number of lines.
pub open spec fn first_carrier(segment: Seq<LineView>, id: Seq<char>, i: int) -> int
    decreases segment.len() - i,
{
    if i >= segment.len() {
        segment.len() as int
    } else if lines::carries(segment[i], id) {
        i
    } else {
        first_carrier(segment, id, i + 1)
    }
}

/// The byte offset just past the first line that carries `anchor`.
pub open spec fn anchor_end(content: Option<ContentView>, anchor: Seq<char>) -> Option<u64> {
    match content {
        Some(c) => {
            let i = first_carrier(c.lines, anchor, 0);
            if i < c.lines.len() {
                Some(lines::counted(lines::line_end(c.lines, i)))
            } else {
                None
            }
        },
        None => None,
    }
}

/// `first_carrier` is the least position from `i` on that carries `id`.
pub proof fn lemma_first_carrier(segment: Seq<LineView>, id: Seq<char>, i: int)
    requires
        0 <= i <= segment.len(),
    ensures
        i <= first_carrier(segment, id, i) <= segment.len(),
        first_carrier(segment, id, i) < segment.len() ==> lines::carries(
            segment[first_carrier(segment, id, i)],
            id,
        ),
        forall|j: int| i <= j < first_carrier(segment, id, i) ==> !lines::carries(#[trigger] segment[j], id),
    decreases segment.len() - i,
{
    if i < segment.len() && !lines::carries(segment[i], id) {
        lemma_first_carrier(segment, id, i + 1);
    }
}

/// The first position that carries `id` is `first_carrier`.
pub proof fn lemma_first_carrier_at(segment: Seq<LineView>, id: Seq<char>, k: int)
    requires
        0 <= k <= segment.len(),
        k < segment.len() ==> lines::carries(segment[k], id),
        forall|j: int| 0 <= j < k ==> !lines::carries(#[trigger] segment[j], id),
    ensures
        first_carrier(segment, id, 0) == k,
{
    lemma_first_carrier(segment, id, 0);
    let f = first_carrier(segment, id, 0);
    if f < k {
        assert(!lines::carries(segment[f], id));
    } else if k < f {
        assert(!lines::carries(segment[k], id));
    }
}

/// A search for an anchor in progress: the bytes read so far, and the offset
/// before which lines are passed over.
pub struct AnchorScan<'a> {
    pub anchor: &'a str,
    pub from: u64,
    pub read: u64,
}

impl<'a> AnchorScan<'a> {
    /// Look for `anchor` on the lines that end at or after `from`.
    pub fn new(anchor: &'a str, from: u64) -> (scan: Self)
        ensures
            scan.anchor@ == anchor@,
            scan.from == from,
            scan.read == 0,
    {
        AnchorScan { anchor, from, read: 0 }
    }

    /// Take in the next line and say whether to decode it.
    pub fn offer_line<'b>(&mut self, line: &'b str) -> (step: LineStep<'b>)
        ensures
            final(self).anchor@ == old(self).anchor@,
            final(self).from == old(self).from,
            final(self).read == lines::counted(old(self).read as nat + text::byte_len(line@)),
            if final(self).read < final(self).from || text::trim(line@).len() == 0 {
                step is Skip
            } else {
                step matches LineStep::Decode(t) && t@ == text::trim(line@)
            },
    {
        self.read = self.read.saturating_add(text::byte_count(line) as u64);
        if self.read < self.from {
            return LineStep::Skip;
        }
        let trimmed: &'b str = text::trim_text(line);
        if trimmed.is_empty() {
            LineStep::Skip
        } else {
            LineStep::Decode(trimmed)
        }
    }

    /// True when what decoding the last line gave is the anchored event.
    pub fn is_anchor(&self, decoded: &Option<LogEvent>) -> (yes: bool)
        ensures
            yes == (event::event_view(*decoded) matches Some(e) && e.id == self.anchor@),
    {
        match decoded {
            Some(e) => text::text_eq(e.id.as_str(), self.anchor),
            None => false,
        }
    }
}

/// True when the first non-blank line that ends at or after `off` carries
/// `anchor_id`. A segment that cannot be opened answers `false`, and so does
/// one whose read fails before such a line: the caller then searches whole
/// segments instead of trusting a guess.
pub fn anchor_is_at_offset(content: Option<&SegmentContent>, off: u64, anchor_id: &str) -> (yes:
    bool)
    ensures
        yes == content_anchored_at(lines::content_view(content), off as int, anchor_id@),
{
    let body: &SegmentContent = match content {
        Some(c) => c,
        None => {
            return false;
        },
    };
    let ghost segment = body@.lines;
    let mut scan: AnchorScan = AnchorScan::new(anchor_id, off);
    let mut i: usize = 0;
    while i < body.lines.len()
        invariant
            i <= segment.len(),
            content == Some(body),
            segment == body@.lines,
            segment.len() == body.lines@.len(),
            scan.anchor@ == anchor_id@,
            scan.from == off,
            scan.read == lines::counted(lines::offset_after(segment, i as int)),
            forall|j: int|
                0 <= j < i ==> lines::is_blank(#[trigger] segment[j]) || lines::line_end(segment, j)
                    < off,
        decreases body.lines@.len() - i,
    {
        let line = &body.lines[i];
        proof {
            assert(segment[i as int] == line@);
        }
        if let LineStep::Decode(_) = scan.offer_line(line.text.as_str()) {
            let yes: bool = scan.is_anchor(&line.event);
            proof {
                assert(is_boundary_line(segment, off as int, i as int));
                assert forall|k: int| #[trigger] is_boundary_line(segment, off as int, k) implies k
                    == i by {
                    if k < i {
                        assert(lines::is_blank(segment[k]) || lines::line_end(segment, k) < off);
                    } else if k > i {
                        assert(lines::is_blank(segment[i as int]) || lines::line_end(
                            segment,
                            i as int,
                        ) < off);
                    }
                }
            }
            return yes;
        }
        i += 1;
    }
    proof {
        assert forall|k: int| !#[trigger] is_boundary_line(segment, off as int, k) by {
            if 0 <= k < segment.len() {
                assert(lines::is_blank(segment[k]) || lines::line_end(segment, k) < off);
            }
        }
    }
    false
}

/// Byte offset just past the event with `anchor_id` in this segment, if it is
/// there. That offset excludes the anchored event itself, so resuming from it
/// returns strictly older events.
pub fn find_anchor_offset(content: Option<&SegmentContent>, anchor_id: &str) -> (end: Option<u64>)
    ensures
        end == anchor_end(lines::content_view(content), anchor_id@),
{
    let body: &SegmentContent = match content {
        Some(c) => c,
        None => {
            return None;
        },
    };
    let ghost segment = body@.lines;
    let mut scan: AnchorScan = AnchorScan::new(anchor_id, 0);
    let mut i: usize = 0;
    while i < body.lines.len()
        invariant
            i <= segment.len(),
            content == Some(body),
            segment == body@.lines,
            segment.len() == body.lines@.len(),
            scan.anchor@ == anchor_id@,
            scan.from == 0,
            scan.read == lines::counted(lines::offset_after(segment, i as int)),
            forall|j: int| 0 <= j < i ==> !lines::carries(#[trigger] segment[j], anchor_id@),
        decreases body.lines@.len() - i,
    {
        let line = &body.lines[i];
        proof {
            assert(segment[i as int] == line@);
        }
        if let LineStep::Decode(_) = scan.offer_line(line.text.as_str()) {
            if scan.is_anchor(&line.event) {
                proof {
                    lemma_first_carrier_at(segment, anchor_id@, i as int);
                }
                return Some(scan.read);
            }
        }
        i += 1;
    }
    proof {
        lemma_first_carrier_at(segment, anchor_id@, i as int);
    }
    None
}

/// The offset at which an anchor is found is one at which it is anchored, and
/// none is found exactly when no line carries the anchor.
pub proof fn law_found_offset_is_anchored(content: ContentView, anchor: Seq<char>)
    ensures
        lines::offsets_fit(content.lines) ==> (anchor_end(Some(content), anchor) matches Some(o)
            ==> anchored_at(content.lines, o as int, anchor)),
        anchor_end(Some(content), anchor) is None <==> forall|i: int|
            0 <= i < content.lines.len() ==> !lines::carries(#[trigger] content.lines[i], anchor),
{
    let segment = content.lines;
    lemma_first_carrier(segment, anchor, 0);
    let c = first_carrier(segment, anchor, 0);
    if c < segment.len() && lines::offsets_fit(segment) {
        lines::lemma_offset_bound(segment, c + 1);
        let o = lines::line_end(segment, c) as int;
        assert forall|j: int| 0 <= j < c implies lines::is_blank(#[trigger] segment[j])
            || lines::line_end(segment, j) < o by {
            lines::lemma_event_ends_increase(segment, j, c);
        }
        assert(is_boundary_line(segment, o, c));
    }
}

/// A segment is anchored at an offset exactly when the anchored event is on the
/// first line with anything on it that does not end before that offset. One that
/// cannot be opened is anchored nowhere.
pub proof fn law_anchored_line(content: ContentView, off: int, anchor: Seq<char>)
    ensures
        content_anchored_at(Some(content), off, anchor) <==> exists|l: int|
            {
                &&& 0 <= l < content.lines.len()
                &&& lines::carries(#[trigger] content.lines[l], anchor)
                &&& off <= lines::line_end(content.lines, l)
                &&& forall|j: int|
                    0 <= j < l && !lines::is_blank(#[trigger] content.lines[j]) ==> lines::line_end(
                        content.lines,
                        j,
                    ) < off
            },
        !content_anchored_at(None, off, anchor),
{
    let segment = content.lines;
    if anchored_at(segment, off, anchor) {
        let i = choose|i: int| #[trigger]
            is_boundary_line(segment, off, i) && lines::carries(segment[i], anchor);
        assert(lines::carries(segment[i], anchor));
    }
    if exists|l: int|
        {
            &&& 0 <= l < segment.len()
            &&& lines::carries(#[trigger] segment[l], anchor)
            &&& off <= lines::line_end(segment, l)
            &&& forall|j: int|
                0 <= j < l && !lines::is_blank(#[trigger] segment[j]) ==> lines::line_end(
                    segment,
                    j,
                ) < off
        } {
        let l = choose|l: int|
            {
                &&& 0 <= l < segment.len()
                &&& lines::carries(#[trigger] segment[l], anchor)
                &&& off <= lines::line_end(segment, l)
                &&& forall|j: int|
                    0 <= j < l && !lines::is_blank(#[trigger] segment[j]) ==> lines::line_end(
                        segment,
                        j,
                    ) < off
            };
        assert(is_boundary_line(segment, off, l));
    }
}

/// The offset of an anchor is that just past the first line that carries it;
/// there is none exactly when no line does, or the segment cannot be opened.
pub proof fn law_anchor_offset(content: ContentView, anchor: Seq<char>)
    ensures
        anchor_end(None, anchor) is None,
        match anchor_end(Some(content), anchor) {
            Some(end) => exists|l: int|
                {
                    &&& 0 <= l < content.lines.len()
                    &&& lines::carries(#[trigger] content.lines[l], anchor)
                    &&& end == lines::counted(lines::line_end(content.lines, l))
                    &&& forall|j: int|
                        0 <= j < l ==> !lines::carries(#[trigger] content.lines[j], anchor)
                },
            None => forall|j: int|
                0 <= j < content.lines.len() ==> !lines::carries(
                    #[trigger] content.lines[j],
                    anchor,
                ),
        },
{
    lemma_first_carrier(content.lines, anchor, 0);
    let c = first_carrier(content.lines, anchor, 0);
    if c < content.lines.len() {
        assert(lines::carries(content.lines[c], anchor));
    }
}

}
