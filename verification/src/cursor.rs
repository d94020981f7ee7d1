//! Segment-aware pagination cursors and their wire form.

use vstd::prelude::*;
use vstd::slice::slice_subrange;

use crate::text;

verus! {

/// Segment-aware pagination cursor.
///
/// Two forms exist, with different stability properties:
///
/// - **Archive cursor** (`<seq>:<off>`): a position in a numbered archive. The
///   sequence number is written into the archive name at rotation time and is
///   never reused, so this form survives any number of later rotations. When
///   retention has removed the segment, a query answers with an empty page
///   that is at its end instead of jumping to another position.
///
/// - **Active cursor** (`active:<off>:<anchor_id>`): a position in the active
///   file. Its path is stable but its content is replaced on each rotation, so
///   the id of the event at that position travels with the offset. When the
///   active file no longer holds that event there, a query looks for it in
///   every segment and resumes where it is found.
///
/// The two-field form `<seg_basename>:<off>` of older daemons is accepted on
/// input and read as an active cursor without an anchor.
#[derive(Debug, Clone, PartialEq, Eq)]
pub struct SegmentCursor {
    pub kind: CursorKind,
}

/// What a cursor addresses.
#[derive(Debug, Clone, PartialEq, Eq)]
pub enum CursorKind {
    /// Position inside a numbered archive.
    Archive { seq: u64, off: u64 },
    /// Position inside the active file, with an optional anchor event id.
    Active { off: u64, anchor_id: Option<String> },
}

/// A cursor as a mathematical value.
pub enum CursorView {
    Archive { seq: u64, off: u64 },
    Active { off: u64, anchor: Option<Seq<char>> },
}

impl View for SegmentCursor {
    type V = CursorView;

    open spec fn view(&self) -> CursorView {
        match self.kind {
            CursorKind::Archive { seq, off } => CursorView::Archive { seq, off },
            CursorKind::Active { off, anchor_id } => CursorView::Active {
                off,
                anchor: text::text_view(anchor_id),
            },
        }
    }
}

/// The fixed start of an active cursor's wire form.
pub open spec fn active_prefix() -> Seq<char> {
    "active:"@
}

/// An active cursor with the offset written in `off`.
pub open spec fn active_at(off: Seq<char>, anchor: Option<Seq<char>>) -> Option<CursorView> {
    match text::u64_value(off) {
        Some(off) => Some(CursorView::Active { off, anchor }),
        None => None,
    }
}

/// The cursor that the text after `active:` stands for. An anchor that is
/// announced by a colon must not be empty.
pub open spec fn active_cursor_of(rest: Seq<char>) -> Option<CursorView> {
    match text::split_first(rest, ':') {
        Some((off, anchor)) => if anchor.len() == 0 {
            None
        } else {
            active_at(off, Some(anchor))
        },
        None => active_at(rest, None),
    }
}

/// The archive cursor that `s` stands for: two numbers around its only colon.
pub open spec fn archive_cursor_of(s: Seq<char>) -> Option<CursorView> {
    match text::split_first(s, ':') {
        Some((left, right)) => if text::split_first(right, ':') is None {
            match (text::u64_value(left), text::u64_value(right)) {
                (Some(seq), Some(off)) => Some(CursorView::Archive { seq, off }),
                _ => None,
            }
        } else {
            None
        },
        None => None,
    }
}

/// The cursor that a legacy `<basename>:<off>` token stands for.
pub open spec fn legacy_cursor_of(s: Seq<char>) -> Option<CursorView> {
    match text::split_last(s, ':') {
        Some((head, tail)) => if head.len() == 0 {
            None
        } else {
            active_at(tail, None)
        },
        None => None,
    }
}

/// The cursor that a wire token stands for, if it is well formed.
pub open spec fn cursor_of_wire(s: Seq<char>) -> Option<CursorView> {
    if text::starts_with(s, active_prefix()) {
        active_cursor_of(s.skip(active_prefix().len() as int))
    } else if archive_cursor_of(s) is Some {
        archive_cursor_of(s)
    } else {
        legacy_cursor_of(s)
    }
}

/// The wire token of a cursor.
pub open spec fn wire_of_cursor(c: CursorView) -> Seq<char> {
    match c {
        CursorView::Archive { seq, off } => text::decimal(seq as nat).push(':') + text::decimal(off as nat),
        CursorView::Active { off, anchor: Some(id) } => (active_prefix() + text::decimal(
            off as nat,
        )).push(':') + id,
        CursorView::Active { off, anchor: None } => active_prefix() + text::decimal(off as nat),
    }
}

/// The view of an optional cursor.
pub open spec fn cursor_view(c: Option<SegmentCursor>) -> Option<CursorView> {
    match c {
        Some(c) => Some(c@),
        None => None,
    }
}

/// The view of a reference to a cursor that may be absent.
pub open spec fn cursor_ref_view(c: Option<&SegmentCursor>) -> Option<CursorView> {
    match c {
        Some(c) => Some(c@),
        None => None,
    }
}

impl SegmentCursor {
    /// Parse a wire token:
    ///
    /// - `active:<off>:<anchor_id>` — active cursor with anchor
    /// - `active:<off>` — active cursor without anchor
    /// - `<seq>:<off>` — archive cursor (both fields are decimal integers)
    /// - `<basename>:<off>` — legacy form; read as active without anchor
    ///
    /// Returns `None` on any parse error.
    pub fn from_wire(s: &str) -> (cursor: Option<Self>)
        ensures
            cursor_view(cursor) == cursor_of_wire(s@),
    {
        let chars: Vec<char> = text::chars_of(s);
        let prefix: Vec<char> = text::chars_of("active:");
        if text::has_prefix(chars.as_slice(), prefix.as_slice()) {
            let rest: &[char] = slice_subrange(chars.as_slice(), prefix.len(), chars.len());
            assert(rest@ =~= s@.skip(active_prefix().len() as int));
            return Self::active_from_wire(rest);
        }
        if let Some(cursor) = Self::archive_from_wire(chars.as_slice()) {
            return Some(cursor);
        }
        let end: usize = chars.len();
        match text::find_last(chars.as_slice(), ':') {
            Some(i) => {
                if i == 0 {
                    return None;
                }
                let tail: &[char] = slice_subrange(chars.as_slice(), i + 1, end);
                assert(tail@ =~= s@.skip(i + 1));
                match text::parse_u64(tail) {
                    Some(off) => Some(
                        SegmentCursor { kind: CursorKind::Active { off, anchor_id: None } },
                    ),
                    None => None,
                }
            },
            None => None,
        }
    }

    /// Parse what follows `active:` in a wire token.
    fn active_from_wire(rest: &[char]) -> (cursor: Option<Self>)
        ensures
            cursor_view(cursor) == active_cursor_of(rest@),
    {
        let end: usize = rest.len();
        match text::find_first(rest, ':') {
            Some(i) => {
                let off_chars: &[char] = slice_subrange(rest, 0, i);
                let anchor: &[char] = slice_subrange(rest, i + 1, end);
                assert(off_chars@ =~= rest@.take(i as int));
                assert(anchor@ =~= rest@.skip(i + 1));
                if anchor.len() == 0 {
                    return None;
                }
                match text::parse_u64(off_chars) {
                    Some(off) => Some(
                        SegmentCursor {
                            kind: CursorKind::Active { off, anchor_id: Some(text::string_of(anchor)) },
                        },
                    ),
                    None => None,
                }
            },
            None => match text::parse_u64(rest) {
                Some(off) => Some(
                    SegmentCursor { kind: CursorKind::Active { off, anchor_id: None } },
                ),
                None => None,
            },
        }
    }

    /// Parse a wire token as an archive cursor.
    fn archive_from_wire(s: &[char]) -> (cursor: Option<Self>)
        ensures
            cursor_view(cursor) == archive_cursor_of(s@),
    {
        let end: usize = s.len();
        match text::find_first(s, ':') {
            Some(i) => {
                let left: &[char] = slice_subrange(s, 0, i);
                let right: &[char] = slice_subrange(s, i + 1, end);
                assert(left@ =~= s@.take(i as int));
                assert(right@ =~= s@.skip(i + 1));
                if text::find_first(right, ':').is_some() {
                    return None;
                }
                match (text::parse_u64(left), text::parse_u64(right)) {
                    (Some(seq), Some(off)) => Some(
                        SegmentCursor { kind: CursorKind::Archive { seq, off } },
                    ),
                    _ => None,
                }
            },
            None => None,
        }
    }

    /// Serialize to wire format.
    pub fn to_wire(&self) -> (wire: String)
        ensures
            wire@ == wire_of_cursor(self@),
    {
        match &self.kind {
            CursorKind::Archive { seq, off } => {
                let mut wire: String = String::new();
                text::push_decimal(&mut wire, *seq);
                wire.push(':');
                text::push_decimal(&mut wire, *off);
                assert(wire@ =~= wire_of_cursor(self@));
                wire
            },
            CursorKind::Active { off, anchor_id } => {
                let mut wire: String = "active:".to_owned();
                text::push_decimal(&mut wire, *off);
                if let Some(id) = anchor_id {
                    wire.push(':');
                    wire.append(id.as_str());
                }
                assert(wire@ =~= wire_of_cursor(self@));
                wire
            },
        }
    }
}

/// A wire token that a cursor was serialized to parses back to that cursor.
///
/// The one cursor that does not survive is an active cursor whose anchor is
/// the empty id: its token ends in a bare colon, which is malformed.
pub proof fn law_wire_round_trip(c: CursorView)
    requires
        c matches CursorView::Active { anchor: Some(id), .. } ==> id.len() > 0,
    ensures
        cursor_of_wire(wire_of_cursor(c)) == Some(c),
{
    reveal_strlit("active:");
    let w = wire_of_cursor(c);
    match c {
        CursorView::Archive { seq, off } => {
            let left = text::decimal(seq as nat);
            let right = text::decimal(off as nat);
            text::lemma_decimal(seq as nat);
            text::lemma_decimal(off as nat);
            text::lemma_u64_value_decimal(seq);
            text::lemma_u64_value_decimal(off);
            assert(w[0] == left[0] && text::is_digit(left[0]));
            assert(!text::starts_with(w, active_prefix())) by {
                if text::starts_with(w, active_prefix()) {
                    assert(w.take(7)[0] == active_prefix()[0]);
                }
            }
            lemma_no_colon_in_digits(left);
            lemma_no_colon_in_digits(right);
            assert forall|i: int| 0 <= i < left.len() implies w[i] != ':' by {
                assert(w[i] == left[i] && text::is_digit(left[i]));
            }
            text::lemma_first_index_at(w, ':', left.len() as int);
            assert(w.take(left.len() as int) =~= left);
            assert(w.skip(left.len() as int + 1) =~= right);
        },
        CursorView::Active { off, anchor } => {
            let digits = text::decimal(off as nat);
            text::lemma_decimal(off as nat);
            text::lemma_u64_value_decimal(off);
            lemma_no_colon_in_digits(digits);
            assert(w.take(7) =~= active_prefix());
            let rest = w.skip(7);
            match anchor {
                Some(id) => {
                    assert(rest =~= digits.push(':') + id);
                    assert forall|i: int| 0 <= i < digits.len() implies rest[i] != ':' by {
                        assert(rest[i] == digits[i] && text::is_digit(digits[i]));
                    }
                    text::lemma_first_index_at(rest, ':', digits.len() as int);
                    assert(rest.take(digits.len() as int) =~= digits);
                    assert(rest.skip(digits.len() as int + 1) =~= id);
                },
                None => {
                    assert(rest =~= digits);
                },
            }
        },
    }
}

/// A string of digits holds no colon.
proof fn lemma_no_colon_in_digits(s: Seq<char>)
    requires
        text::all_digits(s),
    ensures
        text::split_first(s, ':') is None,
{
    text::lemma_first_index(s, ':');
    if text::split_first(s, ':') is Some {
        let i = text::first_index(s, ':');
        assert(text::is_digit(s[i]));
    }
}

/// The view of a cursor leaves nothing of it out.
pub proof fn law_cursor_view_is_faithful(c: SegmentCursor)
    ensures
        match c.kind {
            CursorKind::Archive { seq, off } => c@ == (CursorView::Archive { seq, off }),
            CursorKind::Active { off, anchor_id: Some(id) } => c@ == (CursorView::Active {
                off,
                anchor: Some(id@),
            }),
            CursorKind::Active { off, anchor_id: None } => c@ == (CursorView::Active {
                off,
                anchor: None,
            }),
        },
        cursor_view(Some(c)) == Some(c@),
        cursor_view(None) is None,
        cursor_ref_view(Some(&c)) == Some(c@),
        cursor_ref_view(None) is None,
{
}

/// A token is written as the numbers of an archive cursor around a colon, or as
/// `active`, the offset and the anchor, where there is one, with colons between.
pub proof fn law_wire_form(seq: u64, off: u64, id: Seq<char>)
    ensures
        wire_of_cursor(CursorView::Archive { seq, off }) == text::decimal(seq as nat) + seq![':']
            + text::decimal(off as nat),
        wire_of_cursor(CursorView::Active { off, anchor: Some(id) }) == "active:"@ + text::decimal(
            off as nat,
        ) + seq![':'] + id,
        wire_of_cursor(CursorView::Active { off, anchor: None }) == "active:"@ + text::decimal(
            off as nat,
        ),
{
    assert(text::decimal(seq as nat).push(':') =~= text::decimal(seq as nat) + seq![':']);
    assert(("active:"@ + text::decimal(off as nat)).push(':') =~= "active:"@ + text::decimal(
        off as nat,
    ) + seq![':']);
}

/// After `active:` stand an offset, and where a colon follows it, an anchor that
/// is not empty. A token without that offset or that anchor is no cursor.
pub proof fn law_active_tokens(off: Seq<char>, anchor: Seq<char>)
    requires
        !off.contains(':'),
    ensures
        cursor_of_wire("active:"@ + off) == (match text::u64_value(off) {
            Some(n) => Some(CursorView::Active { off: n, anchor: None }),
            None => None,
        }),
        cursor_of_wire("active:"@ + (off.push(':') + anchor)) == (match text::u64_value(off) {
            Some(n) if anchor.len() > 0 => Some(CursorView::Active {
                off: n,
                anchor: Some(anchor),
            }),
            _ => None,
        }),
{
    let p = "active:"@;
    let s = p + off;
    assert(s.take(p.len() as int) =~= p);
    assert(s.skip(p.len() as int) =~= off);
    text::law_split_first(off, ':');
    if let Some((left, right)) = text::split_first(off, ':') {
        assert(off[left.len() as int] == ':');
    }
    let t = p + (off.push(':') + anchor);
    assert(t.take(p.len() as int) =~= p);
    assert(t.skip(p.len() as int) =~= off.push(':') + anchor);
    text::law_split_first_at(off, ':', anchor);
}

/// Two numbers around the only colon are an archive cursor.
pub proof fn law_archive_tokens(left: Seq<char>, right: Seq<char>)
    requires
        text::u64_value(left) is Some,
        text::u64_value(right) is Some,
    ensures
        cursor_of_wire(left.push(':') + right) == Some(
            CursorView::Archive {
                seq: text::u64_value(left)->0,
                off: text::u64_value(right)->0,
            },
        ),
{
    reveal_strlit("active:");
    let s = left.push(':') + right;
    lemma_number_has_no_colon(left);
    lemma_number_has_no_colon(right);
    text::law_split_first_at(left, ':', right);
    text::law_split_first(right, ':');
    if let Some((l, r)) = text::split_first(right, ':') {
        assert(right[l.len() as int] == ':');
    }
    assert(s[0] == left[0]);
    if text::starts_with(s, "active:"@) {
        assert(s.take(7)[0] == s[0]);
        let digits = if left[0] == '+' {
            left.skip(1)
        } else {
            left
        };
        assert(left[0] == '+' || text::is_digit(digits[0]));
    }
}

proof fn lemma_number_has_no_colon(s: Seq<char>)
    requires
        text::u64_value(s) is Some,
    ensures
        !s.contains(':'),
        s.len() > 0,
{
    let digits = if s.len() > 0 && s[0] == '+' {
        s.skip(1)
    } else {
        s
    };
    if s.contains(':') {
        let i = choose|i: int| 0 <= i < s.len() && s[i] == ':';
        if s[0] == '+' {
            assert(text::is_digit(digits[i - 1]));
        } else {
            assert(text::is_digit(digits[i]));
        }
    }
}

/// Any other token is read at its last colon, as an offset into the active file
/// behind a name that is not empty; without that it is no cursor.
pub proof fn law_other_tokens(head: Seq<char>, tail: Seq<char>, s: Seq<char>)
    requires
        !tail.contains(':'),
        !text::starts_with(head.push(':') + tail, "active:"@),
        head.contains(':') || text::u64_value(head) is None || text::u64_value(tail) is None,
    ensures
        cursor_of_wire(head.push(':') + tail) == (match text::u64_value(tail) {
            Some(n) if head.len() > 0 => Some(CursorView::Active { off: n, anchor: None }),
            _ => None,
        }),
        !s.contains(':') ==> cursor_of_wire(s) is None,
{
    let t = head.push(':') + tail;
    text::law_split_last(t, ':');
    assert(t[head.len() as int] == ':');
    let (l, r) = text::split_last(t, ':')->0;
    lemma_last_split(head, tail);
    text::law_split_first(t, ':');
    let (a, b) = text::split_first(t, ':')->0;
    if head.contains(':') {
        let i = choose|i: int| 0 <= i < head.len() && head[i] == ':';
        assert(t[i] == ':');
        text::lemma_first_index(t, ':');
        let k = text::first_index(t, ':');
        assert(k <= i);
        assert(b[head.len() - k - 1] == ':');
        text::law_split_first(b, ':');
    } else {
        text::law_split_first_at(head, ':', tail);
    }
    if !s.contains(':') {
        text::law_split_first(s, ':');
        text::law_split_last(s, ':');
        if let Some((x, y)) = text::split_first(s, ':') {
            assert(s[x.len() as int] == ':');
        }
        if let Some((x, y)) = text::split_last(s, ':') {
            assert(s[x.len() as int] == ':');
        }
        reveal_strlit("active:");
        if text::starts_with(s, "active:"@) {
            assert(s.take(7)[6] == ':');
            assert(s[6] == ':');
        }
    }
}

proof fn lemma_last_split(head: Seq<char>, tail: Seq<char>)
    requires
        !tail.contains(':'),
    ensures
        text::split_last(head.push(':') + tail, ':') == Some((head, tail)),
{
    let t = head.push(':') + tail;
    text::lemma_last_index(t, ':');
    let k = text::last_index(t, ':');
    assert(t[head.len() as int] == ':');
    if k > head.len() {
        assert(tail[k - head.len() - 1] == ':');
    }
    assert(k == head.len());
    assert(t.take(k) =~= head);
    assert(t.skip(k + 1) =~= tail);
}

}
