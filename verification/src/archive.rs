//! Archive names: recognising them beside an active log, and the stream order
//! that they fix.

use vstd::prelude::*;
use vstd::slice::slice_subrange;
use vstd::string::StrSliceExecFns;

use crate::error::LogError;
use crate::text;

verus! {

/// Width of the zero-padded sequence prefix in a numbered archive name.
///
/// Ten digits keeps the prefix distinguishable from a bare `YYYYMMDD` stamp
/// (eight digits) and leaves headroom far beyond any realistic rotation count.
pub const SEQ_WIDTH: usize = 10;

/// Ordering key for one archive, derived from its name rather than its mtime.
///
/// Rotation writes the sequence number into the archive name, so segment order
/// is fixed at write time and does not depend on when a reader enumerates the
/// directory.
///
/// Archives written before sequence numbers existed carry no number. They are
/// ordered by mtime and sort before every numbered archive, because they can
/// only predate the upgrade that introduced numbering.
#[derive(Debug, Clone, Copy, PartialEq, Eq, Structural)]
pub enum ArchiveOrder {
    /// Unnumbered archive, by its mtime in nanoseconds since the Unix epoch.
    Legacy(i128),
    /// Sequence number taken from the archive name.
    Numbered(u64),
}

/// What the file system reports of a directory entry.
#[derive(Debug, Clone, Copy, PartialEq, Eq, Structural)]
pub struct EntryMeta {
    pub is_file: bool,
    /// Mtime in nanoseconds since the Unix epoch, where the platform has one.
    pub modified: Option<i128>,
}

/// One entry of the log directory.
#[derive(Debug)]
pub struct DirEntry {
    /// The entry's name; `None` when it is not valid Unicode.
    pub name: Option<String>,
    /// Its metadata; `None` when it could not be read.
    pub meta: Option<EntryMeta>,
}

/// What listing the log directory gave.
#[derive(Debug)]
pub enum DirListing {
    /// There is no such directory.
    NotFound,
    /// The directory, or an entry of it, could not be read.
    Failed,
    Entries(Vec<DirEntry>),
}

/// One archive that belongs to a log, with its ordering key.
#[derive(Debug)]
pub struct Archive {
    pub name: String,
    pub order: ArchiveOrder,
}

/// A directory entry as a mathematical value.
pub struct DirEntryView {
    pub name: Option<Seq<char>>,
    pub meta: Option<EntryMeta>,
}

/// An archive as a mathematical value.
pub struct ArchiveView {
    pub name: Seq<char>,
    pub order: ArchiveOrder,
}

impl View for DirEntry {
    type V = DirEntryView;

    open spec fn view(&self) -> DirEntryView {
        DirEntryView { name: text::text_view(self.name), meta: self.meta }
    }
}

impl View for Archive {
    type V = ArchiveView;

    open spec fn view(&self) -> ArchiveView {
        ArchiveView { name: self.name@, order: self.order }
    }
}

/// The views of a run of directory entries.
pub open spec fn entry_views(entries: Seq<DirEntry>) -> Seq<DirEntryView> {
    Seq::new(entries.len(), |i: int| entries[i]@)
}

/// The views of a run of archives.
pub open spec fn archive_views(archives: Seq<Archive>) -> Seq<ArchiveView> {
    Seq::new(archives.len(), |i: int| archives[i]@)
}

// ---------------------------------------------------------------------------
// Names
// ---------------------------------------------------------------------------

/// A file name as its base and its extension with the dot. A name with no dot,
/// or one whose only dot is leading, has an empty extension.
pub open spec fn base_and_ext(name: Seq<char>) -> (Seq<char>, Seq<char>) {
    let i = text::last_index(name, '.');
    if i > 0 {
        (name.take(i), name.skip(i))
    } else {
        (name, Seq::empty())
    }
}

/// Exactly a `YYYYMMDD-HHMMSS` stamp: 8 digits, `-`, 6 digits.
pub open spec fn stamp_shape(s: Seq<char>) -> bool {
    &&& s.len() == 15
    &&& text::all_digits(s.take(8))
    &&& s[8] == '-'
    &&& text::all_digits(s.skip(9))
}

/// The sequence number of a `<seq>-<stamp>` core.
pub open spec fn core_seq(core: Seq<char>) -> Option<u64> {
    match text::split_first(core, '-') {
        Some((seq, rest)) => if seq.len() == SEQ_WIDTH && text::all_digits(seq) && stamp_shape(
            rest,
        ) {
            Some(text::decimal_value(seq) as u64)
        } else {
            None
        },
        None => None,
    }
}

/// A legacy core: `<stamp>` or `<stamp>.<counter>`.
pub open spec fn legacy_core(core: Seq<char>) -> bool {
    match text::split_first(core, '.') {
        Some((stamp, counter)) => counter.len() > 0 && text::all_digits(counter) && stamp_shape(
            stamp,
        ),
        None => stamp_shape(core),
    }
}

/// A core that rotation writes, now or before numbering.
pub open spec fn core_shape(core: Seq<char>) -> bool {
    core_seq(core) is Some || legacy_core(core)
}

/// What stands between `<base>.` and the extension of the active name in
/// `name`, when `name` has that form and is not the active name itself.
pub open spec fn between_base_and_ext(active: Seq<char>, name: Seq<char>) -> Option<Seq<char>> {
    let (base, ext) = base_and_ext(active);
    let prefix = base.push('.');
    let suffix = name.skip(prefix.len() as int);
    if name == active || !text::starts_with(name, prefix) || !text::ends_with(suffix, ext) {
        None
    } else {
        Some(suffix.take(suffix.len() - ext.len()))
    }
}

/// The core of `name` when it is an archive of the log called `active`.
pub open spec fn archive_core_of(active: Seq<char>, name: Seq<char>) -> Option<Seq<char>> {
    match between_base_and_ext(active, name) {
        Some(core) => if core_shape(core) {
            Some(core)
        } else {
            None
        },
        None => None,
    }
}

/// Split `foo.jsonl` into `("foo", ".jsonl")`. A name with no dot, or one
/// whose only dot is leading, keeps an empty extension.
pub fn split_base_ext(file_name: &str) -> (parts: (&str, &str))
    ensures
        (parts.0@, parts.1@) == base_and_ext(file_name@),
{
    let chars: Vec<char> = text::chars_of(file_name);
    let end: usize = chars.len();
    let at: usize = match text::find_last(chars.as_slice(), '.') {
        Some(i) => if i > 0 {
            i
        } else {
            end
        },
        None => end,
    };
    let base: &str = file_name.substring_char(0, at);
    let ext: &str = file_name.substring_char(at, end);
    proof {
        assert(file_name@.subrange(0, at as int) =~= file_name@.take(at as int));
        assert(file_name@.subrange(at as int, end as int) =~= file_name@.skip(at as int));
        if at == end {
            assert(file_name@.take(at as int) =~= file_name@);
            assert(file_name@.skip(at as int) =~= Seq::<char>::empty());
        }
    }
    (base, ext)
}

/// True when `s` is exactly a `YYYYMMDD-HHMMSS` stamp.
pub fn is_stamp(s: &str) -> (yes: bool)
    ensures
        yes == stamp_shape(s@),
{
    let chars: Vec<char> = text::chars_of(s);
    is_stamp_chars(chars.as_slice())
}

fn is_stamp_chars(s: &[char]) -> (yes: bool)
    ensures
        yes == stamp_shape(s@),
{
    if s.len() != 15 {
        return false;
    }
    let date: &[char] = slice_subrange(s, 0, 8);
    let time: &[char] = slice_subrange(s, 9, 15);
    assert(date@ =~= s@.take(8));
    assert(time@ =~= s@.skip(9));
    text::digits_only(date) && s[8] == '-' && text::digits_only(time)
}

/// Parse the sequence number out of an archive name core.
///
/// Accepts the numbered form `<seq>-<stamp>`; returns `None` for the legacy
/// `<stamp>` and `<stamp>.<counter>` forms, which carry no number.
pub fn archive_seq(core: &str) -> (seq: Option<u64>)
    ensures
        seq == core_seq(core@),
{
    let chars: Vec<char> = text::chars_of(core);
    archive_seq_chars(chars.as_slice())
}

fn archive_seq_chars(core: &[char]) -> (seq: Option<u64>)
    ensures
        seq == core_seq(core@),
{
    let end: usize = core.len();
    match text::find_first(core, '-') {
        Some(i) => {
            let seq: &[char] = slice_subrange(core, 0, i);
            let rest: &[char] = slice_subrange(core, i + 1, end);
            assert(seq@ =~= core@.take(i as int));
            assert(rest@ =~= core@.skip(i + 1));
            if seq.len() != SEQ_WIDTH || !text::digits_only(seq) || !is_stamp_chars(rest) {
                return None;
            }
            proof {
                lemma_ten_digits_fit(seq@);
                assert(text::is_digit(seq@[0]));
            }
            text::parse_u64(seq)
        },
        None => None,
    }
}

/// True when `core` is a core this writer generates: numbered, or a stamp with
/// an optional same-second counter.
pub fn is_archive_core(core: &str) -> (yes: bool)
    ensures
        yes == core_shape(core@),
{
    let chars: Vec<char> = text::chars_of(core);
    is_archive_core_chars(chars.as_slice())
}

fn is_archive_core_chars(core: &[char]) -> (yes: bool)
    ensures
        yes == core_shape(core@),
{
    if archive_seq_chars(core).is_some() {
        return true;
    }
    let end: usize = core.len();
    match text::find_first(core, '.') {
        Some(i) => {
            let stamp: &[char] = slice_subrange(core, 0, i);
            let counter: &[char] = slice_subrange(core, i + 1, end);
            assert(stamp@ =~= core@.take(i as int));
            assert(counter@ =~= core@.skip(i + 1));
            counter.len() > 0 && text::digits_only(counter) && is_stamp_chars(stamp)
        },
        None => is_stamp_chars(core),
    }
}

/// The core of `name` when it names an archive of the log called
/// `active_name`; `None` for every other name, the active one included.
pub fn archive_core(active_name: &str, name: &str) -> (core: Option<String>)
    ensures
        text::text_view(core) == archive_core_of(active_name@, name@),
{
    if text::text_eq(name, active_name) {
        return None;
    }
    let (base, ext) = split_base_ext(active_name);
    let mut prefix: Vec<char> = text::chars_of(base);
    prefix.push('.');
    let ext_chars: Vec<char> = text::chars_of(ext);
    let chars: Vec<char> = text::chars_of(name);
    if !text::has_prefix(chars.as_slice(), prefix.as_slice()) {
        return None;
    }
    let suffix: &[char] = slice_subrange(chars.as_slice(), prefix.len(), chars.len());
    assert(suffix@ =~= name@.skip(prefix@.len() as int));
    if !text::has_suffix(suffix, ext_chars.as_slice()) {
        return None;
    }
    let core: &[char] = slice_subrange(suffix, 0, suffix.len() - ext_chars.len());
    assert(core@ =~= suffix@.take(suffix@.len() - ext_chars@.len()));
    if !is_archive_core_chars(core) {
        return None;
    }
    Some(text::string_of(core))
}

// ---------------------------------------------------------------------------
// Listing
// ---------------------------------------------------------------------------

/// The ordering key of an archive with this core and mtime. An mtime that the
/// platform does not report counts as the Unix epoch.
pub open spec fn order_of(core: Seq<char>, modified: Option<i128>) -> ArchiveOrder {
    match core_seq(core) {
        Some(seq) => ArchiveOrder::Numbered(seq),
        None => ArchiveOrder::Legacy(
            match modified {
                Some(t) => t,
                None => 0,
            },
        ),
    }
}

/// The archive that a directory entry is, if it is one: a file with readable
/// metadata whose name has the archive form.
pub open spec fn archive_of_entry(active: Seq<char>, e: DirEntryView) -> Option<ArchiveView> {
    match (e.name, e.meta) {
        (Some(name), Some(meta)) => match archive_core_of(active, name) {
            Some(core) => if meta.is_file {
                Some(ArchiveView { name, order: order_of(core, meta.modified) })
            } else {
                None
            },
            None => None,
        },
        _ => None,
    }
}

/// The archives among `entries`, in the order of the entries.
pub open spec fn archives_among(active: Seq<char>, entries: Seq<DirEntryView>) -> Seq<ArchiveView>
    decreases entries.len(),
{
    if entries.len() == 0 {
        Seq::empty()
    } else {
        let before = archives_among(active, entries.drop_last());
        match archive_of_entry(active, entries.last()) {
            Some(a) => before.push(a),
            None => before,
        }
    }
}

/// The outcome of looking for the archives of the log called `active`.
pub open spec fn listed_archives(active: Option<Seq<char>>, listing: DirListing) -> Result<
    Seq<ArchiveView>,
    LogError,
> {
    match active {
        None => Err(LogError::NoFileName),
        Some(active) => match listing {
            DirListing::NotFound => Ok(Seq::empty()),
            DirListing::Failed => Err(LogError::ListFailed),
            DirListing::Entries(entries) => Ok(archives_among(active, entry_views(entries@))),
        },
    }
}

/// The ordering key of an archive with this core and mtime.
pub fn archive_order(core: &str, modified: Option<i128>) -> (order: ArchiveOrder)
    ensures
        order == order_of(core@, modified),
{
    match archive_seq(core) {
        Some(seq) => ArchiveOrder::Numbered(seq),
        None => ArchiveOrder::Legacy(
            match modified {
                Some(t) => t,
                None => 0,
            },
        ),
    }
}

fn entry_archive(active_name: &str, entry: &DirEntry) -> (archive: Option<Archive>)
    ensures
        match archive {
            Some(a) => archive_of_entry(active_name@, entry@) == Some(a@),
            None => archive_of_entry(active_name@, entry@) is None,
        },
{
    match (&entry.name, &entry.meta) {
        (Some(name), Some(meta)) => match archive_core(active_name, name.as_str()) {
            Some(core) => if meta.is_file {
                Some(
                    Archive {
                        name: name.clone(),
                        order: archive_order(core.as_str(), meta.modified),
                    },
                )
            } else {
                None
            },
            None => None,
        },
        _ => None,
    }
}

/// Enumerate the archive files that belong to the log called `active_name`,
/// each with its [`ArchiveOrder`] key.
///
/// Matching is restricted to names this writer generates, so unrelated
/// siblings in the same directory are never returned. The active file itself
/// is excluded, and so is an entry whose metadata could not be read. The order
/// is that of the listing; callers that need stream order sort by the key.
pub fn list_archives(active_name: &Option<String>, listing: &DirListing) -> (archives: Result<
    Vec<Archive>,
    LogError,
>)
    ensures
        match archives {
            Ok(v) => listed_archives(text::text_view(*active_name), *listing) == Ok::<
                Seq<ArchiveView>,
                LogError,
            >(archive_views(v@)),
            Err(e) => listed_archives(text::text_view(*active_name), *listing) == Err::<
                Seq<ArchiveView>,
                LogError,
            >(e),
        },
{
    let active: &str = match active_name {
        Some(n) => n.as_str(),
        None => {
            return Err(LogError::NoFileName);
        },
    };
    let mut out: Vec<Archive> = Vec::new();
    match listing {
        DirListing::NotFound => {
            assert(archive_views(out@) =~= Seq::<ArchiveView>::empty());
            Ok(out)
        },
        DirListing::Failed => Err(LogError::ListFailed),
        DirListing::Entries(entries) => {
            let ghost views = entry_views(entries@);
            assert(archive_views(out@) =~= archives_among(active@, views.take(0)));
            let mut i: usize = 0;
            while i < entries.len()
                invariant
                    i <= entries@.len(),
                    views == entry_views(entries@),
                    archive_views(out@) == archives_among(active@, views.take(i as int)),
                decreases entries@.len() - i,
            {
                assert(views.take(i + 1).drop_last() =~= views.take(i as int));
                assert(views.take(i + 1).last() == entries@[i as int]@);
                let ghost before = out@;
                if let Some(a) = entry_archive(active, &entries[i]) {
                    out.push(a);
                    assert(archive_views(out@) =~= archive_views(before).push(a@));
                }
                i += 1;
            }
            assert(views.take(i as int) =~= views);
            Ok(out)
        },
    }
}

// ---------------------------------------------------------------------------
// Stream order
// ---------------------------------------------------------------------------

/// `a` may stand before `b` in the stream: every legacy archive comes before
/// every numbered one, legacy ones go by mtime and numbered ones by number.
pub open spec fn order_le(a: ArchiveOrder, b: ArchiveOrder) -> bool {
    match (a, b) {
        (ArchiveOrder::Legacy(x), ArchiveOrder::Legacy(y)) => x <= y,
        (ArchiveOrder::Legacy(_), ArchiveOrder::Numbered(_)) => true,
        (ArchiveOrder::Numbered(_), ArchiveOrder::Legacy(_)) => false,
        (ArchiveOrder::Numbered(x), ArchiveOrder::Numbered(y)) => x <= y,
    }
}

/// `s` with `a` placed behind the last archive that may stand before it.
pub open spec fn placed(s: Seq<ArchiveView>, a: ArchiveView) -> Seq<ArchiveView>
    decreases s.len(),
{
    if s.len() == 0 || order_le(s.last().order, a.order) {
        s.push(a)
    } else {
        placed(s.drop_last(), a).push(s.last())
    }
}

/// The archives of `s` in stream order; those with equal keys stay in the
/// order in which `s` has them.
pub open spec fn stream_order(s: Seq<ArchiveView>) -> Seq<ArchiveView>
    decreases s.len(),
{
    if s.len() == 0 {
        Seq::empty()
    } else {
        placed(stream_order(s.drop_last()), s.last())
    }
}

/// No archive stands before one that must come before it.
pub open spec fn in_order(s: Seq<ArchiveView>) -> bool {
    forall|i: int, j: int| 0 <= i <= j < s.len() ==> order_le(#[trigger] s[i].order, #[trigger] s[j].order)
}

/// The archives of `s` with the key `k`, in the order of `s`.
pub open spec fn with_order(s: Seq<ArchiveView>, k: ArchiveOrder) -> Seq<ArchiveView>
    decreases s.len(),
{
    if s.len() == 0 {
        Seq::empty()
    } else {
        let before = with_order(s.drop_last(), k);
        if s.last().order == k {
            before.push(s.last())
        } else {
            before
        }
    }
}

/// True when `a` may stand before `b` in the stream.
pub fn may_precede(a: &ArchiveOrder, b: &ArchiveOrder) -> (yes: bool)
    ensures
        yes == order_le(*a, *b),
{
    match (a, b) {
        (ArchiveOrder::Legacy(x), ArchiveOrder::Legacy(y)) => *x <= *y,
        (ArchiveOrder::Legacy(_), ArchiveOrder::Numbered(_)) => true,
        (ArchiveOrder::Numbered(_), ArchiveOrder::Legacy(_)) => false,
        (ArchiveOrder::Numbered(x), ArchiveOrder::Numbered(y)) => *x <= *y,
    }
}

/// Sort archives into stream order, oldest first. The sort is stable.
pub fn sort_archives(archives: Vec<Archive>) -> (sorted: Vec<Archive>)
    ensures
        archive_views(sorted@) == stream_order(archive_views(archives@)),
{
    let mut rest: Vec<Archive> = archives;
    let mut reversed: Vec<Archive> = Vec::new();
    let ghost all = archives@;
    while rest.len() > 0
        invariant
            rest@.len() + reversed@.len() == all.len(),
            rest@ == all.take(rest@.len() as int),
            forall|k: int| 0 <= k < reversed@.len() ==> reversed@[k] == all[all.len() - 1 - k],
        decreases rest@.len(),
    {
        if let Some(a) = rest.pop() {
            reversed.push(a);
        }
        assert(rest@ =~= all.take(rest@.len() as int));
    }
    let mut sorted: Vec<Archive> = Vec::new();
    let ghost views = archive_views(all);
    assert(archive_views(sorted@) =~= stream_order(views.take(0)));
    while reversed.len() > 0
        invariant
            sorted@.len() + reversed@.len() == all.len(),
            views == archive_views(all),
            forall|k: int| 0 <= k < reversed@.len() ==> reversed@[k] == all[all.len() - 1 - k],
            archive_views(sorted@) == stream_order(views.take(sorted@.len() as int)),
        decreases reversed@.len(),
    {
        let ghost n = sorted@.len() as int;
        if let Some(a) = reversed.pop() {
            assert(a == all[n]);
            assert(views.take(n + 1).drop_last() =~= views.take(n));
            assert(views.take(n + 1).last() == a@);
            place(&mut sorted, a);
        }
    }
    assert(views.take(all.len() as int) =~= views);
    sorted
}

fn place(sorted: &mut Vec<Archive>, a: Archive)
    ensures
        archive_views(final(sorted)@) == placed(archive_views(old(sorted)@), a@),
        final(sorted)@.len() == old(sorted)@.len() + 1,
{
    let mut at: usize = sorted.len();
    let ghost views = archive_views(sorted@);
    while at > 0 && !may_precede(&sorted[at - 1].order, &a.order)
        invariant
            at <= sorted@.len(),
            views == archive_views(sorted@),
            forall|k: int| at <= k < views.len() ==> !order_le(#[trigger] views[k].order, a.order),
        decreases at,
    {
        assert(!order_le(views[at - 1].order, a.order));
        at -= 1;
    }
    proof {
        assert(at > 0 ==> order_le(views[at - 1].order, a.order));
        lemma_placed_at(views, a@, at as int);
    }
    let ghost view = a@;
    sorted.insert(at, a);
    assert(archive_views(sorted@) =~= views.insert(at as int, view));
}

proof fn lemma_placed_at(s: Seq<ArchiveView>, a: ArchiveView, at: int)
    requires
        0 <= at <= s.len(),
        at > 0 ==> order_le(s[at - 1].order, a.order),
        forall|k: int| at <= k < s.len() ==> !order_le(#[trigger] s[k].order, a.order),
    ensures
        placed(s, a) == s.insert(at, a),
    decreases s.len(),
{
    if at < s.len() {
        assert(!order_le(s[s.len() - 1].order, a.order));
        assert forall|k: int| at <= k < s.len() - 1 implies !order_le(
            #[trigger] s.drop_last()[k].order,
            a.order,
        ) by {
            assert(s[k] == s.drop_last()[k]);
        }
        lemma_placed_at(s.drop_last(), a, at);
        assert(s.insert(at, a) =~= s.drop_last().insert(at, a).push(s.last()));
    } else {
        assert(s.insert(at, a) =~= s.push(a));
    }
}

/// Stream order is a stable sort: its result is ordered, holds the same
/// archives, and keeps archives with equal keys in their listed order.
pub proof fn law_stream_order_is_a_stable_sort(s: Seq<ArchiveView>)
    ensures
        in_order(stream_order(s)),
        stream_order(s).to_multiset() == s.to_multiset(),
        forall|k: ArchiveOrder| #[trigger] with_order(stream_order(s), k) == with_order(s, k),
    decreases s.len(),
{
    if s.len() > 0 {
        let before = s.drop_last();
        law_stream_order_is_a_stable_sort(before);
        let sorted = stream_order(before);
        lemma_placed(sorted, s.last());
        assert(s =~= before.push(s.last()));
        vstd::seq_lib::to_multiset_build(before, s.last());
        assert forall|k: ArchiveOrder| #[trigger] with_order(stream_order(s), k) == with_order(s, k) by {
            assert(with_order(sorted, k) == with_order(before, k));
            lemma_placed_with_order(sorted, s.last(), k);
            assert(sorted.push(s.last()).drop_last() =~= sorted);
            assert(sorted.push(s.last()).last() == s.last());
        }
    } else {
        assert(s =~= Seq::<ArchiveView>::empty());
    }
}

proof fn lemma_placed(s: Seq<ArchiveView>, a: ArchiveView)
    requires
        in_order(s),
    ensures
        in_order(placed(s, a)),
        placed(s, a).len() == s.len() + 1,
        placed(s, a).to_multiset() == s.to_multiset().insert(a),
        forall|i: int| 0 <= i < placed(s, a).len() ==> #[trigger] placed(s, a)[i] == a || s.contains(placed(s, a)[i]),
    decreases s.len(),
{
    vstd::seq_lib::to_multiset_build(s, a);
    if s.len() == 0 || order_le(s.last().order, a.order) {
        let p = s.push(a);
        assert forall|i: int, j: int| 0 <= i <= j < p.len() implies order_le(#[trigger] p[i].order, #[trigger] p[j].order) by {
            if j == s.len() && i < j {
                assert(order_le(s[i].order, s[s.len() - 1].order));
            }
        }
    } else {
        let rest = s.drop_last();
        let last = s.last();
        assert(in_order(rest)) by {
            assert forall|i: int, j: int| 0 <= i <= j < rest.len() implies order_le(#[trigger] rest[i].order, #[trigger] rest[j].order) by {
                assert(order_le(s[i].order, s[j].order));
            }
        }
        lemma_placed(rest, a);
        let q = placed(rest, a);
        let p = q.push(last);
        assert(placed(s, a) == p);
        vstd::seq_lib::to_multiset_build(q, last);
        vstd::seq_lib::to_multiset_build(rest, last);
        assert(s =~= rest.push(last));
        assert(p.to_multiset() =~= s.to_multiset().insert(a));
        assert forall|i: int, j: int| 0 <= i <= j < p.len() implies order_le(#[trigger] p[i].order, #[trigger] p[j].order) by {
            if j == q.len() && i < j {
                if q[i] != a {
                    assert(rest.contains(q[i]));
                    let k = choose|k: int| 0 <= k < rest.len() && rest[k] == q[i];
                    assert(order_le(s[k].order, s[s.len() - 1].order));
                }
            }
        }
        assert forall|i: int| 0 <= i < p.len() implies #[trigger] p[i] == a || s.contains(p[i]) by {
            if i < q.len() {
                if q[i] != a {
                    let k = choose|k: int| 0 <= k < rest.len() && rest[k] == q[i];
                    assert(s[k] == p[i]);
                }
            } else {
                assert(s[s.len() - 1] == p[i]);
            }
        }
    }
}

proof fn lemma_placed_with_order(s: Seq<ArchiveView>, a: ArchiveView, k: ArchiveOrder)
    requires
        in_order(s),
    ensures
        with_order(placed(s, a), k) == with_order(s.push(a), k),
    decreases s.len(),
{
    assert(s.push(a).drop_last() =~= s);
    if s.len() > 0 && !order_le(s.last().order, a.order) {
        let rest = s.drop_last();
        assert forall|i: int, j: int| 0 <= i <= j < rest.len() implies order_le(#[trigger] rest[i].order, #[trigger] rest[j].order) by {
            assert(order_le(s[i].order, s[j].order));
        }
        lemma_placed_with_order(rest, a, k);
        assert(rest.push(a).drop_last() =~= rest);
        assert(rest.push(a).last() == a);
        let p = placed(rest, a).push(s.last());
        assert(p.drop_last() =~= placed(rest, a));
        assert(p.last() == s.last());
        assert(s.push(a).last() == a);
        assert(p == placed(s, a));
        reveal_with_fuel(with_order, 3);
    }
}

/// Stream order depends on nothing but the keys and, among archives with equal
/// keys, their listed order.
pub proof fn law_stream_order_is_fixed_by_keys(a: Seq<ArchiveView>, b: Seq<ArchiveView>)
    requires
        forall|k: ArchiveOrder| #[trigger] with_order(a, k) == with_order(b, k),
    ensures
        stream_order(a) == stream_order(b),
{
    law_stream_order_is_a_stable_sort(a);
    law_stream_order_is_a_stable_sort(b);
    let x = stream_order(a);
    let y = stream_order(b);
    assert forall|k: ArchiveOrder| #[trigger] with_order(x, k) == with_order(y, k) by {
        assert(with_order(x, k) == with_order(a, k));
        assert(with_order(y, k) == with_order(b, k));
    }
    lemma_ordered_unique(x, y);
}

proof fn lemma_ordered_unique(a: Seq<ArchiveView>, b: Seq<ArchiveView>)
    requires
        in_order(a),
        in_order(b),
        forall|k: ArchiveOrder| #[trigger] with_order(a, k) == with_order(b, k),
    ensures
        a == b,
    decreases a.len(),
{
    if a.len() == 0 {
        if b.len() > 0 {
            let k = b.last().order;
            assert(with_order(a, k).len() == 0);
            assert(with_order(b, k).len() > 0);
        }
        assert(a =~= b);
    } else {
        let k = a.last().order;
        assert(with_order(a, k).last() == a.last());
        assert(with_order(b, k).len() > 0);
        lemma_with_order_member(b, k);
        let m = b.last().order;
        assert(with_order(b, m).last() == b.last());
        assert(with_order(a, m).len() > 0);
        lemma_with_order_member(a, m);
        assert(k == m);
        assert(a.last() == b.last());
        assert forall|i: int, j: int|
            0 <= i <= j < a.len() - 1 implies order_le(
            #[trigger] a.drop_last()[i].order,
            #[trigger] a.drop_last()[j].order,
        ) by {
            assert(order_le(a[i].order, a[j].order));
        }
        assert forall|i: int, j: int|
            0 <= i <= j < b.len() - 1 implies order_le(
            #[trigger] b.drop_last()[i].order,
            #[trigger] b.drop_last()[j].order,
        ) by {
            assert(order_le(b[i].order, b[j].order));
        }
        assert forall|n: ArchiveOrder| #[trigger] with_order(a.drop_last(), n) == with_order(
            b.drop_last(),
            n,
        ) by {
            assert(with_order(a, n) == with_order(b, n));
            if n == k {
                assert(with_order(a.drop_last(), n) =~= with_order(a, n).drop_last());
                assert(with_order(b.drop_last(), n) =~= with_order(b, n).drop_last());
            }
        }
        lemma_ordered_unique(a.drop_last(), b.drop_last());
        assert(a =~= a.drop_last().push(a.last()));
        assert(b =~= b.drop_last().push(b.last()));
    }
}

/// A sequence with archives of a key ends at or after that key.
proof fn lemma_with_order_member(s: Seq<ArchiveView>, k: ArchiveOrder)
    requires
        in_order(s),
        with_order(s, k).len() > 0,
    ensures
        s.len() > 0,
        order_le(k, s.last().order),
    decreases s.len(),
{
    if s.last().order != k {
        let rest = s.drop_last();
        assert forall|i: int, j: int| 0 <= i <= j < rest.len() implies order_le(
            #[trigger] rest[i].order,
            #[trigger] rest[j].order,
        ) by {
            assert(order_le(s[i].order, s[j].order));
        }
        lemma_with_order_member(rest, k);
        assert(order_le(s[s.len() - 2].order, s[s.len() - 1].order));
    }
}

/// No two archives have the same key.
pub open spec fn keys_distinct(s: Seq<ArchiveView>) -> bool {
    forall|i: int, j: int|
        0 <= i < j < s.len() ==> (#[trigger] s[i]).order != (#[trigger] s[j]).order
}

/// Where no two archives have the same key, the order in which a directory
/// lists them does not matter.
pub proof fn law_listing_order_does_not_matter(a: Seq<ArchiveView>, b: Seq<ArchiveView>)
    requires
        keys_distinct(a),
        keys_distinct(b),
        forall|x: ArchiveView| #[trigger] a.contains(x) <==> b.contains(x),
    ensures
        stream_order(a) == stream_order(b),
{
    assert forall|k: ArchiveOrder| #[trigger] with_order(a, k) == with_order(b, k) by {
        lemma_with_distinct_order(a, k);
        lemma_with_distinct_order(b, k);
        if exists|i: int| 0 <= i < a.len() && a[i].order == k {
            let i = choose|i: int| 0 <= i < a.len() && a[i].order == k;
            assert(a.contains(a[i]));
            assert(b.contains(a[i]));
            let j = choose|j: int| 0 <= j < b.len() && b[j] == a[i];
            assert(b[j].order == k);
        } else if exists|j: int| 0 <= j < b.len() && b[j].order == k {
            let j = choose|j: int| 0 <= j < b.len() && b[j].order == k;
            assert(b.contains(b[j]));
            assert(a.contains(b[j]));
            let i = choose|i: int| 0 <= i < a.len() && a[i] == b[j];
            assert(a[i].order == k);
        }
    }
    law_stream_order_is_fixed_by_keys(a, b);
}

proof fn lemma_with_distinct_order(s: Seq<ArchiveView>, k: ArchiveOrder)
    requires
        keys_distinct(s),
    ensures
        forall|i: int|
            0 <= i < s.len() && (#[trigger] s[i]).order == k ==> with_order(s, k) == seq![s[i]],
        (forall|i: int| 0 <= i < s.len() ==> (#[trigger] s[i]).order != k) ==> with_order(s, k)
            == Seq::<ArchiveView>::empty(),
    decreases s.len(),
{
    if s.len() > 0 {
        let rest = s.drop_last();
        assert forall|i: int, j: int| 0 <= i < j < rest.len() implies (#[trigger] rest[i]).order != (
        #[trigger] rest[j]).order by {
            assert(s[i].order != s[j].order);
        }
        lemma_with_distinct_order(rest, k);
        assert forall|i: int| 0 <= i < s.len() && (#[trigger] s[i]).order == k implies with_order(
            s,
            k,
        ) == seq![s[i]] by {
            if i == s.len() - 1 {
                assert forall|j: int| 0 <= j < rest.len() implies (#[trigger] rest[j]).order != k by {
                    assert(s[j].order != s[i].order);
                }
                assert(with_order(s, k) =~= seq![s[i]]);
            } else {
                assert(rest[i] == s[i]);
                assert(s[s.len() - 1].order != k);
            }
        }
        if forall|i: int| 0 <= i < s.len() ==> (#[trigger] s[i]).order != k {
            assert forall|j: int| 0 <= j < rest.len() implies (#[trigger] rest[j]).order != k by {
                assert(s[j].order != k);
            }
            assert(s[s.len() - 1].order != k);
        }
    }
}

/// The key of a numbered archive does not depend on its mtime.
pub proof fn law_number_outranks_mtime(core: Seq<char>, m: Option<i128>, n: Option<i128>)
    requires
        core_seq(core) is Some,
    ensures
        order_of(core, m) == order_of(core, n),
{
}

/// What is listed are exactly the files whose names rotation generates for
/// this log: no unrelated sibling, never the active file, and none left out.
pub proof fn law_exactly_the_archives_are_listed(active: Seq<char>, entries: Seq<DirEntryView>)
    ensures
        forall|a: ArchiveView| #[trigger]
            archives_among(active, entries).contains(a) ==> a.name != active && archive_core_of(
                active,
                a.name,
            ) is Some && exists|i: int|
                0 <= i < entries.len() && archive_of_entry(active, #[trigger] entries[i]) == Some(
                    a,
                ),
        forall|i: int|
            0 <= i < entries.len() ==> (archive_of_entry(active, #[trigger] entries[i]) matches Some(
                a,
            ) ==> archives_among(active, entries).contains(a)),
    decreases entries.len(),
{
    if entries.len() > 0 {
        let rest = entries.drop_last();
        law_exactly_the_archives_are_listed(active, rest);
        let all = archives_among(active, entries);
        let before = archives_among(active, rest);
        assert forall|a: ArchiveView| #[trigger] all.contains(a) implies a.name != active
            && archive_core_of(active, a.name) is Some && exists|i: int|
            0 <= i < entries.len() && archive_of_entry(active, #[trigger] entries[i]) == Some(a) by {
            if before.contains(a) {
                let i = choose|i: int|
                    0 <= i < rest.len() && archive_of_entry(active, #[trigger] rest[i]) == Some(a);
                assert(entries[i] == rest[i]);
            } else {
                let p = choose|p: int| 0 <= p < all.len() && all[p] == a;
                assert(p == before.len()) by {
                    if p < before.len() {
                        assert(before[p] == a);
                    }
                }
                assert(archive_of_entry(active, entries[entries.len() - 1]) == Some(a));
            }
        }
        assert forall|i: int| 0 <= i < entries.len() implies (archive_of_entry(
            active,
            #[trigger] entries[i],
        ) matches Some(a) ==> all.contains(a)) by {
            if let Some(a) = archive_of_entry(active, entries[i]) {
                if i < rest.len() {
                    assert(rest[i] == entries[i]);
                    assert(before.contains(a));
                    let p = choose|p: int| 0 <= p < before.len() && before[p] == a;
                    assert(all[p] == a);
                } else {
                    assert(all[all.len() - 1] == a);
                }
            }
        }
    }
}

// ---------------------------------------------------------------------------
// Laws of names
// ---------------------------------------------------------------------------

/// A stamp is never read as a sequence number: the legacy forms carry none.
pub proof fn law_legacy_core_has_no_number(core: Seq<char>)
    requires
        legacy_core(core),
    ensures
        core_seq(core) is None,
{
    text::lemma_first_index(core, '-');
    text::lemma_first_index(core, '.');
    let dash = text::first_index(core, '-');
    let dot = text::first_index(core, '.');
    let stamp = if dot < core.len() {
        core.take(dot)
    } else {
        core
    };
    assert(stamp_shape(stamp));
    assert(core[8] == stamp[8]);
    if core_seq(core) is Some {
        assert(dash == 10);
        assert(core[8] != '-');
    }
}

/// The name that rotation gives an archive is recognised, and its number is
/// read back.
pub proof fn law_numbered_name_is_recognised(active: Seq<char>, seq: Seq<char>, stamp: Seq<char>)
    requires
        seq.len() == SEQ_WIDTH,
        text::all_digits(seq),
        stamp_shape(stamp),
    ensures
        ({
            let (base, ext) = base_and_ext(active);
            let core = seq.push('-') + stamp;
            &&& archive_core_of(active, base.push('.') + core + ext) == Some(core)
            &&& core_seq(core) == Some(text::decimal_value(seq) as u64)
        }),
{
    let (base, ext) = base_and_ext(active);
    let core = seq.push('-') + stamp;
    let prefix = base.push('.');
    let name = prefix + core + ext;
    text::lemma_last_index(active, '.');
    assert(active =~= base + ext);
    assert(name.len() > active.len());
    assert(name.take(prefix.len() as int) =~= prefix);
    let suffix = name.skip(prefix.len() as int);
    assert(suffix =~= core + ext);
    assert(suffix.skip(suffix.len() - ext.len()) =~= ext);
    assert(suffix.take(suffix.len() - ext.len()) =~= core);
    assert forall|i: int| 0 <= i < 10 implies core[i] != '-' by {
        assert(core[i] == seq[i]);
        assert(text::is_digit(seq[i]));
    }
    text::lemma_first_index_at(core, '-', 10);
    assert(core.take(10) =~= seq);
    assert(core.skip(11) =~= stamp);
}

/// Ten digits denote a number that fits in 64 bits.
proof fn lemma_ten_digits_fit(s: Seq<char>)
    requires
        s.len() == SEQ_WIDTH,
        text::all_digits(s),
    ensures
        text::decimal_value(s) < 10_000_000_000,
{
    lemma_digits_bound(s, 10);
    reveal_with_fuel(power_of_ten, 11);
}

proof fn lemma_digits_bound(s: Seq<char>, n: int)
    requires
        s.len() == n,
        0 <= n,
        text::all_digits(s),
    ensures
        text::decimal_value(s) < power_of_ten(n),
    decreases n,
{
    if n > 0 {
        assert forall|i: int| 0 <= i < n - 1 implies text::is_digit(#[trigger] s.drop_last()[i]) by {
            assert(text::is_digit(s[i]));
        }
        lemma_digits_bound(s.drop_last(), n - 1);
        assert(text::is_digit(s[n - 1]));
    }
}

/// Ten to the power of `n`.
spec fn power_of_ten(n: int) -> int
    decreases n,
{
    if n <= 0 {
        1
    } else {
        10 * power_of_ten(n - 1)
    }
}

// ---------------------------------------------------------------------------
// Laws of listings, order and shapes
// ---------------------------------------------------------------------------

/// The view of a directory entry and that of an archive leave nothing out.
pub proof fn law_archive_views_are_faithful(entry: DirEntry, archives: Seq<Archive>, i: int)
    ensures
        entry@.name is Some <==> entry.name is Some,
        entry.name matches Some(n) ==> entry@.name == Some(n@),
        entry@.meta == entry.meta,
        archive_views(archives).len() == archives.len(),
        0 <= i < archives.len() ==> archive_views(archives)[i] == (ArchiveView {
            name: archives[i].name@,
            order: archives[i].order,
        }),
{
}

/// Stream order neither loses nor invents an archive.
pub proof fn law_stream_order_is_a_permutation(s: Seq<ArchiveView>)
    ensures
        stream_order(s).len() == s.len(),
        forall|a: ArchiveView| #[trigger] stream_order(s).contains(a) <==> s.contains(a),
{
    broadcast use vstd::seq_lib::group_to_multiset_ensures;

    law_stream_order_is_a_stable_sort(s);
    assert(stream_order(s).to_multiset().len() == s.to_multiset().len());
    assert forall|a: ArchiveView| #[trigger] stream_order(s).contains(a) <==> s.contains(a) by {
        assert(stream_order(s).to_multiset().count(a) == s.to_multiset().count(a));
    }
}

/// In stream order numbers never decrease, mtimes of unnumbered archives never
/// decrease, and no unnumbered archive follows a numbered one.
pub proof fn law_stream_order(s: Seq<ArchiveView>, i: int, j: int)
    requires
        0 <= i < j < stream_order(s).len(),
    ensures
        match (stream_order(s)[i].order, stream_order(s)[j].order) {
            (ArchiveOrder::Numbered(a), ArchiveOrder::Numbered(b)) => a <= b,
            (ArchiveOrder::Legacy(a), ArchiveOrder::Legacy(b)) => a <= b,
            (ArchiveOrder::Legacy(_), ArchiveOrder::Numbered(_)) => true,
            (ArchiveOrder::Numbered(_), ArchiveOrder::Legacy(_)) => false,
        },
{
    law_stream_order_is_a_stable_sort(s);
    assert(order_le(stream_order(s)[i].order, stream_order(s)[j].order));
}

/// Archives with the same key keep their listed order.
pub proof fn law_stream_order_keeps_ties(s: Seq<ArchiveView>, k: ArchiveOrder)
    ensures
        stream_order(s).filter(|a: ArchiveView| a.order == k) == s.filter(
            |a: ArchiveView| a.order == k,
        ),
{
    law_stream_order_is_a_stable_sort(s);
    lemma_with_order_filters(s, k);
    lemma_with_order_filters(stream_order(s), k);
    assert(with_order(stream_order(s), k) == with_order(s, k));
}

proof fn lemma_with_order_filters(s: Seq<ArchiveView>, k: ArchiveOrder)
    ensures
        with_order(s, k) == s.filter(|a: ArchiveView| a.order == k),
    decreases s.len(),
{
    reveal(Seq::filter);
    if s.len() > 0 {
        lemma_with_order_filters(s.drop_last(), k);
    }
}

/// A name splits into two parts that make it up again. The second part is empty
/// or starts at the last dot, and the first is never empty but for a name that
/// is.
pub proof fn law_base_and_extension(name: Seq<char>)
    ensures
        base_and_ext(name).0 + base_and_ext(name).1 == name,
        base_and_ext(name).1.len() > 0 ==> base_and_ext(name).0.len() > 0
            && base_and_ext(name).1[0] == '.' && !base_and_ext(name).1.skip(1).contains('.'),
        base_and_ext(name).1.len() == 0 ==> forall|i: int|
            0 < i < name.len() ==> #[trigger] name[i] != '.',
{
    text::lemma_last_index(name, '.');
    let (base, ext) = base_and_ext(name);
    let i = text::last_index(name, '.');
    assert(base + ext =~= name);
    if ext.len() > 0 {
        assert(ext[0] == name[i]);
        if ext.skip(1).contains('.') {
            let k = choose|k: int| 0 <= k < ext.skip(1).len() && ext.skip(1)[k] == '.';
            assert(name[i + 1 + k] == '.');
        }
    }
}

/// A stamp is fifteen characters, digits all of them but for the dash behind the
/// eighth.
pub proof fn law_stamp_shape(s: Seq<char>)
    ensures
        stamp_shape(s) <==> s.len() == 15 && forall|i: int|
            0 <= i < 15 ==> if i == 8 {
                #[trigger] s[i] == '-'
            } else {
                '0' <= s[i] && s[i] <= '9'
            },
{
    if stamp_shape(s) {
        assert forall|i: int| 0 <= i < 15 implies if i == 8 {
            #[trigger] s[i] == '-'
        } else {
            '0' <= s[i] && s[i] <= '9'
        } by {
            if i < 8 {
                assert(text::is_digit(s.take(8)[i]));
            } else if i > 8 {
                assert(text::is_digit(s.skip(9)[i - 9]));
            }
        }
    }
    if s.len() == 15 && forall|i: int|
        0 <= i < 15 ==> if i == 8 {
            #[trigger] s[i] == '-'
        } else {
            '0' <= s[i] && s[i] <= '9'
        } {
        assert forall|i: int| 0 <= i < 8 implies text::is_digit(#[trigger] s.take(8)[i]) by {
            assert(s.take(8)[i] == s[i]);
        }
        assert forall|i: int| 0 <= i < 6 implies text::is_digit(#[trigger] s.skip(9)[i]) by {
            assert(s.skip(9)[i] == s[i + 9]);
        }
        assert(s[8] == '-');
    }
}

/// A core has a number exactly when it is ten digits, a dash and a stamp, and
/// the number is that of the ten digits.
pub proof fn law_core_number(core: Seq<char>)
    ensures
        core_seq(core) is Some <==> core.len() == 26 && core[10] == '-' && stamp_shape(
            core.skip(11),
        ) && forall|i: int| 0 <= i < 10 ==> '0' <= #[trigger] core[i] && core[i] <= '9',
        core_seq(core) matches Some(n) ==> n == text::decimal_value(core.take(10)),
{
    text::lemma_first_index(core, '-');
    let d = text::first_index(core, '-');
    if core_seq(core) is Some {
        assert(d == 10);
        assert forall|i: int| 0 <= i < 10 implies '0' <= #[trigger] core[i] && core[i] <= '9' by {
            assert(text::is_digit(core.take(10)[i]));
        }
        lemma_ten_digits_fit(core.take(10));
    }
    if core.len() == 26 && core[10] == '-' && stamp_shape(core.skip(11)) && forall|i: int|
        0 <= i < 10 ==> '0' <= #[trigger] core[i] && core[i] <= '9' {
        text::lemma_first_index_at(core, '-', 10);
        assert forall|i: int| 0 <= i < 10 implies text::is_digit(#[trigger] core.take(10)[i]) by {
            assert(core.take(10)[i] == core[i]);
        }
    }
}

/// A core without a number is a stamp, or a stamp, a dot and a counter.
pub proof fn law_legacy_core(core: Seq<char>)
    ensures
        legacy_core(core) <==> stamp_shape(core) || (core.len() > 16 && core[15] == '.'
            && stamp_shape(core.take(15)) && text::all_digits(core.skip(16))),
        core_shape(core) <==> core_seq(core) is Some || legacy_core(core),
{
    text::lemma_first_index(core, '.');
    let d = text::first_index(core, '.');
    if stamp_shape(core) {
        law_stamp_shape(core);
        if d < core.len() {
            assert(core[d] != '.');
        }
    }
    if core.len() > 16 && core[15] == '.' && stamp_shape(core.take(15)) && text::all_digits(
        core.skip(16),
    ) {
        law_stamp_shape(core.take(15));
        assert forall|i: int| 0 <= i < 15 implies core[i] != '.' by {
            assert(core.take(15)[i] == core[i]);
        }
        text::lemma_first_index_at(core, '.', 15);
    }
}

/// A name is that of an archive exactly when it is the base of the active name,
/// a dot, a core and the extension, and not the active name itself.
pub proof fn law_archive_name(active: Seq<char>, name: Seq<char>)
    ensures
        archive_core_of(active, name) matches Some(core) ==> {
            &&& name == base_and_ext(active).0.push('.') + core + base_and_ext(active).1
            &&& name != active
            &&& core_shape(core)
        },
        forall|core: Seq<char>|
            #![trigger core_shape(core)]
            core_shape(core) && name != active && name == base_and_ext(active).0.push('.') + core
                + base_and_ext(active).1 ==> archive_core_of(active, name) == Some(core),
{
    let (base, ext) = base_and_ext(active);
    let prefix = base.push('.');
    if let Some(core) = archive_core_of(active, name) {
        let suffix = name.skip(prefix.len() as int);
        assert(name =~= prefix + suffix);
        assert(suffix =~= core + ext);
        assert(name =~= prefix + core + ext);
    }
    assert forall|core: Seq<char>|
        #![trigger core_shape(core)]
        core_shape(core) && name != active && name == prefix + core + ext implies archive_core_of(
        active,
        name,
    ) == Some(core) by {
        let suffix = name.skip(prefix.len() as int);
        assert(name.take(prefix.len() as int) =~= prefix);
        assert(suffix =~= core + ext);
        assert(suffix.skip(suffix.len() - ext.len()) =~= ext);
        assert(suffix.take(suffix.len() - ext.len()) =~= core);
    }
}

/// An entry is an archive exactly when it has a name of that form, its metadata
/// could be read and it is a file. It keeps its name, and its key is its number,
/// or else its mtime, or else the Unix epoch.
pub proof fn law_archive_of_entry(active: Seq<char>, e: DirEntryView)
    ensures
        archive_of_entry(active, e) is Some <==> e.name is Some && archive_core_of(
            active,
            e.name->0,
        ) is Some && e.meta is Some && (e.meta->0).is_file,
        archive_of_entry(active, e) matches Some(a) ==> e.name == Some(a.name) && match core_seq(
            archive_core_of(active, a.name)->0,
        ) {
            Some(n) => a.order == ArchiveOrder::Numbered(n),
            None => a.order == ArchiveOrder::Legacy(
                match (e.meta->0).modified {
                    Some(t) => t,
                    None => 0,
                },
            ),
        },
{
}

/// Listing goes entry by entry: what two runs of entries give is what each
/// gives, in that order.
pub proof fn law_listing_goes_entry_by_entry(
    active: Seq<char>,
    a: Seq<DirEntryView>,
    b: Seq<DirEntryView>,
    e: DirEntryView,
)
    ensures
        archives_among(active, a + b) == archives_among(active, a) + archives_among(active, b),
        archives_among(active, seq![e]) == match archive_of_entry(active, e) {
            Some(archive) => seq![archive],
            None => Seq::empty(),
        },
    decreases b.len(),
{
    assert(seq![e].drop_last() =~= Seq::<DirEntryView>::empty());
    assert(archives_among(active, Seq::empty()) =~= Seq::<ArchiveView>::empty());
    assert(Seq::<ArchiveView>::empty().push(archive_of_entry(active, e)->0) =~= seq![
        archive_of_entry(active, e)->0,
    ]);
    if b.len() == 0 {
        assert(a + b =~= a);
        assert(archives_among(active, a) + archives_among(active, b) =~= archives_among(active, a));
    } else {
        law_listing_goes_entry_by_entry(active, a, b.drop_last(), e);
        assert((a + b).drop_last() =~= a + b.drop_last());
        assert((a + b).last() == b.last());
        assert(archives_among(active, a + b) =~= archives_among(active, a) + archives_among(
            active,
            b,
        ));
    }
}

/// Archives are listed from the entries of the directory. There are none where
/// there is no directory, a listing that failed fails, and so does a path
/// without a file name.
pub proof fn law_listed_archives(active: Seq<char>, listing: DirListing)
    ensures
        listed_archives(None, listing) == Err::<Seq<ArchiveView>, LogError>(LogError::NoFileName),
        listing is NotFound ==> listed_archives(Some(active), listing) == Ok::<
            Seq<ArchiveView>,
            LogError,
        >(Seq::empty()),
        listing is Failed ==> listed_archives(Some(active), listing) == Err::<
            Seq<ArchiveView>,
            LogError,
        >(LogError::ListFailed),
        listing matches DirListing::Entries(entries) ==> listed_archives(Some(active), listing)
            == Ok::<Seq<ArchiveView>, LogError>(archives_among(active, entry_views(entries@))),
{
}

/// The views of entries are taken one by one.
pub proof fn law_entry_views(entries: Seq<DirEntry>, i: int)
    ensures
        entry_views(entries).len() == entries.len(),
        0 <= i < entries.len() ==> entry_views(entries)[i] == entries[i]@,
{
}

}
