//! The segments of a log's logical stream.

use vstd::prelude::*;

use crate::archive;
use crate::archive::{Archive, ArchiveOrder, ArchiveView, DirListing};
use crate::error::LogError;
use crate::text;

verus! {

/// Lightweight descriptor for one log segment.
///
/// Segments are opened on demand, one at a time, during a scan. Archives are
/// immutable once created. The active file can be replaced by a rotation
/// between enumeration and scan; at worst one rotation's worth of events is
/// then delayed by a single request.
#[derive(Debug, Clone)]
pub struct SegmentMeta {
    /// The segment's file name beside the active file. For the active file it
    /// is that file's own name, where it has one.
    pub name: Option<String>,
    /// Sequence number parsed from the archive name, or `None` for the active
    /// file and for archives written before numbering existed.
    pub seq: Option<u64>,
    /// True for the active file.
    pub is_active: bool,
}

/// Which segment an event came from, in the form a cursor can address.
#[derive(Debug, Clone, Copy, PartialEq, Eq, Structural)]
pub enum SegmentRef {
    Active,
    /// `None` for a legacy archive with no sequence number in its name; such a
    /// segment cannot issue a resumable cursor.
    Archive(Option<u64>),
}

/// A segment descriptor as a mathematical value.
pub struct SegmentView {
    pub name: Option<Seq<char>>,
    pub seq: Option<u64>,
    pub is_active: bool,
}

impl View for SegmentMeta {
    type V = SegmentView;

    open spec fn view(&self) -> SegmentView {
        SegmentView {
            name: text::text_view(self.name),
            seq: self.seq,
            is_active: self.is_active,
        }
    }
}

/// The views of a run of segments.
pub open spec fn segment_views(segs: Seq<SegmentMeta>) -> Seq<SegmentView> {
    Seq::new(segs.len(), |i: int| segs[i]@)
}

/// The reference by which a cursor addresses a segment.
pub open spec fn ref_of(seg: SegmentView) -> SegmentRef {
    if seg.is_active {
        SegmentRef::Active
    } else {
        SegmentRef::Archive(seg.seq)
    }
}

/// The segment that an archive is.
pub open spec fn segment_of_archive(a: ArchiveView) -> SegmentView {
    SegmentView {
        name: Some(a.name),
        seq: match a.order {
            ArchiveOrder::Numbered(n) => Some(n),
            ArchiveOrder::Legacy(_) => None,
        },
        is_active: false,
    }
}

/// The segment that the active file is.
pub open spec fn active_segment(name: Option<Seq<char>>) -> SegmentView {
    SegmentView { name, seq: None, is_active: true }
}

/// The segments that archives are, in the order of the archives.
pub open spec fn archive_segments(archives: Seq<ArchiveView>) -> Seq<SegmentView> {
    Seq::new(archives.len(), |i: int| segment_of_archive(archives[i]))
}

/// The segments of a query's logical stream: the archives in stream order when
/// they are in scope, then the active file when it exists.
pub open spec fn enumerated(
    active_name: Option<Seq<char>>,
    reads_archives: bool,
    listing: DirListing,
    active_exists: bool,
) -> Result<Seq<SegmentView>, LogError> {
    let archived = if reads_archives {
        match archive::listed_archives(active_name, listing) {
            Ok(archives) => Ok(archive_segments(archive::stream_order(archives))),
            Err(e) => Err(e),
        }
    } else {
        Ok(Seq::empty())
    };
    match archived {
        Ok(segs) => if active_exists {
            Ok(segs.push(active_segment(active_name)))
        } else {
            Ok(segs)
        },
        Err(e) => Err(e),
    }
}

impl SegmentMeta {
    /// The reference by which a cursor addresses this segment.
    pub fn segment_ref(&self) -> (r: SegmentRef)
        ensures
            r == ref_of(self@),
    {
        if self.is_active {
            SegmentRef::Active
        } else {
            SegmentRef::Archive(self.seq)
        }
    }
}

/// Enumerate the segments of a query's logical stream, oldest first with the
/// active file last.
///
/// Archives are ordered by the sequence number embedded in their name at
/// rotation time, so the order cannot be disturbed by enumeration-time races.
/// The active file is always last because it holds the newest events.
///
/// A missing active file is normal on a fresh workspace and simply yields a
/// list of archives. The listing is only looked at when archives are in scope.
pub fn enumerate_segment_metas(
    active_name: &Option<String>,
    reads_archives: bool,
    listing: &DirListing,
    active_exists: bool,
) -> (segs: Result<Vec<SegmentMeta>, LogError>)
    ensures
        match segs {
            Ok(v) => enumerated(
                text::text_view(*active_name),
                reads_archives,
                *listing,
                active_exists,
            ) == Ok::<Seq<SegmentView>, LogError>(segment_views(v@)),
            Err(e) => enumerated(
                text::text_view(*active_name),
                reads_archives,
                *listing,
                active_exists,
            ) == Err::<Seq<SegmentView>, LogError>(e),
        },
{
    let mut segs: Vec<SegmentMeta> = Vec::new();
    let ghost mut archived: Seq<SegmentView> = Seq::empty();
    if reads_archives {
        let archives: Vec<Archive> = match archive::list_archives(active_name, listing) {
            Ok(a) => a,
            Err(e) => {
                return Err(e);
            },
        };
        let sorted: Vec<Archive> = archive::sort_archives(archives);
        let ghost views = archive::archive_views(sorted@);
        proof {
            archived = archive_segments(views);
        }
        let mut i: usize = 0;
        while i < sorted.len()
            invariant
                i <= sorted@.len(),
                views == archive::archive_views(sorted@),
                archived == archive_segments(views),
                segment_views(segs@) == archived.take(i as int),
            decreases sorted@.len() - i,
        {
            let ghost before = segs@;
            let seq: Option<u64> = match sorted[i].order {
                ArchiveOrder::Numbered(n) => Some(n),
                ArchiveOrder::Legacy(_) => None,
            };
            segs.push(
                SegmentMeta { name: Some(sorted[i].name.clone()), seq, is_active: false },
            );
            assert(segment_views(segs@) =~= segment_views(before).push(archived[i as int]));
            assert(archived.take(i + 1) =~= archived.take(i as int).push(archived[i as int]));
            i += 1;
        }
        assert(archived.take(i as int) =~= archived);
    } else {
        assert(segment_views(segs@) =~= archived);
    }
    if active_exists {
        let ghost before = segs@;
        segs.push(SegmentMeta { name: text::copy_text(active_name), seq: None, is_active: true });
        assert(segment_views(segs@) =~= segment_views(before).push(
            active_segment(text::text_view(*active_name)),
        ));
    }
    Ok(segs)
}

/// The active file, when it exists, is the last segment and the only active
/// one.
pub proof fn law_active_segment_is_last(
    active_name: Option<Seq<char>>,
    reads_archives: bool,
    listing: DirListing,
    active_exists: bool,
)
    ensures
        enumerated(active_name, reads_archives, listing, active_exists) matches Ok(segs) ==> {
            &&& active_exists ==> segs.len() > 0
            &&& forall|i: int|
                0 <= i < segs.len() ==> ((#[trigger] segs[i]).is_active <==> active_exists && i
                    == segs.len() - 1)
        },
{
}

/// A query that does not own archives sees the active file alone.
pub proof fn law_archives_out_of_scope_are_invisible(
    active_name: Option<Seq<char>>,
    listing: DirListing,
    active_exists: bool,
)
    ensures
        enumerated(active_name, false, listing, active_exists) == Ok::<
            Seq<SegmentView>,
            LogError,
        >(
            if active_exists {
                seq![active_segment(active_name)]
            } else {
                Seq::empty()
            },
        ),
{
    assert(Seq::<SegmentView>::empty().push(active_segment(active_name)) =~= seq![
        active_segment(active_name),
    ]);
}

/// Among the archives of a stream the numbers never decrease, and no
/// unnumbered archive follows a numbered one.
pub proof fn law_archives_are_ordered_by_number(
    active_name: Option<Seq<char>>,
    reads_archives: bool,
    listing: DirListing,
    active_exists: bool,
)
    ensures
        enumerated(active_name, reads_archives, listing, active_exists) matches Ok(segs) ==> forall|
            i: int,
            j: int,
        |
            0 <= i < j < segs.len() && !segs[i].is_active && !segs[j].is_active ==> match (
                (#[trigger] segs[i]).seq,
                (#[trigger] segs[j]).seq,
            ) {
                (Some(a), Some(b)) => a <= b,
                (Some(_), None) => false,
                (None, _) => true,
            },
{
    if reads_archives {
        if let Ok(archives) = archive::listed_archives(active_name, listing) {
            archive::law_stream_order_is_a_stable_sort(archives);
            let sorted = archive::stream_order(archives);
            let segs = enumerated(active_name, reads_archives, listing, active_exists)->Ok_0;
            assert forall|i: int, j: int|
                0 <= i < j < segs.len() && !segs[i].is_active && !segs[j].is_active implies match (
                (#[trigger] segs[i]).seq,
                (#[trigger] segs[j]).seq,
            ) {
                (Some(a), Some(b)) => a <= b,
                (Some(_), None) => false,
                (None, _) => true,
            } by {
                assert(archive::order_le(sorted[i].order, sorted[j].order));
            }
        }
    }
}

/// The view of a segment descriptor leaves nothing of it out.
pub proof fn law_segment_view_is_faithful(segs: Seq<SegmentMeta>, i: int)
    ensures
        segment_views(segs).len() == segs.len(),
        0 <= i < segs.len() ==> segment_views(segs)[i] == (SegmentView {
            name: text::text_view(segs[i].name),
            seq: segs[i].seq,
            is_active: segs[i].is_active,
        }),
{
}

/// A cursor addresses the active file as such, and an archive by its number.
pub proof fn law_segment_reference(seg: SegmentView)
    ensures
        seg.is_active ==> ref_of(seg) == SegmentRef::Active,
        !seg.is_active ==> ref_of(seg) == SegmentRef::Archive(seg.seq),
{
}

/// Enumeration gives the active file under its name, and one segment for each
/// listed archive, with its name and its number; it fails only when the
/// archives are in scope and cannot be listed.
pub proof fn law_enumeration_gives_every_archive(
    active_name: Option<Seq<char>>,
    reads_archives: bool,
    listing: DirListing,
    active_exists: bool,
)
    ensures
        match enumerated(active_name, reads_archives, listing, active_exists) {
            Ok(segs) => {
                &&& active_exists ==> segs.last() == (SegmentView {
                    name: active_name,
                    seq: None,
                    is_active: true,
                })
                &&& reads_archives ==> (archive::listed_archives(active_name, listing) matches Ok(
                    archives,
                ) && segs.len() == archives.len() + if active_exists {
                    1int
                } else {
                    0int
                } && forall|k: int|
                    0 <= k < archives.len() ==> segs.contains(
                        SegmentView {
                            name: Some((#[trigger] archives[k]).name),
                            seq: match archives[k].order {
                                ArchiveOrder::Numbered(n) => Some(n),
                                ArchiveOrder::Legacy(_) => None,
                            },
                            is_active: false,
                        },
                    ) && segs[k].name == Some(archive::stream_order(archives)[k].name)
                    && !segs[k].is_active)
                &&& !reads_archives ==> segs.len() == if active_exists {
                    1int
                } else {
                    0int
                }
            },
            Err(e) => reads_archives && archive::listed_archives(active_name, listing) == Err::<
                Seq<ArchiveView>,
                LogError,
            >(e),
        },
{
    if reads_archives {
        if let Ok(archives) = archive::listed_archives(active_name, listing) {
            let sorted = archive::stream_order(archives);
            let segs = enumerated(active_name, reads_archives, listing, active_exists)->Ok_0;
            archive::law_stream_order_is_a_permutation(archives);
            assert forall|k: int| 0 <= k < archives.len() implies segs.contains(
                SegmentView {
                    name: Some((#[trigger] archives[k]).name),
                    seq: match archives[k].order {
                        ArchiveOrder::Numbered(n) => Some(n),
                        ArchiveOrder::Legacy(_) => None,
                    },
                    is_active: false,
                },
            ) && segs[k].name == Some(sorted[k].name) && !segs[k].is_active by {
                assert(segs[k] == segment_of_archive(sorted[k]));
                assert(archives.contains(archives[k]));
                assert(sorted.contains(archives[k]));
                let j = choose|j: int| 0 <= j < sorted.len() && sorted[j] == archives[k];
                assert(segs[j] == segment_of_archive(sorted[j]));
            }
        }
    }
}

}
