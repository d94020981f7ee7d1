//! Archive names, cursor tokens and file identities.

use zeroclaw_log::archive;
use zeroclaw_log::archive::{Archive, ArchiveOrder, DirEntry, DirListing, EntryMeta};
use zeroclaw_log::cursor::{CursorKind, SegmentCursor};
use zeroclaw_log::error::LogError;
use zeroclaw_log::file_id::{count_same, FileId};
use zeroclaw_log::probe;
use zeroclaw_log::probe::{Finding, Reading};
use zeroclaw_log::segment;
use zeroclaw_log::segment::{SegmentMeta, SegmentRef};

#[test]
fn a_name_splits_at_its_last_dot() {
    assert_eq!(archive::split_base_ext("foo.jsonl"), ("foo", ".jsonl"));
    assert_eq!(archive::split_base_ext("a.b.jsonl"), ("a.b", ".jsonl"));
    assert_eq!(archive::split_base_ext("trace"), ("trace", ""));
    assert_eq!(archive::split_base_ext(".hidden"), (".hidden", ""));
    assert_eq!(archive::split_base_ext("dot."), ("dot", "."));
}

#[test]
fn a_stamp_is_eight_digits_a_dash_and_six() {
    assert!(archive::is_stamp("20260101-000000"));
    assert!(!archive::is_stamp("20260101000000"));
    assert!(!archive::is_stamp("20260101_000000"));
    assert!(!archive::is_stamp("2026010a-000000"));
    assert!(!archive::is_stamp("20260101-0000000"));
    assert!(!archive::is_stamp(""));
}

#[test]
fn only_a_ten_digit_prefix_is_a_number() {
    assert_eq!(archive::archive_seq("0000000007-20260101-000000"), Some(7));
    assert_eq!(archive::archive_seq("9999999999-20260101-000000"), Some(9_999_999_999));
    assert_eq!(archive::archive_seq("20260101-000000"), None);
    assert_eq!(archive::archive_seq("000000007-20260101-000000"), None);
    assert_eq!(archive::archive_seq("0000000007-20260101-00000"), None);
    assert_eq!(archive::archive_seq("0000000007"), None);
}

#[test]
fn cores_are_numbered_plain_or_counted() {
    assert!(archive::is_archive_core("0000000007-20260101-000000"));
    assert!(archive::is_archive_core("20260101-000000"));
    assert!(archive::is_archive_core("20260101-000000.12"));
    assert!(!archive::is_archive_core("20260101-000000."));
    assert!(!archive::is_archive_core("20260101-000000.x"));
    assert!(!archive::is_archive_core("0000000007-20260101-000000.1"));
    assert!(!archive::is_archive_core("backup"));
}

fn entry(name: &str, is_file: bool, modified: Option<i128>) -> DirEntry {
    DirEntry { name: Some(name.to_string()), meta: Some(EntryMeta { is_file, modified }) }
}

#[test]
fn only_archives_of_the_log_are_listed() {
    let listing = DirListing::Entries(vec![
        entry("trace.jsonl", true, Some(1)),
        entry("trace.20260101-000000.jsonl", true, Some(5)),
        entry("trace.20260101-000001.jsonl", true, None),
        entry("trace.0000000002-20260101-000000.jsonl", true, Some(9)),
        entry("trace.0000000003-20260101-000000.jsonl", false, Some(9)),
        entry("other.0000000004-20260101-000000.jsonl", true, Some(9)),
        entry("trace.0000000005-20260101-000000.json", true, Some(9)),
        entry("trace.notes.jsonl", true, Some(9)),
        DirEntry { name: None, meta: Some(EntryMeta { is_file: true, modified: None }) },
        DirEntry { name: Some("trace.20260101-000002.jsonl".into()), meta: None },
    ]);
    let archives = archive::list_archives(&Some("trace.jsonl".into()), &listing).unwrap();
    let found: Vec<(&str, ArchiveOrder)> =
        archives.iter().map(|a| (a.name.as_str(), a.order)).collect();
    assert_eq!(
        found,
        vec![
            ("trace.20260101-000000.jsonl", ArchiveOrder::Legacy(5)),
            ("trace.20260101-000001.jsonl", ArchiveOrder::Legacy(0)),
            ("trace.0000000002-20260101-000000.jsonl", ArchiveOrder::Numbered(2)),
        ]
    );
    assert!(archive::list_archives(&Some("trace.jsonl".into()), &DirListing::NotFound)
        .unwrap()
        .is_empty());
    assert_eq!(
        archive::list_archives(&Some("trace.jsonl".into()), &DirListing::Failed).unwrap_err(),
        LogError::ListFailed
    );
    assert_eq!(archive::list_archives(&None, &listing).unwrap_err(), LogError::NoFileName);
}

#[test]
fn a_log_without_an_extension_has_archives_without_one() {
    let listing = DirListing::Entries(vec![
        entry("trace.0000000002-20260101-000000", true, None),
        entry("trace.0000000003-20260101-000000.jsonl", true, None),
    ]);
    let archives = archive::list_archives(&Some("trace".into()), &listing).unwrap();
    assert_eq!(archives.len(), 1);
    assert_eq!(archives[0].order, ArchiveOrder::Numbered(2));
}

#[test]
fn sorting_keeps_the_listed_order_of_equal_keys() {
    let make = |name: &str, order: ArchiveOrder| Archive { name: name.to_string(), order };
    let sorted = archive::sort_archives(vec![
        make("n2", ArchiveOrder::Numbered(2)),
        make("l9-first", ArchiveOrder::Legacy(9)),
        make("n1", ArchiveOrder::Numbered(1)),
        make("l9-second", ArchiveOrder::Legacy(9)),
        make("l-1", ArchiveOrder::Legacy(-1)),
    ]);
    let names: Vec<&str> = sorted.iter().map(|a| a.name.as_str()).collect();
    assert_eq!(names, vec!["l-1", "l9-first", "l9-second", "n1", "n2"]);
}

#[test]
fn the_order_of_a_listing_does_not_matter() {
    let names = [
        "trace.0000000002-20260101-000000.jsonl",
        "trace.20260101-000000.jsonl",
        "trace.0000000010-20260101-000000.jsonl",
        "trace.0000000001-20260101-000000.jsonl",
    ];
    let listed = |order: [usize; 4]| {
        let entries = order.iter().map(|i| entry(names[*i], true, Some(*i as i128))).collect();
        segment::enumerate_segment_metas(
            &Some("trace.jsonl".to_string()),
            true,
            &DirListing::Entries(entries),
            true,
        )
        .unwrap()
        .into_iter()
        .map(|s| (s.name.unwrap(), s.seq, s.is_active))
        .collect::<Vec<_>>()
    };
    let expected = listed([0, 1, 2, 3]);
    let seqs: Vec<Option<u64>> = expected.iter().map(|s| s.1).collect();
    assert_eq!(seqs, vec![None, Some(1), Some(2), Some(10), None]);
    assert!(expected[4].2);
    assert_eq!(listed([3, 2, 1, 0]), expected);
    assert_eq!(listed([2, 0, 3, 1]), expected);
}

#[test]
fn segments_are_addressed_by_number_or_as_active() {
    let archived = SegmentMeta { name: None, seq: Some(4), is_active: false };
    assert_eq!(archived.segment_ref(), SegmentRef::Archive(Some(4)));
    let legacy = SegmentMeta { name: None, seq: None, is_active: false };
    assert_eq!(legacy.segment_ref(), SegmentRef::Archive(None));
    let active = SegmentMeta { name: None, seq: None, is_active: true };
    assert_eq!(active.segment_ref(), SegmentRef::Active);
}

#[test]
fn a_listing_that_fails_matters_only_with_archives_in_scope() {
    let name = Some("trace.jsonl".to_string());
    assert_eq!(
        segment::enumerate_segment_metas(&name, true, &DirListing::Failed, true).unwrap_err(),
        LogError::ListFailed
    );
    let segs = segment::enumerate_segment_metas(&name, false, &DirListing::Failed, true).unwrap();
    assert_eq!(segs.len(), 1);
    assert!(segs[0].is_active);
    let segs = segment::enumerate_segment_metas(&name, true, &DirListing::NotFound, false).unwrap();
    assert!(segs.is_empty());
}

fn active(off: u64, anchor: Option<&str>) -> Option<SegmentCursor> {
    Some(SegmentCursor {
        kind: CursorKind::Active { off, anchor_id: anchor.map(str::to_string) },
    })
}

#[test]
fn older_tokens_are_taken_as_anchorless_active_cursors() {
    assert_eq!(SegmentCursor::from_wire("trace.jsonl:42"), active(42, None));
    assert_eq!(SegmentCursor::from_wire("a:b:42"), active(42, None));
    assert_eq!(SegmentCursor::from_wire("1:2:3"), active(3, None));
    assert_eq!(SegmentCursor::from_wire(":42"), None);
    assert_eq!(SegmentCursor::from_wire("trace.jsonl:x"), None);
    assert_eq!(SegmentCursor::from_wire("trace.jsonl"), None);
}

#[test]
fn an_anchor_may_hold_colons() {
    let cursor = active(7, Some("a:b:c"));
    assert_eq!(SegmentCursor::from_wire("active:7:a:b:c"), cursor);
    assert_eq!(cursor.unwrap().to_wire(), "active:7:a:b:c");
}

#[test]
fn numbers_are_bounded_by_sixty_four_bits() {
    assert_eq!(
        SegmentCursor::from_wire("18446744073709551615:0"),
        Some(SegmentCursor { kind: CursorKind::Archive { seq: u64::MAX, off: 0 } })
    );
    assert_eq!(SegmentCursor::from_wire("active:18446744073709551616"), None);
    assert_eq!(SegmentCursor::from_wire("18446744073709551616:5"), active(5, None));
    assert_eq!(
        SegmentCursor::from_wire("+7:+9"),
        Some(SegmentCursor { kind: CursorKind::Archive { seq: 7, off: 9 } })
    );
    let widest = SegmentCursor { kind: CursorKind::Archive { seq: u64::MAX, off: u64::MAX } };
    assert_eq!(widest.to_wire(), "18446744073709551615:18446744073709551615");
}

#[test]
fn identities_tell_files_apart() {
    assert_eq!(FileId::from_inode(1, 2), FileId::from_inode(1, 2));
    assert_ne!(FileId::from_inode(1, 2), FileId::from_inode(2, 1));
    assert_eq!(FileId::from_file_index(7, 1, 2), FileId::from_inode(7, 0x1_0000_0002));
    assert_ne!(FileId::from_file_index(7, 1, 2), FileId::from_file_index(7, 2, 1));
    assert_eq!(
        FileId::from_file_index(7, u32::MAX, u32::MAX),
        FileId::from_inode(7, u64::MAX)
    );
}

#[test]
fn a_pinned_file_shows_up_once_under_its_new_name() {
    let pinned = FileId::from_inode(3, 40);
    let listed = vec![FileId::from_inode(3, 39), FileId::from_inode(3, 40)];
    assert_eq!(count_same(&listed, pinned), 1);
    assert_eq!(count_same(&Vec::new(), pinned), 0);
    assert_eq!(count_same(&vec![pinned, pinned], pinned), 2);
}

const RIGHT: Reading<'static> = Reading { got: Some("same"), expected: "same" };
const WRONG: Reading<'static> = Reading { got: Some("other"), expected: "same" };
const FAILED: Reading<'static> = Reading { got: None, expected: "same" };

#[test]
fn a_rename_is_judged_by_its_success_and_what_can_still_be_read() {
    assert_eq!(probe::judge_rename(true, &RIGHT, &RIGHT, &RIGHT), Ok(()));
    assert_eq!(
        probe::judge_rename(false, &WRONG, &WRONG, &WRONG),
        Err(Finding::RenameBlocked)
    );
    assert_eq!(probe::judge_rename(true, &WRONG, &WRONG, &WRONG), Err(Finding::HandleMoved));
    assert_eq!(probe::judge_rename(true, &FAILED, &WRONG, &WRONG), Err(Finding::HandleMoved));
    assert_eq!(probe::judge_rename(true, &RIGHT, &WRONG, &WRONG), Err(Finding::SeekMoved));
    assert_eq!(
        probe::judge_rename(true, &RIGHT, &RIGHT, &WRONG),
        Err(Finding::PathNotReplaced)
    );
}

#[test]
fn identities_are_judged_across_a_rename() {
    let (a, b) = (FileId::from_inode(1, 2), FileId::from_inode(1, 3));
    assert_eq!(probe::judge_identity(a, a, b), Ok(()));
    assert_eq!(probe::judge_identity(a, b, b), Err(Finding::IdentityChanged));
    assert_eq!(probe::judge_identity(a, a, a), Err(Finding::IdentityShared));
}

#[test]
fn a_pinned_file_must_be_recognised_once() {
    let (a, b) = (FileId::from_inode(1, 2), FileId::from_inode(1, 3));
    assert_eq!(probe::judge_ordering(&vec![a, b], a, &RIGHT), Ok(()));
    assert_eq!(probe::judge_ordering(&vec![b], a, &RIGHT), Err(Finding::NotRecognisedOnce(0)));
    assert_eq!(
        probe::judge_ordering(&vec![a, b, a], a, &WRONG),
        Err(Finding::NotRecognisedOnce(2))
    );
    assert_eq!(probe::judge_ordering(&vec![a, b], a, &WRONG), Err(Finding::HandleMoved));
}

#[test]
fn retention_is_judged_by_the_step_that_fails_first() {
    let judge = probe::judge_retention;
    assert_eq!(judge(true, &RIGHT, false, true, true, &RIGHT), Ok(()));
    assert_eq!(judge(false, &WRONG, true, false, false, &WRONG), Err(Finding::DeleteBlocked));
    assert_eq!(judge(true, &WRONG, true, false, false, &WRONG), Err(Finding::DeletedUnreadable));
    assert_eq!(judge(true, &FAILED, false, true, true, &RIGHT), Err(Finding::DeletedUnreadable));
    assert_eq!(judge(true, &RIGHT, true, false, false, &WRONG), Err(Finding::StillReachable));
    assert_eq!(judge(true, &RIGHT, false, false, false, &WRONG), Err(Finding::RotationBlocked));
    assert_eq!(
        judge(true, &RIGHT, false, true, false, &WRONG),
        Err(Finding::RotatedDeleteBlocked)
    );
    assert_eq!(judge(true, &RIGHT, false, true, true, &WRONG), Err(Finding::RotatedUnreadable));
}
