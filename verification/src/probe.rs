//! Judging what probes of the platform observed.
//!
//! The reader keeps reading through open handles while the writer renames and
//! deletes files. The probes try that out; here their observations are held
//! against what the reader relies on.

use vstd::prelude::*;

use crate::file_id;
use crate::file_id::FileId;
use crate::text;

verus! {

/// What the reader relies on and a platform does not give.
#[derive(Debug, Clone, Copy, PartialEq, Eq, Structural)]
pub enum Finding {
    /// A file cannot be renamed while a reader holds it open.
    RenameBlocked,
    /// An open handle does not read what the file held when it was opened.
    HandleMoved,
    /// Nor does it after a seek.
    SeekMoved,
    /// The path does not lead to the file that took it over.
    PathNotReplaced,
    /// A rename changed the identity of a file.
    IdentityChanged,
    /// Two files have the same identity.
    IdentityShared,
    /// The pinned file is not found exactly once under its new name, but this
    /// many times.
    NotRecognisedOnce(usize),
    /// An archive cannot be deleted while a reader holds it open.
    DeleteBlocked,
    /// A deleted archive cannot be read through its open handle.
    DeletedUnreadable,
    /// A deleted archive can still be reached by its path.
    StillReachable,
    /// The active file cannot be rotated while readers hold files open.
    RotationBlocked,
    /// A file that was rotated while a reader held it open cannot be deleted.
    RotatedDeleteBlocked,
    /// A file that was rotated and deleted cannot be read through its handle.
    RotatedUnreadable,
}

/// What a read gave, and what it should have given.
pub struct Reading<'a> {
    /// The text that was read; `None` when the read failed or did not come
    /// about.
    pub got: Option<&'a str>,
    pub expected: &'a str,
}

impl<'a> Reading<'a> {
    /// The read gave what it should have given.
    pub open spec fn agrees(&self) -> bool {
        self.got matches Some(text) && text@ == self.expected@
    }

    /// True when the read gave what it should have given.
    pub fn is_right(&self) -> (yes: bool)
        ensures
            yes == self.agrees(),
    {
        match self.got {
            Some(text) => text::text_eq(text, self.expected),
            None => false,
        }
    }
}

/// Judge a rename under an open handle: whether it succeeded, and readings
/// through the handle, through the handle after a seek, and through the path.
/// What fails first counts.
pub fn judge_rename(
    renamed: bool,
    via_handle: &Reading<'_>,
    after_seek: &Reading<'_>,
    via_path: &Reading<'_>,
) -> (verdict: Result<(), Finding>)
    ensures
        verdict == if !renamed {
            Err::<(), Finding>(Finding::RenameBlocked)
        } else if !via_handle.agrees() {
            Err(Finding::HandleMoved)
        } else if !after_seek.agrees() {
            Err(Finding::SeekMoved)
        } else if !via_path.agrees() {
            Err(Finding::PathNotReplaced)
        } else {
            Ok(())
        },
{
    if !renamed {
        Err(Finding::RenameBlocked)
    } else if !via_handle.is_right() {
        Err(Finding::HandleMoved)
    } else if !after_seek.is_right() {
        Err(Finding::SeekMoved)
    } else if !via_path.is_right() {
        Err(Finding::PathNotReplaced)
    } else {
        Ok(())
    }
}

/// Judge identities: of a file before and after a rename, and of another file.
pub fn judge_identity(before: FileId, after: FileId, other: FileId) -> (verdict: Result<
    (),
    Finding,
>)
    ensures
        verdict == if before != after {
            Err::<(), Finding>(Finding::IdentityChanged)
        } else if other == after {
            Err(Finding::IdentityShared)
        } else {
            Ok(())
        },
{
    if before != after {
        Err(Finding::IdentityChanged)
    } else if other == after {
        Err(Finding::IdentityShared)
    } else {
        Ok(())
    }
}

/// Judge the order of pinning the active file and listing archives: a file
/// that is rotated in between must be recognised once among those listed, and
/// its handle must still read what it held.
pub fn judge_ordering(listed: &Vec<FileId>, pinned: FileId, via_handle: &Reading<'_>) -> (verdict:
    Result<(), Finding>)
    ensures
        verdict == if file_id::occurrences(listed@, pinned, listed@.len() as int) != 1 {
            Err::<(), Finding>(
                Finding::NotRecognisedOnce(
                    file_id::occurrences(listed@, pinned, listed@.len() as int) as usize,
                ),
            )
        } else if !via_handle.agrees() {
            Err(Finding::HandleMoved)
        } else {
            Ok(())
        },
{
    let count: usize = file_id::count_same(listed, pinned);
    if count != 1 {
        Err(Finding::NotRecognisedOnce(count))
    } else if !via_handle.is_right() {
        Err(Finding::HandleMoved)
    } else {
        Ok(())
    }
}

/// Judge retention under open handles, step by step: an archive is deleted and
/// read through its handle, it must be gone by its path, the active file is
/// rotated, deleted under its new name, and read through its handle.
///
/// The verdict is good exactly when every step succeeded; otherwise the step
/// that fails first counts.
pub fn judge_retention(
    victim_deleted: bool,
    archived: &Reading<'_>,
    victim_reachable: bool,
    rotated: bool,
    rotated_deleted: bool,
    live: &Reading<'_>,
) -> (verdict: Result<(), Finding>)
    ensures
        verdict == if !victim_deleted {
            Err::<(), Finding>(Finding::DeleteBlocked)
        } else if !archived.agrees() {
            Err(Finding::DeletedUnreadable)
        } else if victim_reachable {
            Err(Finding::StillReachable)
        } else if !rotated {
            Err(Finding::RotationBlocked)
        } else if !rotated_deleted {
            Err(Finding::RotatedDeleteBlocked)
        } else if !live.agrees() {
            Err(Finding::RotatedUnreadable)
        } else {
            Ok(())
        },
        verdict is Ok <==> victim_deleted && archived.agrees() && !victim_reachable && rotated
            && rotated_deleted && live.agrees(),
{
    if !victim_deleted {
        Err(Finding::DeleteBlocked)
    } else if !archived.is_right() {
        Err(Finding::DeletedUnreadable)
    } else if victim_reachable {
        Err(Finding::StillReachable)
    } else if !rotated {
        Err(Finding::RotationBlocked)
    } else if !rotated_deleted {
        Err(Finding::RotatedDeleteBlocked)
    } else if !live.is_right() {
        Err(Finding::RotatedUnreadable)
    } else {
        Ok(())
    }
}

/// A reading is right exactly when the read came about and gave what was
/// expected.
pub proof fn law_reading(r: Reading<'_>)
    ensures
        r.got is None ==> !r.agrees(),
        r.got matches Some(text) ==> (r.agrees() <==> text@ == r.expected@),
{
}

}
