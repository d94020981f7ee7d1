//! Stable file identity, used to recognise the same file reached by two paths.
//!
//! The writer replaces the active file by rename in three places: archive
//! rotation, the rolling trim, and schema migration. A reader that names
//! segments by path can therefore be handed one file and end up reading
//! another. Comparing identities lets it tell "this archive is the file I
//! already hold open, under its new name" from "this is a segment I have not
//! read yet".

use vstd::prelude::*;

verus! {

/// Opaque per-file identity: equal values mean the same underlying file.
///
/// Only equality is meaningful. The component values are platform-specific and
/// are not stable across reboots, so nothing outside this module should read
/// them or persist them.
#[derive(Debug, Clone, Copy, PartialEq, Eq, Hash, Structural)]
pub struct FileId {
    volume: u64,
    index: u64,
}

/// The identity that a device and an inode give.
pub closed spec fn id_of_inode(dev: u64, ino: u64) -> FileId {
    FileId { volume: dev, index: ino }
}

/// The identity that a volume serial number and the two halves of a file
/// index give.
pub closed spec fn id_of_file_index(volume_serial: u32, high: u32, low: u32) -> FileId {
    FileId { volume: volume_serial as u64, index: (high * 0x1_0000_0000 + low) as u64 }
}

/// How many of the first `n` identities are `id`.
pub open spec fn occurrences(ids: Seq<FileId>, id: FileId, n: int) -> int
    decreases n,
{
    if n <= 0 {
        0
    } else {
        occurrences(ids, id, n - 1) + if ids[n - 1] == id {
            1int
        } else {
            0int
        }
    }
}

impl FileId {
    /// The identity of a file with this device and inode.
    pub fn from_inode(dev: u64, ino: u64) -> (id: Self)
        ensures
            id == id_of_inode(dev, ino),
    {
        FileId { volume: dev, index: ino }
    }

    /// The identity of a file with this volume serial number and this file
    /// index, given as its two halves.
    pub fn from_file_index(volume_serial: u32, high: u32, low: u32) -> (id: Self)
        ensures
            id == id_of_file_index(volume_serial, high, low),
    {
        assert((high as u64) << 32 | (low as u64) == high * 0x1_0000_0000 + low) by (bit_vector);
        FileId { volume: volume_serial as u64, index: ((high as u64) << 32) | (low as u64) }
    }
}

/// How many of `ids` are `id`: how often a file that is held open shows up
/// among the files of a listing.
pub fn count_same(ids: &Vec<FileId>, id: FileId) -> (count: usize)
    ensures
        count == occurrences(ids@, id, ids@.len() as int),
{
    let mut count: usize = 0;
    let mut i: usize = 0;
    while i < ids.len()
        invariant
            i <= ids@.len(),
            count <= i,
            count == occurrences(ids@, id, i as int),
        decreases ids@.len() - i,
    {
        if ids[i] == id {
            count += 1;
        }
        i += 1;
    }
    count
}

/// Two files have the same identity exactly when device and inode are the
/// same.
pub proof fn law_inodes_tell_files_apart(dev: u64, ino: u64, other_dev: u64, other_ino: u64)
    ensures
        id_of_inode(dev, ino) == id_of_inode(other_dev, other_ino) <==> dev == other_dev && ino
            == other_ino,
{
}

/// Two files have the same identity exactly when volume serial number and both
/// halves of the file index are the same.
pub proof fn law_file_indexes_tell_files_apart(
    serial: u32,
    high: u32,
    low: u32,
    other_serial: u32,
    other_high: u32,
    other_low: u32,
)
    ensures
        id_of_file_index(serial, high, low) == id_of_file_index(
            other_serial,
            other_high,
            other_low,
        ) <==> serial == other_serial && high == other_high && low == other_low,
{
    assert(high * 0x1_0000_0000 + low <= u64::MAX);
    assert(other_high * 0x1_0000_0000 + other_low <= u64::MAX);
}

/// Identities are counted as often as they occur.
pub proof fn law_occurrences(ids: Seq<FileId>, id: FileId)
    ensures
        occurrences(ids, id, ids.len() as int) == ids.filter(|x: FileId| x == id).len(),
{
    lemma_occurrences(ids, id, ids.len() as int);
    assert(ids.take(ids.len() as int) =~= ids);
}

proof fn lemma_occurrences(ids: Seq<FileId>, id: FileId, n: int)
    requires
        0 <= n <= ids.len(),
    ensures
        occurrences(ids, id, n) == ids.take(n).filter(|x: FileId| x == id).len(),
    decreases n,
{
    reveal(Seq::filter);
    if n > 0 {
        lemma_occurrences(ids, id, n - 1);
        assert(ids.take(n).drop_last() =~= ids.take(n - 1));
        assert(ids.take(n).last() == ids[n - 1]);
    }
}

}
