//! A log directory as it was found at one moment.

use vstd::prelude::*;

use crate::archive::DirListing;
use crate::lines;
use crate::lines::{ContentView, SegmentContent};
use crate::segment::{SegmentMeta, SegmentView};
use crate::text;

verus! {

/// A file that can be opened, and what reading it gives.
#[derive(Debug, Clone)]
pub struct StoredFile {
    /// The file's name, where it has one.
    pub name: Option<String>,
    pub content: SegmentContent,
}

/// A stored file as a mathematical value.
pub struct StoredView {
    pub name: Option<Seq<char>>,
    pub content: ContentView,
}

/// The directory of a log: what listing it gives, whether the active file is
/// there, and the files that can be opened.
///
/// The three need not agree: a file can be moved or pruned between a listing
/// and an attempt to open it.
#[derive(Debug)]
pub struct LogDir {
    pub listing: DirListing,
    pub active_exists: bool,
    pub files: Vec<StoredFile>,
}

impl View for StoredFile {
    type V = StoredView;

    open spec fn view(&self) -> StoredView {
        StoredView { name: text::text_view(self.name), content: self.content@ }
    }
}

/// The views of a run of stored files.
pub open spec fn stored_views(files: Seq<StoredFile>) -> Seq<StoredView> {
    Seq::new(files.len(), |i: int| files[i]@)
}

/// What opening the file called `name` gives, from file `i` on.
pub open spec fn content_from(
    files: Seq<StoredView>,
    name: Option<Seq<char>>,
    i: int,
) -> Option<ContentView>
    decreases files.len() - i,
{
    if i >= files.len() {
        None
    } else if files[i].name == name {
        Some(files[i].content)
    } else {
        content_from(files, name, i + 1)
    }
}

/// What opening the file called `name` gives.
pub open spec fn content_named(files: Seq<StoredView>, name: Option<Seq<char>>) -> Option<
    ContentView,
> {
    content_from(files, name, 0)
}

/// What opening each segment gives.
pub open spec fn contents_of(files: Seq<StoredView>, segs: Seq<SegmentView>) -> Seq<
    Option<ContentView>,
> {
    Seq::new(segs.len(), |i: int| content_named(files, segs[i].name))
}

/// Every byte offset in every file fits in 64 bits.
pub open spec fn files_fit(files: Seq<StoredView>) -> bool {
    forall|i: int|
        0 <= i < files.len() ==> lines::offsets_fit((#[trigger] files[i]).content.lines)
}

/// Every byte offset in every segment fits in 64 bits.
pub open spec fn contents_fit(contents: Seq<Option<ContentView>>) -> bool {
    forall|i: int|
        0 <= i < contents.len() ==> ((#[trigger] contents[i]) matches Some(c)
            ==> lines::offsets_fit(c.lines))
}

/// What is found by name fits when every file does.
pub proof fn lemma_content_fits(files: Seq<StoredView>, name: Option<Seq<char>>, i: int)
    requires
        files_fit(files),
        0 <= i,
    ensures
        content_from(files, name, i) matches Some(c) ==> lines::offsets_fit(c.lines),
    decreases files.len() - i,
{
    if i < files.len() && files[i].name != name {
        lemma_content_fits(files, name, i + 1);
    }
}

impl LogDir {
    /// What opening a segment gives; `None` when it cannot be opened.
    pub fn open_segment(&self, seg: &SegmentMeta) -> (content: Option<&SegmentContent>)
        ensures
            lines::content_view(content) == content_named(stored_views(self.files@), seg@.name),
    {
        let ghost files = stored_views(self.files@);
        let mut i: usize = 0;
        while i < self.files.len()
            invariant
                i <= self.files@.len(),
                files == stored_views(self.files@),
                content_named(files, seg@.name) == content_from(files, seg@.name, i as int),
            decreases self.files@.len() - i,
        {
            let file: &StoredFile = &self.files[i];
            assert(files[i as int] == file@);
            if text::same_text(&file.name, &seg.name) {
                return Some(&file.content);
            }
            i += 1;
        }
        None
    }
}

// ---------------------------------------------------------------------------
// Laws
// ---------------------------------------------------------------------------

/// The views of stored files have their names and their contents.
pub proof fn law_stored_views_are_faithful(files: Seq<StoredFile>, i: int)
    ensures
        stored_views(files).len() == files.len(),
        0 <= i < files.len() ==> stored_views(files)[i].name == text::text_view(files[i].name),
        0 <= i < files.len() ==> stored_views(files)[i].content == files[i].content@,
{
}

/// Opening a name gives the content of the first file with that name, and it
/// fails exactly when no file has it. Each segment is opened by its own name.
pub proof fn law_files_are_opened_by_name(
    files: Seq<StoredView>,
    name: Option<Seq<char>>,
    segs: Seq<SegmentView>,
    k: int,
)
    ensures
        match content_named(files, name) {
            Some(content) => exists|i: int|
                {
                    &&& 0 <= i < files.len()
                    &&& (#[trigger] files[i]).name == name
                    &&& files[i].content == content
                    &&& forall|j: int| 0 <= j < i ==> (#[trigger] files[j]).name != name
                },
            None => forall|j: int| 0 <= j < files.len() ==> (#[trigger] files[j]).name != name,
        },
        contents_of(files, segs).len() == segs.len(),
        0 <= k < segs.len() ==> contents_of(files, segs)[k] == content_named(files, segs[k].name),
{
    lemma_content_from(files, name, 0);
}

proof fn lemma_content_from(files: Seq<StoredView>, name: Option<Seq<char>>, from: int)
    requires
        0 <= from,
    ensures
        match content_from(files, name, from) {
            Some(content) => exists|i: int|
                {
                    &&& from <= i < files.len()
                    &&& (#[trigger] files[i]).name == name
                    &&& files[i].content == content
                    &&& forall|j: int| from <= j < i ==> (#[trigger] files[j]).name != name
                },
            None => forall|j: int| from <= j < files.len() ==> (#[trigger] files[j]).name != name,
        },
    decreases files.len() - from,
{
    if from < files.len() {
        if files[from].name == name {
            assert(files[from].content == content_from(files, name, from)->0);
        } else {
            lemma_content_from(files, name, from + 1);
        }
    }
}

}
