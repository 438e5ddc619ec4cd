//! Data model for a computed diff: changed files, hunks and their lines.

use vstd::prelude::*;

verus! {

/// Status of a file in a diff.
#[derive(Debug, Clone, Copy, PartialEq, Eq, Structural)]
pub enum FileStatus {
    Added,
    Modified,
    Deleted,
    Renamed,
}

/// The display name of a status.
pub open spec fn status_name(s: FileStatus) -> Seq<char> {
    match s {
        FileStatus::Added => "added"@,
        FileStatus::Modified => "modified"@,
        FileStatus::Deleted => "deleted"@,
        FileStatus::Renamed => "renamed"@,
    }
}

impl FileStatus {
    pub fn as_str(&self) -> (r: &'static str)
        ensures
            r@ == status_name(*self),
    {
        match self {
            FileStatus::Added => "added",
            FileStatus::Modified => "modified",
            FileStatus::Deleted => "deleted",
            FileStatus::Renamed => "renamed",
        }
    }
}

/// A changed file in the diff.
#[derive(Debug, Clone)]
pub struct FileChange {
    pub path: String,
    pub status: FileStatus,
    pub additions: usize,
    pub deletions: usize,
}

/// Kind of a display line.
#[derive(Debug, Clone, Copy, PartialEq, Eq, Structural)]
pub enum DiffLineType {
    Add,
    Remove,
    Context,
    Hunk,
    Comment,
}

/// Payload of a review-comment line.
#[derive(Debug, Clone)]
pub struct CommentData {
    pub author: String,
    pub body: String,
    pub timestamp: String,
    pub is_reply: bool,
}

impl Default for CommentData {
    fn default() -> (r: Self)
        ensures
            r.author@ == Seq::<char>::empty(),
            r.body@ == Seq::<char>::empty(),
            r.timestamp@ == Seq::<char>::empty(),
            r.is_reply == false,
    {
        CommentData {
            author: String::new(),
            body: String::new(),
            timestamp: String::new(),
            is_reply: false,
        }
    }
}

impl CommentData {
    /// A field-for-field copy.
    pub fn duplicate(&self) -> (r: Self)
        ensures
            r == *self,
    {
        CommentData {
            author: self.author.clone(),
            body: self.body.clone(),
            timestamp: self.timestamp.clone(),
            is_reply: self.is_reply,
        }
    }
}

/// A single line in a diff.
#[derive(Debug, Clone)]
pub struct DiffLine {
    pub line_type: DiffLineType,
    pub old_line_num: Option<u32>,
    pub new_line_num: Option<u32>,
    pub content: String,
    pub comment: Option<CommentData>,
}

/// Line numbers are carried only on the sides a line kind can have: the old
/// number only for removals and context, the new number only for additions
/// and context, and none on separators and comments.
pub open spec fn line_wf(l: DiffLine) -> bool {
    match l.line_type {
        DiffLineType::Add => l.old_line_num is None,
        DiffLineType::Remove => l.new_line_num is None,
        DiffLineType::Context => true,
        DiffLineType::Hunk => l.old_line_num is None && l.new_line_num is None,
        DiffLineType::Comment => l.old_line_num is None && l.new_line_num is None,
    }
}

/// A hunk in a diff.
#[derive(Debug, Clone)]
pub struct DiffHunk {
    pub header: String,
    pub old_start: u32,
    pub old_lines: u32,
    pub new_start: u32,
    pub new_lines: u32,
    pub lines: Vec<DiffLine>,
}

/// The hunks of one file, keyed by the file's path.
#[derive(Debug, Clone)]
pub struct FileHunks {
    pub path: String,
    pub hunks: Vec<DiffHunk>,
}

/// Complete diff data: the changed files, and each file's hunks. Entries are
/// kept in the order the diff engine reported the files, one per path.
#[derive(Debug, Clone)]
pub struct DiffData {
    pub files: Vec<FileChange>,
    pub file_hunks: Vec<FileHunks>,
}

/// Index of the first hunk entry for `path`, or -1 if the diff has none.
pub open spec fn hunk_index_of(entries: Seq<FileHunks>, path: Seq<char>) -> int
    decreases entries.len(),
{
    if entries.len() == 0 {
        -1
    } else if entries[0].path@ == path {
        0
    } else {
        let r = hunk_index_of(entries.drop_first(), path);
        if r < 0 {
            -1
        } else {
            r + 1
        }
    }
}

impl DiffData {
    /// The hunks recorded for a file, if the diff touched it.
    #[verifier::loop_isolation(false)]
    pub fn hunks_for_file(&self, path: &str) -> (r: Option<&Vec<DiffHunk>>)
        ensures
            hunk_index_of(self.file_hunks@, path@) >= 0 ==> r == Some(
                &self.file_hunks@[hunk_index_of(self.file_hunks@, path@)].hunks,
            ),
            hunk_index_of(self.file_hunks@, path@) < 0 ==> r is None,
    {
        let n = self.file_hunks.len();
        let mut i: usize = 0;
        while i < n
            invariant
                0 <= i <= n,
                forall|j: int| 0 <= j < i ==> (#[trigger] self.file_hunks@[j]).path@ != path@,
            decreases n - i,
        {
            let e = &self.file_hunks[i];
            if crate::text::str_eq(e.path.as_str(), path) {
                proof {
                    lemma_hunk_index_at(self.file_hunks@, path@, i as int);
                }
                return Some(&self.file_hunks[i].hunks);
            }
            i = i + 1;
        }
        proof {
            lemma_hunk_index_at(self.file_hunks@, path@, n as int);
        }
        None
    }
}

/// Characterize `hunk_index_of` from an explicit witness.
pub proof fn lemma_hunk_index_at(entries: Seq<FileHunks>, path: Seq<char>, k: int)
    requires
        0 <= k <= entries.len(),
        forall|j: int| 0 <= j < k ==> (#[trigger] entries[j]).path@ != path,
        k < entries.len() ==> entries[k].path@ == path,
    ensures
        k < entries.len() ==> hunk_index_of(entries, path) == k,
        k == entries.len() ==> hunk_index_of(entries, path) < 0,
    decreases entries.len(),
{
    if entries.len() > 0 && entries[0].path@ != path {
        let t = entries.drop_first();
        assert forall|j: int| 0 <= j < k - 1 implies (#[trigger] t[j]).path@ != path by {
            assert(t[j] == entries[j + 1]);
        }
        assert(k - 1 < t.len() ==> t[k - 1] == entries[k]);
        lemma_hunk_index_at(t, path, k - 1);
    }
}

} // verus!
