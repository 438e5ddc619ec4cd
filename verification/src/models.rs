//! Display models derived from commits and changed files.

use vstd::prelude::*;
use crate::diff::{FileChange, status_name};
use crate::review::PrCommit;
use crate::text::{first_index_of, lemma_first_index_at, spec_tail_after_last,
    tail_after_last};

verus! {

/// The first line of a message: everything before the first line feed, with
/// a trailing carriage return removed; an empty message yields an empty
/// summary.
pub open spec fn spec_first_line(s: Seq<char>) -> Seq<char> {
    let i = first_index_of(s, '\n');
    let base = if i < 0 {
        s
    } else {
        s.take(i)
    };
    if base.len() > 0 && base.last() == '\r' {
        base.drop_last()
    } else {
        base
    }
}

/// The first line of a string, as an owned copy.
#[verifier::loop_isolation(false)]
pub fn first_line(s: &str) -> (r: String)
    ensures
        r@ == spec_first_line(s@),
{
    let n = s.unicode_len();
    let mut end: usize = n;
    let mut i: usize = 0;
    loop
        invariant
            0 <= i <= n,
            n == s@.len(),
            end == n,
            forall|j: int| 0 <= j < i ==> s@[j] != '\n',
        decreases n - i,
    {
        if i == n {
            proof {
                lemma_first_index_at(s@, '\n', n as int);
            }
            break ;
        }
        if s.get_char(i) == '\n' {
            proof {
                lemma_first_index_at(s@, '\n', i as int);
            }
            end = i;
            break ;
        }
        i = i + 1;
    }
    let trimmed: usize = if end > 0 && s.get_char(end - 1) == '\r' {
        end - 1
    } else {
        end
    };
    proof {
        let fi = first_index_of(s@, '\n');
        let base = if fi < 0 {
            s@
        } else {
            s@.take(fi)
        };
        assert(base =~= s@.subrange(0, end as int));
        if base.len() > 0 && base.last() == '\r' {
            assert(base.drop_last() =~= s@.subrange(0, end - 1int));
        }
    }
    let out = s.substring_char(0, trimmed);
    out.to_owned()
}

/// Display model of one commit of a change request.
#[derive(Debug, Clone)]
pub struct PrCommitModel {
    pub sha: String,
    pub short_sha: String,
    pub summary: String,
    pub author: String,
    pub is_selected: bool,
}

impl PrCommitModel {
    /// Build the display model of a commit: the summary is the first line
    /// of the commit message, and nothing starts out selected.
    pub fn from_commit(commit: &PrCommit) -> (r: Self)
        ensures
            r.sha@ == commit.sha@,
            r.short_sha@ == commit.short_sha@,
            r.summary@ == spec_first_line(commit.message@),
            r.author@ == commit.author@,
            r.is_selected == false,
    {
        PrCommitModel {
            sha: commit.sha.clone(),
            short_sha: commit.short_sha.clone(),
            summary: first_line(commit.message.as_str()),
            author: commit.author.clone(),
            is_selected: false,
        }
    }
}

/// Display model of one changed file, before tree placement.
#[derive(Debug, Clone)]
pub struct FileEntryModel {
    pub name: String,
    pub path: String,
    pub depth: i32,
    pub is_folder: bool,
    pub is_expanded: bool,
    pub status: String,
}

impl FileEntryModel {
    /// Build the flat display model of a changed file: the name is the last
    /// path segment, and the entry stands at the top level, expanded.
    pub fn from_change(file: &FileChange) -> (r: Self)
        ensures
            r.name@ == spec_tail_after_last(file.path@, '/'),
            r.path@ == file.path@,
            r.depth == 0,
            r.is_folder == false,
            r.is_expanded == true,
            r.status@ == status_name(file.status),
    {
        let name = tail_after_last(file.path.as_str(), '/');
        FileEntryModel {
            name: name.to_owned(),
            path: file.path.clone(),
            depth: 0,
            is_folder: false,
            is_expanded: true,
            status: file.status.as_str().to_owned(),
        }
    }
}

} // verus!
