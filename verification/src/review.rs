//! Review comments and commits of a hosted change request, and the grouping
//! of flat comment lists into per-file, display-ordered groups.

use vstd::prelude::*;

verus! {

/// Branch information of a change request.
#[derive(Debug)]
pub struct PrInfo {
    pub base_ref: String,
    pub head_ref: String,
    pub title: String,
}

/// Which side of the diff a comment is on: the old lines or the new lines.
#[derive(Debug, Clone, Copy, PartialEq, Eq, Structural)]
pub enum CommentSide {
    Left,
    Right,
}

/// A single review comment.
#[derive(Debug, Clone)]
pub struct PrComment {
    pub id: u64,
    pub in_reply_to_id: Option<u64>,
    pub path: String,
    pub line: Option<u32>,
    pub side: CommentSide,
    pub body: String,
    pub author: String,
    pub created_at: String,
    pub commit_id: String,
    pub original_commit_id: String,
}

impl PrComment {
    /// A field-for-field copy.
    pub fn duplicate(&self) -> (r: Self)
        ensures
            r == *self,
    {
        PrComment {
            id: self.id,
            in_reply_to_id: self.in_reply_to_id,
            path: self.path.clone(),
            line: self.line,
            side: self.side,
            body: self.body.clone(),
            author: self.author.clone(),
            created_at: self.created_at.clone(),
            commit_id: self.commit_id.clone(),
            original_commit_id: self.original_commit_id.clone(),
        }
    }
}

/// A single commit of a change request.
#[derive(Debug, Clone)]
pub struct PrCommit {
    pub sha: String,
    pub short_sha: String,
    pub parent_sha: Option<String>,
    pub message: String,
    pub author: String,
}

/// The comments of one file, in display order.
#[derive(Debug, Clone)]
pub struct CommentGroup {
    pub path: String,
    pub comments: Vec<PrComment>,
}

// ---------------------------------------------------------------------------
// Display order of comments within one file
// ---------------------------------------------------------------------------

/// Rank of a comment's target line: file-level comments (no line) sort
/// after every numbered line.
pub open spec fn line_rank(l: Option<u32>) -> int {
    match l {
        Option::None => u32::MAX as int + 1,
        Option::Some(v) => v as int,
    }
}

/// Strict display order: by target line, then by id, so that a reply (whose
/// id the hosting service assigns after its parent's) follows its parent.
pub open spec fn comment_lt(a: PrComment, b: PrComment) -> bool {
    line_rank(a.line) < line_rank(b.line) || (line_rank(a.line) == line_rank(b.line) && a.id
        < b.id)
}

/// Stable insertion of a comment into a display-ordered sequence: the new
/// comment goes after any comment it does not strictly precede.
pub open spec fn spec_insert_comment(sorted: Seq<PrComment>, c: PrComment) -> Seq<PrComment>
    decreases sorted.len(),
{
    if sorted.len() == 0 {
        seq![c]
    } else if comment_lt(c, sorted.last()) {
        spec_insert_comment(sorted.drop_last(), c).push(sorted.last())
    } else {
        sorted.push(c)
    }
}

/// Stable insertion sort by `comment_lt`.
pub open spec fn spec_sort_comments(s: Seq<PrComment>) -> Seq<PrComment>
    decreases s.len(),
{
    if s.len() == 0 {
        Seq::empty()
    } else {
        spec_insert_comment(spec_sort_comments(s.drop_last()), s.last())
    }
}

/// The paths of a comment sequence, first occurrence first, each once.
pub open spec fn distinct_paths(s: Seq<PrComment>) -> Seq<Seq<char>>
    decreases s.len(),
{
    if s.len() == 0 {
        Seq::empty()
    } else {
        let rest = distinct_paths(s.drop_last());
        if rest.contains(s.last().path@) {
            rest
        } else {
            rest.push(s.last().path@)
        }
    }
}

/// The comments on one path, in their original order.
pub open spec fn comments_for_path(s: Seq<PrComment>, path: Seq<char>) -> Seq<PrComment> {
    s.filter(|c: PrComment| c.path@ == path)
}

/// Where `spec_insert_comment` puts the new comment, given the insertion
/// point found by scanning from the right.
proof fn lemma_insert_comment_at(sorted: Seq<PrComment>, c: PrComment, j: int)
    requires
        0 <= j <= sorted.len(),
        forall|k: int| j <= k < sorted.len() ==> comment_lt(c, #[trigger] sorted[k]),
        j > 0 ==> !comment_lt(c, sorted[j - 1]),
    ensures
        spec_insert_comment(sorted, c) =~= sorted.take(j) + seq![c] + sorted.skip(j),
    decreases sorted.len(),
{
    if sorted.len() == 0 {
    } else if comment_lt(c, sorted.last()) {
        lemma_insert_comment_at(sorted.drop_last(), c, j);
        assert(sorted.drop_last().take(j) =~= sorted.take(j));
        assert(sorted.drop_last().skip(j).push(sorted.last()) =~= sorted.skip(j));
    } else {
        assert(j == sorted.len());
        assert(sorted.take(j) =~= sorted);
        assert(sorted.skip(j) =~= Seq::<PrComment>::empty());
    }
}

/// Insert a comment into a display-ordered vector, keeping the order stable.
fn insert_comment_sorted(v: &mut Vec<PrComment>, c: PrComment)
    ensures
        final(v)@ == spec_insert_comment(old(v)@, c),
{
    let mut j: usize = v.len();
    loop
        invariant
            0 <= j <= v@.len(),
            forall|k: int| j <= k < v@.len() ==> comment_lt(c, #[trigger] v@[k]),
        ensures
            j == 0 || !comment_lt(c, v@[j - 1]),
        decreases j,
    {
        if j == 0 {
            break ;
        }
        if !line_lt_exec(&c, &v[j - 1]) {
            break ;
        }
        j = j - 1;
    }
    proof {
        lemma_insert_comment_at(v@, c, j as int);
    }
    v.insert(j, c);
}

/// The strict display order, decided executably.
fn line_lt_exec(a: &PrComment, b: &PrComment) -> (r: bool)
    ensures
        r == comment_lt(*a, *b),
{
    let ra: i64 = match a.line {
        Option::Some(v) => v as i64,
        Option::None => u32::MAX as i64 + 1,
    };
    let rb: i64 = match b.line {
        Option::Some(v) => v as i64,
        Option::None => u32::MAX as i64 + 1,
    };
    ra < rb || (ra == rb && a.id < b.id)
}

/// Sort a comment vector into display order, stably.
#[verifier::loop_isolation(false)]
fn sort_comments(v: Vec<PrComment>) -> (r: Vec<PrComment>)
    ensures
        r@ == spec_sort_comments(v@),
{
    let mut out: Vec<PrComment> = Vec::new();
    let mut i: usize = 0;
    while i < v.len()
        invariant
            0 <= i <= v@.len(),
            out@ == spec_sort_comments(v@.take(i as int)),
        decreases v@.len() - i,
    {
        let c = v[i].duplicate();
        proof {
            assert(v@.take(i + 1int).drop_last() =~= v@.take(i as int));
            assert(v@.take(i + 1int).last() == v@[i as int]);
        }
        insert_comment_sorted(&mut out, c);
        i = i + 1;
    }
    proof {
        assert(v@.take(v@.len() as int) =~= v@);
    }
    out
}

// ---------------------------------------------------------------------------
// Grouping by file
// ---------------------------------------------------------------------------

/// Group review comments by file path, keeping paths in first-seen order,
/// and put each file's comments into display order: by target line, then by
/// id, with file-level comments (no line) after all numbered ones.
#[verifier::loop_isolation(false)]
pub fn group_comments_by_file(comments: Vec<PrComment>) -> (r: Vec<CommentGroup>)
    ensures
        r@.len() == distinct_paths(comments@).len(),
        forall|k: int|
            0 <= k < r@.len() ==> (#[trigger] r@[k]).path@ == distinct_paths(comments@)[k],
        forall|k: int|
            0 <= k < r@.len() ==> (#[trigger] r@[k]).comments@ == spec_sort_comments(
                comments_for_path(comments@, r@[k].path@),
            ),
{
    broadcast use Seq::lemma_filter_push;

    let n = comments.len();
    let mut groups: Vec<CommentGroup> = Vec::new();
    let mut i: usize = 0;
    while i < n
        invariant
            0 <= i <= n,
            n == comments@.len(),
            groups@.len() == distinct_paths(comments@.take(i as int)).len(),
            forall|k: int|
                0 <= k < groups@.len() ==> (#[trigger] groups@[k]).path@ == distinct_paths(
                    comments@.take(i as int),
                )[k],
            forall|k: int|
                0 <= k < groups@.len() ==> (#[trigger] groups@[k]).comments@ == comments_for_path(
                    comments@.take(i as int),
                    groups@[k].path@,
                ),
            forall|k1: int, k2: int|
                0 <= k1 < k2 < groups@.len() ==> (#[trigger] groups@[k1]).path@ != (
                #[trigger] groups@[k2]).path@,
        decreases n - i,
    {
        let c = comments[i].duplicate();
        proof {
            assert(comments@.take(i + 1int).drop_last() =~= comments@.take(i as int));
            assert(comments@.take(i + 1int).last() == comments@[i as int]);
        }
        let mut found: Option<usize> = Option::None;
        let mut j: usize = 0;
        while j < groups.len()
            invariant
                0 <= j <= groups@.len(),
                found is None ==> forall|k: int|
                    0 <= k < j ==> (#[trigger] groups@[k]).path@ != c.path@,
                found matches Option::Some(f) ==> f < groups@.len() && groups@[f as int].path@
                    == c.path@,
            decreases groups@.len() - j,
        {
            if crate::text::str_eq(groups[j].path.as_str(), c.path.as_str()) {
                found = Option::Some(j);
                break ;
            }
            j = j + 1;
        }
        match found {
            Option::Some(f) => {
                proof {
                    assert(distinct_paths(comments@.take(i as int)).contains(c.path@)) by {
                        assert(distinct_paths(comments@.take(i as int))[f as int] == groups@[
                            f as int].path@);
                    }
                }
                let mut g = groups.remove(f);
                g.comments.push(c);
                groups.insert(f, g);
                proof {
                    let pre = comments@.take(i as int);
                    let ext = comments@.take(i + 1int);
                    assert(ext =~= pre.push(comments@[i as int]));
                    assert forall|k: int| 0 <= k < groups@.len() implies (#[trigger] groups@[
                        k]).comments@ == comments_for_path(ext, groups@[k].path@) by {
                        let p = groups@[k].path@;
                        assert(comments_for_path(ext, p) == comments_for_path(
                            pre.push(comments@[i as int]),
                            p,
                        ));
                        if k != f {
                            assert(groups@[k].path@ != c.path@);
                        }
                    }
                }
            },
            Option::None => {
                proof {
                    assert(!distinct_paths(comments@.take(i as int)).contains(c.path@)) by {
                        if distinct_paths(comments@.take(i as int)).contains(c.path@) {
                            let w = choose|w: int|
                                0 <= w < distinct_paths(comments@.take(i as int)).len()
                                    && distinct_paths(comments@.take(i as int))[w] == c.path@;
                            assert(groups@[w].path@ == c.path@);
                        }
                    }
                }
                let mut cs: Vec<PrComment> = Vec::new();
                let path = c.path.clone();
                cs.push(c);
                groups.push(CommentGroup { path, comments: cs });
                proof {
                    let gs = groups@;
                    let pre = comments@.take(i as int);
                    let ext = comments@.take(i + 1int);
                    assert(ext =~= pre.push(comments@[i as int]));
                    assert forall|k: int| 0 <= k < gs.len() implies (#[trigger] gs[k]).comments@
                        == comments_for_path(ext, gs[k].path@) by {
                        let p = gs[k].path@;
                        assert(comments_for_path(ext, p) == comments_for_path(
                            pre.push(comments@[i as int]),
                            p,
                        ));
                        if k < gs.len() - 1 {
                            assert(gs[k].path@ != c.path@) by {
                                assert(distinct_paths(pre)[k] == gs[k].path@);
                            }
                        } else {
                            assert(gs[k].path@ == c.path@);
                            lemma_no_path_no_comments(pre, c.path@);
                            assert(comments_for_path(pre, c.path@) =~= Seq::<PrComment>::empty());
                            assert(comments_for_path(ext, p) =~= seq![comments@[i as int]]);
                            assert(gs[k].comments@ =~= seq![comments@[i as int]]);
                        }
                    }
                }
            },
        }
        i = i + 1;
    }
    proof {
        assert(comments@.take(n as int) =~= comments@);
    }
    let mut out: Vec<CommentGroup> = Vec::new();
    let mut k: usize = 0;
    let ghost mid = groups@;
    while k < groups.len()
        invariant
            0 <= k <= groups@.len(),
            groups@ == mid,
            out@.len() == k,
            forall|q: int| 0 <= q < k ==> (#[trigger] out@[q]).path@ == mid[q].path@,
            forall|q: int|
                0 <= q < k ==> (#[trigger] out@[q]).comments@ == spec_sort_comments(
                    mid[q].comments@,
                ),
        decreases groups@.len() - k,
    {
        let g = &groups[k];
        let mut cs: Vec<PrComment> = Vec::new();
        let mut q: usize = 0;
        while q < g.comments.len()
            invariant
                0 <= q <= g.comments@.len(),
                g == &groups@[k as int],
                k < groups@.len(),
                cs@ == g.comments@.take(q as int),
            decreases g.comments@.len() - q,
        {
            cs.push(g.comments[q].duplicate());
            proof {
                assert(g.comments@.take(q + 1int) =~= g.comments@.take(q as int).push(
                    g.comments@[q as int],
                ));
            }
            q = q + 1;
        }
        proof {
            assert(g.comments@.take(g.comments@.len() as int) =~= g.comments@);
        }
        let sorted = sort_comments(cs);
        out.push(CommentGroup { path: g.path.clone(), comments: sorted });
        k = k + 1;
    }
    out
}

/// Index of the first group for `path`, or -1 if there is none.
pub open spec fn group_index_of(groups: Seq<CommentGroup>, path: Seq<char>) -> int
    decreases groups.len(),
{
    if groups.len() == 0 {
        -1
    } else if groups[0].path@ == path {
        0
    } else {
        let r = group_index_of(groups.drop_first(), path);
        if r < 0 {
            -1
        } else {
            r + 1
        }
    }
}

/// Characterize `group_index_of` from an explicit witness.
pub proof fn lemma_group_index_at(groups: Seq<CommentGroup>, path: Seq<char>, k: int)
    requires
        0 <= k <= groups.len(),
        forall|j: int| 0 <= j < k ==> (#[trigger] groups[j]).path@ != path,
        k < groups.len() ==> groups[k].path@ == path,
    ensures
        k < groups.len() ==> group_index_of(groups, path) == k,
        k == groups.len() ==> group_index_of(groups, path) < 0,
    decreases groups.len(),
{
    if groups.len() > 0 && groups[0].path@ != path {
        let t = groups.drop_first();
        assert forall|j: int| 0 <= j < k - 1 implies (#[trigger] t[j]).path@ != path by {
            assert(t[j] == groups[j + 1]);
        }
        assert(k - 1 < t.len() ==> t[k - 1] == groups[k]);
        lemma_group_index_at(t, path, k - 1);
    }
}

/// The comment group recorded for a file, if there is one.
#[verifier::loop_isolation(false)]
pub fn comments_of_file<'a>(groups: &'a Vec<CommentGroup>, path: &str) -> (r: Option<
    &'a Vec<PrComment>,
>)
    ensures
        group_index_of(groups@, path@) >= 0 ==> r == Some(
            &groups@[group_index_of(groups@, path@)].comments,
        ),
        group_index_of(groups@, path@) < 0 ==> r is None,
{
    let n = groups.len();
    let mut i: usize = 0;
    while i < n
        invariant
            0 <= i <= n,
            forall|j: int| 0 <= j < i ==> (#[trigger] groups@[j]).path@ != path@,
        decreases n - i,
    {
        if crate::text::str_eq(groups[i].path.as_str(), path) {
            proof {
                lemma_group_index_at(groups@, path@, i as int);
            }
            return Some(&groups[i].comments);
        }
        i = i + 1;
    }
    proof {
        lemma_group_index_at(groups@, path@, n as int);
    }
    None
}

/// A path that never occurs in a sequence selects no comments from it.
proof fn lemma_no_path_no_comments(s: Seq<PrComment>, path: Seq<char>)
    requires
        !distinct_paths(s).contains(path),
    ensures
        comments_for_path(s, path) =~= Seq::<PrComment>::empty(),
    decreases s.len(),
{
    broadcast use Seq::lemma_filter_push;

    if s.len() > 0 {
        let pre = s.drop_last();
        assert(!distinct_paths(pre).contains(path)) by {
            if distinct_paths(pre).contains(path) {
                let w = choose|w: int|
                    0 <= w < distinct_paths(pre).len() && distinct_paths(pre)[w] == path;
                if distinct_paths(s) == distinct_paths(pre) {
                } else {
                    assert(distinct_paths(s)[w] == path);
                }
            }
        }
        lemma_no_path_no_comments(pre, path);
        assert(s.last().path@ != path) by {
            if s.last().path@ == path {
                if distinct_paths(pre).contains(path) {
                } else {
                    assert(distinct_paths(s).last() == path);
                }
            }
        }
        assert(pre.push(s.last()) =~= s);
        assert(comments_for_path(pre.push(s.last()), path) =~= comments_for_path(pre, path));
    } else {
        assert(comments_for_path(s, path) =~= Seq::<PrComment>::empty());
    }
}

} // verus!
