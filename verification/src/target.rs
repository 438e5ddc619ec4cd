//! Resolving what to compare: the requested target, and, inside a change
//! request, the selection of all changes or of one commit.

use vstd::prelude::*;
use crate::review::{PrComment, PrCommit};
use crate::text::{all_digits, is_digit_char, spec_parse_u32, parse_u32};

verus! {

/// The requested comparison target.
#[derive(Debug, Clone)]
pub enum DiffTarget {
    /// Diff against the default branch.
    DefaultBranch,
    /// Diff against a specific git ref (branch or commit).
    Ref(String),
    /// Diff for a change request with this number.
    PullRequest(u32),
}

/// The change-request number an argument selects: the digits after an
/// optional leading `#`, provided the argument is hash-prefixed or consists
/// of digits alone. A branch literally named like a number cannot be
/// selected by its bare name.
pub open spec fn spec_pr_number(s: Seq<char>) -> Option<u32> {
    let stripped = if s.len() > 0 && s[0] == '#' {
        s.drop_first()
    } else {
        s
    };
    if (s.len() > 0 && s[0] == '#') || all_digits(s) {
        spec_parse_u32(stripped)
    } else {
        None
    }
}

impl DiffTarget {
    /// Parse the target argument: absent means the default branch, a number
    /// (bare or `#`-prefixed) selects a change request, anything else names
    /// a git ref.
    #[verifier::loop_isolation(false)]
    pub fn parse(target: Option<&str>) -> (r: Self)
        ensures
            match target {
                Option::None => r is DefaultBranch,
                Option::Some(s) => match spec_pr_number(s@) {
                    Option::Some(n) => r == DiffTarget::PullRequest(n),
                    Option::None => r matches DiffTarget::Ref(x) && x@ == s@,
                },
            },
    {
        match target {
            Option::None => DiffTarget::DefaultBranch,
            Option::Some(s) => {
                let n = s.unicode_len();
                let hashed = n > 0 && s.get_char(0) == '#';
                let pr_str = if hashed {
                    s.substring_char(1, n)
                } else {
                    s
                };
                proof {
                    if hashed {
                        assert(pr_str@ =~= s@.drop_first());
                    }
                }
                let mut digits_only = true;
                let mut i: usize = 0;
                while i < n
                    invariant
                        0 <= i <= n,
                        n == s@.len(),
                        digits_only == all_digits(s@.take(i as int)),
                    decreases n - i,
                {
                    let c = s.get_char(i);
                    proof {
                        assert(s@.take(i + 1int).drop_last() =~= s@.take(i as int));
                    }
                    if !(c >= '0' && c <= '9') {
                        digits_only = false;
                        proof {
                            let t = s@.take(i + 1int);
                            assert(t[i as int] == s@[i as int]);
                            assert(!is_digit_char(t[i as int]));
                        }
                    } else {
                        proof {
                            let pre = s@.take(i as int);
                            let t = s@.take(i + 1int);
                            if digits_only {
                                assert(forall|j: int| 0 <= j < t.len() - 1 ==> t[j] == pre[j]);
                                assert(t[t.len() - 1] == s@[i as int]);
                                assert(all_digits(t));
                            } else {
                                let w = choose|w: int|
                                    0 <= w < pre.len() && !is_digit_char(#[trigger] pre[w]);
                                assert(t[w] == pre[w]);
                                assert(!all_digits(t));
                            }
                        }
                    }
                    i = i + 1;
                }
                proof {
                    assert(s@.take(n as int) =~= s@);
                }
                if hashed || digits_only {
                    match parse_u32(pr_str) {
                        Option::Some(num) => DiffTarget::PullRequest(num),
                        Option::None => DiffTarget::Ref(s.to_owned()),
                    }
                } else {
                    DiffTarget::Ref(s.to_owned())
                }
            },
        }
    }
}

/// The head of a comparison: the current checkout, or a named ref.
#[derive(Debug, Clone)]
pub enum HeadRef {
    /// The tip the working tree is checked out at.
    Checkout,
    /// A ref to resolve by name.
    Named(String),
}

/// What a target compares: the base ref to resolve, and the head — the
/// current checkout for the default branch and for explicit refs, the
/// request's recorded head ref for a change request. A change request
/// without its recorded branch information cannot be resolved.
pub fn select_target_refs(
    target: &DiffTarget,
    default_branch: &str,
    pr: Option<&crate::review::PrInfo>,
) -> (r: Option<(String, HeadRef)>)
    ensures
        match target {
            DiffTarget::DefaultBranch => r matches Some(p) && p.0@ == default_branch@ && p.1
                is Checkout,
            DiffTarget::Ref(name) => r matches Some(p) && p.0@ == name@ && p.1 is Checkout,
            DiffTarget::PullRequest(_) => match pr {
                Option::Some(info) => r matches Some(p) && p.0@ == info.base_ref@ && (
                p.1 matches HeadRef::Named(h) && h@ == info.head_ref@),
                Option::None => r is None,
            },
        },
{
    match target {
        DiffTarget::DefaultBranch => Some((default_branch.to_owned(), HeadRef::Checkout)),
        DiffTarget::Ref(name) => Some((name.clone(), HeadRef::Checkout)),
        DiffTarget::PullRequest(_) => match pr {
            Option::Some(info) => Some(
                (info.base_ref.clone(), HeadRef::Named(info.head_ref.clone())),
            ),
            Option::None => None,
        },
    }
}

/// Within a change request, which changes to show.
#[derive(Debug, Clone, Copy, PartialEq, Eq, Structural)]
pub enum CommitSelector {
    /// Everything between the request's base and head.
    AllChanges,
    /// One commit of the request's commit list, by position.
    CommitIndex(usize),
}

/// The pair of ref names to compare for a selection within a change
/// request: all changes compare the recorded base and head; a single commit
/// compares its parent to itself, and a parentless first commit is compared
/// against the request's base ref.
pub fn select_commit_refs(
    selector: CommitSelector,
    base_ref: &str,
    head_ref: &str,
    commits: &Vec<PrCommit>,
) -> (r: Option<(String, String)>)
    ensures
        match selector {
            CommitSelector::AllChanges => r matches Some(p) && p.0@ == base_ref@ && p.1@
                == head_ref@,
            CommitSelector::CommitIndex(i) => if (i as int) < commits@.len() {
                {
                    let c = commits@[i as int];
                    r matches Some(p) && p.1@ == c.sha@ && (match c.parent_sha {
                        Option::Some(ps) => p.0@ == ps@,
                        Option::None => p.0@ == base_ref@,
                    })
                }
            } else {
                r is None
            },
        },
{
    match selector {
        CommitSelector::AllChanges => Some((base_ref.to_owned(), head_ref.to_owned())),
        CommitSelector::CommitIndex(i) => {
            if i < commits.len() {
                let c = &commits[i];
                let head = c.sha.clone();
                match &c.parent_sha {
                    Option::Some(ps) => Some((ps.clone(), head)),
                    Option::None => Some((base_ref.to_owned(), head)),
                }
            } else {
                None
            }
        },
    }
}

/// The comments recorded against one commit of a change request, in their
/// original order.
#[verifier::loop_isolation(false)]
pub fn comments_for_commit(comments: &Vec<PrComment>, sha: &str) -> (r: Vec<PrComment>)
    ensures
        r@ == comments@.filter(|c: PrComment| c.original_commit_id@ == sha@),
{
    broadcast use Seq::lemma_filter_push;

    let n = comments.len();
    let mut out: Vec<PrComment> = Vec::new();
    let mut i: usize = 0;
    proof {
        assert(comments@.take(0).filter(|c: PrComment| c.original_commit_id@ == sha@) =~= Seq::<
            PrComment,
        >::empty()) by {
            assert(comments@.take(0) =~= Seq::<PrComment>::empty());
            reveal(Seq::filter);
        }
    }
    while i < n
        invariant
            0 <= i <= n,
            n == comments@.len(),
            out@ == comments@.take(i as int).filter(|c: PrComment| c.original_commit_id@ == sha@),
        decreases n - i,
    {
        let c = &comments[i];
        proof {
            let pre = comments@.take(i as int);
            let ext = comments@.take(i + 1int);
            assert(ext =~= pre.push(comments@[i as int]));
            assert(ext.filter(|c: PrComment| c.original_commit_id@ == sha@) == pre.push(
                comments@[i as int],
            ).filter(|c: PrComment| c.original_commit_id@ == sha@));
        }
        if crate::text::str_eq(c.original_commit_id.as_str(), sha) {
            out.push(c.duplicate());
        }
        i = i + 1;
    }
    proof {
        assert(comments@.take(n as int) =~= comments@);
    }
    out
}

} // verus!
