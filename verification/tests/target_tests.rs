use lado::target::{select_commit_refs, select_target_refs, CommitSelector, DiffTarget, HeadRef};
use lado::review::{PrCommit, PrInfo};

#[test]
fn test_parse_default() {
    assert!(matches!(DiffTarget::parse(None), DiffTarget::DefaultBranch));
}

#[test]
fn test_parse_branch() {
    assert!(matches!(
        DiffTarget::parse(Some("feature-branch")),
        DiffTarget::Ref(s) if s == "feature-branch"
    ));
}

#[test]
fn test_parse_commit() {
    assert!(matches!(
        DiffTarget::parse(Some("abc123")),
        DiffTarget::Ref(s) if s == "abc123"
    ));
}

#[test]
fn test_parse_pr_number() {
    assert!(matches!(
        DiffTarget::parse(Some("42")),
        DiffTarget::PullRequest(42)
    ));
}

#[test]
fn test_parse_pr_hash() {
    assert!(matches!(
        DiffTarget::parse(Some("#42")),
        DiffTarget::PullRequest(42)
    ));
}

#[test]
fn test_parse_overflowing_number_is_a_ref() {
    assert!(matches!(
        DiffTarget::parse(Some("4294967296")),
        DiffTarget::Ref(s) if s == "4294967296"
    ));
}

#[test]
fn test_parse_empty_string_is_a_ref() {
    assert!(matches!(
        DiffTarget::parse(Some("")),
        DiffTarget::Ref(s) if s.is_empty()
    ));
}

fn commit(sha: &str, parent: Option<&str>) -> PrCommit {
    PrCommit {
        sha: sha.to_string(),
        short_sha: sha.chars().take(7).collect(),
        parent_sha: parent.map(|p| p.to_string()),
        message: String::new(),
        author: String::new(),
    }
}

#[test]
fn test_select_all_changes() {
    let commits = vec![commit("a", None), commit("b", Some("a"))];
    let r = select_commit_refs(CommitSelector::AllChanges, "base", "head", &commits).unwrap();
    assert_eq!(r.0, "base");
    assert_eq!(r.1, "head");
}

#[test]
fn test_select_first_commit_without_parent() {
    let commits = vec![commit("a", None), commit("b", Some("a"))];
    let r = select_commit_refs(CommitSelector::CommitIndex(0), "base", "head", &commits).unwrap();
    assert_eq!(r.0, "base");
    assert_eq!(r.1, "a");
}

#[test]
fn test_select_second_commit_uses_parent() {
    let commits = vec![commit("a", None), commit("b", Some("a"))];
    let r = select_commit_refs(CommitSelector::CommitIndex(1), "base", "head", &commits).unwrap();
    assert_eq!(r.0, "a");
    assert_eq!(r.1, "b");
}

#[test]
fn test_select_out_of_range_commit() {
    let commits = vec![commit("a", None)];
    assert!(select_commit_refs(CommitSelector::CommitIndex(5), "base", "head", &commits).is_none());
}

#[test]
fn test_select_target_refs() {
    let r = select_target_refs(&DiffTarget::DefaultBranch, "main", None).unwrap();
    assert_eq!(r.0, "main");
    assert!(matches!(r.1, HeadRef::Checkout));

    let r = select_target_refs(&DiffTarget::Ref("dev".to_string()), "main", None).unwrap();
    assert_eq!(r.0, "dev");
    assert!(matches!(r.1, HeadRef::Checkout));

    let info = PrInfo {
        base_ref: "main".to_string(),
        head_ref: "feature".to_string(),
        title: "t".to_string(),
    };
    let r = select_target_refs(&DiffTarget::PullRequest(7), "main", Some(&info)).unwrap();
    assert_eq!(r.0, "main");
    assert!(matches!(r.1, HeadRef::Named(h) if h == "feature"));
    assert!(select_target_refs(&DiffTarget::PullRequest(7), "main", None).is_none());
}
