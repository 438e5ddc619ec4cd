use lado::diff::{DiffHunk, DiffLine, DiffLineType};
use lado::interleave::{DisplayLine, format_timestamp, interleave};
use lado::review::{CommentSide, PrComment, group_comments_by_file};
use lado::highlight::SyntaxHighlighter;

fn line(kind: DiffLineType, old: Option<u32>, new: Option<u32>, content: &str) -> DiffLine {
    DiffLine {
        line_type: kind,
        old_line_num: old,
        new_line_num: new,
        content: content.to_string(),
        comment: None,
    }
}

fn hunk(header: &str, lines: Vec<DiffLine>) -> DiffHunk {
    DiffHunk {
        header: header.to_string(),
        old_start: 1,
        old_lines: 1,
        new_start: 1,
        new_lines: 2,
        lines,
    }
}

fn comment(id: u64, path: &str, target: Option<u32>, side: CommentSide) -> PrComment {
    PrComment {
        id,
        in_reply_to_id: None,
        path: path.to_string(),
        line: target,
        side,
        body: format!("comment {}", id),
        author: "alice".to_string(),
        created_at: "2024-01-15T10:30:00Z".to_string(),
        commit_id: "c".to_string(),
        original_commit_id: "c".to_string(),
    }
}

// End-to-end scenario: one hunk, one matching right-side comment — the
// output is separator, context, addition, comment, in that order.
#[test]
fn test_interleave_scenario_comment_last() {
    let hunks = vec![hunk(
        "@@ -1,1 +1,2 @@\n",
        vec![
            line(DiffLineType::Context, Some(1), Some(1), "a"),
            line(DiffLineType::Add, None, Some(2), "b"),
        ],
    )];
    let comments = vec![comment(1, "f.txt", Some(2), CommentSide::Right)];
    let out = interleave(&hunks, Some(&comments), None, "f.txt");
    assert_eq!(out.len(), 4);
    assert_eq!(out[0].line_type, DiffLineType::Hunk);
    assert_eq!(out[0].content, "@@ -1,1 +1,2 @@");
    assert_eq!(out[1].line_type, DiffLineType::Context);
    assert_eq!(out[1].content, "a");
    assert_eq!(out[2].line_type, DiffLineType::Add);
    assert_eq!(out[2].content, "b");
    assert_eq!(out[3].line_type, DiffLineType::Comment);
    let payload = out[3].comment.as_ref().unwrap();
    assert_eq!(payload.author, "alice");
    assert_eq!(payload.timestamp, "2024-01-15 10:30");
}

// Interleaver ordering: the output begins with a separator, and the code
// lines keep their input order whether or not comments are supplied.
#[test]
fn test_interleave_starts_with_header_and_keeps_order() {
    let hunks = vec![
        hunk(
            "@@ -1,2 +1,2 @@",
            vec![
                line(DiffLineType::Remove, Some(1), None, "old"),
                line(DiffLineType::Add, None, Some(1), "new"),
            ],
        ),
        hunk(
            "@@ -10,1 +10,1 @@",
            vec![line(DiffLineType::Context, Some(10), Some(10), "ctx")],
        ),
    ];
    let comments = vec![
        comment(1, "f.txt", Some(1), CommentSide::Left),
        comment(2, "f.txt", Some(10), CommentSide::Right),
    ];
    let without: Vec<DisplayLine> = interleave(&hunks, None, None, "f.txt");
    let with: Vec<DisplayLine> = interleave(&hunks, Some(&comments), None, "f.txt");
    assert_eq!(without[0].line_type, DiffLineType::Hunk);
    assert_eq!(with[0].line_type, DiffLineType::Hunk);
    let code = |v: &[DisplayLine]| -> Vec<(DiffLineType, String)> {
        v.iter()
            .filter(|l| {
                matches!(
                    l.line_type,
                    DiffLineType::Add | DiffLineType::Remove | DiffLineType::Context
                )
            })
            .map(|l| (l.line_type, l.content.clone()))
            .collect()
    };
    assert_eq!(code(&without), code(&with));
    assert_eq!(
        code(&without),
        vec![
            (DiffLineType::Remove, "old".to_string()),
            (DiffLineType::Add, "new".to_string()),
            (DiffLineType::Context, "ctx".to_string()),
        ]
    );
}

// Comment matching: a right-side comment attaches only after the line whose
// new line number matches; a comment without a line never appears.
#[test]
fn test_comment_matching_rules() {
    let hunks = vec![hunk(
        "@@ -1,2 +1,2 @@",
        vec![
            line(DiffLineType::Context, Some(1), Some(1), "a"),
            line(DiffLineType::Context, Some(2), Some(2), "b"),
        ],
    )];
    let comments = vec![
        comment(1, "f.txt", Some(2), CommentSide::Right),
        comment(2, "f.txt", None, CommentSide::Right),
        comment(3, "f.txt", Some(1), CommentSide::Left),
    ];
    let out = interleave(&hunks, Some(&comments), None, "f.txt");
    // header, "a", its left comment, "b", its right comment — and the
    // file-level comment (no line) nowhere.
    assert_eq!(out.len(), 5);
    assert_eq!(out[1].content, "a");
    assert_eq!(out[2].line_type, DiffLineType::Comment);
    assert_eq!(out[2].comment.as_ref().unwrap().body, "comment 3");
    assert_eq!(out[3].content, "b");
    assert_eq!(out[4].line_type, DiffLineType::Comment);
    assert_eq!(out[4].comment.as_ref().unwrap().body, "comment 1");
    assert!(out.iter().all(|l| match &l.comment {
        Some(c) => c.body != "comment 2",
        None => true,
    }));
}

fn lines_equal(a: &[DisplayLine], b: &[DisplayLine]) -> bool {
    a.len() == b.len()
        && a.iter().zip(b.iter()).all(|(x, y)| {
            x.line_type == y.line_type
                && x.old_line_num == y.old_line_num
                && x.new_line_num == y.new_line_num
                && x.content == y.content
                && x.spans.len() == y.spans.len()
                && x.spans.iter().zip(y.spans.iter()).all(|(s, t)| {
                    s.text == t.text && s.color == t.color
                })
                && match (&x.comment, &y.comment) {
                    (Some(c), Some(d)) => {
                        c.author == d.author && c.body == d.body && c.timestamp == d.timestamp
                            && c.is_reply == d.is_reply
                    },
                    (None, None) => true,
                    _ => false,
                }
        })
}

// Idempotence: running the interleaver twice on identical inputs, with the
// same highlighter, yields identical output.
#[test]
fn test_interleave_twice_identical() {
    let hunks = vec![hunk(
        "@@ -1,1 +1,2 @@",
        vec![
            line(DiffLineType::Context, Some(1), Some(1), "fn main() {"),
            line(DiffLineType::Add, None, Some(2), "    let x = 1;"),
        ],
    )];
    let comments = vec![comment(1, "m.rs", Some(2), CommentSide::Right)];
    let hl = SyntaxHighlighter::new();
    let first = interleave(&hunks, Some(&comments), Some(&hl), "m.rs");
    let second = interleave(&hunks, Some(&comments), Some(&hl), "m.rs");
    assert!(lines_equal(&first, &second));
    // The highlighter really colored the code lines.
    assert!(!first[1].spans.is_empty());
}

#[test]
fn test_interleave_empty_hunks() {
    let out = interleave(&Vec::new(), None, None, "f.txt");
    assert!(out.is_empty());
}

#[test]
fn test_format_timestamp() {
    assert_eq!(format_timestamp("2024-01-15T10:30:00Z"), "2024-01-15 10:30");
    assert_eq!(format_timestamp("short"), "short");
}

// Grouping: comments sort by target line, then by id within a line, and
// file-level comments (no line) come after all numbered ones.
#[test]
fn test_group_comments_by_file() {
    let comments = vec![
        comment(5, "b.txt", Some(3), CommentSide::Right),
        comment(2, "a.txt", Some(7), CommentSide::Right),
        comment(9, "b.txt", Some(3), CommentSide::Right),
        comment(1, "b.txt", Some(1), CommentSide::Right),
        comment(4, "b.txt", None, CommentSide::Right),
    ];
    let groups = group_comments_by_file(comments);
    assert_eq!(groups.len(), 2);
    assert_eq!(groups[0].path, "b.txt");
    let ids: Vec<u64> = groups[0].comments.iter().map(|c| c.id).collect();
    assert_eq!(ids, vec![1, 5, 9, 4]);
    assert_eq!(groups[1].path, "a.txt");
    assert_eq!(groups[1].comments.len(), 1);
}
