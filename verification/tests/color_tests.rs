use lado::color::{TextSpanModel, parse_hex_color};
use lado::config::Config;
use lado::highlight::SyntaxHighlighter;
use lado::models::{FileEntryModel, PrCommitModel};
use lado::diff::{FileChange, FileStatus};
use lado::review::PrCommit;

#[test]
fn test_parse_hex_color() {
    let color = parse_hex_color("#ff0000");
    assert_eq!(color.red(), 255);
    assert_eq!(color.green(), 0);
    assert_eq!(color.blue(), 0);
}

#[test]
fn test_parse_hex_color_without_hash() {
    let color = parse_hex_color("00ff00");
    assert_eq!(color.red(), 0);
    assert_eq!(color.green(), 255);
    assert_eq!(color.blue(), 0);
}

#[test]
fn test_text_span_from_hex() {
    let span = TextSpanModel::from_hex("fn".to_string(), "#0000ff");
    assert_eq!(span.text, "fn");
    assert_eq!(span.color.blue(), 255);
}

#[test]
fn test_parse_hex_color_invalid_falls_back_to_white() {
    let color = parse_hex_color("nope");
    assert_eq!((color.red(), color.green(), color.blue()), (255, 255, 255));
    let color = parse_hex_color("#zzzzzz");
    assert_eq!((color.red(), color.green(), color.blue()), (255, 255, 255));
}

#[test]
fn test_highlight_rust() {
    let highlighter = SyntaxHighlighter::new();
    let code = "fn main() {\n    println!(\"Hello\");\n}\n";
    let result = highlighter.highlight(code, "test.rs");

    assert_eq!(result.len(), 3);
    assert!(!result[0].spans.is_empty());
}

#[test]
fn test_highlight_unknown_extension() {
    let highlighter = SyntaxHighlighter::new();
    let code = "some random text\n";
    let result = highlighter.highlight(code, "file.xyz");

    assert_eq!(result.len(), 1);
}

#[test]
fn test_highlight_colors_are_hex_strings() {
    let highlighter = SyntaxHighlighter::new();
    let result = highlighter.highlight("let x = 1;\n", "a.rs");
    for line in &result {
        for span in &line.spans {
            assert_eq!(span.color.len(), 7);
            assert!(span.color.starts_with('#'));
        }
    }
}

#[test]
fn test_default_config() {
    let config = Config::default();
    assert_eq!(config.ui_theme, "dark");
    assert_eq!(config.font_size, 14);
    assert_eq!(config.tab_width, 4);
    assert!(!config.line_wrap);
}

#[test]
fn test_commit_model_summary_is_first_line() {
    let commit = PrCommit {
        sha: "abcdef1234".to_string(),
        short_sha: "abcdef1".to_string(),
        parent_sha: None,
        message: "Fix the parser\n\nLonger body here.".to_string(),
        author: "dev".to_string(),
    };
    let model = PrCommitModel::from_commit(&commit);
    assert_eq!(model.summary, "Fix the parser");
    assert_eq!(model.sha, "abcdef1234");
    assert_eq!(model.short_sha, "abcdef1");
    assert!(!model.is_selected);
}

#[test]
fn test_file_entry_model_uses_basename() {
    let file = FileChange {
        path: "src/deep/file.rs".to_string(),
        status: FileStatus::Renamed,
        additions: 1,
        deletions: 2,
    };
    let model = FileEntryModel::from_change(&file);
    assert_eq!(model.name, "file.rs");
    assert_eq!(model.path, "src/deep/file.rs");
    assert_eq!(model.status, "renamed");
    assert_eq!(model.depth, 0);
    assert!(!model.is_folder);
}
