//! Core of a two-way git diff viewer: turns changed-file records, diff hunks
//! and review comments into a display-ready model — a sorted file tree, a
//! resolved pair of snapshots, and an ordered stream of annotated lines.

pub mod color;
pub mod config;
pub mod diff;
pub mod file_tree;
pub mod highlight;
pub mod interleave;
pub mod models;
pub mod review;
pub mod target;
pub mod text;

pub use diff::{
    CommentData, DiffData, DiffHunk, DiffLine, DiffLineType, FileChange, FileHunks, FileStatus,
};
pub use review::{CommentGroup, CommentSide, PrComment, PrCommit, PrInfo};
pub use target::{CommitSelector, DiffTarget};
pub use color::{RgbColor, TextSpanModel};
pub use config::Config;
pub use models::{FileEntryModel, PrCommitModel};
pub use highlight::{HighlightedLine, HighlightedSpan, SyntaxHighlighter};
pub use interleave::DisplayLine;
pub use file_tree::{FileTreeNode, FlatFileEntry, build_file_tree, flatten_tree};
