//! The line interleaver: merges a file's hunks into one ordered stream of
//! display lines, with a separator before each hunk, optional syntax
//! highlighting zipped onto the code lines, and review comments attached
//! after the lines they target.

use vstd::prelude::*;
use crate::color::{TextSpanModel, TextSpanView, parse_hex_color, spec_parse_hex_color};
use crate::diff::{CommentData, DiffHunk, DiffLine, DiffLineType};
use crate::highlight::{HighlightedSpanView, SyntaxHighlighter, colored_lines_of, highlight_of};
use crate::review::PrComment;
use crate::text::{spec_tail_after_last, trim_end_ascii, trim_end_view};

verus! {

/// One row of the rendered diff view: code, separator, or comment, with the
/// spans that color it.
#[derive(Debug, Clone)]
pub struct DisplayLine {
    pub line_type: DiffLineType,
    pub old_line_num: Option<u32>,
    pub new_line_num: Option<u32>,
    pub content: String,
    pub comment: Option<CommentData>,
    pub spans: Vec<TextSpanModel>,
}

/// Ghost form of a comment payload.
pub ghost struct CommentDataView {
    pub author: Seq<char>,
    pub body: Seq<char>,
    pub timestamp: Seq<char>,
    pub is_reply: bool,
}

impl DeepView for CommentData {
    type V = CommentDataView;

    open spec fn deep_view(&self) -> CommentDataView {
        CommentDataView {
            author: self.author@,
            body: self.body@,
            timestamp: self.timestamp@,
            is_reply: self.is_reply,
        }
    }
}

/// Ghost form of a display line.
pub ghost struct DisplayLineView {
    pub line_type: DiffLineType,
    pub old_line_num: Option<u32>,
    pub new_line_num: Option<u32>,
    pub content: Seq<char>,
    pub comment: Option<CommentDataView>,
    pub spans: Seq<TextSpanView>,
}

impl DeepView for DisplayLine {
    type V = DisplayLineView;

    open spec fn deep_view(&self) -> DisplayLineView {
        DisplayLineView {
            line_type: self.line_type,
            old_line_num: self.old_line_num,
            new_line_num: self.new_line_num,
            content: self.content@,
            comment: self.comment.deep_view(),
            spans: self.spans.deep_view(),
        }
    }
}

/// Whether a line kind carries code that can be highlighted.
pub open spec fn is_code(t: DiffLineType) -> bool {
    t is Add || t is Remove || t is Context
}

// ---------------------------------------------------------------------------
// Flattening hunks into a line stream
// ---------------------------------------------------------------------------

/// The synthetic separator line standing before a hunk's lines: the trimmed
/// hunk header, with no line numbers.
pub open spec fn header_line_of(h: DiffHunk) -> DisplayLineView {
    DisplayLineView {
        line_type: DiffLineType::Hunk,
        old_line_num: None,
        new_line_num: None,
        content: trim_end_view(h.header@),
        comment: None,
        spans: Seq::empty(),
    }
}

/// A diff line carried over into the display stream, without spans yet.
pub open spec fn code_line_view(l: DiffLine) -> DisplayLineView {
    DisplayLineView {
        line_type: l.line_type,
        old_line_num: l.old_line_num,
        new_line_num: l.new_line_num,
        content: l.content@,
        comment: l.comment.deep_view(),
        spans: Seq::empty(),
    }
}

/// The display block of one hunk: its separator, then its lines in order.
pub open spec fn hunk_block_of(h: DiffHunk) -> Seq<DisplayLineView> {
    seq![header_line_of(h)] + h.lines@.map_values(|l: DiffLine| code_line_view(l))
}

/// All hunks flattened into one stream, hunk order kept.
pub open spec fn spec_flatten_hunks(hunks: Seq<DiffHunk>) -> Seq<DisplayLineView>
    decreases hunks.len(),
{
    if hunks.len() == 0 {
        Seq::empty()
    } else {
        hunk_block_of(hunks[0]) + spec_flatten_hunks(hunks.drop_first())
    }
}

proof fn lemma_flatten_hunks_push(hunks: Seq<DiffHunk>, h: DiffHunk)
    ensures
        spec_flatten_hunks(hunks.push(h)) =~= spec_flatten_hunks(hunks) + hunk_block_of(h),
    decreases hunks.len(),
{
    if hunks.len() == 0 {
        assert(hunks.push(h)[0] == h);
        assert(hunks.push(h).drop_first() =~= Seq::<DiffHunk>::empty());
        assert(spec_flatten_hunks(Seq::<DiffHunk>::empty()) =~= Seq::<DisplayLineView>::empty());
        assert(spec_flatten_hunks(hunks.push(h)) =~= hunk_block_of(h));
        assert(spec_flatten_hunks(hunks) + hunk_block_of(h) =~= hunk_block_of(h));
    } else {
        assert(hunks.push(h)[0] == hunks[0]);
        assert(hunks.push(h).drop_first() =~= hunks.drop_first().push(h));
        lemma_flatten_hunks_push(hunks.drop_first(), h);
        let a = hunk_block_of(hunks[0]);
        let b = spec_flatten_hunks(hunks.drop_first());
        let c = hunk_block_of(h);
        assert(spec_flatten_hunks(hunks.push(h)) =~= a + (b + c));
        assert(a + (b + c) =~= (a + b) + c);
    }
}

/// Flatten hunks into display lines, a separator before each hunk.
#[verifier::loop_isolation(false)]
pub fn flatten_hunks(hunks: &Vec<DiffHunk>) -> (r: Vec<DisplayLine>)
    ensures
        r.deep_view() == spec_flatten_hunks(hunks@),
{
    let mut out: Vec<DisplayLine> = Vec::new();
    let mut i: usize = 0;
    proof {
        assert(hunks@.take(0) =~= Seq::<DiffHunk>::empty());
        assert(out.deep_view() =~= spec_flatten_hunks(hunks@.take(0)));
    }
    while i < hunks.len()
        invariant
            0 <= i <= hunks@.len(),
            out.deep_view() == spec_flatten_hunks(hunks@.take(i as int)),
        decreases hunks@.len() - i,
    {
        let h = &hunks[i];
        let header = trim_end_ascii(h.header.as_str());
        let hl = DisplayLine {
            line_type: DiffLineType::Hunk,
            old_line_num: None,
            new_line_num: None,
            content: header.to_owned(),
            comment: None,
            spans: Vec::new(),
        };
        let ghost hlv = hl.deep_view();
        let ghost before = out.deep_view();
        proof {
            assert(hl.spans.deep_view() =~= Seq::<TextSpanView>::empty());
            assert(hlv == header_line_of(hunks@[i as int]));
        }
        out.push(hl);
        proof {
            assert(out.deep_view() =~= before.push(hlv));
            assert(out.deep_view() =~= spec_flatten_hunks(hunks@.take(i as int)) + seq![
                header_line_of(hunks@[i as int]),
            ]);
        }
        let ghost base = out.deep_view();
        let mut j: usize = 0;
        proof {
            assert(h.lines@.take(0).map_values(|l: DiffLine| code_line_view(l)) =~= Seq::<
                DisplayLineView,
            >::empty());
        }
        while j < h.lines.len()
            invariant
                0 <= j <= h.lines@.len(),
                h == &hunks@[i as int],
                i < hunks@.len(),
                out.deep_view() =~= base + h.lines@.take(j as int).map_values(
                    |l: DiffLine| code_line_view(l),
                ),
            decreases h.lines@.len() - j,
        {
            let l = &h.lines[j];
            let comment = match &l.comment {
                Option::Some(c) => Option::Some(c.duplicate()),
                Option::None => Option::None,
            };
            let dl = DisplayLine {
                line_type: l.line_type,
                old_line_num: l.old_line_num,
                new_line_num: l.new_line_num,
                content: l.content.clone(),
                comment,
                spans: Vec::new(),
            };
            let ghost dlv = dl.deep_view();
            let ghost pre = out.deep_view();
            proof {
                assert(dl.spans.deep_view() =~= Seq::<TextSpanView>::empty());
                assert(dlv == code_line_view(h.lines@[j as int]));
            }
            out.push(dl);
            proof {
                let f = |l: DiffLine| code_line_view(l);
                assert(out.deep_view() =~= pre.push(dlv));
                assert(h.lines@.take(j + 1int).map_values(f) =~= h.lines@.take(
                    j as int,
                ).map_values(f).push(f(h.lines@[j as int])));
                assert(out.deep_view() =~= base + h.lines@.take(j + 1int).map_values(f));
            }
            j = j + 1;
        }
        proof {
            assert(h.lines@.take(h.lines@.len() as int) =~= h.lines@);
            lemma_flatten_hunks_push(hunks@.take(i as int), hunks@[i as int]);
            assert(hunks@.take(i as int).push(hunks@[i as int]) =~= hunks@.take(i + 1int));
            assert(out.deep_view() =~= spec_flatten_hunks(hunks@.take(i + 1int)));
        }
        i = i + 1;
    }
    proof {
        assert(hunks@.take(hunks@.len() as int) =~= hunks@);
    }
    out
}

// ---------------------------------------------------------------------------
// The text handed to the highlighter
// ---------------------------------------------------------------------------

/// The contents of the code lines, in stream order.
pub open spec fn code_contents(lines: Seq<DisplayLineView>) -> Seq<Seq<char>> {
    lines.filter(|l: DisplayLineView| is_code(l.line_type)).map_values(
        |l: DisplayLineView| l.content,
    )
}

/// The code contents concatenated, each line followed by a line feed.
pub open spec fn concat_lines(cs: Seq<Seq<char>>) -> Seq<char>
    decreases cs.len(),
{
    if cs.len() == 0 {
        Seq::empty()
    } else {
        concat_lines(cs.drop_last()) + cs.last() + seq!['\n']
    }
}

/// The single document handed to the highlighter: the visible code joined
/// by line feeds with one trailing line feed — one line feed alone when the
/// file shows no code at all.
pub open spec fn spec_full_content(cs: Seq<Seq<char>>) -> Seq<char> {
    if cs.len() == 0 {
        seq!['\n']
    } else {
        concat_lines(cs)
    }
}

/// Collect the code lines' text for highlighting.
#[verifier::loop_isolation(false)]
pub fn collect_content(lines: &Vec<DisplayLine>) -> (r: String)
    ensures
        r@ == spec_full_content(code_contents(lines.deep_view())),
{
    broadcast use Seq::lemma_filter_push;

    let mut out = String::new();
    let mut count: usize = 0;
    let mut i: usize = 0;
    proof {
        assert(lines.deep_view().take(0) =~= Seq::<DisplayLineView>::empty());
        assert(code_contents(Seq::<DisplayLineView>::empty()) =~= Seq::<Seq<char>>::empty()) by {
            reveal(Seq::filter);
        }
        assert(out@ =~= concat_lines(code_contents(lines.deep_view().take(0))));
    }
    while i < lines.len()
        invariant
            0 <= i <= lines@.len(),
            lines.deep_view().len() == lines@.len(),
            count == code_contents(lines.deep_view().take(i as int)).len(),
            out@ == concat_lines(code_contents(lines.deep_view().take(i as int))),
        decreases lines@.len() - i,
    {
        let l = &lines[i];
        proof {
            let lv = lines.deep_view();
            assert(lv.take(i + 1int) =~= lv.take(i as int).push(lv[i as int]));
            assert(lv[i as int] == lines@[i as int].deep_view());
            let pred = |l: DisplayLineView| is_code(l.line_type);
            let pre = lv.take(i as int);
            assert(code_contents(lv.take(i + 1int)) == pre.push(lv[i as int]).filter(
                pred,
            ).map_values(|l: DisplayLineView| l.content));
            if is_code(lv[i as int].line_type) {
                assert(pre.push(lv[i as int]).filter(pred) =~= pre.filter(pred).push(
                    lv[i as int],
                ));
                assert(code_contents(lv.take(i + 1int)) =~= code_contents(pre).push(
                    lv[i as int].content,
                ));
                assert(code_contents(lv.take(i + 1int)).drop_last() =~= code_contents(pre));
            } else {
                assert(pre.push(lv[i as int]).filter(pred) =~= pre.filter(pred));
                assert(code_contents(lv.take(i + 1int)) =~= code_contents(pre));
            }
        }
        match l.line_type {
            DiffLineType::Add | DiffLineType::Remove | DiffLineType::Context => {
                out.append(l.content.as_str());
                out.append("\n");
                count = count + 1;
                proof {
                    reveal_strlit("\n");
                    assert(out@ =~= concat_lines(
                        code_contents(lines.deep_view().take(i + 1int)),
                    ));
                }
            },
            _ => {},
        }
        i = i + 1;
    }
    proof {
        assert(lines.deep_view().take(lines@.len() as int) =~= lines.deep_view());
    }
    if count == 0 {
        proof {
            reveal_strlit("\n");
        }
        let mut nl = String::new();
        nl.append("\n");
        proof {
            assert(nl@ =~= seq!['\n']);
        }
        return nl;
    }
    out
}

// ---------------------------------------------------------------------------
// Timestamps on comment lines
// ---------------------------------------------------------------------------

/// A hosting-service timestamp such as `2024-01-15T10:30:00Z` cut down to
/// `2024-01-15 10:30`; anything shorter is kept as it is.
pub open spec fn spec_format_timestamp(ts: Seq<char>) -> Seq<char> {
    if ts.len() >= 16 {
        ts.take(10) + seq![' '] + ts.subrange(11, 16)
    } else {
        ts
    }
}

/// Format a timestamp for display.
pub fn format_timestamp(timestamp: &str) -> (r: String)
    ensures
        r@ == spec_format_timestamp(timestamp@),
{
    let n = timestamp.unicode_len();
    if n >= 16 {
        proof {
            reveal_strlit(" ");
        }
        let date = timestamp.substring_char(0, 10);
        let time = timestamp.substring_char(11, 16);
        let mut out = date.to_owned();
        out.append(" ");
        out.append(time);
        proof {
            assert(out@ =~= spec_format_timestamp(timestamp@));
        }
        out
    } else {
        timestamp.to_owned()
    }
}

// ---------------------------------------------------------------------------
// Attaching spans and comments
// ---------------------------------------------------------------------------

/// Whether a comment targets a display line: it must name a line, and that
/// line number must match the side it speaks of — the new line number for
/// the right side, the old one for the left.
pub open spec fn comment_matches(c: PrComment, l: DisplayLineView) -> bool {
    match c.line {
        Option::Some(line) => match c.side {
            crate::review::CommentSide::Right => l.new_line_num == Some(line),
            crate::review::CommentSide::Left => l.old_line_num == Some(line),
        },
        Option::None => false,
    }
}

/// The display line a comment becomes.
pub open spec fn comment_line_of(c: PrComment) -> DisplayLineView {
    DisplayLineView {
        line_type: DiffLineType::Comment,
        old_line_num: None,
        new_line_num: None,
        content: Seq::empty(),
        comment: Some(
            CommentDataView {
                author: c.author@,
                body: c.body@,
                timestamp: spec_format_timestamp(c.created_at@),
                is_reply: c.in_reply_to_id is Some,
            },
        ),
        spans: Seq::empty(),
    }
}

/// The comment lines attached after one display line, in grouped order.
pub open spec fn comment_lines_for(l: DisplayLineView, cmts: Seq<PrComment>) -> Seq<
    DisplayLineView,
> {
    cmts.filter(|c: PrComment| comment_matches(c, l)).map_values(
        |c: PrComment| comment_line_of(c),
    )
}

/// A line with its highlight spans zipped on: the next span list for a code
/// line, if the highlighter provided one; separators and comments never
/// receive spans.
pub open spec fn with_spans(
    l: DisplayLineView,
    spans: Seq<Seq<TextSpanView>>,
    si: int,
) -> DisplayLineView {
    if is_code(l.line_type) && 0 <= si < spans.len() {
        DisplayLineView {
            line_type: l.line_type,
            old_line_num: l.old_line_num,
            new_line_num: l.new_line_num,
            content: l.content,
            comment: l.comment,
            spans: spans[si],
        }
    } else {
        l
    }
}

/// The block one input line contributes: the line itself (with spans), then
/// every comment that targets it.
pub open spec fn line_block(
    l: DisplayLineView,
    cmts: Seq<PrComment>,
    spans: Seq<Seq<TextSpanView>>,
    si: int,
) -> Seq<DisplayLineView> {
    seq![with_spans(l, spans, si)] + comment_lines_for(l, cmts)
}

/// How many of the lines are code lines.
pub open spec fn code_count(lines: Seq<DisplayLineView>) -> int {
    lines.filter(|l: DisplayLineView| is_code(l.line_type)).len() as int
}

/// The assembled output: every input line in order, spans zipped onto code
/// lines by position, and matching comments appended after each line.
pub open spec fn spec_assemble(
    lines: Seq<DisplayLineView>,
    cmts: Seq<PrComment>,
    spans: Seq<Seq<TextSpanView>>,
    si: int,
) -> Seq<DisplayLineView>
    decreases lines.len(),
{
    if lines.len() == 0 {
        Seq::empty()
    } else {
        let step: int = if is_code(lines[0].line_type) {
            1
        } else {
            0
        };
        line_block(lines[0], cmts, spans, si) + spec_assemble(
            lines.drop_first(),
            cmts,
            spans,
            si + step,
        )
    }
}

proof fn lemma_code_count_push(lines: Seq<DisplayLineView>, l: DisplayLineView)
    ensures
        code_count(lines.push(l)) == code_count(lines) + (if is_code(l.line_type) {
            1int
        } else {
            0int
        }),
{
    broadcast use Seq::lemma_filter_push;

    let pred = |x: DisplayLineView| is_code(x.line_type);
    assert(lines.push(l).filter(pred) == if pred(l) {
        lines.filter(pred).push(l)
    } else {
        lines.filter(pred)
    });
}

proof fn lemma_assemble_push(
    lines: Seq<DisplayLineView>,
    l: DisplayLineView,
    cmts: Seq<PrComment>,
    spans: Seq<Seq<TextSpanView>>,
    si: int,
)
    ensures
        spec_assemble(lines.push(l), cmts, spans, si) =~= spec_assemble(lines, cmts, spans, si)
            + line_block(l, cmts, spans, si + code_count(lines)),
    decreases lines.len(),
{
    broadcast use Seq::lemma_filter_push;

    if lines.len() == 0 {
        assert(lines.push(l)[0] == l);
        assert(lines.push(l).drop_first() =~= Seq::<DisplayLineView>::empty());
        assert(code_count(lines) == 0) by {
            reveal(Seq::filter);
        }
        let step: int = if is_code(l.line_type) {
            1
        } else {
            0
        };
        assert(spec_assemble(Seq::<DisplayLineView>::empty(), cmts, spans, si + step) =~= Seq::<
            DisplayLineView,
        >::empty());
        assert(spec_assemble(lines.push(l), cmts, spans, si) =~= line_block(l, cmts, spans, si));
        assert(spec_assemble(lines, cmts, spans, si) + line_block(l, cmts, spans, si)
            =~= line_block(l, cmts, spans, si));
    } else {
        assert(lines.push(l)[0] == lines[0]);
        assert(lines.push(l).drop_first() =~= lines.drop_first().push(l));
        let step: int = if is_code(lines[0].line_type) {
            1
        } else {
            0
        };
        lemma_assemble_push(lines.drop_first(), l, cmts, spans, si + step);
        assert(code_count(lines) == code_count(lines.drop_first()) + step) by {
            lemma_code_count_head(lines);
        }
        let a = line_block(lines[0], cmts, spans, si);
        let b = spec_assemble(lines.drop_first(), cmts, spans, si + step);
        let c = line_block(l, cmts, spans, si + code_count(lines));
        assert(spec_assemble(lines.push(l), cmts, spans, si) =~= a + (b + c));
        assert(a + (b + c) =~= (a + b) + c);
    }
}

/// A field-for-field copy of a span list.
#[verifier::loop_isolation(false)]
fn clone_spans(v: &Vec<TextSpanModel>) -> (r: Vec<TextSpanModel>)
    ensures
        r@ =~= v@,
{
    let mut out: Vec<TextSpanModel> = Vec::new();
    let mut i: usize = 0;
    while i < v.len()
        invariant
            0 <= i <= v@.len(),
            out@ =~= v@.take(i as int),
        decreases v@.len() - i,
    {
        out.push(v[i].duplicate());
        proof {
            assert(out@ =~= v@.take(i + 1int));
        }
        i = i + 1;
    }
    proof {
        assert(v@.take(v@.len() as int) =~= v@);
    }
    out
}

/// Assemble the output stream: every line in order, spans zipped onto code
/// lines, and each line's matching comments appended after it.
#[verifier::loop_isolation(false)]
fn assemble(
    lines: &Vec<DisplayLine>,
    cmts: &Vec<PrComment>,
    spans: &Vec<Vec<TextSpanModel>>,
) -> (r: Vec<DisplayLine>)
    ensures
        r.deep_view() == spec_assemble(lines.deep_view(), cmts@, spans.deep_view(), 0),
{
    broadcast use Seq::lemma_filter_push;

    let ghost lv = lines.deep_view();
    let ghost sv = spans.deep_view();
    let mut out: Vec<DisplayLine> = Vec::new();
    let mut si: usize = 0;
    let mut i: usize = 0;
    proof {
        assert(lv.take(0) =~= Seq::<DisplayLineView>::empty());
        assert(out.deep_view() =~= spec_assemble(lv.take(0), cmts@, sv, 0));
        assert(code_count(lv.take(0)) == 0) by {
            reveal(Seq::filter);
        }
    }
    while i < lines.len()
        invariant
            0 <= i <= lines@.len(),
            lv == lines.deep_view(),
            sv == spans.deep_view(),
            lv.len() == lines@.len(),
            out.deep_view() == spec_assemble(lv.take(i as int), cmts@, sv, 0),
            si == code_count(lv.take(i as int)),
            0 <= si <= i,
        decreases lines@.len() - i,
    {
        let l = &lines[i];
        proof {
            assert(lv[i as int] == lines@[i as int].deep_view());
        }
        let is_code_line = match l.line_type {
            DiffLineType::Add | DiffLineType::Remove | DiffLineType::Context => true,
            _ => false,
        };
        let with: Vec<TextSpanModel> = if is_code_line && si < spans.len() {
            clone_spans(&spans[si])
        } else {
            clone_spans(&l.spans)
        };
        let comment = match &l.comment {
            Option::Some(c) => Option::Some(c.duplicate()),
            Option::None => Option::None,
        };
        let ol = DisplayLine {
            line_type: l.line_type,
            old_line_num: l.old_line_num,
            new_line_num: l.new_line_num,
            content: l.content.clone(),
            comment,
            spans: with,
        };
        let ghost olv = ol.deep_view();
        let ghost before = out.deep_view();
        proof {
            if is_code_line && (si as int) < sv.len() {
                assert(ol.spans@ =~= spans@[si as int]@);
                assert(ol.spans.deep_view() =~= spans@[si as int].deep_view());
                assert(sv[si as int] == spans@[si as int].deep_view());
            } else {
                assert(ol.spans.deep_view() =~= lines@[i as int].spans.deep_view());
            }
            assert(olv == with_spans(lv[i as int], sv, si as int));
        }
        out.push(ol);
        proof {
            assert(out.deep_view() =~= before.push(olv));
        }
        let ghost blockbase = out.deep_view();
        let ghost pred = |c: PrComment| comment_matches(c, lv[i as int]);
        let mut k: usize = 0;
        proof {
            assert(cmts@.take(0) =~= Seq::<PrComment>::empty());
            assert(cmts@.take(0).filter(pred) =~= Seq::<PrComment>::empty()) by {
                reveal(Seq::filter);
            }
            assert(out.deep_view() =~= blockbase + cmts@.take(0).filter(pred).map_values(
                |c: PrComment| comment_line_of(c),
            ));
        }
        while k < cmts.len()
            invariant
                0 <= k <= cmts@.len(),
                i < lines@.len(),
                lv == lines.deep_view(),
                pred == (|c: PrComment| comment_matches(c, lv[i as int])),
                out.deep_view() == blockbase + cmts@.take(k as int).filter(pred).map_values(
                    |c: PrComment| comment_line_of(c),
                ),
            decreases cmts@.len() - k,
        {
            let c = &cmts[k];
            let is_match = match c.line {
                Option::Some(line) => match c.side {
                    crate::review::CommentSide::Right => match l.new_line_num {
                        Option::Some(n) => n == line,
                        Option::None => false,
                    },
                    crate::review::CommentSide::Left => match l.old_line_num {
                        Option::Some(n) => n == line,
                        Option::None => false,
                    },
                },
                Option::None => false,
            };
            proof {
                assert(is_match == comment_matches(cmts@[k as int], lv[i as int]));
                assert(cmts@.take(k + 1int) =~= cmts@.take(k as int).push(cmts@[k as int]));
            }
            if is_match {
                let cl = DisplayLine {
                    line_type: DiffLineType::Comment,
                    old_line_num: Option::None,
                    new_line_num: Option::None,
                    content: String::new(),
                    comment: Option::Some(
                        CommentData {
                            author: c.author.clone(),
                            body: c.body.clone(),
                            timestamp: format_timestamp(c.created_at.as_str()),
                            is_reply: match c.in_reply_to_id {
                                Option::Some(_) => true,
                                Option::None => false,
                            },
                        },
                    ),
                    spans: Vec::new(),
                };
                let ghost clv = cl.deep_view();
                let ghost pre2 = out.deep_view();
                proof {
                    assert(cl.spans.deep_view() =~= Seq::<TextSpanView>::empty());
                    assert(clv == comment_line_of(cmts@[k as int]));
                }
                out.push(cl);
                proof {
                    let f = |c: PrComment| comment_line_of(c);
                    assert(out.deep_view() =~= pre2.push(clv));
                    assert(cmts@.take(k + 1int).filter(pred) =~= cmts@.take(k as int).filter(
                        pred,
                    ).push(cmts@[k as int]));
                    assert(cmts@.take(k + 1int).filter(pred).map_values(f) =~= cmts@.take(
                        k as int,
                    ).filter(pred).map_values(f).push(f(cmts@[k as int])));
                    assert(out.deep_view() =~= blockbase + cmts@.take(k + 1int).filter(
                        pred,
                    ).map_values(f));
                }
            } else {
                proof {
                    assert(cmts@.take(k + 1int).filter(pred) =~= cmts@.take(k as int).filter(
                        pred,
                    ));
                }
            }
            k = k + 1;
        }
        proof {
            let f = |c: PrComment| comment_line_of(c);
            assert(cmts@.take(cmts@.len() as int) =~= cmts@);
            assert(out.deep_view() =~= blockbase + comment_lines_for(lv[i as int], cmts@));
            assert(out.deep_view() =~= spec_assemble(lv.take(i as int), cmts@, sv, 0) + line_block(
                lv[i as int],
                cmts@,
                sv,
                si as int,
            ));
            lemma_assemble_push(lv.take(i as int), lv[i as int], cmts@, sv, 0);
            assert(lv.take(i as int).push(lv[i as int]) =~= lv.take(i + 1int));
            assert(out.deep_view() =~= spec_assemble(lv.take(i + 1int), cmts@, sv, 0));
            lemma_code_count_push(lv.take(i as int), lv[i as int]);
        }
        if is_code_line {
            si = si + 1;
        }
        i = i + 1;
    }
    proof {
        assert(lv.take(lines@.len() as int) =~= lv);
    }
    out
}

/// The per-line span lists, with each color parsed into channels.
pub open spec fn span_views_of(hl: Seq<Seq<HighlightedSpanView>>) -> Seq<Seq<TextSpanView>> {
    hl.map_values(
        |l: Seq<HighlightedSpanView>|
            l.map_values(
                |s: HighlightedSpanView| TextSpanView {
                    text: s.text,
                    color: spec_parse_hex_color(s.color),
                },
            ),
    )
}

/// Convert highlighted lines into span models, parsing each hex color.
#[verifier::loop_isolation(false)]
fn convert_spans(hl: &Vec<crate::highlight::HighlightedLine>) -> (r: Vec<Vec<TextSpanModel>>)
    ensures
        r.deep_view() == span_views_of(hl.deep_view()),
{
    let ghost target = span_views_of(hl.deep_view());
    let mut out: Vec<Vec<TextSpanModel>> = Vec::new();
    let mut i: usize = 0;
    proof {
        assert(out.deep_view() =~= target.take(0));
    }
    while i < hl.len()
        invariant
            0 <= i <= hl@.len(),
            target == span_views_of(hl.deep_view()),
            target.len() == hl@.len(),
            out.deep_view() =~= target.take(i as int),
        decreases hl@.len() - i,
    {
        let line = &hl[i];
        let mut spans: Vec<TextSpanModel> = Vec::new();
        let mut j: usize = 0;
        proof {
            assert(hl.deep_view()[i as int] == hl@[i as int].deep_view());
        }
        while j < line.spans.len()
            invariant
                0 <= j <= line.spans@.len(),
                line == &hl@[i as int],
                i < hl@.len(),
                spans.deep_view() =~= target[i as int].take(j as int),
                target == span_views_of(hl.deep_view()),
                target.len() == hl@.len(),
                target[i as int].len() == line.spans@.len(),
            decreases line.spans@.len() - j,
        {
            let sp = &line.spans[j];
            spans.push(
                TextSpanModel {
                    text: sp.text.clone(),
                    color: parse_hex_color(sp.color.as_str()),
                },
            );
            proof {
                assert(spans.deep_view() =~= target[i as int].take(j + 1int));
            }
            j = j + 1;
        }
        out.push(spans);
        proof {
            assert(target[i as int].take(line.spans@.len() as int) =~= target[i as int]);
            assert(out.deep_view() =~= target.take(i + 1int));
        }
        i = i + 1;
    }
    proof {
        assert(target.take(hl@.len() as int) =~= target);
    }
    out
}

/// The span lists the highlighter contributes for a hunk stream: the code
/// contents joined into one document, tokenized under the file's extension
/// and the given theme, each color parsed back into channels.
pub open spec fn spec_highlight_spans(
    hunks: Seq<DiffHunk>,
    path: Seq<char>,
    theme: Seq<char>,
) -> Seq<Seq<TextSpanView>> {
    span_views_of(
        colored_lines_of(
            highlight_of(
                spec_full_content(code_contents(spec_flatten_hunks(hunks))),
                spec_tail_after_last(path, '.'),
                theme,
            ),
        ),
    )
}

/// The interleaved display stream of one file: a separator before each
/// hunk, code lines in hunk order with spans zipped on, and each line's
/// comments (in grouped order) appended directly after it.
pub open spec fn spec_interleave(
    hunks: Seq<DiffHunk>,
    cmts: Seq<PrComment>,
    spans: Seq<Seq<TextSpanView>>,
) -> Seq<DisplayLineView> {
    spec_assemble(spec_flatten_hunks(hunks), cmts, spans, 0)
}

/// Merge a file's hunks, its grouped comments and optional highlighting
/// into one ordered display stream. A missing comment list degrades to no
/// comment lines, a missing highlighter to spanless lines.
pub fn interleave(
    hunks: &Vec<DiffHunk>,
    file_comments: Option<&Vec<PrComment>>,
    highlighter: Option<&SyntaxHighlighter>,
    file_path: &str,
) -> (r: Vec<DisplayLine>)
    ensures
        ({
            let cv = match file_comments {
                Option::Some(v) => v@,
                Option::None => Seq::<PrComment>::empty(),
            };
            let sv = match highlighter {
                Option::Some(h) => spec_highlight_spans(hunks@, file_path@, h.spec_theme()),
                Option::None => Seq::<Seq<TextSpanView>>::empty(),
            };
            r.deep_view() == spec_interleave(hunks@, cv, sv)
        }),
{
    let flat = flatten_hunks(hunks);
    let spans: Vec<Vec<TextSpanModel>> = match highlighter {
        Option::Some(h) => {
            let content = collect_content(&flat);
            let hl = h.highlight(content.as_str(), file_path);
            convert_spans(&hl)
        },
        Option::None => Vec::new(),
    };
    proof {
        if highlighter is None {
            assert(spans.deep_view() =~= Seq::<Seq<TextSpanView>>::empty());
        }
    }
    let empty: Vec<PrComment> = Vec::new();
    let cs: &Vec<PrComment> = match file_comments {
        Option::Some(v) => v,
        Option::None => &empty,
    };
    proof {
        if file_comments is None {
            assert(cs@ =~= Seq::<PrComment>::empty());
        }
    }
    assemble(&flat, cs, &spans)
}

/// The display stream for one file of a diff: its hunks (none, if the diff
/// did not touch the file) interleaved with its comment group, if any.
pub fn get_lines_for_file(
    data: &crate::diff::DiffData,
    path: &str,
    comments: Option<&Vec<crate::review::CommentGroup>>,
    highlighter: Option<&SyntaxHighlighter>,
) -> (r: Vec<DisplayLine>)
    ensures
        ({
            let hi = crate::diff::hunk_index_of(data.file_hunks@, path@);
            let hv = if hi >= 0 {
                data.file_hunks@[hi].hunks@
            } else {
                Seq::<DiffHunk>::empty()
            };
            let cv = match comments {
                Option::Some(g) => {
                    let gi = crate::review::group_index_of(g@, path@);
                    if gi >= 0 {
                        g@[gi].comments@
                    } else {
                        Seq::<PrComment>::empty()
                    }
                },
                Option::None => Seq::<PrComment>::empty(),
            };
            let sv = match highlighter {
                Option::Some(h) => spec_highlight_spans(hv, path@, h.spec_theme()),
                Option::None => Seq::<Seq<TextSpanView>>::empty(),
            };
            r.deep_view() == spec_interleave(hv, cv, sv)
        }),
{
    let empty_hunks: Vec<DiffHunk> = Vec::new();
    let hunks: &Vec<DiffHunk> = match data.hunks_for_file(path) {
        Option::Some(h) => h,
        Option::None => &empty_hunks,
    };
    let file_comments: Option<&Vec<PrComment>> = match comments {
        Option::Some(g) => crate::review::comments_of_file(g, path),
        Option::None => Option::None,
    };
    proof {
        if crate::diff::hunk_index_of(data.file_hunks@, path@) < 0 {
            assert(hunks@ =~= Seq::<DiffHunk>::empty());
        }
        match comments {
            Option::Some(g) => {
                if crate::review::group_index_of(g@, path@) < 0 {
                    assert(file_comments is None);
                }
            },
            Option::None => {},
        }
    }
    let r = interleave(hunks, file_comments, highlighter, path);
    proof {
        match file_comments {
            Option::Some(v) => {},
            Option::None => {
                assert(Seq::<PrComment>::empty() =~= Seq::<PrComment>::empty());
            },
        }
    }
    r
}

proof fn lemma_code_count_head(lines: Seq<DisplayLineView>)
    requires
        lines.len() > 0,
    ensures
        code_count(lines) == code_count(lines.drop_first()) + (if is_code(lines[0].line_type) {
            1int
        } else {
            0int
        }),
    decreases lines.len(),
{
    broadcast use Seq::lemma_filter_push;

    if lines.len() == 1 {
        assert(lines.drop_first() =~= Seq::<DisplayLineView>::empty());
        assert(code_count(lines.drop_first()) == 0) by {
            reveal(Seq::filter);
        }
        assert(lines =~= Seq::<DisplayLineView>::empty().push(lines[0]));
        lemma_code_count_push(Seq::<DisplayLineView>::empty(), lines[0]);
        assert(code_count(Seq::<DisplayLineView>::empty()) == 0) by {
            reveal(Seq::filter);
        }
    } else {
        let l = lines.last();
        let pre = lines.drop_last();
        lemma_code_count_head(pre);
        lemma_code_count_push(pre, l);
        assert(pre.push(l) =~= lines);
        assert(pre.drop_first().push(l) =~= lines.drop_first());
        lemma_code_count_push(pre.drop_first(), l);
    }
}

// ---------------------------------------------------------------------------
// Properties of the interleaved stream
// ---------------------------------------------------------------------------

/// The order-relevant core of a display line: everything but the spans.
pub ghost struct LineCore {
    pub line_type: DiffLineType,
    pub old_line_num: Option<u32>,
    pub new_line_num: Option<u32>,
    pub content: Seq<char>,
}

pub open spec fn core_of(l: DisplayLineView) -> LineCore {
    LineCore {
        line_type: l.line_type,
        old_line_num: l.old_line_num,
        new_line_num: l.new_line_num,
        content: l.content,
    }
}

/// The code lines of a stream, in order, spans forgotten.
pub open spec fn code_cores(s: Seq<DisplayLineView>) -> Seq<LineCore> {
    s.filter(|l: DisplayLineView| is_code(l.line_type)).map_values(
        |l: DisplayLineView| core_of(l),
    )
}

proof fn lemma_code_cores_push(s: Seq<DisplayLineView>, l: DisplayLineView)
    ensures
        is_code(l.line_type) ==> code_cores(s.push(l)) =~= code_cores(s).push(core_of(l)),
        !is_code(l.line_type) ==> code_cores(s.push(l)) =~= code_cores(s),
{
    broadcast use Seq::lemma_filter_push;

    let pred = |l: DisplayLineView| is_code(l.line_type);
    let f = |l: DisplayLineView| core_of(l);
    if pred(l) {
        assert(s.push(l).filter(pred) =~= s.filter(pred).push(l));
        assert(s.filter(pred).push(l).map_values(f) =~= s.filter(pred).map_values(f).push(f(l)));
    } else {
        assert(s.push(l).filter(pred) =~= s.filter(pred));
    }
}

proof fn lemma_code_cores_concat(a: Seq<DisplayLineView>, b: Seq<DisplayLineView>)
    ensures
        code_cores(a + b) =~= code_cores(a) + code_cores(b),
    decreases b.len(),
{
    if b.len() == 0 {
        assert(a + b =~= a);
        assert(code_cores(b) =~= Seq::<LineCore>::empty()) by {
            reveal(Seq::filter);
        }
    } else {
        let b0 = b.drop_last();
        lemma_code_cores_concat(a, b0);
        lemma_code_cores_push(a + b0, b.last());
        lemma_code_cores_push(b0, b.last());
        assert((a + b0).push(b.last()) =~= a + b);
        assert(b0.push(b.last()) =~= b);
    }
}

/// Every comment line a display line attracts comes from a comment of the
/// group that targets it and still carries a line number.
proof fn lemma_comment_lines_mem(l: DisplayLineView, cmts: Seq<PrComment>, i: int)
    requires
        0 <= i < comment_lines_for(l, cmts).len(),
    ensures
        exists|c: PrComment|
            cmts.contains(c) && comment_matches(c, l) && #[trigger] comment_line_of(c)
                == comment_lines_for(l, cmts)[i],
    decreases cmts.len(),
{
    reveal(Seq::filter);
    let pred = |c: PrComment| comment_matches(c, l);
    let matched = cmts.filter(pred);
    if cmts.len() > 0 {
        let pre = cmts.drop_last();
        if pred(cmts.last()) && i == matched.len() - 1 {
            assert(matched[i] == cmts.last());
            assert(cmts[cmts.len() - 1] == cmts.last());
            assert(cmts.contains(cmts.last()));
            assert(comment_line_of(cmts.last()) == comment_lines_for(l, cmts)[i]);
        } else {
            lemma_comment_lines_mem(l, pre, i);
            assert(pre.filter(pred)[i] == matched[i]);
            let c = choose|c: PrComment|
                pre.contains(c) && comment_matches(c, l) && #[trigger] comment_line_of(c)
                    == comment_lines_for(l, pre)[i];
            let w = choose|w: int| 0 <= w < pre.len() && pre[w] == c;
            assert(cmts[w] == c);
            assert(comment_line_of(c) == comment_lines_for(l, cmts)[i]);
        }
    }
}

/// All comment lines are comment lines: nothing the comments add carries
/// code, and it never disturbs the code lines around it.
proof fn lemma_comment_lines_are_comments(l: DisplayLineView, cmts: Seq<PrComment>)
    ensures
        forall|i: int|
            0 <= i < comment_lines_for(l, cmts).len() ==> (#[trigger] comment_lines_for(
                l,
                cmts,
            )[i]).line_type is Comment,
{
    assert forall|i: int| 0 <= i < comment_lines_for(l, cmts).len() implies (
    #[trigger] comment_lines_for(l, cmts)[i]).line_type is Comment by {
        lemma_comment_lines_mem(l, cmts, i);
    }
}

/// The assembled stream keeps exactly the code lines of its input, in the
/// same order, whatever comments and spans are supplied: attaching spans
/// changes no order-relevant field, and comment lines never carry code.
pub proof fn lemma_assemble_keeps_code(
    lines: Seq<DisplayLineView>,
    cmts: Seq<PrComment>,
    spans: Seq<Seq<TextSpanView>>,
    si: int,
)
    ensures
        code_cores(spec_assemble(lines, cmts, spans, si)) =~= code_cores(lines),
    decreases lines.len(),
{
    broadcast use Seq::lemma_filter_push;

    if lines.len() == 0 {
        assert(code_cores(Seq::<DisplayLineView>::empty()) =~= Seq::<LineCore>::empty()) by {
            reveal(Seq::filter);
        }
    } else {
        let l = lines[0];
        let step: int = if is_code(l.line_type) {
            1
        } else {
            0
        };
        lemma_assemble_keeps_code(lines.drop_first(), cmts, spans, si + step);
        let block = line_block(l, cmts, spans, si);
        let rest = spec_assemble(lines.drop_first(), cmts, spans, si + step);
        lemma_code_cores_concat(block, rest);
        // The block's code cores are the line's own core, or nothing.
        lemma_comment_lines_are_comments(l, cmts);
        let ls = with_spans(l, spans, si);
        assert(core_of(ls) == core_of(l));
        assert(ls.line_type == l.line_type);
        assert(block =~= seq![ls] + comment_lines_for(l, cmts));
        lemma_code_cores_concat(seq![ls], comment_lines_for(l, cmts));
        assert(code_cores(comment_lines_for(l, cmts)) =~= Seq::<LineCore>::empty()) by {
            let cl = comment_lines_for(l, cmts);
            lemma_code_cores_len_zero(cl);
        }
        assert(seq![ls] =~= Seq::<DisplayLineView>::empty().push(ls));
        lemma_code_cores_push(Seq::<DisplayLineView>::empty(), ls);
        assert(code_cores(Seq::<DisplayLineView>::empty()) =~= Seq::<LineCore>::empty()) by {
            reveal(Seq::filter);
        }
        // And the input's code cores split the same way.
        assert(lines =~= seq![l] + lines.drop_first());
        lemma_code_cores_concat(seq![l], lines.drop_first());
        assert(seq![l] =~= Seq::<DisplayLineView>::empty().push(l));
        lemma_code_cores_push(Seq::<DisplayLineView>::empty(), l);
    }
}

/// A stream of comment lines holds no code line.
proof fn lemma_code_cores_len_zero(s: Seq<DisplayLineView>)
    requires
        forall|i: int| 0 <= i < s.len() ==> (#[trigger] s[i]).line_type is Comment,
    ensures
        code_cores(s) =~= Seq::<LineCore>::empty(),
    decreases s.len(),
{
    reveal(Seq::filter);
    if s.len() > 0 {
        let pre = s.drop_last();
        assert forall|i: int| 0 <= i < pre.len() implies (#[trigger] pre[i]).line_type
            is Comment by {
            assert(pre[i] == s[i]);
        }
        lemma_code_cores_len_zero(pre);
        lemma_code_cores_push(pre, s.last());
        assert(pre.push(s.last()) =~= s);
    }
}

/// The interleaved stream of a non-empty hunk list begins with the first
/// hunk's separator, keeps the code lines of the hunks in their input
/// order, and inserting comments changes neither: the code lines' cores
/// are the flattened hunks' code lines, for every comment list and every
/// span list.
pub proof fn lemma_interleave_ordering(
    hunks: Seq<DiffHunk>,
    cmts: Seq<PrComment>,
    spans: Seq<Seq<TextSpanView>>,
)
    ensures
        hunks.len() > 0 ==> spec_interleave(hunks, cmts, spans).len() > 0,
        hunks.len() > 0 ==> spec_interleave(hunks, cmts, spans)[0].line_type is Hunk,
        code_cores(spec_interleave(hunks, cmts, spans)) =~= code_cores(spec_flatten_hunks(hunks)),
{
    let flat = spec_flatten_hunks(hunks);
    lemma_assemble_keeps_code(flat, cmts, spans, 0);
    if hunks.len() > 0 {
        assert(flat[0] == header_line_of(hunks[0]));
        assert(spec_assemble(flat, cmts, spans, 0)[0] == with_spans(flat[0], spans, 0));
        assert(with_spans(flat[0], spans, 0).line_type is Hunk);
    }
}

/// The position of the nearest earlier line that is not a comment: the
/// line a comment at position `k` stands under.
pub open spec fn last_non_comment(out: Seq<DisplayLineView>, k: int) -> int
    decreases k,
{
    if k <= 0 || k > out.len() {
        -1
    } else if !(out[k - 1].line_type is Comment) {
        k - 1
    } else {
        last_non_comment(out, k - 1)
    }
}

proof fn lemma_last_non_comment_at(out: Seq<DisplayLineView>, k: int, p: int)
    requires
        0 <= p < k <= out.len(),
        !(out[p].line_type is Comment),
        forall|q: int| p < q < k ==> (#[trigger] out[q]).line_type is Comment,
    ensures
        last_non_comment(out, k) == p,
    decreases k,
{
    if k - 1 > p {
        lemma_last_non_comment_at(out, k - 1, p);
    }
}

/// Comment matching: every comment line of the interleaved stream stands
/// directly under the line it targets — the nearest non-comment line above
/// it — and that line carries the comment's line number on the comment's
/// side: the new line number for the right side, the old one for the
/// left. A comment without a line number never appears.
pub proof fn lemma_comment_matching(
    lines: Seq<DisplayLineView>,
    cmts: Seq<PrComment>,
    spans: Seq<Seq<TextSpanView>>,
    si: int,
    k: int,
)
    requires
        forall|j: int| 0 <= j < lines.len() ==> !((#[trigger] lines[j]).line_type is Comment),
        0 <= k < spec_assemble(lines, cmts, spans, si).len(),
        spec_assemble(lines, cmts, spans, si)[k].line_type is Comment,
    ensures
        0 <= last_non_comment(spec_assemble(lines, cmts, spans, si), k) < k,
        exists|c: PrComment|
            {
                &&& cmts.contains(c)
                &&& c.line is Some
                &&& #[trigger] comment_matches(
                    c,
                    spec_assemble(lines, cmts, spans, si)[last_non_comment(
                        spec_assemble(lines, cmts, spans, si),
                        k,
                    )],
                )
                &&& spec_assemble(lines, cmts, spans, si)[k] == comment_line_of(c)
            },
    decreases lines.len(),
{
    let out = spec_assemble(lines, cmts, spans, si);
    let l = lines[0];
    let step: int = if is_code(l.line_type) {
        1
    } else {
        0
    };
    let block = line_block(l, cmts, spans, si);
    let rest = spec_assemble(lines.drop_first(), cmts, spans, si + step);
    lemma_comment_lines_are_comments(l, cmts);
    if k < block.len() {
        if k == 0 {
            assert(out[0] == with_spans(l, spans, si));
            assert(with_spans(l, spans, si).line_type == l.line_type);
            assert(false);
        } else {
            assert(out[k] == comment_lines_for(l, cmts)[k - 1]);
            lemma_comment_lines_mem(l, cmts, k - 1);
            let c = choose|c: PrComment|
                cmts.contains(c) && comment_matches(c, l) && #[trigger] comment_line_of(c)
                    == comment_lines_for(l, cmts)[k - 1];
            assert(c.line is Some);
            assert forall|q: int| 0 < q < k implies (#[trigger] out[q]).line_type is Comment by {
                assert(out[q] == comment_lines_for(l, cmts)[q - 1]);
            }
            assert(!(out[0].line_type is Comment));
            lemma_last_non_comment_at(out, k, 0);
            assert(comment_matches(c, out[0])) by {
                assert(out[0] == with_spans(l, spans, si));
            }
            assert(out[k] == comment_line_of(c));
        }
    } else {
        let t = lines.drop_first();
        assert forall|j: int| 0 <= j < t.len() implies !((#[trigger] t[j]).line_type
            is Comment) by {
            assert(t[j] == lines[j + 1]);
        }
        let b = block.len();
        assert(out[k] == rest[k - b]);
        lemma_comment_matching(t, cmts, spans, si + step, k - b);
        let pr = last_non_comment(rest, k - b);
        let c0 = choose|c: PrComment|
            {
                &&& cmts.contains(c)
                &&& c.line is Some
                &&& #[trigger] comment_matches(c, rest[last_non_comment(rest, k - b)])
                &&& rest[k - b] == comment_line_of(c)
            };
        assert(0 <= pr < k - b);
        assert(out[pr + b] == rest[pr]);
        lemma_last_non_comment_props(rest, k - b);
        assert(!(out[pr + b].line_type is Comment));
        assert forall|q: int| pr + b < q < k implies (#[trigger] out[q]).line_type is Comment by {
            assert(out[q] == rest[q - b]);
            lemma_last_non_comment_mid(rest, k - b, q - b);
        }
        lemma_last_non_comment_at(out, k, pr + b);
        assert(comment_matches(c0, out[pr + b]));
    }
}

/// The line a comment stands under is itself no comment.
proof fn lemma_last_non_comment_props(out: Seq<DisplayLineView>, k: int)
    requires
        0 <= k <= out.len(),
        last_non_comment(out, k) >= 0,
    ensures
        last_non_comment(out, k) < k,
        !(out[last_non_comment(out, k)].line_type is Comment),
    decreases k,
{
    if k > 0 && out[k - 1].line_type is Comment {
        lemma_last_non_comment_props(out, k - 1);
    }
}

/// Between a comment and the line it stands under, everything is a
/// comment.
proof fn lemma_last_non_comment_mid(out: Seq<DisplayLineView>, k: int, q: int)
    requires
        0 <= k <= out.len(),
        last_non_comment(out, k) < q < k,
    ensures
        out[q].line_type is Comment,
    decreases k,
{
    if q < k - 1 {
        lemma_last_non_comment_mid(out, k - 1, q);
    }
}

/// No line the diff engine reports is itself a comment line; comment
/// lines exist only as the interleaver's own insertions.
pub open spec fn hunks_wf(hunks: Seq<DiffHunk>) -> bool {
    forall|i: int, j: int|
        0 <= i < hunks.len() && 0 <= j < hunks[i].lines@.len() ==> !((#[trigger] hunks[i].lines@[
        j]).line_type is Comment)
}

proof fn lemma_flatten_hunks_no_comments(hunks: Seq<DiffHunk>)
    requires
        hunks_wf(hunks),
    ensures
        forall|j: int|
            0 <= j < spec_flatten_hunks(hunks).len() ==> !((#[trigger] spec_flatten_hunks(
                hunks,
            )[j]).line_type is Comment),
    decreases hunks.len(),
{
    if hunks.len() > 0 {
        let t = hunks.drop_first();
        assert(hunks_wf(t)) by {
            assert forall|i: int, j: int|
                0 <= i < t.len() && 0 <= j < t[i].lines@.len() implies !((#[trigger] t[i].lines@[
                j]).line_type is Comment) by {
                assert(t[i] == hunks[i + 1]);
            }
        }
        lemma_flatten_hunks_no_comments(t);
        let block = hunk_block_of(hunks[0]);
        assert forall|j: int| 0 <= j < spec_flatten_hunks(hunks).len() implies !((
        #[trigger] spec_flatten_hunks(hunks)[j]).line_type is Comment) by {
            if j < block.len() {
                assert(spec_flatten_hunks(hunks)[j] == block[j]);
                if j > 0 {
                    assert(block[j] == hunks[0].lines@.map_values(
                        |l: DiffLine| code_line_view(l),
                    )[j - 1]);
                    assert(block[j] == code_line_view(hunks[0].lines@[j - 1]));
                }
            } else {
                assert(spec_flatten_hunks(hunks)[j] == spec_flatten_hunks(t)[j - block.len()]);
            }
        }
    }
}

/// Comment matching at the interleaver itself: in the stream of a
/// well-formed hunk list, every comment line stands directly under the
/// line it targets, on the side and line number it names, and a comment
/// without a line number never appears.
pub proof fn lemma_interleave_comment_matching(
    hunks: Seq<DiffHunk>,
    cmts: Seq<PrComment>,
    spans: Seq<Seq<TextSpanView>>,
    k: int,
)
    requires
        hunks_wf(hunks),
        0 <= k < spec_interleave(hunks, cmts, spans).len(),
        spec_interleave(hunks, cmts, spans)[k].line_type is Comment,
    ensures
        0 <= last_non_comment(spec_interleave(hunks, cmts, spans), k) < k,
        exists|c: PrComment|
            {
                &&& cmts.contains(c)
                &&& c.line is Some
                &&& #[trigger] comment_matches(
                    c,
                    spec_interleave(hunks, cmts, spans)[last_non_comment(
                        spec_interleave(hunks, cmts, spans),
                        k,
                    )],
                )
                &&& spec_interleave(hunks, cmts, spans)[k] == comment_line_of(c)
            },
{
    lemma_flatten_hunks_no_comments(hunks);
    lemma_comment_matching(spec_flatten_hunks(hunks), cmts, spans, 0, k);
}

/// Running the interleaver twice on identical inputs gives identical
/// output: the executable interleaver's result is pinned to
/// `spec_interleave`, itself a function of the hunks, the comments, and
/// the highlighter's spans — which the highlighter derives from the code,
/// the extension and the theme alone.
pub proof fn lemma_interleave_repeatable(
    r1: Seq<DisplayLineView>,
    r2: Seq<DisplayLineView>,
    hunks: Seq<DiffHunk>,
    cmts: Seq<PrComment>,
    spans: Seq<Seq<TextSpanView>>,
)
    requires
        r1 == spec_interleave(hunks, cmts, spans),
        r2 == spec_interleave(hunks, cmts, spans),
    ensures
        r1 == r2,
{
}

} // verus!
