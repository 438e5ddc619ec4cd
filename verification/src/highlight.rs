//! Syntax highlighting of diff content, over the syntect library. The
//! tokenizer itself is outside this library's reach; everything around it —
//! extension selection, color formatting — is verified against the named
//! result of the highlighting call.

use vstd::prelude::*;
use crate::text::{first_index_of, lemma_first_index_of, spec_tail_after_last, tail_after_last};

verus! {

#[verifier::external_type_specification]
#[verifier::external_body]
pub struct ExSyntaxSet(syntect::parsing::SyntaxSet);

#[verifier::external_type_specification]
#[verifier::external_body]
pub struct ExThemeSet(syntect::highlighting::ThemeSet);

/// One tokenized span as the tokenizer reports it: its text and the
/// foreground color's three channels.
pub struct RawSpan {
    pub text: String,
    pub red: u8,
    pub green: u8,
    pub blue: u8,
}

/// One tokenized line: its spans in order.
pub struct RawLine {
    pub spans: Vec<RawSpan>,
}

/// Ghost form of a raw span.
pub ghost struct RawSpanView {
    pub text: Seq<char>,
    pub red: u8,
    pub green: u8,
    pub blue: u8,
}

impl DeepView for RawSpan {
    type V = RawSpanView;

    open spec fn deep_view(&self) -> RawSpanView {
        RawSpanView {
            text: self.text@,
            red: self.red,
            green: self.green,
            blue: self.blue,
        }
    }
}

impl DeepView for RawLine {
    type V = Seq<RawSpanView>;

    open spec fn deep_view(&self) -> Seq<RawSpanView> {
        self.spans.deep_view()
    }
}

/// How many lines a piece of text has, counting a line for each line feed
/// and one for a trailing remainder — the lines a line-by-line tokenizer
/// walks.
pub open spec fn spec_line_count(s: Seq<char>) -> nat
    decreases s.len(),
    via spec_line_count_decreases
{
    if s.len() == 0 {
        0
    } else {
        let i = first_index_of(s, '\n');
        if i < 0 {
            1
        } else {
            1 + spec_line_count(s.skip(i + 1))
        }
    }
}

#[via_fn]
proof fn spec_line_count_decreases(s: Seq<char>) {
    lemma_first_index_of(s, '\n');
}

/// What the tokenizer returns for a piece of code, an extension hint and a
/// theme name, over the bundled default syntaxes and themes: one entry per
/// input line, each a list of colored spans. The result depends on these
/// three inputs alone.
pub uninterp spec fn highlight_of(code: Seq<char>, extension: Seq<char>, theme: Seq<char>) -> Seq<
    Seq<RawSpanView>,
>;

/// A highlighted line: the spans of one line of input.
#[derive(Debug, Clone)]
pub struct HighlightedLine {
    pub spans: Vec<HighlightedSpan>,
}

/// A span of text with its color as a `#rrggbb` string.
#[derive(Debug, Clone)]
pub struct HighlightedSpan {
    pub text: String,
    pub color: String,
}

/// Ghost form of a highlighted span.
pub ghost struct HighlightedSpanView {
    pub text: Seq<char>,
    pub color: Seq<char>,
}

impl DeepView for HighlightedSpan {
    type V = HighlightedSpanView;

    open spec fn deep_view(&self) -> HighlightedSpanView {
        HighlightedSpanView { text: self.text@, color: self.color@ }
    }
}

impl DeepView for HighlightedLine {
    type V = Seq<HighlightedSpanView>;

    open spec fn deep_view(&self) -> Seq<HighlightedSpanView> {
        self.spans.deep_view()
    }
}

// ---------------------------------------------------------------------------
// Hex color formatting
// ---------------------------------------------------------------------------

/// The lowercase hex digit for a value below sixteen.
pub open spec fn hex_char_of(n: int) -> char {
    if n == 0 {
        '0'
    } else if n == 1 {
        '1'
    } else if n == 2 {
        '2'
    } else if n == 3 {
        '3'
    } else if n == 4 {
        '4'
    } else if n == 5 {
        '5'
    } else if n == 6 {
        '6'
    } else if n == 7 {
        '7'
    } else if n == 8 {
        '8'
    } else if n == 9 {
        '9'
    } else if n == 10 {
        'a'
    } else if n == 11 {
        'b'
    } else if n == 12 {
        'c'
    } else if n == 13 {
        'd'
    } else if n == 14 {
        'e'
    } else {
        'f'
    }
}

/// A byte as two lowercase hex digits.
pub open spec fn hex_byte_of(b: u8) -> Seq<char> {
    seq![hex_char_of(b as int / 16), hex_char_of(b as int % 16)]
}

/// A color as `#rrggbb`.
pub open spec fn hex_color_of(r: u8, g: u8, b: u8) -> Seq<char> {
    seq!['#'] + hex_byte_of(r) + hex_byte_of(g) + hex_byte_of(b)
}

fn hex_digit_str(n: u8) -> (r: &'static str)
    requires
        n < 16,
    ensures
        r@ == seq![hex_char_of(n as int)],
{
    proof {
        reveal_strlit("0");
        reveal_strlit("1");
        reveal_strlit("2");
        reveal_strlit("3");
        reveal_strlit("4");
        reveal_strlit("5");
        reveal_strlit("6");
        reveal_strlit("7");
        reveal_strlit("8");
        reveal_strlit("9");
        reveal_strlit("a");
        reveal_strlit("b");
        reveal_strlit("c");
        reveal_strlit("d");
        reveal_strlit("e");
        reveal_strlit("f");
    }
    let r = if n == 0 {
        "0"
    } else if n == 1 {
        "1"
    } else if n == 2 {
        "2"
    } else if n == 3 {
        "3"
    } else if n == 4 {
        "4"
    } else if n == 5 {
        "5"
    } else if n == 6 {
        "6"
    } else if n == 7 {
        "7"
    } else if n == 8 {
        "8"
    } else if n == 9 {
        "9"
    } else if n == 10 {
        "a"
    } else if n == 11 {
        "b"
    } else if n == 12 {
        "c"
    } else if n == 13 {
        "d"
    } else if n == 14 {
        "e"
    } else {
        "f"
    };
    proof {
        assert(r@ =~= seq![hex_char_of(n as int)]);
    }
    r
}

/// Format a color as a `#rrggbb` string.
pub fn hex_color_string(r: u8, g: u8, b: u8) -> (s: String)
    ensures
        s@ == hex_color_of(r, g, b),
{
    proof {
        reveal_strlit("#");
    }
    let mut out = String::new();
    out.append("#");
    out.append(hex_digit_str(r / 16));
    out.append(hex_digit_str(r % 16));
    out.append(hex_digit_str(g / 16));
    out.append(hex_digit_str(g % 16));
    out.append(hex_digit_str(b / 16));
    out.append(hex_digit_str(b % 16));
    proof {
        assert(out@ =~= hex_color_of(r, g, b));
    }
    out
}

// ---------------------------------------------------------------------------
// The highlighter
// ---------------------------------------------------------------------------

/// A syntax highlighter over the bundled default syntax and theme sets.
pub struct SyntaxHighlighter {
    syntaxes: syntect::parsing::SyntaxSet,
    themes: syntect::highlighting::ThemeSet,
    theme_name: String,
}

/// Relies on `SyntaxSet::load_defaults_newlines`: the bundled default
/// syntax definitions.
#[verifier::external_body]
fn load_default_syntaxes() -> syntect::parsing::SyntaxSet {
    syntect::parsing::SyntaxSet::load_defaults_newlines()
}

/// Relies on `ThemeSet::load_defaults`: the bundled default themes.
#[verifier::external_body]
fn load_default_themes() -> syntect::highlighting::ThemeSet {
    syntect::highlighting::ThemeSet::load_defaults()
}

impl SyntaxHighlighter {
    /// The name of the theme used for highlighting.
    pub closed spec fn spec_theme(&self) -> Seq<char> {
        self.theme_name@
    }

    /// A highlighter over the default syntaxes and themes, with the default
    /// dark theme selected.
    pub fn new() -> (r: Self)
        ensures
            r.spec_theme() == "base16-ocean.dark"@,
    {
        SyntaxHighlighter {
            syntaxes: load_default_syntaxes(),
            themes: load_default_themes(),
            theme_name: String::from_str("base16-ocean.dark"),
        }
    }

    /// Select the theme the next highlighting calls use.
    pub fn set_theme(&mut self, name: &str)
        ensures
            final(self).spec_theme() == name@,
    {
        self.theme_name = name.to_owned();
    }

    /// Relies on `HighlightLines::highlight_line` over the default syntax
    /// and theme sets, driven line by line over the input (one output entry
    /// per `LinesWithEndings` line): the tokenized spans of each input
    /// line, with their foreground colors. An unknown extension falls back
    /// to plain text, an unknown theme name to the first bundled theme, and
    /// a line the tokenizer rejects to a spanless line. Every constructor
    /// loads the same bundled sets and the fields are private, so the
    /// result depends on the three arguments alone.
    #[verifier::external_body]
    fn highlight_raw(&self, code: &str, extension: &str, theme: &str) -> (r: Vec<RawLine>)
        ensures
            r.deep_view() == highlight_of(code@, extension@, theme@),
            r@.len() == spec_line_count(code@),
    {
        let syntax = self.syntaxes.find_syntax_by_extension(extension)
            .unwrap_or_else(|| self.syntaxes.find_syntax_plain_text());
        let ts = &self.themes.themes;
        let th = ts.get(theme).unwrap_or_else(|| ts.values().next().expect("bundled themes"));
        let mut hl = syntect::easy::HighlightLines::new(syntax, th);
        let mut out: Vec<RawLine> = Vec::new();
        for line in syntect::util::LinesWithEndings::from(code) {
            let ranges = hl.highlight_line(line, &self.syntaxes).unwrap_or_default();
            out.push(RawLine { spans: ranges.into_iter().map(|(st, tx)| RawSpan {
                text: tx.to_string(), red: st.foreground.r, green: st.foreground.g, blue: st.foreground.b,
            }).collect() });
        }
        out
    }

    /// Highlight a piece of code, keyed by the extension of `file_path`
    /// (the part after the last dot, or the whole path without one), and
    /// return one entry per input line, each line's spans with `#rrggbb`
    /// colors.
    #[verifier::loop_isolation(false)]
    pub fn highlight(&self, code: &str, file_path: &str) -> (r: Vec<HighlightedLine>)
        ensures
            r.deep_view() == colored_lines_of(
                highlight_of(code@, spec_tail_after_last(file_path@, '.'), self.spec_theme()),
            ),
            r@.len() == spec_line_count(code@),
    {
        let extension = tail_after_last(file_path, '.');
        let raw = self.highlight_raw(code, extension, self.theme_name.as_str());
        let ghost target = colored_lines_of(raw.deep_view());
        let mut out: Vec<HighlightedLine> = Vec::new();
        let mut i: usize = 0;
        while i < raw.len()
            invariant
                0 <= i <= raw@.len(),
                out.deep_view() =~= target.take(i as int),
            decreases raw@.len() - i,
        {
            let rl = &raw[i];
            let mut spans: Vec<HighlightedSpan> = Vec::new();
            let mut j: usize = 0;
            while j < rl.spans.len()
                invariant
                    0 <= j <= rl.spans@.len(),
                    rl == &raw@[i as int],
                    i < raw@.len(),
                    spans.deep_view() =~= colored_spans_of(rl.deep_view()).take(j as int),
                decreases rl.spans@.len() - j,
            {
                let sp = &rl.spans[j];
                spans.push(
                    HighlightedSpan {
                        text: sp.text.clone(),
                        color: hex_color_string(sp.red, sp.green, sp.blue),
                    },
                );
                proof {
                    assert(spans.deep_view() =~= colored_spans_of(rl.deep_view()).take(j + 1int));
                }
                j = j + 1;
            }
            out.push(HighlightedLine { spans });
            proof {
                assert(spans.deep_view() =~= colored_spans_of(raw.deep_view()[i as int]));
                assert(out.deep_view() =~= target.take(i + 1int));
            }
            i = i + 1;
        }
        proof {
            assert(target.take(raw@.len() as int) =~= target);
        }
        out
    }
}

/// The spans of one raw line with their colors formatted as `#rrggbb`.
pub open spec fn colored_spans_of(raw: Seq<RawSpanView>) -> Seq<HighlightedSpanView> {
    raw.map_values(
        |s: RawSpanView| HighlightedSpanView {
            text: s.text,
            color: hex_color_of(s.red, s.green, s.blue),
        },
    )
}

/// All raw lines with their colors formatted as `#rrggbb`.
pub open spec fn colored_lines_of(raw: Seq<Seq<RawSpanView>>) -> Seq<Seq<HighlightedSpanView>> {
    raw.map_values(|l: Seq<RawSpanView>| colored_spans_of(l))
}

} // verus!
