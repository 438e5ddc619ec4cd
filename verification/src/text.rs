//! Character-level helpers: decimal parsing, lexicographic ordering,
//! path splitting, and case folding for display-order comparisons.

use vstd::prelude::*;

verus! {

// ---------------------------------------------------------------------------
// Decimal digits
// ---------------------------------------------------------------------------

pub open spec fn is_digit_char(c: char) -> bool {
    '0' as u32 <= c as u32 && c as u32 <= '9' as u32
}

pub open spec fn digit_val(c: char) -> int {
    c as u32 - '0' as u32
}

pub open spec fn all_digits(s: Seq<char>) -> bool {
    forall|i: int| 0 <= i < s.len() ==> is_digit_char(#[trigger] s[i])
}

/// Numeric value of a digit string, most significant digit first.
pub open spec fn digits_value(s: Seq<char>) -> int
    decreases s.len(),
{
    if s.len() == 0 {
        0
    } else {
        digits_value(s.drop_last()) * 10 + digit_val(s.last())
    }
}

pub proof fn lemma_digits_value_nonneg(s: Seq<char>)
    requires
        all_digits(s),
    ensures
        digits_value(s) >= 0,
    decreases s.len(),
{
    if s.len() > 0 {
        lemma_digits_value_nonneg(s.drop_last());
    }
}

/// Extending a digit string on the right never decreases its value.
pub proof fn lemma_digits_value_prefix(s: Seq<char>, i: int)
    requires
        all_digits(s),
        0 <= i <= s.len(),
    ensures
        digits_value(s.take(i)) <= digits_value(s),
    decreases s.len() - i,
{
    if i < s.len() {
        lemma_digits_value_prefix(s, i + 1);
        let t = s.take(i + 1);
        assert(t.drop_last() =~= s.take(i));
        assert(all_digits(s.take(i)));
        lemma_digits_value_nonneg(s.take(i));
        assert(digits_value(t) == digits_value(s.take(i)) * 10 + digit_val(t.last()));
    } else {
        assert(s.take(i) =~= s);
    }
}

/// The digits (after an optional leading `+`) read as a decimal number, if
/// the string is well-formed and the value fits in a `u32`.
pub open spec fn spec_parse_u32(s: Seq<char>) -> Option<u32> {
    let digits = if s.len() > 0 && s[0] == '+' {
        s.drop_first()
    } else {
        s
    };
    if digits.len() > 0 && all_digits(digits) && digits_value(digits) <= u32::MAX {
        Some(digits_value(digits) as u32)
    } else {
        None
    }
}

/// Decimal parse matching `u32::from_str`: an optional leading `+`, then one
/// or more digits, rejecting overflow.
#[verifier::loop_isolation(false)]
pub fn parse_u32(s: &str) -> (r: Option<u32>)
    ensures
        r == spec_parse_u32(s@),
{
    let n = s.unicode_len();
    let start: usize = if n > 0 && s.get_char(0) == '+' {
        1
    } else {
        0
    };
    let ghost digits = if s@.len() > 0 && s@[0] == '+' {
        s@.drop_first()
    } else {
        s@
    };
    assert(digits =~= s@.skip(start as int));
    if n == start {
        return None;
    }
    let mut acc: u64 = 0;
    let mut i: usize = start;
    while i < n
        invariant
            start <= i <= n,
            n == s@.len(),
            digits =~= s@.skip(start as int),
            all_digits(s@.subrange(start as int, i as int)),
            acc == digits_value(s@.subrange(start as int, i as int)),
            acc <= u32::MAX,
        decreases n - i,
    {
        let c = s.get_char(i);
        if !(c >= '0' && c <= '9') {
            assert(!all_digits(digits)) by {
                assert(digits[i - start] == s@[i as int]);
                assert(!is_digit_char(digits[i - start]));
            }
            return None;
        }
        let d: u32 = c as u32 - 48;
        let next: u64 = acc * 10 + d as u64;
        assert(s@.subrange(start as int, i + 1int).drop_last() =~= s@.subrange(
            start as int,
            i as int,
        ));
        proof {
            let p = s@.subrange(start as int, i + 1int);
            assert(p.last() == s@[i as int]);
            assert(digit_val(p.last()) == d);
            assert(all_digits(p));
            assert(digits_value(p) == acc * 10 + d);
        }
        if next > u32::MAX as u64 {
            proof {
                let p = s@.subrange(start as int, i + 1int);
                if all_digits(digits) {
                    assert(p =~= digits.take(i + 1 - start));
                    lemma_digits_value_prefix(digits, i + 1 - start);
                }
            }
            return None;
        }
        acc = next;
        i = i + 1;
    }
    assert(s@.subrange(start as int, n as int) =~= digits);
    Some(acc as u32)
}

// ---------------------------------------------------------------------------
// Lexicographic order on character sequences
// ---------------------------------------------------------------------------

/// Strict lexicographic order by character code.
pub open spec fn lex_lt(a: Seq<char>, b: Seq<char>) -> bool
    decreases a.len(),
{
    if b.len() == 0 {
        false
    } else if a.len() == 0 {
        true
    } else if (a[0] as u32) < (b[0] as u32) {
        true
    } else if a[0] == b[0] {
        lex_lt(a.drop_first(), b.drop_first())
    } else {
        false
    }
}

/// Sequences that sit in neither direction of the order are equal.
pub proof fn lemma_lex_connected(a: Seq<char>, b: Seq<char>)
    requires
        !lex_lt(a, b),
        !lex_lt(b, a),
    ensures
        a =~= b,
    decreases a.len(),
{
    if a.len() == 0 {
        assert(b.len() == 0) by {
            if b.len() != 0 {
                assert(lex_lt(a, b));
            }
        }
        assert(a =~= b);
    } else if b.len() == 0 {
        assert(lex_lt(b, a));
    } else if a[0] == b[0] {
        lemma_lex_connected(a.drop_first(), b.drop_first());
        assert(a =~= seq![a[0]] + a.drop_first());
        assert(b =~= seq![b[0]] + b.drop_first());
        assert(a =~= b);
    } else {
        lemma_char_code_injective(a[0], b[0]);
        assert(lex_lt(a, b) || lex_lt(b, a));
    }
}

/// Distinct characters have distinct character codes.
pub proof fn lemma_char_code_injective(x: char, y: char)
    ensures
        x as u32 == y as u32 ==> x == y,
{
}

pub proof fn lemma_lex_irreflexive(a: Seq<char>)
    ensures
        !lex_lt(a, a),
    decreases a.len(),
{
    if a.len() > 0 {
        lemma_lex_irreflexive(a.drop_first());
    }
}

pub proof fn lemma_lex_transitive(a: Seq<char>, b: Seq<char>, c: Seq<char>)
    requires
        lex_lt(a, b),
        lex_lt(b, c),
    ensures
        lex_lt(a, c),
    decreases a.len(),
{
    if b.len() != 0 && c.len() != 0 && a.len() != 0 {
        if a[0] == b[0] && b[0] == c[0] {
            lemma_lex_transitive(a.drop_first(), b.drop_first(), c.drop_first());
        }
    }
}

/// If two sequences agree on their first `i` characters, the order is decided
/// by the remainders.
pub proof fn lemma_lex_skip(a: Seq<char>, b: Seq<char>, i: int)
    requires
        0 <= i <= a.len(),
        i <= b.len(),
        forall|j: int| 0 <= j < i ==> a[j] == b[j],
    ensures
        lex_lt(a, b) == lex_lt(a.skip(i), b.skip(i)),
    decreases i,
{
    if i > 0 {
        assert(a.len() > 0 && b.len() > 0);
        assert(a[0] == b[0]);
        lemma_lex_skip(a.drop_first(), b.drop_first(), i - 1);
        assert(a.drop_first().skip(i - 1) =~= a.skip(i));
        assert(b.drop_first().skip(i - 1) =~= b.skip(i));
    } else {
        assert(a.skip(0) =~= a);
        assert(b.skip(0) =~= b);
    }
}

/// Lexicographic comparison of two strings, character by character.
#[verifier::loop_isolation(false)]
pub fn str_lt(a: &str, b: &str) -> (r: bool)
    ensures
        r == lex_lt(a@, b@),
{
    let na = a.unicode_len();
    let nb = b.unicode_len();
    let mut i: usize = 0;
    loop
        invariant
            0 <= i <= na,
            i <= nb,
            na == a@.len(),
            nb == b@.len(),
            forall|j: int| 0 <= j < i ==> a@[j] == b@[j],
        decreases na - i,
    {
        proof {
            lemma_lex_skip(a@, b@, i as int);
        }
        if i >= na || i >= nb {
            proof {
                if i >= na {
                    assert(a@.skip(i as int).len() == 0);
                } else {
                    assert(b@.skip(i as int).len() == 0);
                }
            }
            return na < nb && i >= na;
        }
        let ca = a.get_char(i);
        let cb = b.get_char(i);
        if ca as u32 != cb as u32 {
            proof {
                assert(a@.skip(i as int)[0] == a@[i as int]);
                assert(b@.skip(i as int)[0] == b@[i as int]);
            }
            return (ca as u32) < (cb as u32);
        }
        proof {
            assert(a@[i as int] == b@[i as int]);
        }
        i = i + 1;
    }
}

/// Character-for-character string equality.
#[verifier::loop_isolation(false)]
pub fn str_eq(a: &str, b: &str) -> (r: bool)
    ensures
        r == (a@ == b@),
{
    let na = a.unicode_len();
    let nb = b.unicode_len();
    if na != nb {
        return false;
    }
    let mut i: usize = 0;
    while i < na
        invariant
            0 <= i <= na,
            na == a@.len(),
            na == b@.len(),
            forall|j: int| 0 <= j < i ==> a@[j] == b@[j],
        decreases na - i,
    {
        if a.get_char(i) != b.get_char(i) {
            return false;
        }
        i = i + 1;
    }
    proof {
        assert(a@ =~= b@);
    }
    true
}

// ---------------------------------------------------------------------------
// Splitting on a separator character
// ---------------------------------------------------------------------------

/// Index of the first occurrence of `sep`, or -1 if absent.
pub open spec fn first_index_of(s: Seq<char>, sep: char) -> int
    decreases s.len(),
{
    if s.len() == 0 {
        -1
    } else if s[0] == sep {
        0
    } else {
        let r = first_index_of(s.drop_first(), sep);
        if r < 0 {
            -1
        } else {
            r + 1
        }
    }
}

pub proof fn lemma_first_index_of(s: Seq<char>, sep: char)
    ensures
        first_index_of(s, sep) >= 0 ==> {
            let i = first_index_of(s, sep);
            &&& i < s.len()
            &&& s[i] == sep
            &&& forall|j: int| 0 <= j < i ==> s[j] != sep
        },
        first_index_of(s, sep) < 0 ==> forall|j: int| 0 <= j < s.len() ==> s[j] != sep,
    decreases s.len(),
{
    if s.len() > 0 && s[0] != sep {
        let t = s.drop_first();
        lemma_first_index_of(t, sep);
        let r = first_index_of(t, sep);
        if r >= 0 {
            assert forall|j: int| 0 <= j < r + 1 implies s[j] != sep by {
                if j > 0 {
                    assert(t[j - 1] == s[j]);
                }
            }
        } else {
            assert forall|j: int| 0 <= j < s.len() implies s[j] != sep by {
                if j > 0 {
                    assert(t[j - 1] == s[j]);
                }
            }
        }
    }
}

/// Characterize `first_index_of` from an explicit witness.
pub proof fn lemma_first_index_at(s: Seq<char>, sep: char, k: int)
    requires
        0 <= k <= s.len(),
        forall|j: int| 0 <= j < k ==> s[j] != sep,
        k < s.len() ==> s[k] == sep,
    ensures
        k < s.len() ==> first_index_of(s, sep) == k,
        k == s.len() ==> first_index_of(s, sep) < 0,
    decreases s.len(),
{
    if s.len() > 0 && s[0] != sep {
        let t = s.drop_first();
        assert forall|j: int| 0 <= j < k - 1 implies t[j] != sep by {
            assert(t[j] == s[j + 1]);
        }
        assert(k - 1 < t.len() ==> t[k - 1] == s[k]);
        lemma_first_index_at(t, sep, k - 1);
    }
}

/// Split at every occurrence of `sep`; the result always has at least one
/// element, and an empty input yields one empty segment.
pub open spec fn spec_split(s: Seq<char>, sep: char) -> Seq<Seq<char>>
    decreases s.len(),
    via spec_split_decreases
{
    let i = first_index_of(s, sep);
    if i < 0 {
        seq![s]
    } else {
        seq![s.take(i)] + spec_split(s.skip(i + 1), sep)
    }
}

#[via_fn]
proof fn spec_split_decreases(s: Seq<char>, sep: char) {
    lemma_first_index_of(s, sep);
}

pub proof fn lemma_spec_split_len(s: Seq<char>, sep: char)
    ensures
        spec_split(s, sep).len() >= 1,
        forall|k: int|
            0 <= k < spec_split(s, sep).len() ==> (#[trigger] spec_split(s, sep)[k]).len()
                <= s.len(),
    decreases s.len(),
{
    lemma_first_index_of(s, sep);
    let i = first_index_of(s, sep);
    if i >= 0 {
        lemma_spec_split_len(s.skip(i + 1), sep);
    }
}

/// Split a string on a separator, as segments owned by the caller.
#[verifier::loop_isolation(false)]
pub fn split_str(s: &str, sep: char) -> (r: Vec<String>)
    ensures
        r.deep_view() == spec_split(s@, sep),
{
    let n = s.unicode_len();
    let mut out: Vec<String> = Vec::new();
    let mut start: usize = 0;
    let mut i: usize = 0;
    proof {
        assert(s@.skip(0) =~= s@);
        assert(out.deep_view() =~= Seq::<Seq<char>>::empty());
        assert(out.deep_view() + spec_split(s@, sep) =~= spec_split(s@, sep));
    }
    while i < n
        invariant
            0 <= start <= i <= n,
            n == s@.len(),
            forall|j: int| start <= j < i ==> s@[j] != sep,
            out.deep_view() + spec_split(s@.skip(start as int), sep) =~= spec_split(s@, sep),
        decreases n - i,
    {
        if s.get_char(i) == sep {
            let seg = s.substring_char(start, i);
            proof {
                let tail = s@.skip(start as int);
                assert(forall|j: int| 0 <= j < i - start ==> tail[j] != sep);
                assert(tail[i - start] == sep);
                lemma_first_index_at(tail, sep, i - start);
                assert(tail.take(i - start) =~= s@.subrange(start as int, i as int));
                assert(tail.skip(i - start + 1) =~= s@.skip(i + 1int));
                assert(out.deep_view().push(seg@) =~= out.deep_view() + seq![seg@]);
            }
            out.push(seg.to_owned());
            start = i + 1;
        }
        i = i + 1;
    }
    let seg = s.substring_char(start, n);
    proof {
        let tail = s@.skip(start as int);
        assert(forall|j: int| 0 <= j < tail.len() ==> tail[j] != sep);
        lemma_first_index_at(tail, sep, tail.len() as int);
        assert(tail.take(tail.len() as int) =~= tail);
        assert(tail =~= s@.subrange(start as int, n as int));
        assert(out.deep_view().push(seg@) =~= out.deep_view() + seq![seg@]);
    }
    out.push(seg.to_owned());
    out
}

/// ASCII whitespace, as `char::is_ascii_whitespace` classifies it.
pub open spec fn is_ascii_space(c: char) -> bool {
    c == ' ' || c == '\t' || c == '\n' || c == '\r' || c == '\u{000C}'
}

/// The string with trailing ASCII whitespace removed.
pub open spec fn trim_end_view(s: Seq<char>) -> Seq<char>
    decreases s.len(),
{
    if s.len() > 0 && is_ascii_space(s.last()) {
        trim_end_view(s.drop_last())
    } else {
        s
    }
}

/// Remove trailing ASCII whitespace.
#[verifier::loop_isolation(false)]
pub fn trim_end_ascii<'a>(s: &'a str) -> (r: &'a str)
    ensures
        r@ == trim_end_view(s@),
{
    let n = s.unicode_len();
    let mut e: usize = n;
    proof {
        assert(s@.take(n as int) =~= s@);
    }
    loop
        invariant
            0 <= e <= n,
            n == s@.len(),
            trim_end_view(s@) == trim_end_view(s@.take(e as int)),
        decreases e,
    {
        if e == 0 {
            break ;
        }
        let c = s.get_char(e - 1);
        if !(c == ' ' || c == '\t' || c == '\n' || c == '\r' || c == '\u{000C}') {
            proof {
                let t = s@.take(e as int);
                assert(t.last() == s@[e - 1]);
                assert(!is_ascii_space(t.last()));
            }
            break ;
        }
        proof {
            let t = s@.take(e as int);
            assert(t.last() == s@[e - 1]);
            assert(is_ascii_space(t.last()));
            assert(t.drop_last() =~= s@.take(e - 1int));
        }
        e = e - 1;
    }
    proof {
        if e == 0 {
            assert(s@.take(0) =~= Seq::<char>::empty());
        }
        assert(s@.subrange(0, e as int) =~= s@.take(e as int));
    }
    s.substring_char(0, e)
}

/// Index of the last occurrence of `sep`, or -1 if absent.
pub open spec fn last_index_of(s: Seq<char>, sep: char) -> int
    decreases s.len(),
{
    if s.len() == 0 {
        -1
    } else if s.last() == sep {
        s.len() - 1
    } else {
        last_index_of(s.drop_last(), sep)
    }
}

/// Characterize `last_index_of` from an explicit witness.
pub proof fn lemma_last_index_at(s: Seq<char>, sep: char, k: int)
    requires
        -1 <= k < s.len(),
        forall|j: int| k < j < s.len() ==> s[j] != sep,
        k >= 0 ==> s[k] == sep,
    ensures
        last_index_of(s, sep) == k,
    decreases s.len(),
{
    if s.len() > 0 && s.last() != sep {
        let t = s.drop_last();
        assert forall|j: int| k < j < t.len() implies t[j] != sep by {
            assert(t[j] == s[j]);
        }
        assert(k >= 0 ==> t[k] == s[k]);
        lemma_last_index_at(t, sep, k);
    }
}

/// What follows the last occurrence of `sep`: the suffix after it, or the
/// whole string when `sep` does not occur.
pub open spec fn spec_tail_after_last(s: Seq<char>, sep: char) -> Seq<char> {
    let i = last_index_of(s, sep);
    if i < 0 {
        s
    } else {
        s.skip(i + 1)
    }
}

/// The suffix after the last occurrence of a separator.
#[verifier::loop_isolation(false)]
pub fn tail_after_last<'a>(s: &'a str, sep: char) -> (r: &'a str)
    ensures
        r@ == spec_tail_after_last(s@, sep),
{
    let n = s.unicode_len();
    let mut i: usize = n;
    loop
        invariant
            0 <= i <= n,
            n == s@.len(),
            forall|j: int| i <= j < n ==> s@[j] != sep,
        decreases i,
    {
        if i == 0 {
            break ;
        }
        if s.get_char(i - 1) == sep {
            proof {
                lemma_last_index_at(s@, sep, i - 1);
                assert(s@.subrange(i as int, n as int) =~= s@.skip(i as int));
            }
            return s.substring_char(i, n);
        }
        i = i - 1;
    }
    proof {
        lemma_last_index_at(s@, sep, -1);
    }
    s
}

// ---------------------------------------------------------------------------
// Case folding
// ---------------------------------------------------------------------------

/// The lowercase form of a character sequence, as `str::to_lowercase`
/// computes it; the result depends on the characters alone.
pub uninterp spec fn lower_of(s: Seq<char>) -> Seq<char>;

/// Relies on `str::to_lowercase`: the Unicode lowercase mapping of the input.
#[verifier::external_body]
pub fn to_lowercase(s: &str) -> (r: String)
    ensures
        r@ == lower_of(s@),
{
    s.to_lowercase()
}

} // verus!
