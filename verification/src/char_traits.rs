//! Character-set predicates used when choosing how to emit YAML scalars.
use vstd::prelude::*;
use vstd::string::StrSliceExecFns;

verus! {

broadcast use vstd::string::group_string_axioms;

/// Whether `c` may stand unescaped inside a literal (`|`) or folded (`>`) block scalar.
///
/// Line feed and tab are allowed.  Carriage return, NEL (U+0085), the line and
/// paragraph separators (U+2028, U+2029) and the byte-order mark (U+FEFF) are
/// refused.  Every other character must be printable: U+0020..=U+007E,
/// U+00A0..=U+D7FF, U+E000..=U+FFFD or U+10000..=U+10FFFF.
pub open spec fn is_block_scalar_char(c: char) -> bool {
    if c == '\n' || c == '\t' {
        true
    } else if c == '\r' || c == '\u{0085}' || c == '\u{2028}' || c == '\u{2029}' || c
        == '\u{FEFF}' {
        false
    } else {
        let u = c as u32;
        (0x20 <= u <= 0x7E) || (0xA0 <= u <= 0xD7FF) || (0xE000 <= u <= 0xFFFD) || (0x10000 <= u
            <= 0x10FFFF)
    }
}

/// Whether every character of `s` may stand unescaped inside a block scalar.
pub open spec fn is_block_scalar_text(s: Seq<char>) -> bool {
    forall|i: int| 0 <= i < s.len() ==> #[trigger] is_block_scalar_char(s[i])
}

fn block_scalar_char(c: char) -> (r: bool)
    ensures
        r == is_block_scalar_char(c),
{
    match c {
        '\n' | '\t' => true,
        '\r' | '\u{0085}' | '\u{2028}' | '\u{2029}' | '\u{FEFF}' => false,
        _ => {
            let u = c as u32;
            (0x20 <= u && u <= 0x7E) || (0xA0 <= u && u <= 0xD7FF) || (0xE000 <= u && u <= 0xFFFD)
                || (0x10000 <= u && u <= 0x10FFFF)
        },
    }
}

/// Check if the string can be expressed as a valid literal block scalar.
///
/// This is character-level safety only: it says whether the codepoints can be
/// represented inside `|`/`>` blocks.
///
/// - `\r` is a YAML 1.2 line break (parsers normalize it to `\n`) and must be
///   escaped to preserve the exact string on round-trip.
/// - BOM (U+FEFF) is excluded from the `nb-char` production and must be escaped.
/// - NEL (U+0085), LS (U+2028), and PS (U+2029) are non-break characters in YAML 1.2,
///   but many tools mishandle them; we reject them in block scalars as a conservative
///   interoperability policy.
pub fn is_valid_literal_block_scalar(string: &str) -> (r: bool)
    ensures
        r == is_block_scalar_text(string@),
{
    for c in it: string.chars()
        invariant
            it.seq() == string@,
            forall|j: int| 0 <= j < it.index() ==> #[trigger] is_block_scalar_char(string@[j]),
    {
        if !block_scalar_char(c) {
            return false;
        }
    }
    true
}

/// Number of consecutive copies of `c` in `s` starting at position `start`.
pub open spec fn run_length(s: Seq<char>, start: int, c: char) -> nat
    decreases s.len() - start,
{
    if 0 <= start < s.len() && s[start] == c {
        1 + run_length(s, start + 1, c)
    } else {
        0
    }
}

/// Indentation of the first non-empty line of `s`: the empty lines at the
/// start are skipped (the `'\n'` characters that open `s`), and the spaces that
/// open the line after them are counted.  A text with no non-empty line has
/// indentation 0.
pub open spec fn first_line_indent(s: Seq<char>) -> nat {
    run_length(s, run_length(s, 0, '\n') as int, ' ')
}

/// A run of copies of `c` that ends where the copies end has the length
/// of the run.
pub proof fn lemma_run_length(s: Seq<char>, a: int, b: int, c: char)
    requires
        0 <= a <= b <= s.len(),
        forall|j: int| a <= j < b ==> s[j] == c,
        b == s.len() || s[b] != c,
    ensures
        run_length(s, a, c) == b - a,
    decreases b - a,
{
    if a < b {
        lemma_run_length(s, a + 1, b, c);
    }
}

/// A run never reaches past the end of `s`.
pub proof fn lemma_run_length_bound(s: Seq<char>, start: int, c: char)
    requires
        0 <= start,
    ensures
        start + run_length(s, start, c) <= if start <= s.len() {
            s.len() as int
        } else {
            start
        },
    decreases s.len() - start,
{
    if 0 <= start < s.len() && s[start] == c {
        lemma_run_length_bound(s, start + 1, c);
    }
}

/// Find leading spaces on the first non-empty line of content.
pub fn first_line_leading_spaces(s: &str) -> (n: usize)
    ensures
        n == first_line_indent(s@),
{
    let len = s.unicode_len();
    let mut in_blank_lines = true;
    let mut count: usize = 0;
    let ghost mut nl: int = 0;
    for c in it: s.chars()
        invariant
            it.seq() == s@,
            in_blank_lines ==> count == 0 && nl == it.index(),
            0 <= nl <= it.index(),
            forall|j: int| 0 <= j < nl ==> s@[j] == '\n',
            !in_blank_lines ==> nl < s@.len() && s@[nl] != '\n' && count == it.index() - nl,
            forall|j: int| nl <= j < it.index() ==> s@[j] == ' ',
            it.index() <= s@.len(),
            len == s@.len(),
    {
        let ghost idx = it.index();
        if in_blank_lines && c == '\n' {
            proof {
                nl = nl + 1;
            }
        } else if c == ' ' {
            in_blank_lines = false;
            count = count + 1;
        } else {
            proof {
                lemma_run_length(s@, 0, nl, '\n');
                lemma_run_length(s@, nl, idx, ' ');
            }
            return count;
        }
    }
    proof {
        lemma_run_length(s@, 0, nl, '\n');
        lemma_run_length(s@, nl, s@.len() as int, ' ');
    }
    count
}


/// The characters a block scalar may hold, by ranges: line feed, tab, and
/// the printable characters U+0020..=U+007E, U+00A0..=U+D7FF,
/// U+E000..=U+FFFD and U+10000..=U+10FFFF, save NEL (U+0085), the line and
/// paragraph separators (U+2028, U+2029) and the byte-order mark (U+FEFF).
/// So every character of U+00A0..=U+D7FF but the two separators may stand
/// in a block scalar, and carriage return, the other controls, the
/// surrogates and U+FFFE, U+FFFF may not.
pub proof fn law_block_scalar_chars(c: char)
    ensures
        is_block_scalar_char(c) <==> (c == '\n' || c == '\t' || (((0x20 <= c as u32
            && c as u32 <= 0x7E) || (0xA0 <= c as u32 && c as u32 <= 0xD7FF) || (0xE000
            <= c as u32 && c as u32 <= 0xFFFD) || (0x10000 <= c as u32 && c as u32
            <= 0x10FFFF)) && c as u32 != 0x85 && c as u32 != 0x2028 && c as u32 != 0x2029
            && c as u32 != 0xFEFF)),
        (0xA0 <= c as u32 && c as u32 <= 0xD7FF && c as u32 != 0x2028 && c as u32 != 0x2029)
            ==> is_block_scalar_char(c),
        (c as u32) < 0x20 && c != '\n' && c != '\t' ==> !is_block_scalar_char(c),
        (0x7F <= c as u32 && c as u32 <= 0x9F) ==> !is_block_scalar_char(c),
        (c as u32 == 0xFFFE || c as u32 == 0xFFFF) ==> !is_block_scalar_char(c),
{
    assert('\n' as u32 == 0x0A && '\t' as u32 == 0x09 && '\r' as u32 == 0x0D);
    assert('\u{0085}' as u32 == 0x85 && '\u{2028}' as u32 == 0x2028 && '\u{2029}' as u32
        == 0x2029 && '\u{FEFF}' as u32 == 0xFEFF);
}

/// A text may stand in a block scalar exactly when each of its characters
/// may; so a text made of two parts may exactly when both parts may.
pub proof fn law_block_scalar_text(s: Seq<char>, t: Seq<char>)
    ensures
        is_block_scalar_text(s) <==> (forall|i: int|
            0 <= i < s.len() ==> #[trigger] is_block_scalar_char(s[i])),
        is_block_scalar_text(s + t) <==> (is_block_scalar_text(s) && is_block_scalar_text(t)),
        is_block_scalar_text(Seq::<char>::empty()),
{
    if is_block_scalar_text(s) && is_block_scalar_text(t) {
        assert forall|i: int| 0 <= i < (s + t).len() implies #[trigger] is_block_scalar_char(
            (s + t)[i],
        ) by {
            if i >= s.len() {
                assert((s + t)[i] == t[i - s.len()]);
            }
        }
    }
    if is_block_scalar_text(s + t) {
        assert forall|i: int| 0 <= i < s.len() implies #[trigger] is_block_scalar_char(s[i]) by {
            assert((s + t)[i] == s[i]);
        }
        assert forall|i: int| 0 <= i < t.len() implies #[trigger] is_block_scalar_char(t[i]) by {
            assert((s + t)[i + s.len()] == t[i]);
        }
    }
}

/// The indentation of the first non-empty line, by positions: where the
/// text opens with `k` line feeds followed by something else (or nothing),
/// the indentation `n` is the number of spaces after them: the `n`
/// characters after the line feeds are spaces, and the next one is no
/// space (or the text ends).
pub proof fn law_first_line_indent(s: Seq<char>, k: int)
    requires
        0 <= k <= s.len(),
        forall|i: int| 0 <= i < k ==> s[i] == '\n',
        k == s.len() || s[k] != '\n',
    ensures
        k + first_line_indent(s) <= s.len(),
        forall|i: int| k <= i < k + first_line_indent(s) ==> s[i] == ' ',
        k + first_line_indent(s) == s.len() || s[k + first_line_indent(s)] != ' ',
{
    lemma_run_length(s, 0, k, '\n');
    let n = lemma_run_facts(s, k, ' ');
}

/// The run of copies of `c` from `start` ends at the returned position.
proof fn lemma_run_facts(s: Seq<char>, start: int, c: char) -> (end: int)
    requires
        0 <= start <= s.len(),
    ensures
        end == start + run_length(s, start, c),
        start <= end <= s.len(),
        forall|i: int| start <= i < end ==> s[i] == c,
        end == s.len() || s[end] != c,
    decreases s.len() - start,
{
    if start < s.len() && s[start] == c {
        lemma_run_facts(s, start + 1, c)
    } else {
        start
    }
}

} // verus!
