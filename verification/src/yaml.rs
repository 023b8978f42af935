//! Loading of flat YAML documents: a block mapping whose entries each stand
//! on a line of their own, `key: "value"`, with the value written as a
//! double-quoted scalar and its escapes decoded.
use vstd::prelude::*;

use crate::char_traits::{lemma_run_length, lemma_run_length_bound, run_length};
use crate::scanner::{Marker, ScanError};

verus! {

broadcast use vstd::string::group_string_axioms;

/// Whether `v` is a Unicode scalar value: at most U+10FFFF, and not a
/// surrogate.
pub open spec fn is_unicode_scalar(v: int) -> bool {
    0 <= v <= 0x10FFFF && !(0xD800 <= v <= 0xDFFF)
}

/// The character with code point `v`, where `v` is a Unicode scalar value.
pub open spec fn code_char(v: int) -> Option<char> {
    if is_unicode_scalar(v) {
        Some(v as char)
    } else {
        None
    }
}

/// Wraps `char::from_u32`, which the standard library documents as giving the
/// character with code point `code` where `code` is a Unicode scalar value
/// (at most 0x10FFFF and not a surrogate), and `None` otherwise.
#[verifier::external_body]
fn char_from_u32(code: u32) -> (r: Option<char>)
    ensures
        r == code_char(code as int),
{
    char::from_u32(code)
}

/// Wraps `String::push`, which the standard library documents as appending
/// the character `c` to the end of `s`.
#[verifier::external_body]
fn push_char(s: &mut String, c: char)
    ensures
        final(s)@ == old(s)@.push(c),
{
    s.push(c)
}

/// The value of the hexadecimal digit `c`.
pub open spec fn hex_digit(c: char) -> Option<int> {
    let u = c as u32;
    if 0x30 <= u <= 0x39 {
        Some(u - 0x30)
    } else if 0x61 <= u <= 0x66 {
        Some(u - 0x61 + 10)
    } else if 0x41 <= u <= 0x46 {
        Some(u - 0x41 + 10)
    } else {
        None
    }
}

/// The number written by the `n` hexadecimal digits of `s` from position `i`,
/// added to `acc` shifted left by `n` digits.
pub open spec fn hex_from(s: Seq<char>, i: int, n: nat, acc: int) -> Option<int>
    decreases n,
{
    if n == 0 {
        Some(acc)
    } else if 0 <= i < s.len() {
        match hex_digit(s[i]) {
            Some(d) => hex_from(s, i + 1, (n - 1) as nat, acc * 16 + d),
            None => None,
        }
    } else {
        None
    }
}

/// The number written by the `n` hexadecimal digits of `s` from position `i`,
/// if they are all there.
pub open spec fn hex_at(s: Seq<char>, i: int, n: nat) -> Option<int> {
    hex_from(s, i, n, 0)
}

/// The character a single-character escape `\e` stands for.
pub open spec fn simple_escape(e: char) -> Option<char> {
    if e == '0' {
        Some('\0')
    } else if e == 'a' {
        Some('\u{7}')
    } else if e == 'b' {
        Some('\u{8}')
    } else if e == 't' || e == '\t' {
        Some('\t')
    } else if e == 'n' {
        Some('\n')
    } else if e == 'v' {
        Some('\u{B}')
    } else if e == 'f' {
        Some('\u{C}')
    } else if e == 'r' {
        Some('\r')
    } else if e == 'e' {
        Some('\u{1B}')
    } else if e == ' ' {
        Some(' ')
    } else if e == '"' {
        Some('"')
    } else if e == '/' {
        Some('/')
    } else if e == '\\' {
        Some('\\')
    } else if e == 'N' {
        Some('\u{85}')
    } else if e == '_' {
        Some('\u{A0}')
    } else if e == 'L' {
        Some('\u{2028}')
    } else if e == 'P' {
        Some('\u{2029}')
    } else {
        None
    }
}

/// The character an escape of a double-quoted scalar stands for, and the
/// position after it; `j` is the position after the backslash.
///
/// Besides the single-character escapes there are `\xHH`, `\uHHHH` and
/// `\UHHHHHHHH`.  A `\u` escape of a high surrogate must be followed at once
/// by a `\u` escape of a low surrogate, and the pair stands for the character
/// they encode in UTF-16; a lone surrogate, or a code that is no Unicode
/// scalar value, is refused.
pub open spec fn escape_at(s: Seq<char>, j: int) -> Option<(char, int)> {
    if j < 0 || j >= s.len() {
        None
    } else {
        let e = s[j];
        if simple_escape(e) is Some {
            Some((simple_escape(e).unwrap(), j + 1))
        } else if e == 'x' {
            match hex_at(s, j + 1, 2) {
                Some(v) => match code_char(v) {
                    Some(c) => Some((c, j + 3)),
                    None => None,
                },
                None => None,
            }
        } else if e == 'u' {
            match hex_at(s, j + 1, 4) {
                Some(h) => if 0xD800 <= h <= 0xDBFF {
                    if s.len() - j > 6 && s[j + 5] == '\\' && s[j + 6] == 'u' {
                        match hex_at(s, j + 7, 4) {
                            Some(l) => if 0xDC00 <= l <= 0xDFFF {
                                match code_char(0x10000 + (h - 0xD800) * 0x400 + (l - 0xDC00)) {
                                    Some(c) => Some((c, j + 11)),
                                    None => None,
                                }
                            } else {
                                None
                            },
                            None => None,
                        }
                    } else {
                        None
                    }
                } else {
                    match code_char(h) {
                        Some(c) => Some((c, j + 5)),
                        None => None,
                    }
                },
                None => None,
            }
        } else if e == 'U' {
            match hex_at(s, j + 1, 8) {
                Some(v) => match code_char(v) {
                    Some(c) => Some((c, j + 9)),
                    None => None,
                },
                None => None,
            }
        } else {
            None
        }
    }
}


/// 16 to the power `k`.
pub open spec fn pow16(k: nat) -> nat
    decreases k,
{
    if k == 0 {
        1
    } else {
        16 * pow16((k - 1) as nat)
    }
}

proof fn lemma_pow16_bound(k: nat)
    requires
        k <= 8,
    ensures
        pow16(k) <= 0x1_0000_0000,
    decreases 8 - k,
{
    if k < 8 {
        lemma_pow16_bound(k + 1);
    } else {
        reveal_with_fuel(pow16, 9);
    }
}

proof fn lemma_hex_from_bound(s: Seq<char>, i: int, n: nat, acc: int)
    requires
        0 <= acc,
    ensures
        hex_from(s, i, n, acc) matches Some(v) ==> 0 <= v < (acc + 1) * pow16(n),
    decreases n,
{
    if n == 0 {
        assert(pow16(0) == 1);
    }
    if n > 0 && 0 <= i < s.len() {
        if let Some(d) = hex_digit(s[i]) {
            lemma_hex_from_bound(s, i + 1, (n - 1) as nat, acc * 16 + d);
            let p = pow16((n - 1) as nat);
            assert(pow16(n) == 16 * p);
            assert((acc * 16 + d + 1) * p <= (acc + 1) * (16 * p)) by (nonlinear_arith)
                requires
                    0 <= d < 16,
                    0 <= acc,
                    0 <= p,
            ;
        }
    }
}

fn hex_digit_value(c: char) -> (r: Option<u32>)
    ensures
        match hex_digit(c) {
            Some(d) => r == Some(d as u32) && 0 <= d < 16,
            None => r is None,
        },
{
    let u = c as u32;
    if 0x30 <= u && u <= 0x39 {
        Some(u - 0x30)
    } else if 0x61 <= u && u <= 0x66 {
        Some(u - 0x61 + 10)
    } else if 0x41 <= u && u <= 0x46 {
        Some(u - 0x41 + 10)
    } else {
        None
    }
}

fn read_hex(s: &Vec<char>, i: usize, n: usize) -> (r: Option<u32>)
    requires
        n <= 8,
    ensures
        match hex_at(s@, i as int, n as nat) {
            Some(v) => r == Some(v as u32) && 0 <= v < 0x1_0000_0000,
            None => r is None,
        },
        r is Some && n > 0 ==> i + n <= s@.len(),
{
    let mut acc: u64 = 0;
    let mut k: usize = 0;
    proof {
        lemma_pow16_bound(n as nat);
    }
    while k < n
        invariant
            k <= n <= 8,
            hex_at(s@, i as int, n as nat) == hex_from(
                s@,
                i + k,
                (n - k) as nat,
                acc as int,
            ),
            acc < pow16(k as nat),
            pow16(n as nat) <= 0x1_0000_0000,
            k == 0 || i + k <= s@.len(),
        decreases n - k,
    {
        proof {
            lemma_pow16_bound(k as nat);
        }
        if i >= s.len() || k >= s.len() - i {
            return None;
        }
        match hex_digit_value(s[i + k]) {
            Some(d) => {
                acc = acc * 16 + d as u64;
                k = k + 1;
            },
            None => {
                return None;
            },
        }
    }
    proof {
        lemma_hex_from_bound(s@, i + k, 0, acc as int);
    }
    Some(acc as u32)
}

fn read_escape(s: &Vec<char>, j: usize) -> (r: Option<(char, usize)>)
    ensures
        match escape_at(s@, j as int) {
            Some((c, next)) => r == Some((c, next as usize)) && next <= s@.len(),
            None => r is None,
        },
{
    if j >= s.len() {
        return None;
    }
    let e = s[j];
    let simple = match e {
        '0' => Some('\0'),
        'a' => Some('\u{7}'),
        'b' => Some('\u{8}'),
        't' | '\t' => Some('\t'),
        'n' => Some('\n'),
        'v' => Some('\u{B}'),
        'f' => Some('\u{C}'),
        'r' => Some('\r'),
        'e' => Some('\u{1B}'),
        ' ' => Some(' '),
        '"' => Some('"'),
        '/' => Some('/'),
        '\\' => Some('\\'),
        'N' => Some('\u{85}'),
        '_' => Some('\u{A0}'),
        'L' => Some('\u{2028}'),
        'P' => Some('\u{2029}'),
        _ => None,
    };
    assert(simple == simple_escape(e));
    if let Some(c) = simple {
        return Some((c, j + 1));
    }
    if e == 'x' {
        match read_hex(s, j + 1, 2) {
            Some(v) => match char_from_u32(v) {
                Some(c) => Some((c, j + 3)),
                None => None,
            },
            None => None,
        }
    } else if e == 'u' {
        match read_hex(s, j + 1, 4) {
            Some(h) => {
                if 0xD800 <= h && h <= 0xDBFF {
                    if s.len() - j > 6 && s[j + 5] == '\\' && s[j + 6] == 'u' {
                        match read_hex(s, j + 7, 4) {
                            Some(l) => {
                                if 0xDC00 <= l && l <= 0xDFFF {
                                    match char_from_u32(0x10000 + (h - 0xD800) * 0x400 + (l - 0xDC00)) {
                                        Some(c) => Some((c, j + 11)),
                                        None => None,
                                    }
                                } else {
                                    None
                                }
                            },
                            None => None,
                        }
                    } else {
                        None
                    }
                } else {
                    match char_from_u32(h) {
                        Some(c) => Some((c, j + 5)),
                        None => None,
                    }
                }
            },
            None => None,
        }
    } else if e == 'U' {
        match read_hex(s, j + 1, 8) {
            Some(v) => match char_from_u32(v) {
                Some(c) => Some((c, j + 9)),
                None => None,
            },
            None => None,
        }
    } else {
        None
    }
}


/// The upper-case hexadecimal digit of value `d` (0..16).
pub open spec fn hex_char(d: int) -> char {
    if d < 10 {
        (0x30 + d) as char
    } else {
        (0x41 + d - 10) as char
    }
}

/// `v` (below 0x10000) written with four hexadecimal digits.
pub open spec fn hex4(v: int) -> Seq<char> {
    seq![
        hex_char((v / 0x1000) % 16),
        hex_char((v / 0x100) % 16),
        hex_char((v / 0x10) % 16),
        hex_char(v % 16),
    ]
}

/// `v` (below 0x1_0000_0000) written with eight hexadecimal digits.
pub open spec fn hex8(v: int) -> Seq<char> {
    hex4(v / 0x10000) + hex4(v % 0x10000)
}

proof fn lemma_hex_char(d: int)
    requires
        0 <= d < 16,
    ensures
        hex_digit(hex_char(d)) == Some(d),
{
    if d < 10 {
        assert(((0x30 + d) as char) as u32 == 0x30 + d);
    } else {
        assert(((0x41 + d - 10) as char) as u32 == 0x41 + d - 10);
    }
}

proof fn lemma_hex4_digits(v: int)
    requires
        0 <= v < 0x10000,
    ensures
        ((((v / 0x1000) % 16) * 16 + (v / 0x100) % 16) * 16 + (v / 0x10) % 16) * 16 + v % 16
            == v,
        0 <= (v / 0x1000) % 16 < 16,
        0 <= (v / 0x100) % 16 < 16,
        0 <= (v / 0x10) % 16 < 16,
        0 <= v % 16 < 16,
{
    assert(((((v / 0x1000) % 16) * 16 + (v / 0x100) % 16) * 16 + (v / 0x10) % 16) * 16 + v % 16
        == v) by (nonlinear_arith)
        requires
            0 <= v < 0x10000,
    ;
}

/// Four hexadecimal digits written by `hex4` read back as their value.
proof fn lemma_hex4_reads(s: Seq<char>, i: int, v: int, acc: int)
    requires
        0 <= v < 0x10000,
        0 <= i,
        i + 4 <= s.len(),
        s.subrange(i, i + 4) == hex4(v),
    ensures
        hex_from(s, i, 4, acc) == Some(acc * 0x10000 + v),
{
    lemma_hex4_digits(v);
    let d0 = (v / 0x1000) % 16;
    let d1 = (v / 0x100) % 16;
    let d2 = (v / 0x10) % 16;
    let d3 = v % 16;
    assert(s[i] == s.subrange(i, i + 4)[0]);
    assert(s[i + 1] == s.subrange(i, i + 4)[1]);
    assert(s[i + 2] == s.subrange(i, i + 4)[2]);
    assert(s[i + 3] == s.subrange(i, i + 4)[3]);
    lemma_hex_char(d0);
    lemma_hex_char(d1);
    lemma_hex_char(d2);
    lemma_hex_char(d3);
    let a1 = acc * 16 + d0;
    let a2 = a1 * 16 + d1;
    let a3 = a2 * 16 + d2;
    let a4 = a3 * 16 + d3;
    assert(hex_from(s, i + 4, 0, a4) == Some(a4));
    assert(hex_from(s, i + 3, 1, a3) == Some(a4));
    assert(hex_from(s, i + 2, 2, a2) == Some(a4));
    assert(hex_from(s, i + 1, 3, a1) == Some(a4));
    assert(a4 == acc * 0x10000 + v) by (nonlinear_arith)
        requires
            a1 == acc * 16 + d0,
            a2 == a1 * 16 + d1,
            a3 == a2 * 16 + d2,
            a4 == a3 * 16 + d3,
            (((d0 * 16 + d1) * 16 + d2) * 16 + d3) == v,
    ;
}

/// A JSON-style surrogate pair `\uHHHH\uLLLL` (any high surrogate `h`, any
/// low surrogate `l`) decodes to the one character whose UTF-16 encoding is
/// `(h, l)`, and the escape takes all eleven characters after the backslash.
pub proof fn law_surrogate_pair_escape(h: int, l: int)
    requires
        0xD800 <= h <= 0xDBFF,
        0xDC00 <= l <= 0xDFFF,
    ensures
        match escape_at(seq!['u'] + hex4(h) + seq!['\\', 'u'] + hex4(l), 0) {
            Some((c, next)) => {
                &&& next == 11
                &&& 0x10000 <= c as int <= 0x10FFFF
                &&& 0xD800 + (c as int - 0x10000) / 0x400 == h
                &&& 0xDC00 + (c as int - 0x10000) % 0x400 == l
            },
            None => false,
        },
{
    let s = seq!['u'] + hex4(h) + seq!['\\', 'u'] + hex4(l);
    assert(s.subrange(1, 5) =~= hex4(h));
    assert(s.subrange(7, 11) =~= hex4(l));
    lemma_hex4_reads(s, 1, h, 0);
    lemma_hex4_reads(s, 7, l, 0);
    let v = 0x10000 + (h - 0xD800) * 0x400 + (l - 0xDC00);
    assert(code_char(v) == Some(v as char));
    assert((v as char) as int == v);
    assert((v - 0x10000) / 0x400 == h - 0xD800 && (v - 0x10000) % 0x400 == l - 0xDC00) by (nonlinear_arith)
        requires
            v == 0x10000 + (h - 0xD800) * 0x400 + (l - 0xDC00),
            0 <= l - 0xDC00 < 0x400,
            0 <= h - 0xD800,
    ;
}

/// A surrogate escaped on its own is refused: a high surrogate that ends
/// the text, and a low surrogate whatever follows it.
pub proof fn law_lone_surrogate_refused(v: int, rest: Seq<char>)
    requires
        0xD800 <= v <= 0xDFFF,
    ensures
        escape_at(seq!['u'] + hex4(v), 0) is None,
        0xDC00 <= v ==> escape_at(seq!['u'] + hex4(v) + rest, 0) is None,
{
    let s = seq!['u'] + hex4(v);
    assert(s.subrange(1, 5) =~= hex4(v));
    lemma_hex4_reads(s, 1, v, 0);
    let t = seq!['u'] + hex4(v) + rest;
    assert(t.subrange(1, 5) =~= hex4(v));
    lemma_hex4_reads(t, 1, v, 0);
}

/// The escape `\UHHHHHHHH` of a character's code point decodes to that
/// character, and so to the same character as the surrogate pair that
/// encodes it.
pub proof fn law_code_point_escape(c: char)
    ensures
        escape_at(seq!['U'] + hex8(c as int), 0) == Some((c, 9int)),
{
    let v = c as int;
    let s = seq!['U'] + hex8(v);
    assert(0 <= v <= 0x10FFFF);
    assert(s.subrange(1, 5) =~= hex4(v / 0x10000));
    assert(s.subrange(5, 9) =~= hex4(v % 0x10000));
    assert(0 <= v / 0x10000 < 0x10000) by (nonlinear_arith)
        requires
            0 <= v <= 0x10FFFF,
    ;
    lemma_hex4_reads(s, 1, v / 0x10000, 0);
    lemma_hex4_reads(s, 5, v % 0x10000, v / 0x10000);
    lemma_hex_from_split(s, 1, v / 0x10000);
    assert((v / 0x10000) * 0x10000 + v % 0x10000 == v) by (nonlinear_arith);
    assert(code_char(v) == Some(c));
}

proof fn lemma_hex_from_split(s: Seq<char>, i: int, acc4: int)
    requires
        hex_from(s, i, 4, 0) == Some(acc4),
    ensures
        hex_from(s, i, 8, 0) == hex_from(s, i + 4, 4, acc4),
{
    lemma_hex_from_shift(s, i, 8, 4, 0);
}

proof fn lemma_hex_from_shift(s: Seq<char>, i: int, n: nat, k: nat, acc: int)
    requires
        k <= n,
        hex_from(s, i, k, acc) is Some,
    ensures
        hex_from(s, i, n, acc) == hex_from(s, i + k, (n - k) as nat, hex_from(s, i, k, acc)->Some_0),
    decreases k,
{
    if k > 0 {
        let d = hex_digit(s[i]).unwrap();
        lemma_hex_from_shift(s, i + 1, (n - 1) as nat, (k - 1) as nat, acc * 16 + d);
    }
}

/// Escapes move forward: the position after an escape is past its backslash.
pub proof fn lemma_escape_advances(s: Seq<char>, j: int)
    ensures
        escape_at(s, j) matches Some((_, next)) ==> j < next <= s.len(),
{
    if 0 <= j < s.len() {
        let e = s[j];
        if e == 'x' {
            lemma_hex_in_bounds(s, j + 1, 2, 0);
        } else if e == 'u' {
            lemma_hex_in_bounds(s, j + 1, 4, 0);
            lemma_hex_in_bounds(s, j + 7, 4, 0);
        } else if e == 'U' {
            lemma_hex_in_bounds(s, j + 1, 8, 0);
        }
    }
}

proof fn lemma_hex_in_bounds(s: Seq<char>, i: int, n: nat, acc: int)
    ensures
        hex_from(s, i, n, acc) is Some && n > 0 ==> 0 <= i && i + n <= s.len(),
    decreases n,
{
    if n > 1 {
        lemma_hex_in_bounds(s, i + 1, (n - 1) as nat, acc * 16 + hex_digit(s[i]).unwrap_or(0));
    }
}

/// `value` put in front of the value of a scanned scalar.
pub open spec fn prepend(value: Seq<char>, r: Option<(Seq<char>, int)>) -> Option<(Seq<char>, int)> {
    match r {
        Some((rest, end)) => Some((value + rest, end)),
        None => None,
    }
}

/// The value of the double-quoted scalar whose text starts at position `i`
/// of `s` (just after the opening quote), with its escapes decoded, and the
/// position after its closing quote.  The scalar must close on its line: a
/// line break before the closing quote is refused, as is input that ends
/// before it.
pub open spec fn scan_double_quoted(s: Seq<char>, i: int) -> Option<(Seq<char>, int)>
    decreases s.len() - i,
{
    if i < 0 || i >= s.len() {
        None
    } else if s[i] == '"' {
        Some((Seq::empty(), i + 1))
    } else if s[i] == '\n' || s[i] == '\r' {
        None
    } else if s[i] == '\\' {
        proof {
            lemma_escape_advances(s, i + 1);
        }
        match escape_at(s, i + 1) {
            Some((c, next)) => prepend(seq![c], scan_double_quoted(s, next)),
            None => None,
        }
    } else {
        prepend(seq![s[i]], scan_double_quoted(s, i + 1))
    }
}

proof fn lemma_prepend_push(value: Seq<char>, c: char, r: Option<(Seq<char>, int)>)
    ensures
        prepend(value, prepend(seq![c], r)) == prepend(value.push(c), r),
{
    if let Some((rest, end)) = r {
        assert(value + (seq![c] + rest) =~= value.push(c) + rest);
    }
}

/// Scanning a double-quoted scalar ends past its start.
pub proof fn lemma_scan_double_quoted_advances(s: Seq<char>, i: int)
    ensures
        scan_double_quoted(s, i) matches Some((_, end)) ==> i < end <= s.len(),
    decreases s.len() - i,
{
    if 0 <= i < s.len() && s[i] != '"' && s[i] != '\n' && s[i] != '\r' {
        if s[i] == '\\' {
            lemma_escape_advances(s, i + 1);
            if let Some((c, next)) = escape_at(s, i + 1) {
                lemma_scan_double_quoted_advances(s, next);
            }
        } else {
            lemma_scan_double_quoted_advances(s, i + 1);
        }
    }
}

fn read_double_quoted(s: &Vec<char>, start: usize) -> (r: Option<(String, usize)>)
    ensures
        match scan_double_quoted(s@, start as int) {
            Some((value, end)) => r matches Some((v, e)) && v@ == value && e == end && end
                <= s@.len(),
            None => r is None,
        },
{
    let mut value = String::new();
    let mut i = start;
    proof {
        lemma_scan_double_quoted_advances(s@, start as int);
    }
    loop
        invariant
            scan_double_quoted(s@, start as int) == prepend(
                value@,
                scan_double_quoted(s@, i as int),
            ),
            scan_double_quoted(s@, start as int) matches Some((_, end)) ==> end <= s@.len(),
        decreases s@.len() - i,
    {
        if i >= s.len() {
            return None;
        }
        let c = s[i];
        if c == '"' {
            assert(value@ + Seq::<char>::empty() =~= value@);
            return Some((value, i + 1));
        }
        if c == '\n' || c == '\r' {
            return None;
        }
        if c == '\\' {
            proof {
                lemma_escape_advances(s@, i + 1);
            }
            match read_escape(s, i + 1) {
                Some((d, next)) => {
                    proof {
                        lemma_prepend_push(value@, d, scan_double_quoted(s@, next as int));
                    }
                    push_char(&mut value, d);
                    i = next;
                },
                None => {
                    return None;
                },
            }
        } else {
            proof {
                lemma_prepend_push(value@, c, scan_double_quoted(s@, i + 1));
            }
            push_char(&mut value, c);
            i = i + 1;
        }
    }
}


/// Whether `c` may stand in a key: an ASCII letter or digit, `_`, `-` or `.`.
pub open spec fn is_key_char(c: char) -> bool {
    let u = c as u32;
    (0x30 <= u <= 0x39) || (0x41 <= u <= 0x5A) || (0x61 <= u <= 0x7A) || c == '_' || c == '-'
        || c == '.'
}

/// The number of key characters in a row in `s` from position `i`.
pub open spec fn key_length(s: Seq<char>, i: int) -> nat
    decreases s.len() - i,
{
    if 0 <= i < s.len() && is_key_char(s[i]) {
        1 + key_length(s, i + 1)
    } else {
        0
    }
}

proof fn lemma_key_length(s: Seq<char>, a: int, b: int)
    requires
        0 <= a <= b <= s.len(),
        forall|j: int| a <= j < b ==> is_key_char(#[trigger] s[j]),
        b == s.len() || !is_key_char(s[b]),
    ensures
        key_length(s, a) == b - a,
    decreases b - a,
{
    if a < b {
        lemma_key_length(s, a + 1, b);
    }
}

/// The entry whose line starts at position `i` of `s`: its key, its value
/// and the position of the end of its line (the line feed, or the end of
/// `s`).
///
/// An entry is a key, a colon, one or more spaces, a double-quoted scalar,
/// and spaces up to the end of the line.
pub open spec fn entry_at(s: Seq<char>, i: int) -> Option<(Seq<char>, Seq<char>, int)> {
    let k = i + key_length(s, i);
    if k == i || k + 1 >= s.len() || s[k] != ':' || s[k + 1] != ' ' {
        None
    } else {
        let q = k + 1 + run_length(s, k + 1, ' ');
        if q >= s.len() || s[q] != '"' {
            None
        } else {
            match scan_double_quoted(s, q + 1) {
                Some((value, after)) => {
                    let e = after + run_length(s, after, ' ');
                    if e == s.len() || s[e] == '\n' {
                        Some((s.subrange(i, k), value, e))
                    } else {
                        None
                    }
                },
                None => None,
            }
        }
    }
}

/// An entry ends past the start of its line.
pub proof fn lemma_entry_advances(s: Seq<char>, i: int)
    requires
        0 <= i,
    ensures
        entry_at(s, i) matches Some((_, _, e)) ==> i < e <= s.len(),
{
    let k = i + key_length(s, i);
    if !(k == i || k + 1 >= s.len() || s[k] != ':' || s[k + 1] != ' ') {
        let q = k + 1 + run_length(s, k + 1, ' ');
        lemma_scan_double_quoted_advances(s, q + 1);
        if let Some((value, after)) = scan_double_quoted(s, q + 1) {
            lemma_run_length_bound(s, after, ' ');
        }
    }
}

/// The position of the line a load stopped on: the offset of its first
/// character and its line number (from 1).
pub type LinePosition = (int, nat);

/// The entries of the lines of `s` from position `i` (the start of line
/// number `line`) on, in order.  Lines that hold nothing but spaces are
/// skipped; every other line must hold an entry that starts at its first
/// column, else the result is the position of the first line that does not.
pub open spec fn entries_from(s: Seq<char>, i: int, line: nat) -> Result<
    Seq<(Seq<char>, Seq<char>)>,
    LinePosition,
>
    decreases s.len() + 1 - i,
{
    if i < 0 || i >= s.len() {
        Ok(Seq::empty())
    } else {
        let j = i + run_length(s, i, ' ');
        proof {
            lemma_run_length_bound(s, i, ' ');
            lemma_entry_advances(s, i);
        }
        if j >= s.len() {
            Ok(Seq::empty())
        } else if s[j] == '\n' {
            entries_from(s, j + 1, line + 1)
        } else if j > i {
            Err((i, line))
        } else {
            match entry_at(s, i) {
                Some((key, value, e)) => match entries_from(s, e + 1, line + 1) {
                    Ok(rest) => Ok(seq![(key, value)] + rest),
                    Err(at) => Err(at),
                },
                None => Err((i, line)),
            }
        }
    }
}

/// The documents of the text `s`: none when it holds no entry, otherwise
/// one, a mapping of its entries in order; or the position of the first line
/// that is not of the form the loader reads.
pub open spec fn documents(s: Seq<char>) -> Result<Seq<Seq<(Seq<char>, Seq<char>)>>, LinePosition> {
    match entries_from(s, 0, 1) {
        Ok(entries) => if entries.len() == 0 {
            Ok(Seq::empty())
        } else {
            Ok(seq![entries])
        },
        Err(at) => Err(at),
    }
}

/// The description of the error for a line the loader cannot read.
pub open spec fn unsupported_line_message() -> Seq<char> {
    "expected an entry of the form key: \"value\""@
}

fn skip_spaces(s: &Vec<char>, i: usize) -> (j: usize)
    requires
        i <= s@.len(),
    ensures
        j == i + run_length(s@, i as int, ' '),
        j <= s@.len(),
{
    let mut j = i;
    while j < s.len() && s[j] == ' '
        invariant
            i <= j <= s@.len(),
            forall|k: int| i <= k < j ==> s@[k] == ' ',
        decreases s@.len() - j,
    {
        j = j + 1;
    }
    proof {
        lemma_run_length(s@, i as int, j as int, ' ');
    }
    j
}

fn key_char(c: char) -> (r: bool)
    ensures
        r == is_key_char(c),
{
    let u = c as u32;
    (0x30 <= u && u <= 0x39) || (0x41 <= u && u <= 0x5A) || (0x61 <= u && u <= 0x7A) || c == '_'
        || c == '-' || c == '.'
}

fn skip_key(s: &Vec<char>, i: usize) -> (j: usize)
    requires
        i <= s@.len(),
    ensures
        j == i + key_length(s@, i as int),
        j <= s@.len(),
{
    let mut j = i;
    while j < s.len() && key_char(s[j])
        invariant
            i <= j <= s@.len(),
            forall|k: int| i <= k < j ==> is_key_char(#[trigger] s@[k]),
        decreases s@.len() - j,
    {
        j = j + 1;
    }
    proof {
        lemma_key_length(s@, i as int, j as int);
    }
    j
}

fn text_of(s: &Vec<char>, from: usize, to: usize) -> (t: String)
    requires
        from <= to <= s@.len(),
    ensures
        t@ == s@.subrange(from as int, to as int),
{
    let mut t = String::new();
    let mut k = from;
    while k < to
        invariant
            from <= k <= to <= s@.len(),
            t@ == s@.subrange(from as int, k as int),
        decreases to - k,
    {
        push_char(&mut t, s[k]);
        k = k + 1;
        assert(t@ =~= s@.subrange(from as int, k as int));
    }
    t
}

fn read_entry(s: &Vec<char>, i: usize) -> (r: Option<(String, String, usize)>)
    requires
        i <= s@.len(),
    ensures
        match entry_at(s@, i as int) {
            Some((key, value, e)) => r matches Some((k, v, end)) && k@ == key && v@ == value
                && end == e && end <= s@.len(),
            None => r is None,
        },
{
    let k = skip_key(s, i);
    if k == i || k >= s.len() - 1 || s[k] != ':' || s[k + 1] != ' ' {
        return None;
    }
    let q = skip_spaces(s, k + 1);
    if q >= s.len() || s[q] != '"' {
        return None;
    }
    match read_double_quoted(s, q + 1) {
        Some((value, after)) => {
            let e = skip_spaces(s, after);
            if e == s.len() || s[e] == '\n' {
                let key = text_of(s, i, k);
                Some((key, value, e))
            } else {
                None
            }
        },
        None => None,
    }
}

/// The view of a list of entries.
pub open spec fn entries_view(entries: Seq<(String, String)>) -> Seq<(Seq<char>, Seq<char>)> {
    entries.map_values(|e: (String, String)| (e.0@, e.1@))
}

/// `done` put in front of the entries of a read.
pub open spec fn prepend_entries(
    done: Seq<(Seq<char>, Seq<char>)>,
    r: Result<Seq<(Seq<char>, Seq<char>)>, LinePosition>,
) -> Result<Seq<(Seq<char>, Seq<char>)>, LinePosition> {
    match r {
        Ok(rest) => Ok(done + rest),
        Err(at) => Err(at),
    }
}

fn read_entries(s: &Vec<char>) -> (r: Result<Vec<(String, String)>, (usize, usize)>)
    ensures
        match entries_from(s@, 0, 1) {
            Ok(entries) => r matches Ok(v) && entries_view(v@) == entries,
            Err((index, line)) => r == Err::<Vec<(String, String)>, (usize, usize)>(
                (index as usize, line as usize),
            ),
        },
{
    let mut entries: Vec<(String, String)> = Vec::new();
    let mut i: usize = 0;
    let mut breaks: usize = 0;
    loop
        invariant
            i <= s@.len(),
            breaks <= i,
            entries_from(s@, 0, 1) == prepend_entries(
                entries_view(entries@),
                entries_from(s@, i as int, (breaks + 1) as nat),
            ),
        decreases s@.len() - i,
    {
        if i == s.len() {
            assert(entries_view(entries@) + Seq::empty() =~= entries_view(entries@));
            return Ok(entries);
        }
        let j = skip_spaces(s, i);
        proof {
            lemma_run_length_bound(s@, i as int, ' ');
            lemma_entry_advances(s@, i as int);
        }
        if j == s.len() {
            assert(entries_view(entries@) + Seq::empty() =~= entries_view(entries@));
            return Ok(entries);
        }
        if s[j] == '\n' {
            i = j + 1;
            breaks = breaks + 1;
        } else if j > i {
            return Err((i, breaks + 1));
        } else {
            match read_entry(s, i) {
                Some((key, value, e)) => {
                    let ghost before = entries_view(entries@);
                    let ghost item = (key@, value@);
                    entries.push((key, value));
                    assert(entries_view(entries@) =~= before.push(item));
                    proof {
                        if let Ok(rest) = entries_from(s@, e + 1, (breaks + 2) as nat) {
                            assert(before + (seq![item] + rest) =~= before.push(item) + rest);
                        }
                    }
                    if e == s.len() {
                        assert(entries_view(entries@) + Seq::empty() =~= entries_view(entries@));
                        return Ok(entries);
                    }
                    i = e + 1;
                    breaks = breaks + 1;
                },
                None => {
                    return Err((i, breaks + 1));
                },
            }
        }
    }
}

/// A loaded document: a mapping from keys to strings, in the order of the
/// text.
#[derive(Clone, Debug, PartialEq, Eq)]
pub struct Yaml {
    entries: Vec<(String, String)>,
}

impl View for Yaml {
    type V = Seq<(Seq<char>, Seq<char>)>;

    closed spec fn view(&self) -> Self::V {
        entries_view(self.entries@)
    }
}

/// The value of the last entry of `entries` with key `key`.
pub open spec fn lookup(entries: Seq<(Seq<char>, Seq<char>)>, key: Seq<char>) -> Option<Seq<char>>
    decreases entries.len(),
{
    if entries.len() == 0 {
        None
    } else if entries.last().0 == key {
        Some(entries.last().1)
    } else {
        lookup(entries.drop_last(), key)
    }
}

impl Yaml {
    /// Loads the documents of `source`.
    ///
    /// The text is read line by line.  Lines that hold nothing but spaces are
    /// skipped; every other line holds an entry `key: "value"`: a key of ASCII
    /// letters, digits, `_`, `-` and `.` at the start of the line, a colon,
    /// one or more spaces, a double-quoted scalar that closes on the same
    /// line, and nothing after it but spaces.  Escapes in the value are
    /// decoded, JSON-style surrogate pairs `\uHHHH\uHHHH` included.  A text
    /// with no entry holds no document; otherwise it holds one, the mapping
    /// of its entries.  Any other text is refused with an error placed at
    /// the start of the first line that is not of this form.
    pub fn load_from_str(source: &str) -> (r: Result<Vec<Yaml>, ScanError>)
        ensures
            match documents(source@) {
                Ok(docs) => r matches Ok(v) && v@.map_values(|d: Yaml| d@) == docs,
                Err((index, line)) => r matches Err(e) && e.mark == (Marker {
                    index: index as usize,
                    line: line as usize,
                    col: 0,
                }) && e.info@ == unsupported_line_message(),
            },
    {
        let mut text: Vec<char> = Vec::new();
        for c in it: source.chars()
            invariant
                it.seq() == source@,
                text@ == source@.take(it.index() as int),
        {
            text.push(c);
            assert(text@ =~= source@.take(it.index() + 1));
        }
        assert(text@ =~= source@);
        match read_entries(&text) {
            Ok(entries) => {
                let mut docs: Vec<Yaml> = Vec::new();
                if entries.len() > 0 {
                    docs.push(Yaml { entries });
                }
                assert(docs@.map_values(|d: Yaml| d@) =~= documents(source@)->Ok_0);
                Ok(docs)
            },
            Err((index, line)) => Err(
                ScanError::new_str(
                    Marker::new(index, line, 0),
                    "expected an entry of the form key: \"value\"",
                ),
            ),
        }
    }

    /// The value of the entry with key `key` (the last one, where the key is
    /// repeated).
    pub fn get(&self, key: &str) -> (r: Option<&str>)
        ensures
            match lookup(self@, key@) {
                Some(value) => r matches Some(v) && v@ == value,
                None => r is None,
            },
    {
        let wanted = key.to_owned();
        let mut n = self.entries.len();
        assert(self.entries@.take(n as int) =~= self.entries@);
        while n > 0
            invariant
                n <= self.entries@.len(),
                lookup(self@, key@) == lookup(entries_view(self.entries@.take(n as int)), key@),
                wanted@ == key@,
            decreases n,
        {
            let ghost before = entries_view(self.entries@.take(n as int));
            assert(before.drop_last() =~= entries_view(self.entries@.take(n - 1)));
            if self.entries[n - 1].0 == wanted {
                return Some(self.entries[n - 1].1.as_str());
            }
            n = n - 1;
        }
        None
    }
}


/// Whether `c` may stand in a double-quoted value as itself: it is no quote,
/// backslash or line break.
pub open spec fn is_plain_value_char(c: char) -> bool {
    c != '"' && c != '\\' && c != '\n' && c != '\r'
}

proof fn lemma_scan_plain(s: Seq<char>, i: int, v: Seq<char>, k: int)
    requires
        0 <= i,
        0 <= k <= v.len(),
        i + v.len() < s.len(),
        s.subrange(i, i + v.len()) == v,
        s[i + v.len()] == '"',
        forall|j: int| 0 <= j < v.len() ==> is_plain_value_char(#[trigger] v[j]),
    ensures
        scan_double_quoted(s, i + k) == Some((v.subrange(k, v.len() as int), i + v.len() + 1)),
    decreases v.len() - k,
{
    if k < v.len() {
        lemma_scan_plain(s, i, v, k + 1);
        assert(s[i + k] == v[k]);
        assert(seq![v[k]] + v.subrange(k + 1, v.len() as int) =~= v.subrange(k, v.len() as int));
    } else {
        assert(v.subrange(k, v.len() as int) =~= Seq::<char>::empty());
    }
}

/// A line `key: "value"` whose key is made of key characters and whose value
/// holds no quote, backslash or line break loads as one document mapping the
/// key to the value as written.
pub proof fn law_single_entry(key: Seq<char>, value: Seq<char>)
    requires
        key.len() > 0,
        forall|j: int| 0 <= j < key.len() ==> is_key_char(#[trigger] key[j]),
        forall|j: int| 0 <= j < value.len() ==> is_plain_value_char(#[trigger] value[j]),
    ensures
        documents(key + seq![':', ' ', '"'] + value + seq!['"']) == Ok::<
            Seq<Seq<(Seq<char>, Seq<char>)>>,
            LinePosition,
        >(seq![seq![(key, value)]]),
{
    let s = key + seq![':', ' ', '"'] + value + seq!['"'];
    let k = key.len() as int;
    assert forall|j: int| 0 <= j < k implies is_key_char(#[trigger] s[j]) by {
        assert(s[j] == key[j]);
    }
    assert(s[k] == ':');
    lemma_key_length(s, 0, k);
    assert(s[0] == key[0]);
    assert(run_length(s, 0, ' ') == 0);
    assert(s[k + 1] == ' ' && s[k + 2] == '"');
    lemma_run_length(s, k + 1, k + 2, ' ');
    assert(s.subrange(k + 3, k + 3 + value.len()) =~= value);
    assert(s[k + 3 + value.len()] == '"');
    lemma_scan_plain(s, k + 3, value, 0);
    assert(value.subrange(0, value.len() as int) =~= value);
    let end = s.len() as int;
    assert(run_length(s, end, ' ') == 0);
    assert(s.subrange(0, k) =~= key);
    assert(entry_at(s, 0) == Some((key, value, end)));
    assert(entries_from(s, end + 1, 2) == Ok::<Seq<(Seq<char>, Seq<char>)>, LinePosition>(
        Seq::empty(),
    ));
    assert(seq![(key, value)] + Seq::<(Seq<char>, Seq<char>)>::empty() =~= seq![(key, value)]);
}

/// A text of nothing but spaces and line breaks holds no document.
pub proof fn law_blank_text(s: Seq<char>)
    requires
        forall|j: int| 0 <= j < s.len() ==> (#[trigger] s[j] == ' ' || s[j] == '\n'),
    ensures
        documents(s) == Ok::<Seq<Seq<(Seq<char>, Seq<char>)>>, LinePosition>(Seq::empty()),
{
    lemma_blank_entries(s, 0, 1);
}

proof fn lemma_blank_entries(s: Seq<char>, i: int, line: nat)
    requires
        0 <= i,
        forall|j: int| 0 <= j < s.len() ==> (#[trigger] s[j] == ' ' || s[j] == '\n'),
    ensures
        entries_from(s, i, line) == Ok::<Seq<(Seq<char>, Seq<char>)>, LinePosition>(
            Seq::empty(),
        ),
    decreases s.len() + 1 - i,
{
    if i < s.len() {
        lemma_run_length_bound(s, i, ' ');
        let j = i + run_length(s, i, ' ');
        if j < s.len() {
            lemma_run_facts_spaces(s, i);
            lemma_blank_entries(s, j + 1, line + 1);
        }
    }
}

proof fn lemma_run_facts_spaces(s: Seq<char>, i: int)
    requires
        0 <= i <= s.len(),
    ensures
        i + run_length(s, i, ' ') == s.len() || s[i + run_length(s, i, ' ')] != ' ',
    decreases s.len() - i,
{
    if i < s.len() && s[i] == ' ' {
        lemma_run_facts_spaces(s, i + 1);
    }
}

/// `get` finds the value of the last entry with the key: the entry `i` has
/// the key and value, and no later entry has the key; and no entry has a key
/// that `get` does not find.
pub proof fn law_lookup(entries: Seq<(Seq<char>, Seq<char>)>, key: Seq<char>)
    ensures
        match lookup(entries, key) {
            Some(v) => exists|i: int|
                0 <= i < entries.len() && #[trigger] entries[i] == (key, v) && forall|j: int|
                    i < j < entries.len() ==> (#[trigger] entries[j]).0 != key,
            None => forall|i: int| 0 <= i < entries.len() ==> (#[trigger] entries[i]).0 != key,
        },
    decreases entries.len(),
{
    if entries.len() > 0 {
        let init = entries.drop_last();
        law_lookup(init, key);
        if entries.last().0 == key {
            assert(entries[entries.len() - 1] == (key, entries.last().1));
        } else {
            match lookup(init, key) {
                Some(v) => {
                    let i = choose|i: int|
                        0 <= i < init.len() && #[trigger] init[i] == (key, v) && forall|j: int|
                            i < j < init.len() ==> (#[trigger] init[j]).0 != key;
                    assert(entries[i] == init[i]);
                    assert forall|j: int| i < j < entries.len() implies (
                    #[trigger] entries[j]).0 != key by {
                        if j < init.len() {
                            assert(entries[j] == init[j]);
                        }
                    }
                },
                None => {
                    assert forall|i: int| 0 <= i < entries.len() implies (
                    #[trigger] entries[i]).0 != key by {
                        if i < init.len() {
                            assert(entries[i] == init[i]);
                        }
                    }
                },
            }
        }
    }
}


/// The single-character escapes, whatever follows them: `\0` NUL, `\a`
/// bell, `\b` backspace, `\t` (or a tab) tab, `\n` line feed, `\v` vertical
/// tab, `\f` form feed, `\r` carriage return, `\e` escape, `\ ` space, `\"`,
/// `\/`, `\\`, `\N` next line (U+0085), `\_` no-break space (U+00A0), `\L`
/// line separator (U+2028), `\P` paragraph separator (U+2029); each takes
/// one character after the backslash.  Other letters are no escape.
pub proof fn law_simple_escapes(rest: Seq<char>)
    ensures
        escape_at(seq!['0'] + rest, 0) == Some((0x00 as char, 1int)),
        escape_at(seq!['a'] + rest, 0) == Some((0x07 as char, 1int)),
        escape_at(seq!['b'] + rest, 0) == Some((0x08 as char, 1int)),
        escape_at(seq!['t'] + rest, 0) == Some((0x09 as char, 1int)),
        escape_at(seq!['\t'] + rest, 0) == Some((0x09 as char, 1int)),
        escape_at(seq!['n'] + rest, 0) == Some((0x0A as char, 1int)),
        escape_at(seq!['v'] + rest, 0) == Some((0x0B as char, 1int)),
        escape_at(seq!['f'] + rest, 0) == Some((0x0C as char, 1int)),
        escape_at(seq!['r'] + rest, 0) == Some((0x0D as char, 1int)),
        escape_at(seq!['e'] + rest, 0) == Some((0x1B as char, 1int)),
        escape_at(seq![' '] + rest, 0) == Some((0x20 as char, 1int)),
        escape_at(seq!['"'] + rest, 0) == Some((0x22 as char, 1int)),
        escape_at(seq!['/'] + rest, 0) == Some((0x2F as char, 1int)),
        escape_at(seq!['\\'] + rest, 0) == Some((0x5C as char, 1int)),
        escape_at(seq!['N'] + rest, 0) == Some((0x85 as char, 1int)),
        escape_at(seq!['_'] + rest, 0) == Some((0xA0 as char, 1int)),
        escape_at(seq!['L'] + rest, 0) == Some((0x2028 as char, 1int)),
        escape_at(seq!['P'] + rest, 0) == Some((0x2029 as char, 1int)),
        escape_at(seq!['q'] + rest, 0) is None,
        escape_at(seq!['z'] + rest, 0) is None,
{
    assert(('0' as u32) == 0x30 && ('\0' as u32) == 0x00 && ('\u{7}' as u32) == 0x07);
    assert(('\u{8}' as u32) == 0x08 && ('\t' as u32) == 0x09 && ('\n' as u32) == 0x0A);
    assert(('\u{B}' as u32) == 0x0B && ('\u{C}' as u32) == 0x0C && ('\r' as u32) == 0x0D);
    assert(('\u{1B}' as u32) == 0x1B && (' ' as u32) == 0x20 && ('"' as u32) == 0x22);
    assert(('/' as u32) == 0x2F && ('\\' as u32) == 0x5C && ('\u{85}' as u32) == 0x85);
    assert(('\u{A0}' as u32) == 0xA0 && ('\u{2028}' as u32) == 0x2028 && ('\u{2029}' as u32)
        == 0x2029);
    assert((0x00 as char) == '\0' && (0x07 as char) == '\u{7}' && (0x08 as char) == '\u{8}');
    assert((0x09 as char) == '\t' && (0x0A as char) == '\n' && (0x0B as char) == '\u{B}');
    assert((0x0C as char) == '\u{C}' && (0x0D as char) == '\r' && (0x1B as char) == '\u{1B}');
    assert((0x20 as char) == ' ' && (0x22 as char) == '"' && (0x2F as char) == '/');
    assert((0x5C as char) == '\\' && (0x85 as char) == '\u{85}' && (0xA0 as char) == '\u{A0}');
    assert((0x2028 as char) == '\u{2028}' && (0x2029 as char) == '\u{2029}');
}

} // verus!
