//! Character classes of the lexical grammar.
use vstd::prelude::*;
use unicode_xid::UnicodeXID;

verus! {

/// Whether `c` has the Unicode property XID_Start.
pub uninterp spec fn xid_start(c: char) -> bool;

/// Whether `c` has the Unicode property XID_Continue.
pub uninterp spec fn xid_continue(c: char) -> bool;

pub open spec fn is_ascii_letter(c: char) -> bool {
    ('a' <= c && c <= 'z') || ('A' <= c && c <= 'Z')
}

/// Relies on `UnicodeXID::is_xid_start` of unicode-xid: the XID_Start
/// property of `c`; on ASCII it holds of the letters alone.
#[verifier::external_body]
fn xid_start_of(c: char) -> (r: bool)
    ensures
        r == xid_start(c),
        c <= '\x7f' ==> (r == is_ascii_letter(c)),
{
    UnicodeXID::is_xid_start(c)
}

/// Relies on `UnicodeXID::is_xid_continue` of unicode-xid: the XID_Continue
/// property of `c`; on ASCII it holds of letters, digits and `_` alone.
#[verifier::external_body]
fn xid_continue_of(c: char) -> (r: bool)
    ensures
        r == xid_continue(c),
        c <= '\x7f' ==> (r == (is_ascii_letter(c) || ('0' <= c && c <= '9') || c == '_')),
{
    UnicodeXID::is_xid_continue(c)
}

/// The Unicode White_Space property.
pub open spec fn is_white_space(c: char) -> bool {
    ('\u{9}' <= c && c <= '\u{d}') || c == ' ' || c == '\u{85}' || c == '\u{a0}' || c == '\u{1680}'
        || ('\u{2000}' <= c && c <= '\u{200a}') || c == '\u{2028}' || c == '\u{2029}' || c
        == '\u{202f}' || c == '\u{205f}' || c == '\u{3000}'
}

/// Relies on `char::is_whitespace`: true exactly of the characters with the
/// White_Space property.
#[verifier::external_body]
pub(crate) fn white_space(c: char) -> (r: bool)
    ensures
        r == is_white_space(c),
{
    c.is_whitespace()
}

/// Identifiers start with `_` or an XID_Start character.
pub open spec fn ident_start(c: char) -> bool {
    c == '_' || if c <= '\x7f' {
        is_ascii_letter(c)
    } else {
        xid_start(c)
    }
}

/// Identifiers continue with XID_Continue characters, `-` and `'`.
pub open spec fn ident_continue(c: char) -> bool {
    c == '-' || c == '\'' || if c <= '\x7f' {
        is_ascii_letter(c) || is_decimal_digit(c) || c == '_'
    } else {
        xid_continue(c)
    }
}

pub open spec fn operator_start(c: char) -> bool {
    c == '-'
}

pub open spec fn operator_continue(c: char) -> bool {
    c == '-' || c == '>'
}

pub open spec fn is_decimal_digit(c: char) -> bool {
    '0' <= c && c <= '9'
}

/// The value of `c` as a digit in any radix up to 36, or 36 if it is none.
pub open spec fn digit_value(c: char) -> int {
    if '0' <= c && c <= '9' {
        c as int - '0' as int
    } else if 'a' <= c && c <= 'z' {
        c as int - 'a' as int + 10
    } else if 'A' <= c && c <= 'Z' {
        c as int - 'A' as int + 10
    } else {
        36
    }
}

pub open spec fn is_digit_in(c: char, base: int) -> bool {
    digit_value(c) < base
}

/// The radix that a letter after a leading `0` selects.
pub open spec fn radix_of_letter(c: char) -> Option<int> {
    if c == 'b' || c == 'B' {
        Some(2)
    } else if c == 'o' || c == 'O' {
        Some(8)
    } else if c == 'd' || c == 'D' {
        Some(10)
    } else if c == 'x' || c == 'X' {
        Some(16)
    } else {
        None
    }
}

pub fn is_ident_start(c: char) -> (r: bool)
    ensures
        r == ident_start(c),
{
    c == '_' || xid_start_of(c)
}

pub fn is_ident_continue(c: char) -> (r: bool)
    ensures
        r == ident_continue(c),
{
    c == '-' || c == '\'' || xid_continue_of(c)
}

pub fn is_operator_start(c: char) -> (r: bool)
    ensures
        r == operator_start(c),
{
    c == '-'
}

pub fn is_operator_continue(c: char) -> (r: bool)
    ensures
        r == operator_continue(c),
{
    is_operator_start(c) || c == '>'
}

/// The value of `c` as a digit in radix `base`, if it is one.
pub fn digit_in(c: char, base: u32) -> (r: Option<u32>)
    requires
        2 <= base <= 36,
    ensures
        match r {
            Some(v) => is_digit_in(c, base as int) && v == digit_value(c),
            None => !is_digit_in(c, base as int),
        },
{
    let v: u32 = if '0' <= c && c <= '9' {
        (c as u32) - ('0' as u32)
    } else if 'a' <= c && c <= 'z' {
        (c as u32) - ('a' as u32) + 10
    } else if 'A' <= c && c <= 'Z' {
        (c as u32) - ('A' as u32) + 10
    } else {
        36
    };
    if v < base {
        Some(v)
    } else {
        None
    }
}

/// The radix that a letter after a leading `0` selects: `b` binary, `o`
/// octal, `d` decimal, `x` hexadecimal, either case.
pub fn base_of_letter(c: char) -> (r: Option<u32>)
    ensures
        match radix_of_letter(c) {
            Some(b) => r == Some(b as u32),
            None => r is None,
        },
{
    match c {
        'b' | 'B' => Some(2),
        'o' | 'O' => Some(8),
        'd' | 'D' => Some(10),
        'x' | 'X' => Some(16),
        _ => None,
    }
}

} // verus!
