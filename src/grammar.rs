//! The lexical grammar, stated over the source's characters: what token
//! starts at a position, and where it ends, or which error is met there.
use vstd::prelude::*;
use crate::chars::{
    digit_value, ident_continue, ident_start, is_decimal_digit, is_digit_in, is_white_space,
    operator_continue, operator_start, radix_of_letter,
};
use crate::error::ErrorKind;
use crate::lexer::StringKind;

verus! {

/// The runs of characters the scanner consumes.
#[derive(Clone, Copy, Debug, PartialEq, Eq, Structural)]
pub enum CharClass {
    IdentContinue,
    OperatorContinue,
    Digit(u32),
    StringBody,
}

pub open spec fn in_class(c: char, k: CharClass) -> bool {
    match k {
        CharClass::IdentContinue => ident_continue(c),
        CharClass::OperatorContinue => operator_continue(c),
        CharClass::Digit(b) => is_digit_in(c, b as int),
        CharClass::StringBody => c != '"' && c != '\\',
    }
}

/// Where the run of class `k` that starts at `i` ends.
pub open spec fn run_end(cs: Seq<char>, i: int, k: CharClass) -> int
    decreases cs.len() - i,
{
    if 0 <= i < cs.len() && in_class(cs[i], k) {
        run_end(cs, i + 1, k)
    } else {
        i
    }
}

/// A token as the grammar sees it, before any spelling is interned.
pub enum Lexeme {
    Eof,
    Integer(u64),
    Text(StringKind, Seq<char>),
    Word(Seq<char>),
    Op(Seq<char>),
    Arrow,
    Colon,
    Semicolon,
    OpenParen,
    CloseParen,
    OpenBrace,
    CloseBrace,
}

/// The outcome of scanning: a lexeme with the span it covers, or an error
/// kind with its span.
pub type Scan = Result<(Lexeme, int, int), (ErrorKind, int, int)>;

pub open spec fn opens_comment(cs: Seq<char>, p: int) -> bool {
    0 <= p && p + 1 < cs.len() && cs[p] == '[' && cs[p + 1] == '%'
}

pub open spec fn closes_comment(cs: Seq<char>, p: int) -> bool {
    0 <= p && p + 1 < cs.len() && cs[p] == '%' && cs[p + 1] == ']'
}

/// Skips whitespace and block comments from `pos`, inside `depth` open
/// comments of which the outermost opened at `open`. Gives the position of
/// the next significant character, or the error for a comment left open.
pub open spec fn skip_trivia(cs: Seq<char>, pos: int, depth: nat, open: int) -> Result<int, (ErrorKind, int, int)>
    decreases cs.len() - pos,
{
    if pos >= cs.len() {
        if depth == 0 {
            Ok(pos)
        } else {
            Err((ErrorKind::UnterminatedComment, open, cs.len() as int))
        }
    } else if depth == 0 {
        if is_white_space(cs[pos]) {
            skip_trivia(cs, pos + 1, 0, open)
        } else if opens_comment(cs, pos) {
            skip_trivia(cs, pos + 2, 1, pos)
        } else {
            Ok(pos)
        }
    } else if opens_comment(cs, pos) {
        skip_trivia(cs, pos + 2, depth + 1, open)
    } else if closes_comment(cs, pos) {
        skip_trivia(cs, pos + 2, (depth - 1) as nat, open)
    } else {
        skip_trivia(cs, pos + 1, depth, open)
    }
}

/// The value of a digit sequence in radix `base`.
pub open spec fn digits_value(s: Seq<char>, base: int) -> int
    decreases s.len(),
{
    if s.len() == 0 {
        0
    } else {
        digits_value(s.drop_last(), base) * base + digit_value(s.last())
    }
}

/// The digits of radix `base` from `d` on, for a numeral that began at
/// `start`: they must not run into an identifier character, and their value
/// must fit 64 bits.
pub open spec fn number_tail(cs: Seq<char>, start: int, d: int, base: int) -> Scan {
    let e = run_end(cs, d, CharClass::Digit(base as u32));
    let v = digits_value(cs.subrange(d, e), base);
    if e < cs.len() && ident_continue(cs[e]) {
        Err((ErrorKind::AmbiguousNumeralIdentifierAdjacency, start, e + 1))
    } else if v > u64::MAX {
        Err((ErrorKind::InvalidNumericLiteral, start, e))
    } else {
        Ok((Lexeme::Integer(v as u64), start, e))
    }
}

/// A numeral at `p`: `0` and a radix letter, then at least one digit of that
/// radix; otherwise decimal digits.
pub open spec fn number_at(cs: Seq<char>, p: int) -> Scan {
    if cs[p] == '0' && p + 1 < cs.len() && radix_of_letter(cs[p + 1]) is Some {
        let b = radix_of_letter(cs[p + 1])->0;
        if p + 2 < cs.len() && is_digit_in(cs[p + 2], b) {
            number_tail(cs, p, p + 2, b)
        } else {
            Err((ErrorKind::InvalidNumericLiteral, p, p + 2))
        }
    } else {
        number_tail(cs, p, p, 10)
    }
}

/// A string literal whose text starts at `q`; the literal began at `start`.
pub open spec fn string_at(cs: Seq<char>, q: int, kind: StringKind, start: int) -> Scan {
    let e = run_end(cs, q, CharClass::StringBody);
    if e >= cs.len() {
        Err((ErrorKind::UnterminatedString, start, cs.len() as int))
    } else if cs[e] == '\\' {
        Err((ErrorKind::UnsupportedEscape, e, e + 1))
    } else {
        Ok((Lexeme::Text(kind, cs.subrange(q, e)), start, e + 1))
    }
}

/// An identifier at `p`, or the prefix of a string literal if a quote
/// follows it directly.
pub open spec fn word_at(cs: Seq<char>, p: int) -> Scan {
    let e = run_end(cs, p + 1, CharClass::IdentContinue);
    if e < cs.len() && cs[e] == '"' {
        let prefix = cs.subrange(p, e);
        if prefix == seq!['c'] || prefix == seq!['C'] {
            string_at(cs, e + 1, StringKind::CString, p)
        } else {
            Err((ErrorKind::UnrecognizedStringPrefix, p, e))
        }
    } else {
        Ok((Lexeme::Word(cs.subrange(p, e)), p, e))
    }
}

/// An operator at `p`; `->` is the arrow.
pub open spec fn operator_at(cs: Seq<char>, p: int) -> Scan {
    let e = run_end(cs, p + 1, CharClass::OperatorContinue);
    if cs.subrange(p, e) == seq!['-', '>'] {
        Ok((Lexeme::Arrow, p, e))
    } else {
        Ok((Lexeme::Op(cs.subrange(p, e)), p, e))
    }
}

pub open spec fn punctuation(c: char) -> Option<Lexeme> {
    if c == ':' {
        Some(Lexeme::Colon)
    } else if c == ';' {
        Some(Lexeme::Semicolon)
    } else if c == '(' {
        Some(Lexeme::OpenParen)
    } else if c == ')' {
        Some(Lexeme::CloseParen)
    } else if c == '{' {
        Some(Lexeme::OpenBrace)
    } else if c == '}' {
        Some(Lexeme::CloseBrace)
    } else {
        None
    }
}

/// The token that starts at the significant position `p`.
pub open spec fn lexeme_at(cs: Seq<char>, p: int) -> Scan {
    if p >= cs.len() {
        Ok((Lexeme::Eof, p, p))
    } else if punctuation(cs[p]) is Some {
        Ok((punctuation(cs[p])->0, p, p + 1))
    } else if cs[p] == '"' {
        string_at(cs, p + 1, StringKind::Normal, p)
    } else if ident_start(cs[p]) {
        word_at(cs, p)
    } else if operator_start(cs[p]) {
        operator_at(cs, p)
    } else if is_decimal_digit(cs[p]) {
        number_at(cs, p)
    } else {
        Err((ErrorKind::UnrecognizedCharacter, p, p + 1))
    }
}

/// The next token at or after `pos`, skipping whitespace and comments.
pub open spec fn next_lexeme(cs: Seq<char>, pos: int) -> Scan {
    match skip_trivia(cs, pos, 0, pos) {
        Err(f) => Err(f),
        Ok(p) => lexeme_at(cs, p),
    }
}

/// The run of class `k` from `i` stays within the source, holds only
/// characters of the class, and stops at the end or at one outside it.
pub proof fn lemma_run_end(cs: Seq<char>, i: int, k: CharClass)
    requires
        0 <= i <= cs.len(),
    ensures
        i <= run_end(cs, i, k) <= cs.len(),
        forall|j: int| i <= j < run_end(cs, i, k) ==> in_class(#[trigger] cs[j], k),
        run_end(cs, i, k) < cs.len() ==> !in_class(cs[run_end(cs, i, k)], k),
    decreases cs.len() - i,
{
    if i < cs.len() && in_class(cs[i], k) {
        lemma_run_end(cs, i + 1, k);
    }
}

} // verus!

verus! {

/// Skipping never moves backwards, nor past the end.
pub proof fn lemma_skip_trivia_bounds(cs: Seq<char>, pos: int, depth: nat, open: int)
    requires
        0 <= pos <= cs.len(),
    ensures
        skip_trivia(cs, pos, depth, open) is Ok ==> pos <= skip_trivia(cs, pos, depth, open)->Ok_0 <= cs.len(),
    decreases cs.len() - pos,
{
    if pos >= cs.len() {
    } else if depth == 0 {
        if is_white_space(cs[pos]) {
            lemma_skip_trivia_bounds(cs, pos + 1, 0, open);
        } else if opens_comment(cs, pos) {
            lemma_skip_trivia_bounds(cs, pos + 2, 1, pos);
        }
    } else if opens_comment(cs, pos) {
        lemma_skip_trivia_bounds(cs, pos + 2, depth + 1, open);
    } else if closes_comment(cs, pos) {
        lemma_skip_trivia_bounds(cs, pos + 2, (depth - 1) as nat, open);
    } else {
        lemma_skip_trivia_bounds(cs, pos + 1, depth, open);
    }
}

/// A lexeme found at `p` starts there and ends within the source; only the
/// end of input is empty.
pub proof fn lemma_lexeme_span(cs: Seq<char>, p: int)
    requires
        0 <= p <= cs.len(),
    ensures
        match lexeme_at(cs, p) {
            Ok((lx, a, b)) => a == p && b <= cs.len() && (lx is Eof ==> b == p) && (!(lx is Eof) ==> p < b),
            Err(_) => true,
        },
{
    if p < cs.len() {
        let c = cs[p];
        if punctuation(c) is Some {
        } else if c == '"' {
            lemma_run_end(cs, p + 1, CharClass::StringBody);
        } else if ident_start(c) {
            lemma_run_end(cs, p + 1, CharClass::IdentContinue);
            let e = run_end(cs, p + 1, CharClass::IdentContinue);
            if e < cs.len() && cs[e] == '"' {
                lemma_run_end(cs, e + 1, CharClass::StringBody);
            }
        } else if operator_start(c) {
            lemma_run_end(cs, p + 1, CharClass::OperatorContinue);
        } else if is_decimal_digit(c) {
            if c == '0' && p + 1 < cs.len() && radix_of_letter(cs[p + 1]) is Some {
                let b = radix_of_letter(cs[p + 1])->0;
                if p + 2 < cs.len() {
                    lemma_run_end(cs, p + 2, CharClass::Digit(b as u32));
                }
            } else {
                lemma_run_end(cs, p, CharClass::Digit(10));
                assert(in_class(c, CharClass::Digit(10)));
            }
        }
    }
}

/// Scanning consumes the source left to right: each lexeme lies at or after
/// the position scanning began from, and every lexeme but the end of input
/// covers at least one character.
pub proof fn lemma_next_lexeme_advances(cs: Seq<char>, pos: int)
    requires
        0 <= pos <= cs.len(),
    ensures
        match next_lexeme(cs, pos) {
            Ok((lx, a, b)) => pos <= a <= b <= cs.len() && (!(lx is Eof) ==> a < b),
            Err(_) => true,
        },
{
    lemma_skip_trivia_bounds(cs, pos, 0, pos);
    if skip_trivia(cs, pos, 0, pos) is Ok {
        lemma_lexeme_span(cs, skip_trivia(cs, pos, 0, pos)->Ok_0);
    }
}

} // verus!
