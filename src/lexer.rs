//! The scanner: pulls tokens one at a time from a source text, interning
//! every identifier and operator spelling through the session context.
use vstd::prelude::*;
use crate::chars::{
    base_of_letter, digit_in, is_ident_continue, is_ident_start, is_operator_continue,
    is_operator_start, white_space,
};
use crate::context::{interned_into, names, Context, LiteralRef};
use crate::error::{ErrorKind, LexError};
use crate::grammar::{
    digits_value, in_class, lemma_next_lexeme_advances, lemma_run_end, lexeme_at, number_at, operator_at, string_at, word_at,
    next_lexeme, number_tail, run_end, skip_trivia, CharClass, Lexeme, Scan,
};
use crate::interner::Interned;
use crate::text::{nfc_of, push_char, text_error};

verus! {

/// Which kind of string literal: plain, or a `c"..."` literal for native
/// interop.
#[derive(Clone, Copy, Debug, PartialEq, Eq, Structural)]
pub enum StringKind {
    Normal,
    CString,
}

/// A token. Identifiers and operators carry their handle in the identifier
/// arena, string literals their entry in the literal log.
#[derive(Clone, Copy, Debug, PartialEq, Eq, Structural)]
pub enum Token {
    Eof,
    IntegerLiteral(u64),
    StringLiteral(StringKind, LiteralRef),
    Operator(Interned),
    Identifier(Interned),
    Arrow,
    KeywordFunc,
    KeywordExtern,
    KeywordUnderscore,
    Colon,
    Semicolon,
    OpenParen,
    CloseParen,
    OpenBrace,
    CloseBrace,
}

/// The keyword a normalized spelling stands for, if any.
pub open spec fn keyword(n: Seq<char>) -> Option<Token> {
    if n == seq!['_'] {
        Some(Token::KeywordUnderscore)
    } else if n == seq!['f', 'u', 'n', 'c'] {
        Some(Token::KeywordFunc)
    } else if n == seq!['e', 'x', 't', 'e', 'r', 'n'] {
        Some(Token::KeywordExtern)
    } else {
        None
    }
}

/// The error result for kind `k` over the span `a..b`.
pub open spec fn failure(k: ErrorKind, a: int, b: int) -> Result<Token, LexError> {
    Err(LexError { kind: k, start: a as usize, end: b as usize })
}

/// What the scanner returns for lexeme `lx` spanning `a..b`, taking the
/// context from `c0` to `c1`. A spelling that cannot be stored fails with
/// the span of the spelling, and leaves the context alone.
pub open spec fn token_outcome(lx: Lexeme, a: int, b: int, c0: Context, c1: Context, r: Result<Token, LexError>) -> bool {
    match lx {
        Lexeme::Word(w) => match text_error(nfc_of(w)) {
            Some(k) => r == failure(k, a, b) && c1 == c0,
            None => interned_into(c0, c1, nfc_of(w)) && match r {
                Ok(Token::Identifier(h)) => keyword(nfc_of(w)) is None && names(c1, h, nfc_of(w)),
                Ok(t) => keyword(nfc_of(w)) == Some(t),
                Err(_) => false,
            },
        },
        Lexeme::Op(o) => match text_error(nfc_of(o)) {
            Some(k) => r == failure(k, a, b) && c1 == c0,
            None => interned_into(c0, c1, nfc_of(o)) && match r {
                Ok(Token::Operator(h)) => names(c1, h, nfc_of(o)),
                _ => false,
            },
        },
        Lexeme::Text(kind, t) => {
            &&& c1.literals() == c0.literals().push(t)
            &&& c1.identifiers() == c0.identifiers()
            &&& c1.types() == c0.types()
            &&& match r {
                Ok(Token::StringLiteral(k, l)) => k == kind && l.slot() == c0.literals().len(),
                _ => false,
            }
        },
        _ => c1 == c0 && r == Ok::<Token, LexError>(simple_token(lx)),
    }
}

/// The token of a lexeme that carries no spelling.
pub open spec fn simple_token(lx: Lexeme) -> Token {
    match lx {
        Lexeme::Integer(v) => Token::IntegerLiteral(v),
        Lexeme::Arrow => Token::Arrow,
        Lexeme::Colon => Token::Colon,
        Lexeme::Semicolon => Token::Semicolon,
        Lexeme::OpenParen => Token::OpenParen,
        Lexeme::CloseParen => Token::CloseParen,
        Lexeme::OpenBrace => Token::OpenBrace,
        Lexeme::CloseBrace => Token::CloseBrace,
        _ => Token::Eof,
    }
}

/// The result `r` and the position `next` after it follow scan `s`.
pub open spec fn scanned(s: Scan, c0: Context, c1: Context, r: Result<Token, LexError>, next: int) -> bool {
    match s {
        Err((k, a, b)) => r == failure(k, a, b) && c1 == c0,
        Ok((lx, a, b)) => token_outcome(lx, a, b, c0, c1, r) && (r is Ok ==> next == b),
    }
}

/// The characters `a..b` of `cs` as a string.
fn spelling(cs: &Vec<char>, a: usize, b: usize) -> (s: String)
    requires
        a <= b <= cs@.len(),
    ensures
        s@ == cs@.subrange(a as int, b as int),
{
    let mut s = String::new();
    let mut i: usize = a;
    while i < b
        invariant
            a <= i <= b <= cs@.len(),
            s@ == cs@.subrange(a as int, i as int),
        decreases b - i,
    {
        push_char(&mut s, cs[i]);
        assert(cs@.subrange(a as int, i + 1) =~= cs@.subrange(a as int, i as int).push(cs@[i as int]));
        i = i + 1;
    }
    s
}

/// Digit classes name a radix that a character can be a digit of.
pub open spec fn class_ok(k: CharClass) -> bool {
    match k {
        CharClass::Digit(b) => 2 <= b <= 36,
        _ => true,
    }
}

fn in_class_char(c: char, k: CharClass) -> (r: bool)
    requires
        class_ok(k),
    ensures
        r == in_class(c, k),
{
    match k {
        CharClass::IdentContinue => is_ident_continue(c),
        CharClass::OperatorContinue => is_operator_continue(c),
        CharClass::Digit(b) => digit_in(c, b).is_some(),
        CharClass::StringBody => c != '"' && c != '\\',
    }
}

/// Where the run of class `k` from `i` ends.
fn run_end_at(cs: &Vec<char>, i: usize, k: CharClass) -> (e: usize)
    requires
        i <= cs@.len(),
        class_ok(k),
    ensures
        e == run_end(cs@, i as int, k),
        i <= e <= cs@.len(),
{
    proof {
        lemma_run_end(cs@, i as int, k);
    }
    let mut j: usize = i;
    while j < cs.len() && in_class_char(cs[j], k)
        invariant
            i <= j <= cs@.len(),
            class_ok(k),
            run_end(cs@, i as int, k) == run_end(cs@, j as int, k),
        decreases cs@.len() - j,
    {
        j = j + 1;
    }
    j
}

/// Skips the rest of a block comment whose body starts at `p`, the comment
/// having opened at `open`; nested comments are skipped whole. Gives the
/// position just after the matching `%]`.
fn block_comment(cs: &Vec<char>, p: usize, open: usize) -> (r: Result<usize, LexError>)
    requires
        p <= cs@.len(),
        open < p,
    ensures
        match r {
            Ok(e) => p <= e <= cs@.len() && skip_trivia(cs@, p as int, 1, open as int) == skip_trivia(
                cs@,
                e as int,
                0,
                open as int,
            ),
            Err(err) => err == LexError { kind: ErrorKind::UnterminatedComment, start: open, end: cs@.len() as usize }
                && skip_trivia(cs@, p as int, 1, open as int) == Err::<int, (ErrorKind, int, int)>((
                ErrorKind::UnterminatedComment,
                open as int,
                cs@.len() as int,
            )),
        },
{
    let n = cs.len();
    let mut i: usize = p;
    let mut depth: usize = 1;
    while depth > 0
        invariant
            n == cs@.len(),
            p <= i <= n,
            depth <= i,
            skip_trivia(cs@, p as int, 1, open as int) == skip_trivia(cs@, i as int, depth as nat, open as int),
        decreases n - i, depth,
    {
        if i >= n {
            return Err(LexError { kind: ErrorKind::UnterminatedComment, start: open, end: n });
        }
        if cs[i] == '[' && i + 1 < n && cs[i + 1] == '%' {
            i = i + 2;
            depth = depth + 1;
        } else if cs[i] == '%' && i + 1 < n && cs[i + 1] == ']' {
            i = i + 2;
            depth = depth - 1;
        } else {
            i = i + 1;
        }
    }
    Ok(i)
}

/// Skips whitespace and comments from `pos`.
fn skip_trivia_at(cs: &Vec<char>, pos: usize) -> (r: Result<usize, LexError>)
    requires
        pos <= cs@.len(),
    ensures
        match skip_trivia(cs@, pos as int, 0, pos as int) {
            Ok(p) => r is Ok && r->Ok_0 == p && pos <= p <= cs@.len(),
            Err((k, a, b)) => r == Err::<usize, LexError>(LexError { kind: k, start: a as usize, end: b as usize }),
        },
{
    let n = cs.len();
    let mut p: usize = pos;
    let mut open: usize = pos;
    loop
        invariant
            n == cs@.len(),
            pos <= p <= n,
            open <= n,
            skip_trivia(cs@, pos as int, 0, pos as int) == skip_trivia(cs@, p as int, 0, open as int),
        decreases n - p,
    {
        if p >= n {
            return Ok(p);
        }
        let c = cs[p];
        if white_space(c) {
            p = p + 1;
        } else if c == '[' && p + 1 < n && cs[p + 1] == '%' {
            open = p;
            p = block_comment(cs, p + 2, p)?;
        } else {
            return Ok(p);
        }
    }
}

/// The digits of radix `base` from `d` on, for a numeral begun at `start`.
fn lex_number_tail(cs: &Vec<char>, start: usize, d: usize, base: u32) -> (r: Result<(u64, usize), LexError>)
    requires
        start <= d <= cs@.len(),
        2 <= base <= 16,
    ensures
        match number_tail(cs@, start as int, d as int, base as int) {
            Ok((Lexeme::Integer(v), _, e)) => r == Ok::<(u64, usize), LexError>((v, e as usize)) && 0 <= e <= cs@.len(),
            Err((k, a, b)) => r == Err::<(u64, usize), LexError>(LexError { kind: k, start: a as usize, end: b as usize }),
            _ => false,
        },
{
    let ghost cls = CharClass::Digit(base);
    let e = run_end_at(cs, d, CharClass::Digit(base));
    proof {
        lemma_run_end(cs@, d as int, cls);
    }
    if e < cs.len() && is_ident_continue(cs[e]) {
        return Err(LexError { kind: ErrorKind::AmbiguousNumeralIdentifierAdjacency, start, end: e + 1 });
    }
    let mut acc: u64 = 0;
    let mut over = false;
    let mut i: usize = d;
    assert(cs@.subrange(d as int, d as int).len() == 0);
    while i < e
        invariant
            d <= i <= e <= cs@.len(),
            2 <= base <= 16,
            cls == CharClass::Digit(base),
            forall|j: int| d <= j < e ==> in_class(#[trigger] cs@[j], cls),
            over ==> digits_value(cs@.subrange(d as int, i as int), base as int) > u64::MAX,
            !over ==> acc == digits_value(cs@.subrange(d as int, i as int), base as int),
        decreases e - i,
    {
        let ghost before = digits_value(cs@.subrange(d as int, i as int), base as int);
        let ghost after = digits_value(cs@.subrange(d as int, i + 1), base as int);
        assert(in_class(cs@[i as int], cls));
        let v: u32 = match digit_in(cs[i], base) {
            Some(v) => v,
            None => 0,
        };
        proof {
            let s = cs@.subrange(d as int, i + 1);
            assert(s.drop_last() =~= cs@.subrange(d as int, i as int));
            assert(s.last() == cs@[i as int]);
            assert(after == before * base + v);
        }
        if !over {
            match acc.checked_mul(base as u64) {
                Some(m) => match m.checked_add(v as u64) {
                    Some(t) => {
                        acc = t;
                    },
                    None => {
                        over = true;
                    },
                },
                None => {
                    assert(acc * base + v > u64::MAX) by (nonlinear_arith)
                        requires
                            acc * base > u64::MAX,
                            v >= 0,
                    ;
                    over = true;
                },
            }
        } else {
            assert(before * base + v > u64::MAX) by (nonlinear_arith)
                requires
                    before > u64::MAX,
                    base >= 2,
                    v >= 0,
            ;
        }
        i = i + 1;
    }
    if over {
        Err(LexError { kind: ErrorKind::InvalidNumericLiteral, start, end: e })
    } else {
        Ok((acc, e))
    }
}

/// A numeral at `p`.
fn lex_number(cs: &Vec<char>, p: usize) -> (r: Result<(u64, usize), LexError>)
    requires
        p < cs@.len(),
    ensures
        match number_at(cs@, p as int) {
            Ok((Lexeme::Integer(v), _, e)) => r == Ok::<(u64, usize), LexError>((v, e as usize)) && 0 <= e <= cs@.len(),
            Err((k, a, b)) => r == Err::<(u64, usize), LexError>(LexError { kind: k, start: a as usize, end: b as usize }),
            _ => false,
        },
{
    let n = cs.len();
    if cs[p] == '0' && p + 1 < n {
        match base_of_letter(cs[p + 1]) {
            Some(b) => {
                if p + 2 < cs.len() && digit_in(cs[p + 2], b).is_some() {
                    return lex_number_tail(cs, p, p + 2, b);
                } else {
                    return Err(LexError { kind: ErrorKind::InvalidNumericLiteral, start: p, end: p + 2 });
                }
            },
            None => {},
        }
    }
    lex_number_tail(cs, p, p, 10)
}

/// A string literal whose text starts at `q`, begun at `start`. Gives where
/// its text ends.
fn lex_string(cs: &Vec<char>, q: usize, start: usize, kind: StringKind) -> (r: Result<usize, LexError>)
    requires
        start < q <= cs@.len(),
    ensures
        match string_at(cs@, q as int, kind, start as int) {
            Ok((Lexeme::Text(_, _), _, e)) => r == Ok::<usize, LexError>((e - 1) as usize) && q <= e - 1 < cs@.len()
                && string_at(cs@, q as int, kind, start as int) == Ok::<(Lexeme, int, int), (ErrorKind, int, int)>((
                Lexeme::Text(kind, cs@.subrange(q as int, e - 1)),
                start as int,
                e,
            )),
            Err((k, a, b)) => r == Err::<usize, LexError>(LexError { kind: k, start: a as usize, end: b as usize }),
            _ => false,
        },
{
    let e = run_end_at(cs, q, CharClass::StringBody);
    if e >= cs.len() {
        Err(LexError { kind: ErrorKind::UnterminatedString, start, end: cs.len() })
    } else if cs[e] == '\\' {
        Err(LexError { kind: ErrorKind::UnsupportedEscape, start: e, end: e + 1 })
    } else {
        Ok(e)
    }
}

/// The keyword token a spelling stands for, if any.
fn keyword_of(n: &[char]) -> (r: Option<Token>)
    ensures
        r == keyword(n@),
{
    if n.len() == 1 && n[0] == '_' {
        assert(n@ =~= seq!['_']);
        Some(Token::KeywordUnderscore)
    } else if n.len() == 4 && n[0] == 'f' && n[1] == 'u' && n[2] == 'n' && n[3] == 'c' {
        assert(n@ =~= seq!['f', 'u', 'n', 'c']);
        Some(Token::KeywordFunc)
    } else if n.len() == 6 && n[0] == 'e' && n[1] == 'x' && n[2] == 't' && n[3] == 'e' && n[4] == 'r' && n[5]
        == 'n' {
        assert(n@ =~= seq!['e', 'x', 't', 'e', 'r', 'n']);
        Some(Token::KeywordExtern)
    } else {
        assert(n@ != seq!['f', 'u', 'n', 'c']) by {
            if n@ == seq!['f', 'u', 'n', 'c'] {
                assert(n@.len() == 4 && n@[0] == 'f' && n@[1] == 'u' && n@[2] == 'n' && n@[3] == 'c');
            }
        }
        assert(n@ != seq!['e', 'x', 't', 'e', 'r', 'n']) by {
            if n@ == seq!['e', 'x', 't', 'e', 'r', 'n'] {
                assert(n@.len() == 6 && n@[0] == 'e' && n@[1] == 'x' && n@[2] == 't' && n@[3] == 'e'
                    && n@[4] == 'r' && n@[5] == 'n');
            }
        }
        assert(n@ != seq!['_']) by {
            if n@ == seq!['_'] {
                assert(n@.len() == 1 && n@[0] == '_');
            }
        }
        None
    }
}

/// A scanner over one source text.
pub struct Lexer {
    chars: Vec<char>,
    pos: usize,
}

impl Lexer {
    /// The source text being scanned.
    pub closed spec fn source(&self) -> Seq<char> {
        self.chars@
    }

    /// How many characters of the source have been consumed.
    pub closed spec fn position(&self) -> int {
        self.pos as int
    }

    /// The position lies within the source.
    pub closed spec fn wf(&self) -> bool {
        self.pos <= self.chars@.len()
    }

    /// A scanner at the start of `program`.
    pub fn new(program: &str) -> (r: Self)
        ensures
            r.wf(),
            r.source() == program@,
            r.position() == 0,
    {
        let mut chars: Vec<char> = Vec::new();
        for c in it: program.chars()
            invariant
                chars@ == it.seq().take(it.index() as int),
                it.seq() == program@,
        {
            chars.push(c);
        }
        Lexer { chars, pos: 0 }
    }

    /// How many characters of the source have been consumed.
    pub fn offset(&self) -> (r: usize)
        ensures
            r == self.position(),
    {
        self.pos
    }

    /// An identifier at `p`, or a prefixed string literal.
    fn match_identifier(&self, ctxt: &mut Context, p: usize) -> (r: (Result<Token, LexError>, usize))
        requires
            self.wf(),
            p < self.chars@.len(),
            old(ctxt).wf(),
        ensures
            final(ctxt).wf(),
            scanned(word_at(self.chars@, p as int), *old(ctxt), *final(ctxt), r.0, r.1 as int),
            r.1 <= self.chars@.len(),
    {
        let cs = &self.chars;
        let n = cs.len();
        let e = run_end_at(cs, p + 1, CharClass::IdentContinue);
        if e < cs.len() && cs[e] == '"' {
            if e == p + 1 && (cs[p] == 'c' || cs[p] == 'C') {
                assert(cs@.subrange(p as int, e as int) =~= seq![cs@[p as int]]);
                match lex_string(cs, e + 1, p, StringKind::CString) {
                    Err(err) => (Err(err), p),
                    Ok(q) => {
                        let text = spelling(cs, e + 1, q);
                        let l = ctxt.get_string_literal(text.as_str());
                        (Ok(Token::StringLiteral(StringKind::CString, l)), q + 1)
                    },
                }
            } else {
                proof {
                    let prefix = cs@.subrange(p as int, e as int);
                    if prefix == seq!['c'] || prefix == seq!['C'] {
                        assert(prefix.len() == 1);
                        assert(prefix[0] == cs@[p as int]);
                    }
                }
                (Err(LexError { kind: ErrorKind::UnrecognizedStringPrefix, start: p, end: e }), p)
            }
        } else {
            let w = spelling(cs, p, e);
            match ctxt.get_ident(w.as_str()) {
                Err(k) => (Err(LexError { kind: k, start: p, end: e }), p),
                Ok(h) => {
                    let t = ctxt.ident(h);
                    match keyword_of(t.as_chars()) {
                        Some(k) => (Ok(k), e),
                        None => (Ok(Token::Identifier(h)), e),
                    }
                },
            }
        }
    }

    /// An operator at `p`.
    fn match_operator(&self, ctxt: &mut Context, p: usize) -> (r: (Result<Token, LexError>, usize))
        requires
            self.wf(),
            p < self.chars@.len(),
            self.chars@[p as int] == '-',
            old(ctxt).wf(),
        ensures
            final(ctxt).wf(),
            scanned(operator_at(self.chars@, p as int), *old(ctxt), *final(ctxt), r.0, r.1 as int),
            r.1 <= self.chars@.len(),
    {
        let cs = &self.chars;
        let n = cs.len();
        let e = run_end_at(cs, p + 1, CharClass::OperatorContinue);
        if e - p == 2 && cs[p + 1] == '>' {
            assert(cs@.subrange(p as int, e as int) =~= seq!['-', '>']);
            (Ok(Token::Arrow), e)
        } else {
            proof {
                let s = cs@.subrange(p as int, e as int);
                if s == seq!['-', '>'] {
                    assert(s.len() == 2 && s[1] == '>');
                }
            }
            let o = spelling(cs, p, e);
            match ctxt.get_ident(o.as_str()) {
                Err(k) => (Err(LexError { kind: k, start: p, end: e }), p),
                Ok(h) => (Ok(Token::Operator(h)), e),
            }
        }
    }

    /// The token that starts at the significant position `p`.
    fn lex_token(&self, ctxt: &mut Context, p: usize) -> (r: (Result<Token, LexError>, usize))
        requires
            self.wf(),
            p <= self.chars@.len(),
            old(ctxt).wf(),
        ensures
            final(ctxt).wf(),
            scanned(lexeme_at(self.chars@, p as int), *old(ctxt), *final(ctxt), r.0, r.1 as int),
            r.1 <= self.chars@.len(),
    {
        let cs = &self.chars;
        if p >= cs.len() {
            return (Ok(Token::Eof), p);
        }
        let c = cs[p];
        if c == ':' {
            (Ok(Token::Colon), p + 1)
        } else if c == ';' {
            (Ok(Token::Semicolon), p + 1)
        } else if c == '(' {
            (Ok(Token::OpenParen), p + 1)
        } else if c == ')' {
            (Ok(Token::CloseParen), p + 1)
        } else if c == '{' {
            (Ok(Token::OpenBrace), p + 1)
        } else if c == '}' {
            (Ok(Token::CloseBrace), p + 1)
        } else if c == '"' {
            match lex_string(cs, p + 1, p, StringKind::Normal) {
                Err(err) => (Err(err), p),
                Ok(q) => {
                    let text = spelling(cs, p + 1, q);
                    let l = ctxt.get_string_literal(text.as_str());
                    (Ok(Token::StringLiteral(StringKind::Normal, l)), q + 1)
                },
            }
        } else if is_ident_start(c) {
            self.match_identifier(ctxt, p)
        } else if is_operator_start(c) {
            self.match_operator(ctxt, p)
        } else if '0' <= c && c <= '9' {
            match lex_number(cs, p) {
                Err(err) => (Err(err), p),
                Ok((v, e)) => (Ok(Token::IntegerLiteral(v)), e),
            }
        } else {
            (Err(LexError { kind: ErrorKind::UnrecognizedCharacter, start: p, end: p + 1 }), p)
        }
    }

    /// Scans the next token, skipping whitespace and comments, and interns
    /// its spelling if it is an identifier or an operator other than `->`.
    /// On an error nothing changes: neither the scanner nor the context.
    pub fn next_token(&mut self, ctxt: &mut Context) -> (r: Result<Token, LexError>)
        requires
            old(self).wf(),
            old(ctxt).wf(),
        ensures
            final(self).wf(),
            final(ctxt).wf(),
            final(self).source() == old(self).source(),
            scanned(next_lexeme(old(self).source(), old(self).position()), *old(ctxt), *final(ctxt), r, final(self).position()),
            r is Err ==> *final(self) == *old(self),
            r is Ok ==> old(self).position() <= final(self).position(),
            r is Ok && r != Ok::<Token, LexError>(Token::Eof) ==> old(self).position() < final(self).position(),
    {
        proof {
            lemma_next_lexeme_advances(self.chars@, self.pos as int);
        }
        let p = match skip_trivia_at(&self.chars, self.pos) {
            Err(err) => return Err(err),
            Ok(p) => p,
        };
        let (r, next) = self.lex_token(ctxt, p);
        if r.is_ok() {
            self.pos = next;
        }
        r
    }
}

} // verus!
