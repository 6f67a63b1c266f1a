//! Canonical text: a string held in Unicode Normalization Form C, with its
//! UTF-8 bytes and a NUL-terminated view of them.
use vstd::prelude::*;
use vstd::string::StrSliceExecFns;
use vstd::utf8::encode_utf8;
use core::cmp::Ordering;
use unicode_normalization::UnicodeNormalization;
use crate::error::ErrorKind;
use crate::interner::Internable;
use crate::order::{char_codes, compare_chars, lemma_char_codes_injective, law_lex_strict_total_order};

verus! {

/// The characters of the NFC form of `s`.
pub uninterp spec fn nfc_of(s: Seq<char>) -> Seq<char>;

/// Relies on `UnicodeNormalization::nfc` of unicode-normalization on `&str`:
/// it yields the NFC form of the characters of `s`, which depends on them
/// alone; an empty input yields nothing.
#[verifier::external_body]
fn normalize(s: &str) -> (r: String)
    ensures
        r@ == nfc_of(s@),
        s@.len() == 0 ==> r@.len() == 0,
{
    s.nfc().collect()
}

/// The largest byte length the 32-bit length field can hold.
pub const MAX_TEXT_BYTES: u64 = 0xffff_ffff;

/// Why normalized text `n` cannot be stored, if it cannot.
pub open spec fn text_error(n: Seq<char>) -> Option<ErrorKind> {
    if encode_utf8(n).len() > MAX_TEXT_BYTES {
        Some(ErrorKind::InputTooLarge)
    } else if n.contains('\0') {
        Some(ErrorKind::ContainsNul)
    } else {
        None
    }
}

/// `t` is the NFC form of some text.
pub open spec fn is_normalized(t: Seq<char>) -> bool {
    exists|s: Seq<char>| nfc_of(s) == t
}

/// The characters of the NFC form of `s`, unless they are too large for the
/// length field or hold a NUL.
pub fn normalize_chars(s: &str) -> (r: Result<Vec<char>, ErrorKind>)
    ensures
        match text_error(nfc_of(s@)) {
            Some(e) => r == Err::<Vec<char>, ErrorKind>(e),
            None => r is Ok && r->Ok_0@ == nfc_of(s@),
        },
{
    let text = normalize(s);
    let size = text.as_str().as_bytes().len();
    if size as u64 > MAX_TEXT_BYTES {
        return Err(ErrorKind::InputTooLarge);
    }
    let chars = text_chars(text.as_str());
    let mut i: usize = 0;
    while i < chars.len()
        invariant
            i <= chars@.len(),
            chars@ == nfc_of(s@),
            encode_utf8(chars@).len() <= MAX_TEXT_BYTES,
            forall|j: int| 0 <= j < i ==> chars@[j] != '\0',
        decreases chars@.len() - i,
    {
        if chars[i] == '\0' {
            assert(chars@[i as int] == '\0');
            return Err(ErrorKind::ContainsNul);
        }
        i = i + 1;
    }
    Ok(chars)
}

/// Text in NFC, immutable once built.
#[derive(Debug)]
pub struct CanonicalText {
    text: String,
    chars: Vec<char>,
    bytes: Vec<u8>,
}

impl View for CanonicalText {
    type V = Seq<char>;

    closed spec fn view(&self) -> Seq<char> {
        self.text@
    }
}

impl CanonicalText {
    /// The stored text is whole: the NFC form of some input, its
    /// characters, its UTF-8 bytes followed by one NUL, a length that fits
    /// 32 bits, and no NUL inside.
    #[verifier::type_invariant]
    spec fn inv(&self) -> bool {
        &&& is_normalized(self.text@)
        &&& self.chars@ == self.text@
        &&& self.bytes@ == encode_utf8(self.text@).push(0u8)
        &&& text_error(self.text@) is None
    }

    /// Normalizes `s` to NFC and keeps the result, unless it is too large
    /// for the length field or holds a NUL.
    pub fn new(s: &str) -> (r: Result<CanonicalText, ErrorKind>)
        ensures
            match text_error(nfc_of(s@)) {
                Some(e) => r == Err::<CanonicalText, ErrorKind>(e),
                None => r is Ok && r->Ok_0@ == nfc_of(s@),
            },
    {
        match normalize_chars(s) {
            Err(e) => Err(e),
            Ok(chars) => {
                assert(is_normalized(chars@));
                let t = Self::from_external(chars.as_slice());
                proof {
                    lemma_char_codes_injective(t@, chars@);
                }
                Ok(t)
            },
        }
    }

    /// The length of the text in UTF-8 bytes, without the trailing NUL.
    pub fn len(&self) -> (r: usize)
        ensures
            r == encode_utf8(self@).len(),
    {
        proof {
            use_type_invariant(self);
        }
        self.bytes.len() - 1
    }

    /// The text.
    pub fn as_str(&self) -> (r: &str)
        ensures
            r@ == self@,
    {
        self.text.as_str()
    }

    /// The characters of the text.
    pub fn as_chars(&self) -> (r: &[char])
        ensures
            r@ == self@,
    {
        proof {
            use_type_invariant(self);
        }
        self.chars.as_slice()
    }

    /// The UTF-8 bytes followed by one NUL: a C string.
    pub fn as_bytes_with_nul(&self) -> (r: &[u8])
        ensures
            r@ == encode_utf8(self@).push(0u8),
    {
        proof {
            use_type_invariant(self);
        }
        self.bytes.as_slice()
    }
}

/// The characters of `s`, in order.
fn text_chars(s: &str) -> (r: Vec<char>)
    ensures
        r@ == s@,
{
    let mut out: Vec<char> = Vec::new();
    for c in it: s.chars()
        invariant
            out@ == it.seq().take(it.index() as int),
            it.seq() == s@,
    {
        out.push(c);
    }
    out
}

impl PartialEq for CanonicalText {
    /// Equal exactly when the normalized texts are.
    fn eq(&self, other: &Self) -> (r: bool) {
        proof {
            use_type_invariant(self);
            use_type_invariant(other);
        }
        let c = compare_chars(self.chars.as_slice(), other.chars.as_slice());
        proof {
            law_lex_strict_total_order(char_codes(self@), char_codes(other@), char_codes(self@));
            if char_codes(self@) == char_codes(other@) {
                lemma_char_codes_injective(self@, other@);
            }
        }
        match c {
            Ordering::Equal => true,
            _ => false,
        }
    }
}

impl vstd::std_specs::cmp::PartialEqSpecImpl for CanonicalText {
    open spec fn obeys_eq_spec() -> bool {
        true
    }

    open spec fn eq_spec(&self, other: &CanonicalText) -> bool {
        self@ == other@
    }
}

impl Eq for CanonicalText {}

/// Relies on `String::push`: appends `c` to `s`.
#[verifier::external_body]
pub(crate) fn push_char(s: &mut String, c: char)
    ensures
        final(s)@ == old(s)@.push(c),
{
    s.push(c)
}

/// The characters of `cs` as a string.
pub fn string_of(cs: &[char]) -> (s: String)
    ensures
        s@ == cs@,
{
    let mut s = String::new();
    let mut i: usize = 0;
    while i < cs.len()
        invariant
            i <= cs@.len(),
            s@ == cs@.subrange(0, i as int),
        decreases cs@.len() - i,
    {
        push_char(&mut s, cs[i]);
        assert(cs@.subrange(0, i + 1) =~= cs@.subrange(0, i as int).push(cs@[i as int]));
        i = i + 1;
    }
    assert(cs@.subrange(0, cs@.len() as int) =~= cs@);
    s
}

impl Internable for CanonicalText {
    /// Candidates are character sequences already in NFC.
    type External = [char];

    /// Ordered and deduplicated by code point.
    open spec fn key(&self) -> Seq<int> {
        char_codes(self@)
    }

    open spec fn external_key(e: &[char]) -> Seq<int> {
        char_codes(e@)
    }

    open spec fn admits(e: &[char]) -> bool {
        is_normalized(e@) && text_error(e@) is None
    }

    fn compare_external(&self, e: &[char]) -> (r: Ordering) {
        proof {
            use_type_invariant(self);
        }
        compare_chars(self.chars.as_slice(), e)
    }

    fn from_external(e: &[char]) -> (r: Self) {
        let text = string_of(e);
        let mut bytes = text.as_str().as_bytes_vec();
        bytes.push(0u8);
        let chars = vstd::slice::slice_to_vec(e);
        CanonicalText { text, chars, bytes }
    }

    fn compare(&self, other: &Self) -> (r: Ordering) {
        proof {
            use_type_invariant(self);
            use_type_invariant(other);
        }
        compare_chars(self.chars.as_slice(), other.chars.as_slice())
    }
}

} // verus!
