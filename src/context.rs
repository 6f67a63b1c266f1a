//! The session context: the identifier arena, the log of string literals and
//! the type arena, behind one facade.
use vstd::prelude::*;
use crate::error::ErrorKind;
use crate::interner::{has_key, interned, lists, Internable, Interned, Interner};
use crate::order::{char_codes, lemma_char_codes_injective, lex_lt};
use crate::text::{is_normalized, nfc_of, normalize_chars, text_error, CanonicalText};
use crate::types::{lemma_type_key_injective, type_key, Type};

verus! {

/// A reference to one entry of the string-literal log.
#[derive(Clone, Copy, Debug, PartialEq, Eq, Hash, Structural)]
pub struct LiteralRef {
    index: usize,
}

impl LiteralRef {
    /// The log entry this reference names.
    pub closed spec fn slot(&self) -> nat {
        self.index as nat
    }

    /// The log entry this reference names, as a number.
    pub fn index(&self) -> (r: usize)
        ensures
            r == self.slot(),
    {
        self.index
    }
}

/// The contents of a sequence of distinct texts after `t` is added: unchanged
/// if `t` is there already, else `t` appended.
pub open spec fn add_distinct<A>(ts: Seq<A>, t: A) -> Seq<A> {
    if ts.contains(t) {
        ts
    } else {
        ts.push(t)
    }
}

/// `h` names the normalized spelling `n` in `c`.
pub open spec fn names(c: Context, h: Interned, n: Seq<char>) -> bool {
    h.slot() < c.identifiers().len() && c.identifiers()[h.slot() as int] == n
}

/// `c1` is `c0` with `n` interned as an identifier.
pub open spec fn interned_into(c0: Context, c1: Context, n: Seq<char>) -> bool {
    &&& c1.identifiers() == add_distinct(c0.identifiers(), n)
    &&& c1.literals() == c0.literals()
    &&& c1.types() == c0.types()
}

/// All three stores of one compilation session.
pub struct Context {
    identifiers: Interner<CanonicalText>,
    string_literals: Vec<String>,
    types: Interner<Type>,
}

impl Context {
    /// The interned identifiers, by slot, in NFC.
    pub closed spec fn identifiers(&self) -> Seq<Seq<char>> {
        self.identifiers.items().map_values(|t: CanonicalText| t@)
    }

    /// The string literals, one entry per occurrence, verbatim.
    pub closed spec fn literals(&self) -> Seq<Seq<char>> {
        self.string_literals@.map_values(|s: String| s@)
    }

    /// The interned types, by slot.
    pub closed spec fn types(&self) -> Seq<Type> {
        self.types.items()
    }

    /// Both arenas are well formed.
    pub closed spec fn wf(&self) -> bool {
        self.identifiers.wf() && self.types.wf()
    }

    /// A well-formed context holds each identifier and each type once.
    pub proof fn lemma_no_duplicates(&self)
        requires
            self.wf(),
        ensures
            self.identifiers().no_duplicates(),
            self.types().no_duplicates(),
    {
        self.identifiers.lemma_sorted();
        self.types.lemma_sorted();
        let ids = self.identifiers.items();
        assert forall|i: int, j: int|
            0 <= i < self.identifiers().len() && 0 <= j < self.identifiers().len() && i != j implies self.identifiers()[i]
            != self.identifiers()[j] by {
            assert(ids[i].key() != ids[j].key());
        }
        let tys = self.types.items();
        assert forall|i: int, j: int|
            0 <= i < tys.len() && 0 <= j < tys.len() && i != j implies tys[i] != tys[j] by {
            assert(tys[i].key() != tys[j].key());
        }
    }

    /// The identifier slots in the arena's internal order.
    pub closed spec fn identifier_order(&self) -> Seq<usize> {
        self.identifiers.sorted()
    }

    /// The identifier arena keeps its slots in a strict total order, the
    /// lexicographic order of the normalized code points: every slot appears,
    /// and each sorts strictly before the next.
    pub proof fn law_identifier_order(&self)
        requires
            self.wf(),
        ensures
            self.identifier_order().len() == self.identifiers().len(),
            forall|i: int|
                0 <= i < self.identifier_order().len() ==> #[trigger] self.identifier_order()[i]
                    < self.identifiers().len(),
            forall|s: int| 0 <= s < self.identifiers().len() ==> #[trigger] lists(self.identifier_order(), s),
            forall|i: int, j: int|
                0 <= i < j < self.identifier_order().len() ==> lex_lt(
                    char_codes(#[trigger] self.identifiers()[self.identifier_order()[i] as int]),
                    char_codes(#[trigger] self.identifiers()[self.identifier_order()[j] as int]),
                ),
    {
        self.identifiers.lemma_sorted();
        let items = self.identifiers.items();
        let order = self.identifier_order();
        assert forall|i: int, j: int| 0 <= i < j < order.len() implies lex_lt(
            char_codes(#[trigger] self.identifiers()[order[i] as int]),
            char_codes(#[trigger] self.identifiers()[order[j] as int]),
        ) by {
            assert(lex_lt(items[order[i] as int].key(), items[order[j] as int].key()));
        }
    }

    /// A fresh context with all stores empty.
    pub fn new() -> (r: Self)
        ensures
            r.wf(),
            r.identifiers() == Seq::<Seq<char>>::empty(),
            r.literals() == Seq::<Seq<char>>::empty(),
            r.types() == Seq::<Type>::empty(),
    {
        let r = Context { identifiers: Interner::new(), string_literals: Vec::new(), types: Interner::new() };
        assert(r.identifiers() =~= Seq::<Seq<char>>::empty());
        assert(r.literals() =~= Seq::<Seq<char>>::empty());
        r
    }

    /// Interns the NFC form of `id`. Equal normalized content always gives
    /// the same handle; new content gets a new slot after all others.
    pub fn get_ident(&mut self, id: &str) -> (r: Result<Interned, ErrorKind>)
        requires
            old(self).wf(),
        ensures
            final(self).wf(),
            match text_error(nfc_of(id@)) {
                Some(e) => r == Err::<Interned, ErrorKind>(e) && *final(self) == *old(self),
                None => {
                    &&& r is Ok
                    &&& interned_into(*old(self), *final(self), nfc_of(id@))
                    &&& names(*final(self), r->Ok_0, nfc_of(id@))
                },
            },
    {
        let chars = match normalize_chars(id) {
            Err(e) => return Err(e),
            Ok(chars) => chars,
        };
        let ghost prev = self.identifiers.items();
        let ghost t = chars@;
        assert(is_normalized(t));
        let h = self.identifiers.add_element(chars.as_slice());
        proof {
            lemma_texts_interned(prev, self.identifiers.items(), t);
            lemma_char_codes_injective(self.identifiers.items()[h.slot() as int]@, t);
        }
        Ok(h)
    }

    /// Appends `s` verbatim to the literal log. Equal literals are not
    /// shared: each call makes a new entry.
    pub fn get_string_literal(&mut self, s: &str) -> (r: LiteralRef)
        requires
            old(self).wf(),
        ensures
            final(self).wf(),
            final(self).literals() == old(self).literals().push(s@),
            r.slot() == old(self).literals().len(),
            final(self).identifiers() == old(self).identifiers(),
            final(self).types() == old(self).types(),
    {
        let n = self.string_literals.len();
        self.string_literals.push(s.to_owned());
        assert(self.literals() =~= old(self).literals().push(s@));
        LiteralRef { index: n }
    }

    /// Interns a type. Structurally equal types always give the same handle.
    pub fn get_type(&mut self, ty: Type) -> (r: Interned)
        requires
            old(self).wf(),
        ensures
            final(self).wf(),
            final(self).types() == add_distinct(old(self).types(), ty),
            r.slot() < final(self).types().len(),
            final(self).types()[r.slot() as int] == ty,
            final(self).identifiers() == old(self).identifiers(),
            final(self).literals() == old(self).literals(),
    {
        let ghost prev = self.types.items();
        let h = self.types.add_element(&ty);
        proof {
            let after = self.types.items();
            if has_key(prev, type_key(ty)) {
                let i = choose|i: int| 0 <= i < prev.len() && #[trigger] prev[i].key() == type_key(ty);
                lemma_type_key_injective(prev[i], ty);
                assert(prev.contains(ty));
            } else {
                if prev.contains(ty) {
                    let i = choose|i: int| 0 <= i < prev.len() && prev[i] == ty;
                    assert(prev[i].key() == type_key(ty));
                }
                lemma_type_key_injective(after.last(), ty);
                assert(after =~= prev.push(ty));
            }
            lemma_type_key_injective(after[h.slot() as int], ty);
        }
        h
    }

    /// The identifier that `h` names.
    pub fn ident(&self, h: Interned) -> (r: &CanonicalText)
        requires
            h.slot() < self.identifiers().len(),
        ensures
            r@ == self.identifiers()[h.slot() as int],
    {
        self.identifiers.get(h)
    }

    /// The string literal that `r` names.
    pub fn literal(&self, r: LiteralRef) -> (s: &str)
        requires
            r.slot() < self.literals().len(),
        ensures
            s@ == self.literals()[r.slot() as int],
    {
        self.string_literals[r.index].as_str()
    }

    /// The type that `h` names.
    pub fn type_of(&self, h: Interned) -> (r: Type)
        requires
            h.slot() < self.types().len(),
        ensures
            r == self.types()[h.slot() as int],
    {
        *self.types.get(h)
    }

    /// The number of interned identifiers.
    pub fn ident_count(&self) -> (r: usize)
        ensures
            r == self.identifiers().len(),
    {
        self.identifiers.len()
    }

    /// The number of logged string literals.
    pub fn literal_count(&self) -> (r: usize)
        ensures
            r == self.literals().len(),
    {
        self.string_literals.len()
    }

    /// The number of interned types.
    pub fn type_count(&self) -> (r: usize)
        ensures
            r == self.types().len(),
    {
        self.types.len()
    }
}

/// Interning the same normalized content twice yields identity-equal
/// handles, and the second call stores nothing new.
pub proof fn law_ident_idempotent(c0: Context, c1: Context, c2: Context, n: Seq<char>, h1: Interned, h2: Interned)
    requires
        c0.wf(),
        interned_into(c0, c1, n),
        names(c1, h1, n),
        interned_into(c1, c2, n),
        names(c2, h2, n),
    ensures
        h1 == h2,
        c2.identifiers() == c1.identifiers(),
{
    c0.lemma_no_duplicates();
    let ids = c0.identifiers();
    let ids1 = c1.identifiers();
    assert(ids1.contains(n));
    assert(ids1.no_duplicates()) by {
        if !ids.contains(n) {
            assert forall|i: int, j: int| 0 <= i < ids1.len() && 0 <= j < ids1.len() && i != j implies ids1[i] != ids1[j] by {
                if i < ids.len() && j < ids.len() {
                } else if i == ids.len() {
                    assert(ids1[j] == ids[j]);
                } else {
                    assert(ids1[i] == ids[i]);
                }
            }
        }
    }
    Interned::lemma_slot_injective(h1, h2);
}

/// Interning never disturbs what is stored: every slot obtained before keeps
/// its content, and new content only ever goes after all of it.
pub proof fn law_ident_append_only(c0: Context, c1: Context, n: Seq<char>, h: Interned)
    requires
        interned_into(c0, c1, n),
        h.slot() < c0.identifiers().len(),
    ensures
        c0.identifiers().is_prefix_of(c1.identifiers()),
        names(c1, h, c0.identifiers()[h.slot() as int]),
{
}

proof fn lemma_texts_interned(before: Seq<CanonicalText>, after: Seq<CanonicalText>, t: Seq<char>)
    requires
        interned(before, after, char_codes(t)),
    ensures
        after.map_values(|x: CanonicalText| x@) == add_distinct(before.map_values(|x: CanonicalText| x@), t),
{
    let views = before.map_values(|x: CanonicalText| x@);
    if has_key(before, char_codes(t)) {
        let i = choose|i: int| 0 <= i < before.len() && #[trigger] before[i].key() == char_codes(t);
        lemma_char_codes_injective(before[i]@, t);
        assert(views[i] == t);
    } else {
        if views.contains(t) {
            let i = choose|i: int| 0 <= i < views.len() && views[i] == t;
            assert(before[i].key() == char_codes(t));
        }
        lemma_char_codes_injective(after.last()@, t);
        assert(after =~= before.push(after.last()));
        assert(after.map_values(|x: CanonicalText| x@) =~= views.push(t));
    }
}

} // verus!
