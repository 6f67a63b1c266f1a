use std::cmp::Ordering;

use nfc_lexer::text::normalize_chars;
use nfc_lexer::{CanonicalText, Context, ErrorKind, IntSize, Internable, Interner, Mutability, Type};

#[test]
fn same_identifier_twice_gives_same_handle() {
    let mut cx = Context::new();
    let a = cx.get_ident("abc").unwrap();
    let b = cx.get_ident("abc").unwrap();
    assert_eq!(a, b);
    assert_eq!(cx.ident_count(), 1);
}

#[test]
fn nfc_equivalent_spellings_share_a_handle() {
    let mut cx = Context::new();
    let angstrom = cx.get_ident("\u{212B}").unwrap();
    let precomposed = cx.get_ident("\u{00C5}").unwrap();
    let combining = cx.get_ident("A\u{030A}").unwrap();
    assert_eq!(angstrom, precomposed);
    assert_eq!(precomposed, combining);
    assert_eq!(cx.ident_count(), 1);
    assert_eq!(cx.ident(combining).as_str(), "\u{00C5}");
}

#[test]
fn handles_stay_valid_after_more_interning() {
    let mut cx = Context::new();
    let first = cx.get_ident("first").unwrap();
    for word in ["zeta", "alpha", "mid", "first", "omega", "beta"] {
        cx.get_ident(word).unwrap();
    }
    assert_eq!(cx.ident(first).as_str(), "first");
    assert_eq!(first.index(), 0);
    assert_eq!(cx.ident_count(), 6);
    let again = cx.get_ident("first").unwrap();
    assert_eq!(again, first);
}

#[test]
fn distinct_content_gets_new_slots_in_order() {
    let mut cx = Context::new();
    let b = cx.get_ident("b").unwrap();
    let a = cx.get_ident("a").unwrap();
    let c = cx.get_ident("c").unwrap();
    assert_eq!((b.index(), a.index(), c.index()), (0, 1, 2));
    assert_ne!(a, b);
}

#[test]
fn canonical_text_orders_by_code_point() {
    let a = CanonicalText::new("a").unwrap();
    let b = CanonicalText::new("b").unwrap();
    let ab = CanonicalText::new("ab").unwrap();
    let upper = CanonicalText::new("B").unwrap();
    let a_again = CanonicalText::new("a").unwrap();
    assert_eq!(a.compare(&b), Ordering::Less);
    assert_eq!(b.compare(&a), Ordering::Greater);
    assert_eq!(a.compare(&ab), Ordering::Less);
    assert_eq!(ab.compare(&b), Ordering::Less);
    assert_eq!(upper.compare(&a), Ordering::Less);
    assert_eq!(a.compare(&a_again), Ordering::Equal);
}

#[test]
fn canonical_text_compares_after_normalization() {
    let composed = CanonicalText::new("\u{00C5}").unwrap();
    let combining = CanonicalText::new("A\u{030A}").unwrap();
    assert_eq!(composed.compare(&combining), Ordering::Equal);
}

#[test]
fn canonical_text_views() {
    let t = CanonicalText::new("e\u{0301}t\u{00E9}").unwrap();
    assert_eq!(t.as_str(), "\u{00E9}t\u{00E9}");
    assert_eq!(t.len(), 5);
    assert_eq!(t.as_bytes_with_nul(), &[0xC3, 0xA9, b't', 0xC3, 0xA9, 0][..]);
    assert_eq!(t.as_chars(), &['\u{00E9}', 't', '\u{00E9}'][..]);
}

#[test]
fn empty_canonical_text() {
    let t = CanonicalText::new("").unwrap();
    assert_eq!(t.len(), 0);
    assert_eq!(t.as_bytes_with_nul(), &[0u8][..]);
}

#[test]
fn canonical_text_rejects_nul() {
    assert!(matches!(CanonicalText::new("a\0b"), Err(ErrorKind::ContainsNul)));
    let mut cx = Context::new();
    assert_eq!(cx.get_ident("x\0"), Err(ErrorKind::ContainsNul));
    assert_eq!(cx.ident_count(), 0);
}

#[test]
fn string_literals_are_not_shared() {
    let mut cx = Context::new();
    let a = cx.get_string_literal("hello");
    let b = cx.get_string_literal("hello");
    assert_ne!(a, b);
    assert_eq!(cx.literal(a), "hello");
    assert_eq!(cx.literal(b), "hello");
    assert_eq!(cx.literal_count(), 2);
    assert_eq!(cx.ident_count(), 0);
}

#[test]
fn types_are_deduplicated_structurally() {
    let mut cx = Context::new();
    let i32_ty = cx.get_type(Type::SignedInt { size: IntSize::I32 });
    let u8_ty = cx.get_type(Type::UnsignedInt { size: IntSize::I8 });
    let again = cx.get_type(Type::SignedInt { size: IntSize::I32 });
    assert_eq!(i32_ty, again);
    assert_ne!(i32_ty, u8_ty);
    let p = cx.get_type(Type::Pointer { mutability: Mutability::Mutable, pointee: u8_ty });
    let q = cx.get_type(Type::Pointer { mutability: Mutability::Mutable, pointee: u8_ty });
    let r = cx.get_type(Type::Pointer { mutability: Mutability::Immutable, pointee: u8_ty });
    assert_eq!(p, q);
    assert_ne!(p, r);
    assert_eq!(cx.type_count(), 4);
    assert_eq!(cx.type_of(p), Type::Pointer { mutability: Mutability::Mutable, pointee: u8_ty });
}

#[test]
fn type_order_follows_variant_then_fields() {
    let s8 = Type::SignedInt { size: IntSize::I8 };
    let s64 = Type::SignedInt { size: IntSize::I64 };
    let u8t = Type::UnsignedInt { size: IntSize::I8 };
    assert_eq!(s8.compare(&s64), Ordering::Less);
    assert_eq!(u8t.compare(&s64), Ordering::Greater);
    assert_eq!(s8.compare(&s8), Ordering::Equal);
}

#[test]
fn arena_of_texts_deduplicates() {
    let mut arena: Interner<CanonicalText> = Interner::new();
    let x = arena.add_element(&normalize_chars("x").unwrap());
    let y = arena.add_element(&normalize_chars("y").unwrap());
    let x2 = arena.add_element(&normalize_chars("x").unwrap());
    assert_eq!(x, x2);
    assert_ne!(x, y);
    assert_eq!(arena.len(), 2);
    assert_eq!(arena.get(y).as_str(), "y");
    assert_eq!(nfc_lexer::Interned::as_ref(x, &arena).as_str(), "x");
}

#[test]
fn error_kinds_describe_themselves() {
    assert_eq!(ErrorKind::UnterminatedString.describe(), "unterminated string literal");
    assert_eq!(ErrorKind::InputTooLarge.describe(), "text too large after normalization");
}

#[test]
fn arena_of_types_deduplicates() {
    let mut arena: Interner<Type> = Interner::new();
    let a = arena.add_element(&Type::UnsignedInt { size: IntSize::I64 });
    let b = arena.add_element(&Type::SignedInt { size: IntSize::ISize });
    let c = arena.add_element(&Type::UnsignedInt { size: IntSize::I64 });
    assert_eq!(a, c);
    assert_ne!(a, b);
    assert_eq!(arena.len(), 2);
    assert_eq!(*arena.get(b), Type::SignedInt { size: IntSize::ISize });
}

#[test]
fn candidates_compare_against_stored_text() {
    let stored = CanonicalText::new("m").unwrap();
    assert_eq!(stored.compare_external(&['a']), Ordering::Greater);
    assert_eq!(stored.compare_external(&['m']), Ordering::Equal);
    assert_eq!(stored.compare_external(&['m', 'a']), Ordering::Less);
}

#[test]
fn normalization_of_candidates() {
    assert_eq!(normalize_chars("A\u{030A}b").unwrap(), vec!['\u{00C5}', 'b']);
    assert_eq!(normalize_chars("").unwrap(), Vec::<char>::new());
    assert_eq!(normalize_chars("\0"), Err(ErrorKind::ContainsNul));
}

#[test]
fn canonical_text_equality_is_by_normalized_content() {
    assert_eq!(CanonicalText::new("\u{212B}").unwrap(), CanonicalText::new("A\u{030A}").unwrap());
    assert_ne!(CanonicalText::new("a").unwrap(), CanonicalText::new("b").unwrap());
}
