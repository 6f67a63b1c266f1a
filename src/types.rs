//! Structural type values, deduplicated in the type arena.
use vstd::prelude::*;
use core::cmp::Ordering;
use crate::interner::{Internable, Interned};
use crate::order::{codes_of, compare_codes};

verus! {

#[derive(Clone, Copy, Debug, PartialEq, Eq, PartialOrd, Ord, Hash, Structural)]
pub enum IntSize {
    I8,
    I16,
    I32,
    I64,
    ISize,
}

#[derive(Clone, Copy, Debug, PartialEq, Eq, PartialOrd, Ord, Hash, Structural)]
pub enum Mutability {
    Immutable,
    Mutable,
}

/// A type. A pointer names its pointee by its handle in the type arena.
#[derive(Clone, Copy, Debug, PartialEq, Eq, Hash, Structural)]
pub enum Type {
    SignedInt { size: IntSize },
    UnsignedInt { size: IntSize },
    Pointer { mutability: Mutability, pointee: Interned },
}

pub open spec fn size_code(s: IntSize) -> int {
    match s {
        IntSize::I8 => 0,
        IntSize::I16 => 1,
        IntSize::I32 => 2,
        IntSize::I64 => 3,
        IntSize::ISize => 4,
    }
}

pub open spec fn mutability_code(m: Mutability) -> int {
    match m {
        Mutability::Immutable => 0,
        Mutability::Mutable => 1,
    }
}

/// The key a type is ordered by: its variant, then its fields.
pub open spec fn type_key(t: Type) -> Seq<int> {
    match t {
        Type::SignedInt { size } => seq![0, size_code(size)],
        Type::UnsignedInt { size } => seq![1, size_code(size)],
        Type::Pointer { mutability, pointee } => seq![2, mutability_code(mutability), pointee.slot() as int],
    }
}

/// Different types have different keys.
pub proof fn lemma_type_key_injective(a: Type, b: Type)
    requires
        type_key(a) == type_key(b),
    ensures
        a == b,
{
    let ka = type_key(a);
    let kb = type_key(b);
    assert(ka[0] == kb[0] && ka[1] == kb[1]);
    match (a, b) {
        (Type::Pointer { mutability: _, pointee: p }, Type::Pointer { mutability: _, pointee: q }) => {
            assert(ka[2] == kb[2]);
            Interned::lemma_slot_injective(p, q);
        },
        _ => {},
    }
}

fn size_code_exec(s: IntSize) -> (r: u64)
    ensures
        r == size_code(s),
{
    match s {
        IntSize::I8 => 0,
        IntSize::I16 => 1,
        IntSize::I32 => 2,
        IntSize::I64 => 3,
        IntSize::ISize => 4,
    }
}

impl Type {
    /// The key of this type, as numbers.
    fn codes(&self) -> (r: Vec<u64>)
        ensures
            codes_of(r@) == type_key(*self),
    {
        let r = match *self {
            Type::SignedInt { size } => vec![0u64, size_code_exec(size)],
            Type::UnsignedInt { size } => vec![1u64, size_code_exec(size)],
            Type::Pointer { mutability, pointee } => {
                let m: u64 = match mutability {
                    Mutability::Immutable => 0,
                    Mutability::Mutable => 1,
                };
                vec![2u64, m, pointee.index() as u64]
            },
        };
        assert(codes_of(r@) =~= type_key(*self));
        r
    }
}

impl Internable for Type {
    /// Candidates are types themselves.
    type External = Type;

    open spec fn key(&self) -> Seq<int> {
        type_key(*self)
    }

    open spec fn external_key(e: &Type) -> Seq<int> {
        type_key(*e)
    }

    open spec fn admits(e: &Type) -> bool {
        true
    }

    fn compare_external(&self, e: &Type) -> (r: Ordering) {
        self.compare(e)
    }

    fn from_external(e: &Type) -> (r: Self) {
        *e
    }

    fn compare(&self, other: &Self) -> (r: Ordering) {
        let a = self.codes();
        let b = other.codes();
        compare_codes(a.as_slice(), b.as_slice())
    }
}

} // verus!
