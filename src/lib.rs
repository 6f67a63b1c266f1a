//! The front end of a small compiler: canonical (NFC) text, append-only
//! interning arenas with stable handles, a session context over them, and a
//! lexer that interns every identifier and operator it meets.

pub mod chars;
pub mod context;
pub mod error;
pub mod grammar;
pub mod interner;
pub mod lexer;
pub mod order;
pub mod text;
pub mod types;

pub use context::{Context, LiteralRef};
pub use error::{ErrorKind, LexError};
pub use interner::{Internable, Interned, Interner};
pub use lexer::{Lexer, StringKind, Token};
pub use text::CanonicalText;
pub use types::{IntSize, Mutability, Type};
