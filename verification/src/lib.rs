//! Exact fractions, hashers, JSON parsing (recursive and resumable) and
//! compact serialization over a byte buffer, and the lexer of a small
//! template language.
pub mod gcd;
pub mod fraction;
pub mod text;
pub mod writer;
pub mod parse_error;
pub mod bin_inner;
pub mod json_text;
pub mod json_parse;
pub mod json_parser;
pub mod json_serialize;
pub mod stack_parser;
pub mod stack_agreement;
pub mod hash;
pub mod lexer;
pub mod template_blocks;
pub mod path;

pub use fraction::Fraction;
pub use writer::BinWriter;
pub use json_text::{serialize_string, SerializeError, SerializeErrorKind};
pub use json_parser::{BinJsonParser, FrameState, JsonSerializer, ValueError};
pub use parse_error::{LineCol, ParseError, ParseErrorKind};
pub use bin_inner::BinInner;
pub use lexer::{tokenize, Literal, Token};
pub use hash::{FxHasher, IdHasher};
pub use path::get_full_dir;
