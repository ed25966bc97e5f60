//! Streaming JSON processing over an in-memory byte sequence.
//!
//! Two independent components are offered:
//!
//! - [`LevelReader`]: tracks bracket/brace nesting depth and string context
//!   over raw bytes; each call to `next` returns the raw bytes of the next
//!   region lying strictly deeper than a caller-chosen target depth.
//! - [`ReaderLexer`]: a full structural and lexical tokenizer producing a
//!   lazy sequence of [`JsonToken`]s while enforcing JSON grammar (matched
//!   containers, alternating key/value inside objects, separators between
//!   elements).
//!
//! Both components consume their input one byte per step and never look
//! behind; reading from files or sockets is left to callers, who hand the
//! bytes in as a `Vec<u8>`.

pub mod level;
pub mod text;
pub mod token;

pub use level::LevelReader;
pub use text::LexError;
pub use token::JsonToken;
pub use token::ReaderLexer;
