//! Word tokenization for chat command lines.
//!
//! Two independent splitters over a line of text:
//!
//! * [`Words`], the decoding tokenizer: owns its backing text through
//!   [`WordsStorage`], collapses whitespace runs, decodes backslash
//!   escapes, and keeps double-quoted runs together in one token.  Each
//!   token is a freshly allocated `String`.
//! * [`TrimmedWords`], the simple splitter: borrows its input and yields
//!   zero-copy slices between runs of separator characters (whitespace
//!   or ASCII punctuation), with no quoting or escaping.
//!
//! The module [`model`] holds the mathematical description of both
//! token sequences; every public operation is specified against it.

pub mod model;
pub mod trimmed;
pub mod words;

pub use crate::trimmed::is_trim_separator;
pub use crate::trimmed::TrimmedWords;
pub use crate::words::words;
pub use crate::words::Words;
pub use crate::words::WordsStorage;
