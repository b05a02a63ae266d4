//! Extracts the human-written reply from an email body, discarding quoted
//! prior messages, reply headers, signature blocks and forwarded-message
//! banners.
//!
//! The pipeline: the raw text is normalized (`\r\n` to `\n`), multi-line
//! quote headers are collapsed onto one line, a blank line is inserted
//! before any signature-boundary line that lacks one, and then the lines
//! are scanned bottom-up, grouped into [`Fragment`]s, and each fragment is
//! marked quoted, header, signature or hidden.

pub mod chars;
pub mod classify;
pub mod model;
pub mod parser;
pub mod preprocess;

pub use parser::{EmailMessage, EmailReplyParser, Fragment};
