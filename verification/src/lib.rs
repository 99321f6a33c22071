//! Dereferencing of `$ref` in JSON Schema documents.
//!
//! A document is a [`Json`] value tree. [`JsonRef`] replaces every object
//! that holds a `$ref` by the content that the reference points to, reading
//! relative references against the nearest `$id` around them, and collects
//! the entries of every `definitions` object on the way.
//!
//! The library loads nothing itself. A dereferencing that needs a document
//! from a file or over HTTP answers with [`Progress::Load`]; the caller
//! fetches the document, hands it over with [`JsonRef::supply`], and makes
//! the same call again:
//!
//! ```text
//! loop {
//!     match jsonref.deref_value(&mut value, working_directory)? {
//!         Progress::Done(()) => break,
//!         Progress::Load(request) => jsonref.supply(&request.identifier, fetch(&request)?),
//!     }
//! }
//! ```
//!
//! A reference that points back into its own expansion is expanded once and
//! then left alone. Expansions that would nest without end stop with an
//! error at a limit, [`DEFAULT_EXPANSION_LIMIT`] unless another is set.

pub mod cache;
pub mod error;
pub mod json;
pub mod laws;
pub mod pointer;
pub mod remove;
pub mod resolution;
pub mod resolver;
pub mod target;
pub mod text;

pub use crate::cache::SchemaCache;
pub use crate::error::Error;
pub use crate::json::{Json, Number};
pub use crate::remove::{Remove, RemoveError};
pub use crate::resolution::SourceKind;
pub use crate::resolver::{JsonRef, Progress, Request, Stop, DEFAULT_EXPANSION_LIMIT};
