//! What can stop a resolution.

use vstd::prelude::*;

verus! {

/// The error that the `url` crate reports for a text it cannot parse.
#[verifier::external_type_specification]
#[verifier::external_body]
pub struct ExParseError(url::ParseError);

/// Why a resolution failed.
#[derive(Debug)]
pub enum Error {
    /// `url` was to be read as a URL, as a base or joined onto one, and is none.
    UrlParseError { url: String, source: url::ParseError },
    /// A reference's fragment addresses nothing in the document it names.
    JsonPointerNotFound { pointer: String },
    /// The document `url` is read neither over HTTP nor from a file.
    UnsupportedScheme { url: String },
    /// Expanding the reference to `url` would nest expansions deeper than
    /// the resolver's limit allows.
    ExpansionLimit { url: String },
    /// The document from `url` is to carry the collected definitions and is
    /// no object.
    RootNotObject { url: String },
}

/// The mathematical value of an `Error`.
pub enum ErrorModel {
    UrlParseError { url: Seq<char>, source: url::ParseError },
    JsonPointerNotFound { pointer: Seq<char> },
    UnsupportedScheme { url: Seq<char> },
    ExpansionLimit { url: Seq<char> },
    RootNotObject { url: Seq<char> },
}

impl View for Error {
    type V = ErrorModel;

    open spec fn view(&self) -> ErrorModel {
        match self {
            Error::UrlParseError { url, source } => ErrorModel::UrlParseError {
                url: url@,
                source: *source,
            },
            Error::JsonPointerNotFound { pointer } => ErrorModel::JsonPointerNotFound {
                pointer: pointer@,
            },
            Error::UnsupportedScheme { url } => ErrorModel::UnsupportedScheme { url: url@ },
            Error::ExpansionLimit { url } => ErrorModel::ExpansionLimit { url: url@ },
            Error::RootNotObject { url } => ErrorModel::RootNotObject { url: url@ },
        }
    }
}

} // verus!
