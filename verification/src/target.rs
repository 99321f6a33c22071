//! Where a reference points: the reference joined onto its base, and the
//! parts of the result that a resolution works with.

use crate::error::{Error, ErrorModel};
use vstd::prelude::*;

verus! {

/// What `Url::parse` makes of `text`: the URL as the crate writes it, or
/// the error that the crate reports.
pub uninterp spec fn parsed_url(text: Seq<char>) -> Result<Seq<char>, url::ParseError>;

/// What `Url::join` makes of `reference` on the URL that `base` parses to,
/// as the crate writes it, or the error that the crate reports for `base`
/// or for the join.
pub uninterp spec fn joined_url(base: Seq<char>, reference: Seq<char>) -> Result<
    Seq<char>,
    url::ParseError,
>;

/// What `Url::fragment` gives for the URL that `url` parses to; `None`
/// where that URL has no fragment or `url` does not parse.
pub uninterp spec fn url_fragment(url: Seq<char>) -> Option<Seq<char>>;

/// The URL that `url` parses to after `Url::set_fragment(None)`, as the
/// crate writes it, or the error that the crate reports for `url`.
pub uninterp spec fn url_without_fragment(url: Seq<char>) -> Result<Seq<char>, url::ParseError>;

/// Calls `url::Url::parse` on `text` and hands back the URL as text, or the
/// crate's error. The contract only names the outcome: it is taken to depend
/// on `text` alone.
#[verifier::external_body]
fn parse_url(text: &str) -> (parsed: Result<String, url::ParseError>)
    ensures
        match parsed {
            Ok(url) => parsed_url(text@) == Ok::<Seq<char>, url::ParseError>(url@),
            Err(error) => parsed_url(text@) == Err::<Seq<char>, url::ParseError>(error),
        },
{
    url::Url::parse(text).map(String::from)
}

/// Calls `url::Url::join` with `reference` on the URL that `base` parses
/// to, and hands back the joined URL as text, or the crate's error from
/// either call. The contract only names the outcome: it is taken to depend
/// on the two texts alone.
#[verifier::external_body]
fn join_url(base: &str, reference: &str) -> (joined: Result<String, url::ParseError>)
    ensures
        match joined {
            Ok(url) => joined_url(base@, reference@) == Ok::<Seq<char>, url::ParseError>(url@),
            Err(error) => joined_url(base@, reference@) == Err::<Seq<char>, url::ParseError>(
                error,
            ),
        },
{
    url::Url::parse(base)?.join(reference).map(String::from)
}

/// Calls `url::Url::fragment` on the URL that `url` parses to. The contract
/// only names the outcome: it is taken to depend on `url` alone.
#[verifier::external_body]
fn fragment_of(url: &str) -> (fragment: Option<String>)
    ensures
        match fragment {
            Some(text) => url_fragment(url@) == Some(text@),
            None => url_fragment(url@) is None,
        },
{
    match url::Url::parse(url) {
        Ok(parsed) => parsed.fragment().map(String::from),
        Err(_) => None,
    }
}

/// Calls `url::Url::set_fragment` with `None` on the URL that `url` parses
/// to, and hands back what is left as text, or the crate's error where `url`
/// does not parse. The contract only names the outcome: it is taken to
/// depend on `url` alone.
#[verifier::external_body]
fn strip_fragment(url: &str) -> (stripped: Result<String, url::ParseError>)
    ensures
        match stripped {
            Ok(text) => url_without_fragment(url@) == Ok::<Seq<char>, url::ParseError>(text@),
            Err(error) => url_without_fragment(url@) == Err::<Seq<char>, url::ParseError>(error),
        },
{
    let mut parsed = url::Url::parse(url)?;
    parsed.set_fragment(None);
    Ok(String::from(parsed))
}

/// Where a reference points.
#[derive(Debug)]
pub struct Target {
    /// The reference joined onto its base, fragment included.
    pub full: String,
    /// The same without its fragment: the identifier of the document.
    pub document: String,
    /// The fragment, where the reference has one.
    pub fragment: Option<String>,
}

/// The texts of a `Target`.
pub struct TargetModel {
    pub full: Seq<char>,
    pub document: Seq<char>,
    pub fragment: Option<Seq<char>>,
}

impl View for Target {
    type V = TargetModel;

    open spec fn view(&self) -> TargetModel {
        TargetModel {
            full: self.full@,
            document: self.document@,
            fragment: match self.fragment {
                Some(text) => Some(text@),
                None => None,
            },
        }
    }
}

/// Where `reference` points when it is read against `base`, or the error
/// for the first text that is no URL: the base, the reference joined onto
/// it, or the result without its fragment.
pub open spec fn located(base: Seq<char>, reference: Seq<char>) -> Result<TargetModel, ErrorModel> {
    match parsed_url(base) {
        Err(source) => Err(ErrorModel::UrlParseError { url: base, source: source }),
        Ok(_) => match joined_url(base, reference) {
            Err(source) => Err(ErrorModel::UrlParseError { url: reference, source: source }),
            Ok(full) => match url_without_fragment(full) {
                Err(source) => Err(ErrorModel::UrlParseError { url: full, source: source }),
                Ok(document) => Ok(
                    TargetModel { full: full, document: document, fragment: url_fragment(full) },
                ),
            },
        },
    }
}

/// Reads `reference` against `base`: a relative reference is joined onto
/// the base, an absolute one takes its place.
pub fn locate(base: &str, reference: &str) -> (found: Result<Target, Error>)
    ensures
        match found {
            Ok(target) => located(base@, reference@) == Ok::<TargetModel, ErrorModel>(target@),
            Err(error) => located(base@, reference@) == Err::<TargetModel, ErrorModel>(error@),
        },
{
    match parse_url(base) {
        Err(source) => { return Err(Error::UrlParseError { url: base.to_owned(), source: source }); },
        Ok(_) => {},
    }
    let full = match join_url(base, reference) {
        Err(source) => {
            return Err(Error::UrlParseError { url: reference.to_owned(), source: source });
        },
        Ok(full) => full,
    };
    let document = match strip_fragment(full.as_str()) {
        Err(source) => { return Err(Error::UrlParseError { url: full, source: source }); },
        Ok(document) => document,
    };
    let fragment = fragment_of(full.as_str());
    Ok(Target { full: full, document: document, fragment: fragment })
}

} // verus!
