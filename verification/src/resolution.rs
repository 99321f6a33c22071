//! What resolving a document means, stated over the mathematical values of
//! documents.
//!
//! A resolution walks a document depth first. At each object it takes the
//! base from `$id`, moves the entries of `definitions` into the accumulator,
//! and replaces an object that holds a string under `$ref` by the resolved
//! content that the reference points to. The documents come from a cache; a
//! document that the cache lacks stops the resolution with a request to
//! load it.

use crate::error::ErrorModel;
use crate::json::{lookup, with_entry, without, Entries, JsonModel};
use crate::pointer::addressed;
use crate::target::{located, TargetModel};
use vstd::prelude::*;

verus! {

/// How a document is fetched.
#[derive(Clone, Copy, Debug, PartialEq, Eq)]
pub enum SourceKind {
    /// With an HTTP GET request.
    Http,
    /// From a file.
    File,
}

/// A document to load: its identifier, and how to fetch it.
pub struct RequestModel {
    pub identifier: Seq<char>,
    pub kind: SourceKind,
}

/// Why a resolution stopped before its end.
pub enum StopModel {
    /// It failed.
    Failed(ErrorModel),
    /// It needs a document that the cache lacks.
    Load(RequestModel),
}

/// What a resolution works with besides the document: the loaded documents
/// by identifier, and the key under which a replaced object is kept.
pub struct Context {
    pub cache: Entries,
    pub reference_key: Option<Seq<char>>,
}

/// A resolved value with the definitions collected so far, or why there is none.
pub type Resolution = Result<(JsonModel, Entries), StopModel>;

/// The base for `node` and what is below it: its `$id` where it is an
/// object that declares one as a string, else the base it inherits.
pub open spec fn declared_base(node: JsonModel, inherited: Seq<char>) -> Seq<char> {
    match node {
        JsonModel::Object(entries) => match lookup(entries, "$id"@) {
            Some(JsonModel::String(id)) => id,
            _ => inherited,
        },
        _ => inherited,
    }
}

/// The accumulator after the entries of `found` went into it in their
/// order, a later entry taking the place of an earlier one under its key.
pub open spec fn merged(definitions: Entries, found: Entries) -> Entries {
    found.fold_left(
        definitions,
        |so_far: Entries, entry: (Seq<char>, JsonModel)| with_entry(so_far, entry.0, entry.1),
    )
}

/// The accumulator after an object with these entries was visited.
pub open spec fn collected(entries: Entries, definitions: Entries) -> Entries {
    match lookup(entries, "definitions"@) {
        Some(JsonModel::Object(found)) => merged(definitions, found),
        _ => definitions,
    }
}

/// The entries of an object without `definitions` and `$ref`.
pub open spec fn stripped(entries: Entries) -> Entries {
    without(without(entries, "definitions"@), "$ref"@)
}

/// What a reference selects in the document it names: what its fragment
/// addresses, or the whole document where it has none.
pub open spec fn selected(document: JsonModel, fragment: Option<Seq<char>>) -> Option<JsonModel> {
    match fragment {
        Some(pointer) => addressed(document, pointer),
        None => Some(document),
    }
}

/// What a resolution stops with when the cache lacks `identifier`: a
/// request to fetch it over HTTP where its scheme is `http` or `https`, a
/// request to read it from a file where its scheme is `file`, and an error
/// for any other scheme.
pub open spec fn missing(identifier: Seq<char>) -> StopModel {
    if "http:"@.is_prefix_of(identifier) || "https:"@.is_prefix_of(identifier) {
        StopModel::Load(RequestModel { identifier: identifier, kind: SourceKind::Http })
    } else if "file:"@.is_prefix_of(identifier) {
        StopModel::Load(RequestModel { identifier: identifier, kind: SourceKind::File })
    } else {
        StopModel::Failed(ErrorModel::UnsupportedScheme { url: identifier })
    }
}

/// What the error says of a fragment that addresses nothing.
pub open spec fn not_found_message(reference: Seq<char>, fragment: Seq<char>) -> Seq<char> {
    "ref `"@ + reference + "` can not be resolved as pointer `"@ + fragment
        + "` can not be found in the schema"@
}

/// The resolved content in the place of the object that held the
/// reference; where a key is set and the content is an object, `replaced`
/// goes into it under that key.
pub open spec fn substituted(
    reference_key: Option<Seq<char>>,
    content: JsonModel,
    replaced: JsonModel,
) -> JsonModel {
    match (reference_key, content) {
        (Some(key), JsonModel::Object(entries)) => JsonModel::Object(
            with_entry(entries, key, replaced),
        ),
        _ => content,
    }
}

/// The resolution of `node`.
///
/// `base` is the identifier that relative references are read against,
/// `used` the references that are being expanded around `node`, and
/// `budget` how many expansions may still nest.
///
/// Only a `$ref` that is a string is a reference. An object without one
/// loses its `definitions` and keeps every other entry, a `$ref` of another
/// kind among them, with the values resolved.
pub open spec fn resolved(
    context: Context,
    node: JsonModel,
    base: Seq<char>,
    used: Seq<Seq<char>>,
    definitions: Entries,
    budget: nat,
) -> Resolution
    decreases budget, node, 0nat,
{
    match node {
        JsonModel::Object(entries) => {
            let base = declared_base(node, base);
            let definitions = collected(entries, definitions);
            match lookup(entries, "$ref"@) {
                Some(JsonModel::String(reference)) => match located(base, reference) {
                    Err(error) => Err(StopModel::Failed(error)),
                    Ok(target) => expanded(
                        context,
                        entries,
                        reference,
                        target,
                        base,
                        used,
                        definitions,
                        budget,
                    ),
                },
                _ => match resolved_entries(
                    context,
                    entries,
                    true,
                    base,
                    used,
                    definitions,
                    budget,
                ) {
                    Err(stop) => Err(stop),
                    Ok((below, definitions)) => Ok((JsonModel::Object(below), definitions)),
                },
            }
        },
        JsonModel::Array(items) => match resolved_items(
            context,
            items,
            base,
            used,
            definitions,
            budget,
        ) {
            Err(stop) => Err(stop),
            Ok((below, definitions)) => Ok((JsonModel::Array(below), definitions)),
        },
        _ => Ok((node, definitions)),
    }
}

/// What takes the place of the object with these `entries`, whose `$ref`
/// is `reference` and points to `target`.
///
/// The document comes from the cache, and the fragment selects the schema in
/// it. A reference that is already being expanded is not expanded again:
/// the object stays, without `definitions` and `$ref`. Otherwise the schema
/// is resolved with its document as the base, the result takes the object's
/// place, and what is below the result is resolved with the object's own
/// base.
pub open spec fn expanded(
    context: Context,
    entries: Entries,
    reference: Seq<char>,
    target: TargetModel,
    base: Seq<char>,
    used: Seq<Seq<char>>,
    definitions: Entries,
    budget: nat,
) -> Resolution
    decreases budget, entries, 0nat,
{
    match lookup(context.cache, target.document) {
        None => Err(missing(target.document)),
        Some(document) => match selected(document, target.fragment) {
            None => Err(
                StopModel::Failed(
                    ErrorModel::JsonPointerNotFound {
                        pointer: not_found_message(reference, target.fragment->0),
                    },
                ),
            ),
            Some(schema) => if used.contains(target.full) {
                Ok((JsonModel::Object(stripped(entries)), definitions))
            } else if budget == 0 {
                Err(StopModel::Failed(ErrorModel::ExpansionLimit { url: target.full }))
            } else {
                match resolved(
                    context,
                    schema,
                    target.document,
                    used.push(target.full),
                    definitions,
                    (budget - 1) as nat,
                ) {
                    Err(stop) => Err(stop),
                    Ok((content, definitions)) => resolved_below(
                        context,
                        substituted(
                            context.reference_key,
                            content,
                            JsonModel::Object(stripped(entries)),
                        ),
                        base,
                        used,
                        definitions,
                        (budget - 1) as nat,
                    ),
                }
            },
        },
    }
}

/// `value` with every value directly inside it resolved: the values of an
/// object's entries, the items of an array. Its own keys are not looked at.
pub open spec fn resolved_below(
    context: Context,
    value: JsonModel,
    base: Seq<char>,
    used: Seq<Seq<char>>,
    definitions: Entries,
    budget: nat,
) -> Resolution
    decreases budget, value, 0nat,
{
    match value {
        JsonModel::Object(entries) => match resolved_entries(
            context,
            entries,
            false,
            base,
            used,
            definitions,
            budget,
        ) {
            Err(stop) => Err(stop),
            Ok((below, definitions)) => Ok((JsonModel::Object(below), definitions)),
        },
        JsonModel::Array(items) => match resolved_items(
            context,
            items,
            base,
            used,
            definitions,
            budget,
        ) {
            Err(stop) => Err(stop),
            Ok((below, definitions)) => Ok((JsonModel::Array(below), definitions)),
        },
        _ => Ok((value, definitions)),
    }
}

/// The entries with their values resolved one after the other, each with
/// the definitions that the ones before it left. With `strip`, the entries
/// under `definitions` are left out.
pub open spec fn resolved_entries(
    context: Context,
    entries: Entries,
    strip: bool,
    base: Seq<char>,
    used: Seq<Seq<char>>,
    definitions: Entries,
    budget: nat,
) -> Result<(Entries, Entries), StopModel>
    decreases budget, entries, 0nat,
{
    if entries.len() == 0 {
        Ok((Seq::empty(), definitions))
    } else {
        match resolved_entries(
            context,
            entries.drop_last(),
            strip,
            base,
            used,
            definitions,
            budget,
        ) {
            Err(stop) => Err(stop),
            Ok((front, definitions)) => {
                let key = entries.last().0;
                if strip && key == "definitions"@ {
                    Ok((front, definitions))
                } else {
                    match resolved(
                        context,
                        entries.last().1,
                        base,
                        used,
                        definitions,
                        budget,
                    ) {
                        Err(stop) => Err(stop),
                        Ok((value, definitions)) => Ok((front.push((key, value)), definitions)),
                    }
                }
            },
        }
    }
}

/// The items resolved one after the other, each with the definitions that
/// the ones before it left.
pub open spec fn resolved_items(
    context: Context,
    items: Seq<JsonModel>,
    base: Seq<char>,
    used: Seq<Seq<char>>,
    definitions: Entries,
    budget: nat,
) -> Result<(Seq<JsonModel>, Entries), StopModel>
    decreases budget, items, 0nat,
{
    if items.len() == 0 {
        Ok((Seq::empty(), definitions))
    } else {
        match resolved_items(context, items.drop_last(), base, used, definitions, budget) {
            Err(stop) => Err(stop),
            Ok((front, definitions)) => match resolved(
                context,
                items.last(),
                base,
                used,
                definitions,
                budget,
            ) {
                Err(stop) => Err(stop),
                Ok((value, definitions)) => Ok((front.push(value), definitions)),
            },
        }
    }
}

/// Once the entries up to some point have stopped a resolution, the whole
/// sequence stops it in the same way.
pub proof fn lemma_entries_stop(
    context: Context,
    entries: Entries,
    n: int,
    strip: bool,
    base: Seq<char>,
    used: Seq<Seq<char>>,
    definitions: Entries,
    budget: nat,
)
    requires
        0 <= n <= entries.len(),
        resolved_entries(context, entries.take(n), strip, base, used, definitions, budget) is Err,
    ensures
        resolved_entries(context, entries, strip, base, used, definitions, budget)
            == resolved_entries(context, entries.take(n), strip, base, used, definitions, budget),
    decreases entries.len() - n,
{
    if n == entries.len() {
        assert(entries.take(n) =~= entries);
    } else {
        assert(entries.take(n + 1).drop_last() =~= entries.take(n));
        lemma_entries_stop(context, entries, n + 1, strip, base, used, definitions, budget);
    }
}

/// Once the items up to some point have stopped a resolution, the whole
/// sequence stops it in the same way.
pub proof fn lemma_items_stop(
    context: Context,
    items: Seq<JsonModel>,
    n: int,
    base: Seq<char>,
    used: Seq<Seq<char>>,
    definitions: Entries,
    budget: nat,
)
    requires
        0 <= n <= items.len(),
        resolved_items(context, items.take(n), base, used, definitions, budget) is Err,
    ensures
        resolved_items(context, items, base, used, definitions, budget) == resolved_items(
            context,
            items.take(n),
            base,
            used,
            definitions,
            budget,
        ),
    decreases items.len() - n,
{
    if n == items.len() {
        assert(items.take(n) =~= items);
    } else {
        assert(items.take(n + 1).drop_last() =~= items.take(n));
        lemma_items_stop(context, items, n + 1, base, used, definitions, budget);
    }
}

} // verus!
