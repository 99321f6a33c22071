//! The resolver: the cache of loaded documents, the settings, and the walk
//! that replaces references.

use crate::cache::SchemaCache;
use crate::error::{Error, ErrorModel};
use crate::json::{
    drop_key, entries_view, items_view, lemma_array_view, lemma_object_view,
    lemma_with_entry_well_formed, lookup, set_entry, texts_view, value_of, well_formed,
    with_entry, Entries, Json, JsonModel,
};
use crate::laws::{
    all_well_formed, asks_for_missing, gave_well_formed, lemma_load_is_for_a_missing_document,
    lemma_plain_is_unchanged, lemma_resolution_is_well_formed, plain,
};
use crate::resolution::{
    collected, declared_base, expanded, lemma_entries_stop, lemma_items_stop, merged, missing,
    not_found_message, resolved, resolved_below, resolved_entries, resolved_items, stripped,
    substituted, Context, RequestModel, Resolution, SourceKind, StopModel,
};
use crate::target::{locate, Target};
use crate::text::{has_prefix, holds_text, with_text};
use vstd::prelude::*;

verus! {

/// A document to load: its identifier, and how to fetch it.
#[derive(Debug)]
pub struct Request {
    pub identifier: String,
    pub kind: SourceKind,
}

impl View for Request {
    type V = RequestModel;

    open spec fn view(&self) -> RequestModel {
        RequestModel { identifier: self.identifier@, kind: self.kind }
    }
}

/// Why a resolution stopped before its end.
#[derive(Debug)]
pub enum Stop {
    /// It failed.
    Failed(Error),
    /// It needs a document that the cache lacks.
    Load(Request),
}

impl View for Stop {
    type V = StopModel;

    open spec fn view(&self) -> StopModel {
        match self {
            Stop::Failed(error) => StopModel::Failed(error@),
            Stop::Load(request) => StopModel::Load(request@),
        }
    }
}

/// The text of an optional string.
pub open spec fn optional_text(text: Option<String>) -> Option<Seq<char>> {
    match text {
        Some(text) => Some(text@),
        None => None,
    }
}

/// The mathematical value of what a walk gives back.
pub open spec fn outcome(walked: Result<(Json, Vec<(String, Json)>), Stop>) -> Resolution {
    match walked {
        Ok((value, definitions)) => Ok((value@, entries_view(definitions@))),
        Err(stop) => Err(stop@),
    }
}

/// The mathematical value of what a walk through entries gives back.
pub open spec fn entries_outcome(
    walked: Result<(Vec<(String, Json)>, Vec<(String, Json)>), Stop>,
) -> Result<(Entries, Entries), StopModel> {
    match walked {
        Ok((entries, definitions)) => Ok((entries_view(entries@), entries_view(definitions@))),
        Err(stop) => Err(stop@),
    }
}

/// The mathematical value of what a walk through items gives back.
pub open spec fn items_outcome(walked: Result<(Vec<Json>, Vec<(String, Json)>), Stop>) -> Result<
    (Seq<JsonModel>, Entries),
    StopModel,
> {
    match walked {
        Ok((items, definitions)) => Ok((items_view(items@), entries_view(definitions@))),
        Err(stop) => Err(stop@),
    }
}

/// The base for `node` and what is below it.
pub fn base_of<'a>(node: &'a Json, inherited: &'a str) -> (base: &'a str)
    ensures
        base@ == declared_base(node@, inherited@),
{
    match node {
        Json::Object(entries) => {
            proof {
                lemma_object_view(*entries);
            }
            match value_of(entries, "$id") {
                Some(Json::String(id)) => id.as_str(),
                _ => inherited,
            }
        },
        _ => inherited,
    }
}

/// Moves copies of the entries of `found` into the accumulator, in their
/// order.
pub fn merge(definitions: Vec<(String, Json)>, found: &Vec<(String, Json)>) -> (all: Vec<
    (String, Json),
>)
    ensures
        entries_view(all@) == merged(entries_view(definitions@), entries_view(found@)),
{
    let ghost start = entries_view(definitions@);
    let ghost source = entries_view(found@);
    let ghost put = |so_far: Entries, entry: (Seq<char>, JsonModel)|
        with_entry(so_far, entry.0, entry.1);
    let mut all = definitions;
    let mut i: usize = 0;
    assert(source.take(0) =~= Seq::empty());
    while i < found.len()
        invariant
            i <= found.len(),
            source == entries_view(found@),
            put == |so_far: Entries, entry: (Seq<char>, JsonModel)|
                with_entry(so_far, entry.0, entry.1),
            entries_view(all@) == source.take(i as int).fold_left(start, put),
        decreases found.len() - i,
    {
        proof {
            assert(source.take(i + 1).drop_last() =~= source.take(i as int));
        }
        set_entry(&mut all, found[i].0.clone(), found[i].1.clone());
        i += 1;
    }
    assert(source.take(i as int) =~= source);
    all
}

/// The accumulator after an object with these entries was visited.
pub fn collect(entries: &Vec<(String, Json)>, definitions: Vec<(String, Json)>) -> (all: Vec<
    (String, Json),
>)
    ensures
        entries_view(all@) == collected(entries_view(entries@), entries_view(definitions@)),
{
    match value_of(entries, "definitions") {
        Some(Json::Object(found)) => {
            proof {
                lemma_object_view(*found);
            }
            merge(definitions, found)
        },
        _ => definitions,
    }
}

/// Copies of the entries that are under neither `definitions` nor `$ref`.
pub fn strip(entries: &Vec<(String, Json)>) -> (kept: Vec<(String, Json)>)
    ensures
        entries_view(kept@) == stripped(entries_view(entries@)),
{
    let without_definitions = drop_key(entries, "definitions");
    drop_key(&without_definitions, "$ref")
}

/// What a resolution stops with when the cache lacks `identifier`.
pub fn request(identifier: String) -> (stop: Stop)
    ensures
        stop@ == missing(identifier@),
{
    if has_prefix(identifier.as_str(), "http:") || has_prefix(identifier.as_str(), "https:") {
        Stop::Load(Request { identifier: identifier, kind: SourceKind::Http })
    } else if has_prefix(identifier.as_str(), "file:") {
        Stop::Load(Request { identifier: identifier, kind: SourceKind::File })
    } else {
        Stop::Failed(Error::UnsupportedScheme { url: identifier })
    }
}

/// The error for a fragment that addresses nothing.
pub fn not_found(reference: &str, fragment: &str) -> (error: Error)
    ensures
        error@ == (ErrorModel::JsonPointerNotFound {
            pointer: not_found_message(reference@, fragment@),
        }),
{
    let mut message = String::from_str("ref `");
    message.append(reference);
    message.append("` can not be resolved as pointer `");
    message.append(fragment);
    message.append("` can not be found in the schema");
    Error::JsonPointerNotFound { pointer: message }
}

/// The resolved content in the place of the object that held the
/// reference.
pub fn substitute(reference_key: &Option<String>, content: Json, replaced: Json) -> (value: Json)
    ensures
        value@ == substituted(optional_text(*reference_key), content@, replaced@),
{
    match reference_key {
        Some(key) => match content {
            Json::Object(entries) => {
                let mut entries = entries;
                proof {
                    lemma_object_view(entries);
                }
                set_entry(&mut entries, key.clone(), replaced);
                proof {
                    lemma_object_view(entries);
                }
                Json::Object(entries)
            },
            other => other,
        },
        None => content,
    }
}

/// How deep expansions may nest unless another limit is set.
pub const DEFAULT_EXPANSION_LIMIT: usize = 64;

/// Holds the settings of a dereferencing and the documents loaded for it.
#[derive(Debug)]
pub struct JsonRef {
    schema_cache: SchemaCache,
    reference_key: Option<String>,
    expansion_limit: usize,
}

/// How far a dereferencing came.
#[derive(Debug)]
pub enum Progress<T> {
    /// It is done, and this is what it gives.
    Done(T),
    /// It needs this document: load it, hand it over with `supply`, and
    /// make the same call again.
    Load(Request),
}

/// The identifier under which a document that was not loaded from anywhere
/// is resolved: a file `anon.json` in the working directory.
pub open spec fn anonymous_url(working_directory: Seq<char>) -> Seq<char> {
    "file://"@ + working_directory + "/anon.json"@
}

/// The identifier of the document in the file at `path`.
pub open spec fn file_url(path: Seq<char>) -> Seq<char> {
    "file://"@ + path
}

/// `root` with the collected definitions under `definitions`; `None` where
/// `root` is no object.
pub open spec fn with_definitions(root: JsonModel, definitions: Entries) -> Option<JsonModel> {
    match root {
        JsonModel::Object(entries) => Some(
            JsonModel::Object(
                with_entry(entries, "definitions"@, JsonModel::Object(definitions)),
            ),
        ),
        _ => None,
    }
}

impl JsonRef {
    /// The loaded documents and the reference key, as a resolution sees them.
    pub closed spec fn context(&self) -> Context {
        Context {
            cache: self.schema_cache@,
            reference_key: optional_text(self.reference_key),
        }
    }

    /// How deep expansions may nest.
    pub closed spec fn limit(&self) -> nat {
        self.expansion_limit as nat
    }

    /// A resolver with an empty cache, no reference key, and the default
    /// limit on how deep expansions nest.
    pub fn new() -> (jsonref: JsonRef)
        ensures
            jsonref.context() == (Context { cache: Seq::empty(), reference_key: None }),
            jsonref.limit() == DEFAULT_EXPANSION_LIMIT,
    {
        JsonRef {
            schema_cache: SchemaCache::new(),
            reference_key: None,
            expansion_limit: DEFAULT_EXPANSION_LIMIT,
        }
    }

    /// Sets the key under which an object that a reference replaced is kept
    /// in what replaced it.
    pub fn set_reference_key(&mut self, reference_key: &str)
        ensures
            final(self).context() == (Context {
                reference_key: Some(reference_key@),
                ..old(self).context()
            }),
            final(self).limit() == old(self).limit(),
    {
        self.reference_key = Some(reference_key.to_owned());
    }

    /// Sets how deep expansions may nest.
    pub fn set_expansion_limit(&mut self, limit: usize)
        ensures
            final(self).context() == old(self).context(),
            final(self).limit() == limit,
    {
        self.expansion_limit = limit;
    }

    /// Hands over a loaded document. It is kept under `identifier` unless
    /// one is held there already.
    pub fn supply(&mut self, identifier: &str, document: Json)
        ensures
            final(self).limit() == old(self).limit(),
            final(self).context() == (Context {
                cache: if lookup(old(self).context().cache, identifier@) is Some {
                    old(self).context().cache
                } else {
                    old(self).context().cache.push((identifier@, document@))
                },
                ..old(self).context()
            }),
    {
        if !self.schema_cache.holds(identifier) {
            self.schema_cache.put(identifier.to_owned(), document);
        }
    }

    /// Dereferences `value` in place, reading relative references against
    /// a file in `working_directory`.
    ///
    /// The value is first put into the cache under its identifier. Where
    /// the resolution needs a document that the cache lacks, or fails,
    /// `value` stays as it was.
    pub fn deref_value(&mut self, value: &mut Json, working_directory: &str) -> (done: Result<
        Progress<()>,
        Error,
    >)
        ensures
            final(self).limit() == old(self).limit(),
            final(self).context() == (Context {
                cache: with_entry(
                    old(self).context().cache,
                    anonymous_url(working_directory@),
                    old(value)@,
                ),
                ..old(self).context()
            }),
            match resolved(
                final(self).context(),
                old(value)@,
                anonymous_url(working_directory@),
                Seq::empty(),
                Seq::empty(),
                old(self).limit(),
            ) {
                Ok((document, _)) => done matches Ok(Progress::Done(_)) && final(value)@
                    == document,
                Err(StopModel::Load(request)) => done matches Ok(Progress::Load(asked))
                    && asked@ == request && final(value)@ == old(value)@,
                Err(StopModel::Failed(error)) => done matches Err(failure) && failure@ == error
                    && final(value)@ == old(value)@,
            },
            plain(old(value)@) ==> (done matches Ok(Progress::Done(_)) && final(value)@ == old(
                value,
            )@),
            done matches Ok(Progress::Load(asked)) ==> lookup(
                final(self).context().cache,
                asked.identifier@,
            ) is None,
            all_well_formed(final(self).context(), old(value)@, Seq::empty()) ==> well_formed(
                final(value)@,
            ),
    {
        let mut url = String::from_str("file://");
        url.append(working_directory);
        url.append("/anon.json");
        self.schema_cache.put(url.clone(), value.clone());
        match self.deref_root(value, url.as_str()) {
            Ok((document, _)) => {
                *value = document;
                Ok(Progress::Done(()))
            },
            Err(Stop::Load(request)) => Ok(Progress::Load(request)),
            Err(Stop::Failed(error)) => Err(error),
        }
    }

    /// Dereferences the document that was fetched from `url`.
    ///
    /// The document is first put into the cache under `url`.
    pub fn deref_url(&mut self, url: &str, document: &Json) -> (done: Result<
        Progress<Json>,
        Error,
    >)
        ensures
            final(self).limit() == old(self).limit(),
            final(self).context() == (Context {
                cache: with_entry(old(self).context().cache, url@, document@),
                ..old(self).context()
            }),
            match resolved(
                final(self).context(),
                document@,
                url@,
                Seq::empty(),
                Seq::empty(),
                old(self).limit(),
            ) {
                Ok((resolved, _)) => done matches Ok(Progress::Done(value)) && value@
                    == resolved,
                Err(StopModel::Load(request)) => done matches Ok(Progress::Load(asked))
                    && asked@ == request,
                Err(StopModel::Failed(error)) => done matches Err(failure) && failure@ == error,
            },
            plain(document@) ==> (done matches Ok(Progress::Done(value)) && value@ == document@),
            done matches Ok(Progress::Load(asked)) ==> lookup(
                final(self).context().cache,
                asked.identifier@,
            ) is None,
            all_well_formed(final(self).context(), document@, Seq::empty()) ==> (
            done matches Ok(Progress::Done(value)) ==> well_formed(value@)),
    {
        self.schema_cache.put(url.to_owned(), document.clone());
        match self.deref_root(document, url) {
            Ok((resolved, _)) => Ok(Progress::Done(resolved)),
            Err(Stop::Load(request)) => Ok(Progress::Load(request)),
            Err(Stop::Failed(error)) => Err(error),
        }
    }

    /// Dereferences the document that was read from the file at `path`,
    /// and puts the definitions collected on the way under `definitions` in
    /// the result.
    ///
    /// `path` is absolute. The document is first put into the cache under
    /// its identifier.
    pub fn deref_file(&mut self, path: &str, document: &Json) -> (done: Result<
        Progress<Json>,
        Error,
    >)
        ensures
            final(self).limit() == old(self).limit(),
            final(self).context() == (Context {
                cache: with_entry(old(self).context().cache, file_url(path@), document@),
                ..old(self).context()
            }),
            match resolved(
                final(self).context(),
                document@,
                file_url(path@),
                Seq::empty(),
                Seq::empty(),
                old(self).limit(),
            ) {
                Ok((resolved, definitions)) => match with_definitions(resolved, definitions) {
                    Some(whole) => done matches Ok(Progress::Done(value)) && value@ == whole,
                    None => done matches Err(failure) && failure@ == (ErrorModel::RootNotObject {
                        url: file_url(path@),
                    }),
                },
                Err(StopModel::Load(request)) => done matches Ok(Progress::Load(asked))
                    && asked@ == request,
                Err(StopModel::Failed(error)) => done matches Err(failure) && failure@ == error,
            },
            done matches Ok(Progress::Load(asked)) ==> lookup(
                final(self).context().cache,
                asked.identifier@,
            ) is None,
            all_well_formed(final(self).context(), document@, Seq::empty()) ==> (
            done matches Ok(Progress::Done(value)) ==> well_formed(value@)),
    {
        let mut url = String::from_str("file://");
        url.append(path);
        self.schema_cache.put(url.clone(), document.clone());
        match self.deref_root(document, url.as_str()) {
            Ok((resolved, definitions)) => match resolved {
                Json::Object(entries) => {
                    let mut entries = entries;
                    proof {
                        lemma_object_view(entries);
                        lemma_object_view(definitions);
                        if well_formed(JsonModel::Object(entries_view(entries@)))
                            && well_formed(JsonModel::Object(entries_view(definitions@))) {
                            lemma_with_entry_well_formed(
                                entries_view(entries@),
                                "definitions"@,
                                JsonModel::Object(entries_view(definitions@)),
                            );
                        }
                    }
                    set_entry(&mut entries, "definitions".to_owned(), Json::Object(definitions));
                    proof {
                        lemma_object_view(entries);
                    }
                    Ok(Progress::Done(Json::Object(entries)))
                },
                _ => Err(Error::RootNotObject { url: url }),
            },
            Err(Stop::Load(request)) => Ok(Progress::Load(request)),
            Err(Stop::Failed(error)) => Err(error),
        }
    }

    /// Resolves a root document under its identifier `id`: with no
    /// reference in use, nothing collected yet, and the resolver's limit.
    fn deref_root(&self, document: &Json, id: &str) -> (walked: Result<
        (Json, Vec<(String, Json)>),
        Stop,
    >)
        ensures
            outcome(walked) == resolved(
                self.context(),
                document@,
                id@,
                Seq::empty(),
                Seq::empty(),
                self.limit(),
            ),
            walked matches Err(stop) ==> asks_for_missing(self.context(), stop@),
            plain(document@) ==> outcome(walked) == Ok::<(JsonModel, Entries), StopModel>(
                (document@, Seq::empty()),
            ),
            all_well_formed(self.context(), document@, Seq::empty()) ==> gave_well_formed(
                outcome(walked),
            ),
    {
        let used_refs: Vec<String> = Vec::new();
        let definitions: Vec<(String, Json)> = Vec::new();
        proof {
            let context = self.context();
            let limit = self.limit();
            assert(texts_view(used_refs@) =~= Seq::empty());
            assert(entries_view(definitions@) =~= Seq::empty());
            lemma_load_is_for_a_missing_document(
                context,
                document@,
                id@,
                Seq::empty(),
                Seq::empty(),
                limit,
            );
            if plain(document@) {
                lemma_plain_is_unchanged(
                    context,
                    document@,
                    id@,
                    Seq::empty(),
                    Seq::empty(),
                    limit,
                );
            }
            if all_well_formed(context, document@, Seq::empty()) {
                lemma_resolution_is_well_formed(
                    context,
                    document@,
                    id@,
                    Seq::empty(),
                    Seq::empty(),
                    limit,
                );
            }
        }
        self.deref(document, id, &used_refs, definitions, self.expansion_limit)
    }

    /// Resolves `value`.
    ///
    /// `id` is the identifier that relative references are read against,
    /// `used_refs` the references being expanded around `value`,
    /// `definitions` the accumulator so far, and `budget` how many
    /// expansions may still nest.
    pub fn deref(
        &self,
        value: &Json,
        id: &str,
        used_refs: &Vec<String>,
        definitions: Vec<(String, Json)>,
        budget: usize,
    ) -> (walked: Result<(Json, Vec<(String, Json)>), Stop>)
        ensures
            outcome(walked) == resolved(
                self.context(),
                value@,
                id@,
                texts_view(used_refs@),
                entries_view(definitions@),
                budget as nat,
            ),
        decreases budget, value, 0nat,
    {
        match value {
            Json::Object(entries) => {
                proof {
                    lemma_object_view(*entries);
                }
                let base = base_of(value, id);
                let definitions = collect(entries, definitions);
                match value_of(entries, "$ref") {
                    Some(Json::String(reference)) => {
                        let target = match locate(base, reference.as_str()) {
                            Ok(target) => target,
                            Err(error) => {
                                return Err(Stop::Failed(error));
                            },
                        };
                        self.expand(entries, reference.as_str(), target, base, used_refs, definitions, budget)
                    },
                    _ => match self.deref_entries(entries, true, base, used_refs, definitions, budget) {
                        Ok((below, definitions)) => {
                            proof {
                                lemma_object_view(below);
                            }
                            Ok((Json::Object(below), definitions))
                        },
                        Err(stop) => Err(stop),
                    },
                }
            },
            Json::Array(items) => {
                proof {
                    lemma_array_view(*items);
                }
                match self.deref_items(items, id, used_refs, definitions, budget) {
                    Ok((below, definitions)) => {
                        proof {
                            lemma_array_view(below);
                        }
                        Ok((Json::Array(below), definitions))
                    },
                    Err(stop) => Err(stop),
                }
            },
            _ => Ok((value.clone(), definitions)),
        }
    }

    /// Replaces the object with these entries by what `target` points to:
    /// looks the document up, selects what the fragment addresses, and,
    /// unless the reference is already being expanded, resolves that and
    /// what is below the result.
    pub fn expand(
        &self,
        entries: &Vec<(String, Json)>,
        reference: &str,
        target: Target,
        base: &str,
        used_refs: &Vec<String>,
        definitions: Vec<(String, Json)>,
        budget: usize,
    ) -> (walked: Result<(Json, Vec<(String, Json)>), Stop>)
        ensures
            outcome(walked) == expanded(
                self.context(),
                entries_view(entries@),
                reference@,
                target@,
                base@,
                texts_view(used_refs@),
                entries_view(definitions@),
                budget as nat,
            ),
        decreases budget, entries, 0nat,
    {
        let document = match self.schema_cache.get(target.document.as_str()) {
            Some(document) => document,
            None => {
                return Err(request(target.document));
            },
        };
        let schema = match &target.fragment {
            Some(fragment) => match document.pointer(fragment.as_str()) {
                Some(schema) => schema,
                None => {
                    return Err(Stop::Failed(not_found(reference, fragment.as_str())));
                },
            },
            None => document,
        };
        if holds_text(used_refs, &target.full) {
            let kept = strip(entries);
            proof {
                lemma_object_view(kept);
            }
            return Ok((Json::Object(kept), definitions));
        }
        if budget == 0 {
            return Err(Stop::Failed(Error::ExpansionLimit { url: target.full }));
        }
        let chain = with_text(used_refs, &target.full);
        match self.deref(schema, target.document.as_str(), &chain, definitions, budget - 1) {
            Err(stop) => Err(stop),
            Ok((content, definitions)) => {
                let kept = strip(entries);
                proof {
                    lemma_object_view(kept);
                }
                let replaced = substitute(&self.reference_key, content, Json::Object(kept));
                self.deref_below(&replaced, base, used_refs, definitions, budget - 1)
            },
        }
    }

    /// Resolves every value directly inside `value`.
    pub fn deref_below(
        &self,
        value: &Json,
        id: &str,
        used_refs: &Vec<String>,
        definitions: Vec<(String, Json)>,
        budget: usize,
    ) -> (walked: Result<(Json, Vec<(String, Json)>), Stop>)
        ensures
            outcome(walked) == resolved_below(
                self.context(),
                value@,
                id@,
                texts_view(used_refs@),
                entries_view(definitions@),
                budget as nat,
            ),
        decreases budget, value, 0nat,
    {
        match value {
            Json::Object(entries) => {
                proof {
                    lemma_object_view(*entries);
                }
                match self.deref_entries(entries, false, id, used_refs, definitions, budget) {
                    Ok((below, definitions)) => {
                        proof {
                            lemma_object_view(below);
                        }
                        Ok((Json::Object(below), definitions))
                    },
                    Err(stop) => Err(stop),
                }
            },
            Json::Array(items) => {
                proof {
                    lemma_array_view(*items);
                }
                match self.deref_items(items, id, used_refs, definitions, budget) {
                    Ok((below, definitions)) => {
                        proof {
                            lemma_array_view(below);
                        }
                        Ok((Json::Array(below), definitions))
                    },
                    Err(stop) => Err(stop),
                }
            },
            _ => Ok((value.clone(), definitions)),
        }
    }

    /// Resolves the values of the entries one after the other. With
    /// `strip`, the entries under `definitions` are left out.
    #[verifier::loop_isolation(false)]
    pub fn deref_entries(
        &self,
        entries: &Vec<(String, Json)>,
        strip: bool,
        id: &str,
        used_refs: &Vec<String>,
        definitions: Vec<(String, Json)>,
        budget: usize,
    ) -> (walked: Result<(Vec<(String, Json)>, Vec<(String, Json)>), Stop>)
        ensures
            entries_outcome(walked) == resolved_entries(
                self.context(),
                entries_view(entries@),
                strip,
                id@,
                texts_view(used_refs@),
                entries_view(definitions@),
                budget as nat,
            ),
        decreases budget, entries, 0nat,
    {
        let definitions_key: String = "definitions".to_owned();
        let ghost all = entries_view(entries@);
        let ghost start = entries_view(definitions@);
        let mut below: Vec<(String, Json)> = Vec::new();
        let mut definitions = definitions;
        let mut i: usize = 0;
        proof {
            assert(all.take(0) =~= Seq::empty());
            assert(entries_view(below@) =~= Seq::empty());
        }
        while i < entries.len()
            invariant
                i <= entries.len(),
                resolved_entries(
                    self.context(),
                    all.take(i as int),
                    strip,
                    id@,
                    texts_view(used_refs@),
                    start,
                    budget as nat,
                ) == Ok::<(Entries, Entries), StopModel>(
                    (entries_view(below@), entries_view(definitions@)),
                ),
            decreases entries.len() - i,
        {
            let ghost before = entries_view(below@);
            proof {
                assert(all.take(i + 1).drop_last() =~= all.take(i as int));
                assert(all.take(i + 1).last() == all[i as int]);
            }
            if strip && entries[i].0 == definitions_key {
            } else {
                match self.deref(&entries[i].1, id, used_refs, definitions, budget) {
                    Ok((value, rest)) => {
                        definitions = rest;
                        below.push((entries[i].0.clone(), value));
                        assert(entries_view(below@) =~= before.push((all[i as int].0, value@)));
                    },
                    Err(stop) => {
                        proof {
                            lemma_entries_stop(
                                self.context(),
                                all,
                                i + 1,
                                strip,
                                id@,
                                texts_view(used_refs@),
                                start,
                                budget as nat,
                            );
                        }
                        return Err(stop);
                    },
                }
            }
            i += 1;
        }
        assert(all.take(i as int) =~= all);
        Ok((below, definitions))
    }

    /// Resolves the items one after the other.
    #[verifier::loop_isolation(false)]
    pub fn deref_items(
        &self,
        items: &Vec<Json>,
        id: &str,
        used_refs: &Vec<String>,
        definitions: Vec<(String, Json)>,
        budget: usize,
    ) -> (walked: Result<(Vec<Json>, Vec<(String, Json)>), Stop>)
        ensures
            items_outcome(walked) == resolved_items(
                self.context(),
                items_view(items@),
                id@,
                texts_view(used_refs@),
                entries_view(definitions@),
                budget as nat,
            ),
        decreases budget, items, 0nat,
    {
        let ghost all = items_view(items@);
        let ghost start = entries_view(definitions@);
        let mut below: Vec<Json> = Vec::new();
        let mut definitions = definitions;
        let mut i: usize = 0;
        proof {
            assert(all.take(0) =~= Seq::empty());
            assert(items_view(below@) =~= Seq::empty());
        }
        while i < items.len()
            invariant
                i <= items.len(),
                resolved_items(
                    self.context(),
                    all.take(i as int),
                    id@,
                    texts_view(used_refs@),
                    start,
                    budget as nat,
                ) == Ok::<(Seq<JsonModel>, Entries), StopModel>(
                    (items_view(below@), entries_view(definitions@)),
                ),
            decreases items.len() - i,
        {
            let ghost before = items_view(below@);
            proof {
                assert(all.take(i + 1).drop_last() =~= all.take(i as int));
                assert(all.take(i + 1).last() == all[i as int]);
            }
            match self.deref(&items[i], id, used_refs, definitions, budget) {
                Ok((value, rest)) => {
                    definitions = rest;
                    below.push(value);
                    assert(items_view(below@) =~= before.push(value@));
                },
                Err(stop) => {
                    proof {
                        lemma_items_stop(
                            self.context(),
                            all,
                            i + 1,
                            id@,
                            texts_view(used_refs@),
                            start,
                            budget as nat,
                        );
                    }
                    return Err(stop);
                },
            }
            i += 1;
        }
        assert(all.take(i as int) =~= all);
        Ok((below, definitions))
    }
}

} // verus!
