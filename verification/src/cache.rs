//! The schema cache: the documents that were loaded, by identifier.

use crate::json::{
    distinct_keys, entries_view, lemma_with_entry_distinct, lookup, position_of, set_entry,
    value_of, with_entry, Entries, Json,
};
use vstd::prelude::*;

verus! {

/// Loaded documents under their identifiers. An identifier is kept without
/// a fragment, so that a document is held once whatever part of it a
/// reference asks for. Nothing leaves the cache.
#[derive(Debug)]
pub struct SchemaCache {
    documents: Vec<(String, Json)>,
}

impl View for SchemaCache {
    type V = Entries;

    closed spec fn view(&self) -> Entries {
        entries_view(self.documents@)
    }
}

impl SchemaCache {
    /// No identifier is held twice.
    #[verifier::type_invariant]
    spec fn one_document_each(&self) -> bool {
        distinct_keys(entries_view(self.documents@))
    }

    /// A cache that holds nothing.
    pub fn new() -> (cache: SchemaCache)
        ensures
            cache@ == Seq::<(Seq<char>, crate::json::JsonModel)>::empty(),
            distinct_keys(cache@),
    {
        let cache = SchemaCache { documents: Vec::new() };
        assert(cache@ =~= Seq::empty());
        cache
    }

    /// The document under `id`.
    pub fn get(&self, id: &str) -> (found: Option<&Json>)
        ensures
            match found {
                Some(document) => lookup(self@, id@) == Some(document@),
                None => lookup(self@, id@) is None,
            },
            distinct_keys(self@),
    {
        proof {
            use_type_invariant(self);
        }
        value_of(&self.documents, id)
    }

    /// Whether a document is held under `id`.
    pub fn holds(&self, id: &str) -> (held: bool)
        ensures
            held == lookup(self@, id@) is Some,
    {
        position_of(&self.documents, id).is_some()
    }

    /// Puts `document` under `id`, in the place of one that was there.
    pub fn put(&mut self, id: String, document: Json)
        ensures
            final(self)@ == with_entry(old(self)@, id@, document@),
            distinct_keys(final(self)@),
    {
        proof {
            use_type_invariant(&*self);
            lemma_with_entry_distinct(entries_view(self.documents@), id@, document@);
        }
        let mut documents: Vec<(String, Json)> = Vec::new();
        assert(entries_view(documents@) =~= Seq::empty());
        std::mem::swap(&mut self.documents, &mut documents);
        set_entry(&mut documents, id, document);
        self.documents = documents;
    }
}

} // verus!
