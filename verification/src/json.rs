//! The document model: a JSON value tree, its mathematical view, and the
//! keyed-entry operations that objects, the schema cache and the definitions
//! accumulator share.

use vstd::prelude::*;

verus! {

/// A JSON number, kept as the integers that carry it.
#[derive(Clone, Copy, Debug, PartialEq, Eq)]
pub enum Number {
    /// A non-negative integer.
    PosInt(u64),
    /// A negative integer.
    NegInt(i64),
    /// A binary64 number, held as its bit pattern.
    Real(u64),
}

/// The mathematical value of a document.
pub enum JsonModel {
    Null,
    Bool(bool),
    Number(Number),
    String(Seq<char>),
    Array(Seq<JsonModel>),
    Object(Seq<(Seq<char>, JsonModel)>),
}

/// The entries of an object, in order: each a key and the value under it.
pub type Entries = Seq<(Seq<char>, JsonModel)>;

/// A JSON value tree. An object keeps its entries in the order in which they
/// were written. In a well-formed value no object has a key twice; where
/// one has, the key is looked up at its first entry.
#[derive(Debug, PartialEq, Eq)]
pub enum Json {
    Null,
    Bool(bool),
    Number(Number),
    String(String),
    Array(Vec<Json>),
    Object(Vec<(String, Json)>),
}

impl View for Json {
    type V = JsonModel;

    open spec fn view(&self) -> JsonModel
        decreases self,
    {
        match self {
            Json::Null => JsonModel::Null,
            Json::Bool(b) => JsonModel::Bool(*b),
            Json::Number(n) => JsonModel::Number(*n),
            Json::String(s) => JsonModel::String(s@),
            Json::Array(items) => JsonModel::Array(
                Seq::new(
                    items.len() as nat,
                    |i: int|
                        if 0 <= i < items.len() {
                            items[i].view()
                        } else {
                            JsonModel::Null
                        },
                ),
            ),
            Json::Object(entries) => JsonModel::Object(
                Seq::new(
                    entries.len() as nat,
                    |i: int|
                        if 0 <= i < entries.len() {
                            (entries[i].0@, entries[i].1.view())
                        } else {
                            (Seq::empty(), JsonModel::Null)
                        },
                ),
            ),
        }
    }
}

/// The values of a sequence of documents.
pub open spec fn items_view(items: Seq<Json>) -> Seq<JsonModel> {
    Seq::new(items.len(), |i: int| items[i]@)
}

/// The keys and values of a sequence of entries.
pub open spec fn entries_view(entries: Seq<(String, Json)>) -> Entries {
    Seq::new(entries.len(), |i: int| (entries[i].0@, entries[i].1@))
}

/// The texts of a sequence of strings.
pub open spec fn texts_view(texts: Seq<String>) -> Seq<Seq<char>> {
    Seq::new(texts.len(), |i: int| texts[i]@)
}

/// The view of an array is the sequence of the views of its items.
pub proof fn lemma_array_view(items: Vec<Json>)
    ensures
        Json::Array(items)@ == JsonModel::Array(items_view(items@)),
{
    reveal_with_fuel(<Json as View>::view, 2);
    assert(Json::Array(items)@->Array_0 =~= items_view(items@));
}

/// The view of an object is the sequence of the views of its entries.
pub proof fn lemma_object_view(entries: Vec<(String, Json)>)
    ensures
        Json::Object(entries)@ == JsonModel::Object(entries_view(entries@)),
{
    reveal_with_fuel(<Json as View>::view, 2);
    assert(Json::Object(entries)@->Object_0 =~= entries_view(entries@));
}

/// The index of the first entry under `key`.
pub open spec fn find(entries: Entries, key: Seq<char>) -> Option<int>
    decreases entries.len(),
{
    if entries.len() == 0 {
        None
    } else if entries[0].0 == key {
        Some(0)
    } else {
        match find(entries.drop_first(), key) {
            Some(i) => Some(i + 1),
            None => None,
        }
    }
}

/// The value under `key`: that of its first entry.
pub open spec fn lookup(entries: Entries, key: Seq<char>) -> Option<JsonModel> {
    match find(entries, key) {
        Some(i) => Some(entries[i].1),
        None => None,
    }
}

/// The entries with `value` under `key`: in the place of the first entry
/// under that key, or at the end where there is none.
pub open spec fn with_entry(entries: Entries, key: Seq<char>, value: JsonModel) -> Entries {
    match find(entries, key) {
        Some(i) => entries.update(i, (key, value)),
        None => entries.push((key, value)),
    }
}

/// The entries that are not under `key`, in their order.
pub open spec fn without(entries: Entries, key: Seq<char>) -> Entries {
    entries.filter(|entry: (Seq<char>, JsonModel)| entry.0 != key)
}

/// Whether no two entries have the same key.
pub open spec fn distinct_keys(entries: Entries) -> bool {
    forall|i: int, j: int|
        0 <= i < j < entries.len() ==> (#[trigger] entries[i]).0 != (#[trigger] entries[j]).0
}

/// Whether a document is a well-formed JSON value: no object in it, at any
/// depth, has a key twice.
pub open spec fn well_formed(node: JsonModel) -> bool
    decreases node,
{
    match node {
        JsonModel::Object(entries) => distinct_keys(entries) && forall|i: int|
            0 <= i < entries.len() ==> well_formed((#[trigger] entries[i]).1),
        JsonModel::Array(items) => forall|i: int|
            0 <= i < items.len() ==> well_formed(#[trigger] items[i]),
        _ => true,
    }
}

/// `find` gives the least index whose entry has the key, and `None` exactly
/// when no entry has it.
pub proof fn lemma_find(entries: Entries, key: Seq<char>)
    ensures
        match find(entries, key) {
            Some(i) => 0 <= i < entries.len() && entries[i].0 == key && forall|j: int|
                0 <= j < i ==> entries[j].0 != key,
            None => forall|j: int| 0 <= j < entries.len() ==> entries[j].0 != key,
        },
    decreases entries.len(),
{
    if entries.len() > 0 && entries[0].0 != key {
        let rest = entries.drop_first();
        lemma_find(rest, key);
        match find(rest, key) {
            Some(i) => {
                assert forall|j: int| 0 <= j < i + 1 implies entries[j].0 != key by {
                    if j > 0 {
                        assert(rest[j - 1] == entries[j]);
                    }
                }
            },
            None => {
                assert forall|j: int| 0 <= j < entries.len() implies entries[j].0 != key by {
                    if j > 0 {
                        assert(rest[j - 1] == entries[j]);
                    }
                }
            },
        }
    }
}

/// An index whose entry has the key, with none before it, is what `find` gives.
pub proof fn lemma_find_at(entries: Entries, key: Seq<char>, i: int)
    requires
        0 <= i < entries.len(),
        entries[i].0 == key,
        forall|j: int| 0 <= j < i ==> entries[j].0 != key,
    ensures
        find(entries, key) == Some(i),
{
    lemma_find(entries, key);
}

/// Where no entry has the key, `find` gives `None`.
pub proof fn lemma_find_none(entries: Entries, key: Seq<char>)
    requires
        forall|j: int| 0 <= j < entries.len() ==> entries[j].0 != key,
    ensures
        find(entries, key) is None,
{
    lemma_find(entries, key);
}

/// Putting a value under a key brings no key in twice.
pub proof fn lemma_with_entry_distinct(entries: Entries, key: Seq<char>, value: JsonModel)
    requires
        distinct_keys(entries),
    ensures
        distinct_keys(with_entry(entries, key, value)),
{
    lemma_find(entries, key);
    let after = with_entry(entries, key, value);
    assert forall|i: int, j: int| 0 <= i < j < after.len() implies (#[trigger] after[i]).0 != (
    #[trigger] after[j]).0 by {
        match find(entries, key) {
            Some(at) => {
                assert(after[i].0 == entries[i].0);
                assert(after[j].0 == entries[j].0);
            },
            None => {
                if j < entries.len() {
                    assert(after[i] == entries[i]);
                    assert(after[j] == entries[j]);
                } else {
                    assert(after[i] == entries[i]);
                }
            },
        }
    }
}

/// Putting a well-formed value under a key of a well-formed object leaves
/// the object well formed.
pub proof fn lemma_with_entry_well_formed(entries: Entries, key: Seq<char>, value: JsonModel)
    requires
        well_formed(JsonModel::Object(entries)),
        well_formed(value),
    ensures
        well_formed(JsonModel::Object(with_entry(entries, key, value))),
{
    let after = with_entry(entries, key, value);
    assert(JsonModel::Object(entries)->Object_0 == entries);
    assert(JsonModel::Object(after)->Object_0 == after);
    lemma_with_entry_distinct(entries, key, value);
    lemma_find(entries, key);
    assert forall|i: int| 0 <= i < after.len() implies well_formed((#[trigger] after[i]).1) by {
        if i < entries.len() && after[i] != (key, value) {
            assert(after[i] == entries[i]);
        }
    }
}

/// What `without` leaves are entries of what it was given, and where those
/// had no key twice, neither have these.
pub proof fn lemma_without_keeps(entries: Entries, key: Seq<char>)
    ensures
        forall|i: int|
            0 <= i < without(entries, key).len() ==> exists|j: int|
                0 <= j < entries.len() && entries[j] == #[trigger] without(entries, key)[i],
        distinct_keys(entries) ==> distinct_keys(without(entries, key)),
    decreases entries.len(),
{
    reveal(Seq::filter);
    let kept = without(entries, key);
    if entries.len() > 0 {
        let front = entries.drop_last();
        let last = entries.last();
        lemma_without_keeps(front, key);
        assert(front.push(last) =~= entries);
        lemma_without_push(front, last, key);
        let before = without(front, key);
        assert forall|i: int| 0 <= i < kept.len() implies exists|j: int|
            0 <= j < entries.len() && entries[j] == #[trigger] kept[i] by {
            if i < before.len() {
                assert(kept[i] == before[i]);
                let j = choose|j: int| 0 <= j < front.len() && front[j] == before[i];
                assert(entries[j] == kept[i]);
            } else {
                assert(entries[entries.len() - 1] == kept[i]);
            }
        }
        if distinct_keys(entries) {
            assert forall|i: int, j: int| 0 <= i < j < front.len() implies (#[trigger] front[i]).0
                != (#[trigger] front[j]).0 by {
                assert(front[i] == entries[i] && front[j] == entries[j]);
            }
            assert forall|i: int, j: int| 0 <= i < j < kept.len() implies (#[trigger] kept[i]).0
                != (#[trigger] kept[j]).0 by {
                if j < before.len() {
                    assert(kept[i] == before[i] && kept[j] == before[j]);
                } else {
                    assert(kept[i] == before[i]);
                    let at = choose|at: int| 0 <= at < front.len() && front[at] == before[i];
                    assert(entries[at] == kept[i]);
                    assert(entries[entries.len() - 1] == kept[j]);
                }
            }
        }
    }
}

/// A well-formed object without a key is well formed.
pub proof fn lemma_without_well_formed(entries: Entries, key: Seq<char>)
    requires
        well_formed(JsonModel::Object(entries)),
    ensures
        well_formed(JsonModel::Object(without(entries, key))),
{
    let kept = without(entries, key);
    assert(JsonModel::Object(entries)->Object_0 == entries);
    assert(JsonModel::Object(kept)->Object_0 == kept);
    lemma_without_keeps(entries, key);
    assert forall|i: int| 0 <= i < kept.len() implies well_formed((#[trigger] kept[i]).1) by {
        let j = choose|j: int| 0 <= j < entries.len() && entries[j] == kept[i];
        assert(well_formed(entries[j].1));
    }
}

/// Filtering a key out of a sequence that is one entry longer.
pub proof fn lemma_without_push(entries: Entries, entry: (Seq<char>, JsonModel), key: Seq<char>)
    ensures
        without(entries.push(entry), key) == if entry.0 != key {
            without(entries, key).push(entry)
        } else {
            without(entries, key)
        },
{
    reveal(Seq::filter);
    assert(entries.push(entry).drop_last() =~= entries);
}

impl Clone for Json {
    /// A copy of the whole tree.
    #[verifier::loop_isolation(false)]
    fn clone(&self) -> (copy: Json)
        ensures
            copy@ == self@,
        decreases self,
    {
        match self {
            Json::Null => Json::Null,
            Json::Bool(b) => Json::Bool(*b),
            Json::Number(n) => Json::Number(*n),
            Json::String(s) => Json::String(s.clone()),
            Json::Array(items) => {
                let mut copies: Vec<Json> = Vec::new();
                let mut i: usize = 0;
                while i < items.len()
                    invariant
                        i <= items.len(),
                        copies@.len() == i,
                        forall|j: int| 0 <= j < i ==> copies@[j]@ == items@[j]@,
                    decreases items.len() - i,
                {
                    copies.push(items[i].clone());
                    i += 1;
                }
                proof {
                    lemma_array_view(*items);
                    lemma_array_view(copies);
                    assert(items_view(copies@) =~= items_view(items@));
                }
                Json::Array(copies)
            },
            Json::Object(entries) => {
                let mut copies: Vec<(String, Json)> = Vec::new();
                let mut i: usize = 0;
                while i < entries.len()
                    invariant
                        i <= entries.len(),
                        copies@.len() == i,
                        forall|j: int|
                            0 <= j < i ==> copies@[j].0@ == entries@[j].0@ && copies@[j].1@
                                == entries@[j].1@,
                    decreases entries.len() - i,
                {
                    copies.push((entries[i].0.clone(), entries[i].1.clone()));
                    i += 1;
                }
                proof {
                    lemma_object_view(*entries);
                    lemma_object_view(copies);
                    assert(entries_view(copies@) =~= entries_view(entries@));
                }
                Json::Object(copies)
            },
        }
    }
}

/// The index of the first entry under `key`.
pub fn position_of(entries: &Vec<(String, Json)>, key: &str) -> (found: Option<usize>)
    ensures
        match found {
            Some(i) => i < entries.len() && find(entries_view(entries@), key@) == Some(i as int),
            None => find(entries_view(entries@), key@) is None,
        },
{
    let wanted: String = key.to_owned();
    let mut i: usize = 0;
    while i < entries.len()
        invariant
            i <= entries.len(),
            wanted@ == key@,
            forall|j: int| 0 <= j < i ==> entries_view(entries@)[j].0 != key@,
        decreases entries.len() - i,
    {
        if entries[i].0 == wanted {
            proof {
                lemma_find_at(entries_view(entries@), key@, i as int);
            }
            return Some(i);
        }
        i += 1;
    }
    proof {
        lemma_find_none(entries_view(entries@), key@);
    }
    None
}

/// The value under `key`: that of its first entry.
pub fn value_of<'a>(entries: &'a Vec<(String, Json)>, key: &str) -> (found: Option<&'a Json>)
    ensures
        match found {
            Some(value) => lookup(entries_view(entries@), key@) == Some(value@),
            None => lookup(entries_view(entries@), key@) is None,
        },
{
    match position_of(entries, key) {
        Some(i) => Some(&entries[i].1),
        None => None,
    }
}

/// Puts `value` under `key`: in the place of the first entry under that
/// key, or at the end where there is none.
pub fn set_entry(entries: &mut Vec<(String, Json)>, key: String, value: Json)
    ensures
        entries_view(final(entries)@) == with_entry(entries_view(old(entries)@), key@, value@),
{
    let ghost before = entries_view(entries@);
    let ghost k = key@;
    let ghost v = value@;
    match position_of(entries, key.as_str()) {
        Some(i) => {
            proof {
                lemma_find(before, k);
            }
            entries.set(i, (key, value));
            assert(entries_view(entries@) =~= before.update(i as int, (k, v)));
        },
        None => {
            entries.push((key, value));
            assert(entries_view(entries@) =~= before.push((k, v)));
        },
    }
}

/// The entries that are not under `key`, copied in their order.
pub fn drop_key(entries: &Vec<(String, Json)>, key: &str) -> (kept: Vec<(String, Json)>)
    ensures
        entries_view(kept@) == without(entries_view(entries@), key@),
{
    let wanted: String = key.to_owned();
    let mut kept: Vec<(String, Json)> = Vec::new();
    let mut i: usize = 0;
    proof {
        reveal(Seq::filter);
        assert(entries_view(entries@).take(0) =~= Seq::empty());
        assert(entries_view(kept@) =~= Seq::empty());
    }
    while i < entries.len()
        invariant
            i <= entries.len(),
            wanted@ == key@,
            entries_view(kept@) == without(entries_view(entries@).take(i as int), key@),
        decreases entries.len() - i,
    {
        let ghost all = entries_view(entries@);
        let ghost before = entries_view(kept@);
        proof {
            lemma_without_push(all.take(i as int), all[i as int], key@);
            assert(all.take(i as int).push(all[i as int]) =~= all.take(i + 1));
        }
        if entries[i].0 != wanted {
            kept.push((entries[i].0.clone(), entries[i].1.clone()));
            assert(entries_view(kept@) =~= before.push(all[i as int]));
        }
        i += 1;
    }
    assert(entries_view(entries@).take(i as int) =~= entries_view(entries@));
    kept
}

/// Whether no two entries have the same key.
pub fn has_distinct_keys(entries: &Vec<(String, Json)>) -> (distinct: bool)
    ensures
        distinct == distinct_keys(entries_view(entries@)),
{
    let ghost all = entries_view(entries@);
    let mut j: usize = 0;
    while j < entries.len()
        invariant
            j <= entries.len(),
            all == entries_view(entries@),
            forall|a: int, b: int| 0 <= a < b < j ==> (#[trigger] all[a]).0 != (#[trigger] all[b]).0,
        decreases entries.len() - j,
    {
        let mut i: usize = 0;
        while i < j
            invariant
                i <= j < entries.len(),
                all == entries_view(entries@),
                forall|a: int| 0 <= a < i ==> (#[trigger] all[a]).0 != all[j as int].0,
            decreases j - i,
        {
            if entries[i].0 == entries[j].0 {
                assert(all[i as int].0 == all[j as int].0);
                return false;
            }
            i += 1;
        }
        j += 1;
    }
    true
}

impl Json {
    /// Whether this is a well-formed JSON value: whether no object in it has
    /// a key twice.
    #[verifier::loop_isolation(false)]
    pub fn is_well_formed(&self) -> (well: bool)
        ensures
            well == well_formed(self@),
        decreases self,
    {
        match self {
            Json::Array(items) => {
                let ghost all = items_view(items@);
                proof {
                    lemma_array_view(*items);
                    assert(JsonModel::Array(all)->Array_0 == all);
                }
                let mut i: usize = 0;
                while i < items.len()
                    invariant
                        i <= items.len(),
                        forall|k: int| 0 <= k < i ==> well_formed(#[trigger] all[k]),
                    decreases items.len() - i,
                {
                    if !items[i].is_well_formed() {
                        assert(!well_formed(all[i as int]));
                        return false;
                    }
                    i += 1;
                }
                true
            },
            Json::Object(entries) => {
                let ghost all = entries_view(entries@);
                proof {
                    lemma_object_view(*entries);
                    assert(JsonModel::Object(all)->Object_0 == all);
                }
                if !has_distinct_keys(entries) {
                    return false;
                }
                let mut i: usize = 0;
                while i < entries.len()
                    invariant
                        i <= entries.len(),
                        forall|k: int| 0 <= k < i ==> well_formed((#[trigger] all[k]).1),
                    decreases entries.len() - i,
                {
                    if !entries[i].1.is_well_formed() {
                        assert(!well_formed(all[i as int].1));
                        return false;
                    }
                    i += 1;
                }
                true
            },
            _ => true,
        }
    }
}

} // verus!
