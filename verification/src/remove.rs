//! Taking a value out of a document, at the place that a slash-delimited
//! path names. The fields of the path but the last are escaped as the
//! segments of a JSON Pointer are (`~1` for a slash, `~0` for a tilde); the
//! last is taken as it stands.

use crate::json::{
    entries_view, find, items_view, lemma_array_view, lemma_find, lemma_object_view, position_of,
    texts_view, Json, JsonModel,
};
use crate::pointer::{
    array_index, escaped_path, escaped_segments, follow, lemma_follow_first, lemma_split, number,
    parse_index, parse_number, split, split_text,
};
use crate::text::chars_of;
use vstd::prelude::*;

verus! {

/// Why nothing could be taken out of an array.
#[derive(Debug, PartialEq, Eq)]
pub enum RemoveError {
    /// The last field of the path writes no index.
    NotAnIndex { field: String },
    /// The index is not below the array's length.
    OutOfRange { index: usize, len: usize },
}

/// The mathematical value of a `RemoveError`.
pub enum RemoveErrorModel {
    NotAnIndex { field: Seq<char> },
    OutOfRange { index: nat, len: nat },
}

impl View for RemoveError {
    type V = RemoveErrorModel;

    open spec fn view(&self) -> RemoveErrorModel {
        match self {
            RemoveError::NotAnIndex { field } => RemoveErrorModel::NotAnIndex { field: field@ },
            RemoveError::OutOfRange { index, len } => RemoveErrorModel::OutOfRange {
                index: *index as nat,
                len: *len as nat,
            },
        }
    }
}

/// What a removal answers: the value that it took out, if it took one.
pub type Answer = Result<Option<JsonModel>, RemoveErrorModel>;

/// The mathematical value of what a removal answers.
pub open spec fn answer_view(answer: Result<Option<Json>, RemoveError>) -> Answer {
    match answer {
        Ok(Some(value)) => Ok(Some(value@)),
        Ok(None) => Ok(None),
        Err(error) => Err(error@),
    }
}

/// The texts of a sequence of string slices.
pub open spec fn fields_view(fields: Seq<&str>) -> Seq<Seq<char>> {
    Seq::new(fields.len(), |i: int| fields[i]@)
}

/// The index that the last field of a path writes: a number, which a plus
/// sign may precede.
pub open spec fn written_index(field: Seq<char>) -> Option<nat> {
    if field.len() > 0 && field[0] == '+' {
        number(field.skip(1))
    } else {
        number(field)
    }
}

/// The fields of the path that `json_pointer` writes: its pieces between
/// slashes but the first.
pub open spec fn fields_of(json_pointer: Seq<char>) -> Seq<Seq<char>> {
    split(json_pointer, '/').skip(1)
}

/// `value` with `new` in the place of what `path` leads to; `value` itself
/// where the path leads nowhere.
pub open spec fn with_value_at(value: JsonModel, path: Seq<Seq<char>>, new: JsonModel) -> JsonModel
    decreases path.len(),
{
    if path.len() == 0 {
        new
    } else {
        match value {
            JsonModel::Array(items) => match array_index(path[0]) {
                Some(index) => if index < items.len() {
                    JsonModel::Array(
                        items.update(
                            index as int,
                            with_value_at(items[index as int], path.skip(1), new),
                        ),
                    )
                } else {
                    value
                },
                None => value,
            },
            JsonModel::Object(entries) => match find(entries, path[0]) {
                Some(i) => JsonModel::Object(
                    entries.update(
                        i,
                        (entries[i].0, with_value_at(entries[i].1, path.skip(1), new)),
                    ),
                ),
                None => value,
            },
            _ => value,
        }
    }
}

/// What is left of `value` after the removal along `fields`, and what the
/// removal answers.
///
/// A field before the last is read as an escaped pointer without its first
/// slash: it leads one step down for each of its pieces between slashes,
/// and the removal goes on in what it leads to. The last field is taken
/// as it stands and names what leaves: the first entry under that key of an
/// object, or the item at that index of an array. Nothing leaves where the
/// path is empty, holds an empty field, or leads nowhere; an array with a
/// last field that writes no index of it is an error. Whatever is not
/// taken out stays as it was.
pub open spec fn removal(value: JsonModel, fields: Seq<Seq<char>>) -> (JsonModel, Answer)
    decreases fields.len(), 0nat,
{
    if fields.len() == 0 || fields[0].len() == 0 {
        (value, Ok(None))
    } else if fields.len() == 1 {
        match value {
            JsonModel::Array(items) => match written_index(fields[0]) {
                None => (value, Err(RemoveErrorModel::NotAnIndex { field: fields[0] })),
                Some(index) => if index >= items.len() {
                    (value, Err(RemoveErrorModel::OutOfRange { index: index, len: items.len() }))
                } else {
                    (JsonModel::Array(items.remove(index as int)), Ok(Some(items[index as int])))
                },
            },
            JsonModel::Object(entries) => match find(entries, fields[0]) {
                Some(i) => (JsonModel::Object(entries.remove(i)), Ok(Some(entries[i].1))),
                None => (value, Ok(None)),
            },
            _ => (value, Ok(None)),
        }
    } else {
        removal_below(value, escaped_path(fields[0]), fields.skip(1))
    }
}

/// The removal along `fields` in what `path` leads to from `value`:
/// nothing leaves where the path leads nowhere; else what is left is
/// `value` with what the removal left in the place that the path leads to.
pub open spec fn removal_below(value: JsonModel, path: Seq<Seq<char>>, fields: Seq<Seq<char>>) -> (
    JsonModel,
    Answer,
)
    decreases fields.len(), 1nat,
{
    match follow(value, path) {
        None => (value, Ok(None)),
        Some(inner) => {
            let (left, answer) = removal(inner, fields);
            (with_value_at(value, path, left), answer)
        },
    }
}

/// Putting back what a path leads to changes nothing.
pub proof fn lemma_with_value_at_same(value: JsonModel, path: Seq<Seq<char>>)
    ensures
        follow(value, path) matches Some(inner) ==> with_value_at(value, path, inner) == value,
    decreases path.len(),
{
    if path.len() > 0 {
        lemma_follow_first(value, path);
        match value {
            JsonModel::Array(items) => match array_index(path[0]) {
                Some(index) => {
                    if index < items.len() {
                        lemma_with_value_at_same(items[index as int], path.skip(1));
                        if follow(value, path) is Some {
                            assert(items.update(index as int, items[index as int]) =~= items);
                        }
                    }
                },
                None => {},
            },
            JsonModel::Object(entries) => {
                lemma_find(entries, path[0]);
                match find(entries, path[0]) {
                    Some(i) => {
                        lemma_with_value_at_same(entries[i].1, path.skip(1));
                        if follow(value, path) is Some {
                            assert(entries.update(i, (entries[i].0, entries[i].1)) =~= entries);
                        }
                    },
                    None => {},
                }
            },
            _ => {},
        }
    }
}

/// Takes values out of a document.
pub trait Remove {
    /// Takes out the value at the place that `json_pointer` names, and
    /// hands it back.
    fn remove(&mut self, json_pointer: &str) -> Result<Option<Json>, RemoveError>;
}

impl Remove for Json {
    fn remove(&mut self, json_pointer: &str) -> (answer: Result<Option<Json>, RemoveError>)
        ensures
            (final(self)@, answer_view(answer)) == removal(old(self)@, fields_of(json_pointer@)),
    {
        let pieces = split_text(json_pointer, '/');
        let mut fields: Vec<&str> = Vec::new();
        let mut i: usize = 1;
        proof {
            lemma_split(json_pointer@, '/');
        }
        while i < pieces.len()
            invariant
                1 <= i <= pieces.len(),
                texts_view(pieces@) == split(json_pointer@, '/'),
                fields@.len() == i - 1,
                forall|j: int| 0 <= j < fields@.len() ==> fields@[j]@ == pieces@[j + 1]@,
            decreases pieces.len() - i,
        {
            fields.push(pieces[i].as_str());
            i += 1;
        }
        assert(fields_view(fields@) =~= fields_of(json_pointer@));
        remove(self, fields)
    }
}

/// The index that `text` writes as the last field of a path.
pub fn parse_written_index(text: &str) -> (index: Option<usize>)
    ensures
        match index {
            Some(i) => written_index(text@) == Some(i as nat),
            None => written_index(text@) is None,
        },
{
    let chars = chars_of(text);
    if chars.len() > 0 && chars[0] == '+' {
        parse_number(&chars, 1)
    } else {
        assert(chars@.skip(0) =~= chars@);
        parse_number(&chars, 0)
    }
}

/// Takes out of `json_value` what the path `fields` names, and hands it back.
pub fn remove(json_value: &mut Json, fields: Vec<&str>) -> (answer: Result<
    Option<Json>,
    RemoveError,
>)
    ensures
        (final(json_value)@, answer_view(answer)) == removal(
            old(json_value)@,
            fields_view(fields@),
        ),
{
    let mut taken = Json::Null;
    std::mem::swap(json_value, &mut taken);
    assert(fields_view(fields@).skip(0) =~= fields_view(fields@));
    let (left, answer) = remove_from(taken, &fields, 0);
    *json_value = left;
    answer
}

/// What is left of `value` after the removal along the fields from `from`
/// on, and what the removal answers.
pub fn remove_from(value: Json, fields: &Vec<&str>, from: usize) -> (done: (
    Json,
    Result<Option<Json>, RemoveError>,
))
    requires
        from <= fields.len(),
    ensures
        (done.0@, answer_view(done.1)) == removal(value@, fields_view(fields@).skip(from as int)),
    decreases fields.len() - from, 0nat,
{
    let ghost path = fields_view(fields@).skip(from as int);
    if from == fields.len() {
        return (value, Ok(None));
    }
    let field: &str = fields[from];
    assert(path[0] == field@);
    if field.is_empty() {
        return (value, Ok(None));
    }
    assert(path.skip(1) =~= fields_view(fields@).skip(from + 1));
    if from + 1 < fields.len() {
        let steps = escaped_segments(field);
        assert(texts_view(steps@).skip(0) =~= texts_view(steps@));
        return remove_below(value, &steps, 0, fields, from + 1);
    }
    match value {
        Json::Array(items) => {
            let mut items = items;
            let ghost before = items@;
            proof {
                lemma_array_view(items);
            }
            match parse_written_index(field) {
                None => (
                    Json::Array(items),
                    Err(RemoveError::NotAnIndex { field: field.to_owned() }),
                ),
                Some(index) => {
                    let len = items.len();
                    if index >= len {
                        (Json::Array(items), Err(RemoveError::OutOfRange { index: index, len: len }))
                    } else {
                        let out = items.remove(index);
                        proof {
                            lemma_array_view(items);
                            assert(items_view(items@) =~= items_view(before).remove(index as int));
                        }
                        (Json::Array(items), Ok(Some(out)))
                    }
                },
            }
        },
        Json::Object(entries) => {
            let mut entries = entries;
            let ghost before = entries@;
            proof {
                lemma_object_view(entries);
            }
            match position_of(&entries, field) {
                None => (Json::Object(entries), Ok(None)),
                Some(i) => {
                    let out = entries.remove(i);
                    proof {
                        lemma_object_view(entries);
                        assert(entries_view(entries@) =~= entries_view(before).remove(i as int));
                    }
                    (Json::Object(entries), Ok(Some(out.1)))
                },
            }
        },
        other => (other, Ok(None)),
    }
}

/// What is left of `value` after the removal along the fields from `from`
/// on in what the steps from `at` on lead to, and what the removal answers.
pub fn remove_below(
    value: Json,
    steps: &Vec<String>,
    at: usize,
    fields: &Vec<&str>,
    from: usize,
) -> (done: (Json, Result<Option<Json>, RemoveError>))
    requires
        at <= steps.len(),
        from <= fields.len(),
    ensures
        (done.0@, answer_view(done.1)) == removal_below(
            value@,
            texts_view(steps@).skip(at as int),
            fields_view(fields@).skip(from as int),
        ),
    decreases fields.len() - from, 1 + steps.len() - at,
{
    let ghost path = texts_view(steps@).skip(at as int);
    let ghost rest = fields_view(fields@).skip(from as int);
    if at == steps.len() {
        return remove_from(value, fields, from);
    }
    let step: &str = steps[at].as_str();
    proof {
        assert(path[0] == step@);
        assert(path.skip(1) =~= texts_view(steps@).skip(at + 1));
        lemma_follow_first(value@, path);
    }
    match value {
        Json::Array(items) => {
            let mut items = items;
            let ghost before = items_view(items@);
            proof {
                lemma_array_view(items);
            }
            match parse_index(step) {
                None => (Json::Array(items), Ok(None)),
                Some(index) => {
                    if index < items.len() {
                        let inner = items.remove(index);
                        proof {
                            lemma_with_value_at_same(inner@, path.skip(1));
                        }
                        let (left, answer) = remove_below(inner, steps, at + 1, fields, from);
                        let ghost left_view = left@;
                        items.insert(index, left);
                        proof {
                            lemma_array_view(items);
                            assert(items_view(items@) =~= before.update(index as int, left_view));
                            assert(before.update(index as int, before[index as int]) =~= before);
                        }
                        (Json::Array(items), answer)
                    } else {
                        (Json::Array(items), Ok(None))
                    }
                },
            }
        },
        Json::Object(entries) => {
            let mut entries = entries;
            let ghost before = entries_view(entries@);
            proof {
                lemma_object_view(entries);
            }
            match position_of(&entries, step) {
                None => (Json::Object(entries), Ok(None)),
                Some(i) => {
                    let inner = entries.remove(i);
                    proof {
                        lemma_with_value_at_same(inner.1@, path.skip(1));
                    }
                    let (left, answer) = remove_below(inner.1, steps, at + 1, fields, from);
                    let ghost left_view = left@;
                    entries.insert(i, (inner.0, left));
                    proof {
                        lemma_object_view(entries);
                        assert(entries_view(entries@) =~= before.update(
                            i as int,
                            (before[i as int].0, left_view),
                        ));
                        assert(before.update(i as int, before[i as int]) =~= before);
                    }
                    (Json::Object(entries), answer)
                },
            }
        },
        other => (other, Ok(None)),
    }
}

} // verus!
