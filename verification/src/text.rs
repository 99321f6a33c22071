//! Small operations on text that the rest of the library is written with.

use crate::json::texts_view;
use vstd::prelude::*;
use vstd::std_specs::iter::IteratorSpec;

verus! {

/// The characters of `text`, one by one.
pub fn chars_of(text: &str) -> (chars: Vec<char>)
    ensures
        chars@ == text@,
{
    let mut chars: Vec<char> = Vec::new();
    for c in it: text.chars()
        invariant
            it.seq() == text@,
            chars@ == text@.take(it.index() as int),
    {
        chars.push(c);
        assert(text@.take(it.index() + 1) =~= text@.take(it.index() as int).push(c));
    }
    assert(text@.take(text@.len() as int) =~= text@);
    chars
}

/// Whether `text` begins with `prefix`.
pub fn has_prefix(text: &str, prefix: &str) -> (begins: bool)
    ensures
        begins == prefix@.is_prefix_of(text@),
{
    let whole = chars_of(text);
    let start = chars_of(prefix);
    if start.len() > whole.len() {
        return false;
    }
    let mut i: usize = 0;
    while i < start.len()
        invariant
            i <= start.len() <= whole.len(),
            whole@ == text@,
            start@ == prefix@,
            forall|j: int| 0 <= j < i ==> whole@[j] == start@[j],
        decreases start.len() - i,
    {
        if whole[i] != start[i] {
            assert(text@.subrange(0, prefix@.len() as int)[i as int] != prefix@[i as int]);
            return false;
        }
        i += 1;
    }
    assert(text@.subrange(0, prefix@.len() as int) =~= prefix@);
    true
}

/// Whether `wanted` is among `texts`.
pub fn holds_text(texts: &Vec<String>, wanted: &String) -> (found: bool)
    ensures
        found == texts_view(texts@).contains(wanted@),
{
    let ghost all = texts_view(texts@);
    let mut i: usize = 0;
    while i < texts.len()
        invariant
            i <= texts.len(),
            all == texts_view(texts@),
            forall|j: int| 0 <= j < i ==> all[j] != wanted@,
        decreases texts.len() - i,
    {
        if texts[i] == *wanted {
            assert(all[i as int] == wanted@);
            return true;
        }
        i += 1;
    }
    false
}

/// The texts, copied, with `last` after them.
pub fn with_text(texts: &Vec<String>, last: &String) -> (longer: Vec<String>)
    ensures
        texts_view(longer@) == texts_view(texts@).push(last@),
{
    let mut longer: Vec<String> = Vec::new();
    let mut i: usize = 0;
    while i < texts.len()
        invariant
            i <= texts.len(),
            longer@.len() == i,
            forall|j: int| 0 <= j < i ==> longer@[j]@ == texts@[j]@,
        decreases texts.len() - i,
    {
        longer.push(texts[i].clone());
        i += 1;
    }
    longer.push(last.clone());
    assert(texts_view(longer@) =~= texts_view(texts@).push(last@));
    longer
}

} // verus!
