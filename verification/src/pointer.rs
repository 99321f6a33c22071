//! Pointers: slash-delimited paths that address a value inside a document.
//!
//! A pointer is either empty, and addresses the whole document, or a slash
//! followed by segments that slashes separate. A segment is taken as it
//! stands: under an object it is a key, under an array a decimal index.

use crate::json::{
    items_view, lemma_array_view, lemma_object_view, lookup, texts_view, value_of, Json, JsonModel,
};
use crate::text::chars_of;
use vstd::prelude::*;

verus! {

/// The pieces of `text` between its separators, read character by
/// character: a separator begins a new piece, any other character extends
/// the last one.
pub open spec fn split(text: Seq<char>, separator: char) -> Seq<Seq<char>>
    decreases text.len(),
{
    if text.len() == 0 {
        seq![Seq::empty()]
    } else {
        let pieces = split(text.drop_last(), separator);
        if text.last() == separator {
            pieces.push(Seq::empty())
        } else {
            pieces.update(pieces.len() - 1, pieces.last().push(text.last()))
        }
    }
}

/// The segments of a pointer; `None` where it is neither empty nor begins
/// with a slash.
pub open spec fn segments(pointer: Seq<char>) -> Option<Seq<Seq<char>>> {
    if pointer.len() == 0 {
        Some(Seq::empty())
    } else if pointer[0] != '/' {
        None
    } else {
        Some(split(pointer.drop_first(), '/'))
    }
}

pub open spec fn is_digit(c: char) -> bool {
    '0' <= c <= '9'
}

/// The number that a sequence of decimal digits writes.
pub open spec fn decimal(digits: Seq<char>) -> nat
    decreases digits.len(),
{
    if digits.len() == 0 {
        0
    } else {
        decimal(digits.drop_last()) * 10 + (digits.last() as nat - '0' as nat) as nat
    }
}

/// The number that `digits` writes: `None` unless it is one decimal digit
/// or more, and the number no greater than a `usize` can be.
pub open spec fn number(digits: Seq<char>) -> Option<nat> {
    if digits.len() > 0 && (forall|i: int| 0 <= i < digits.len() ==> is_digit(#[trigger] digits[i]))
        && decimal(digits) <= usize::MAX {
        Some(decimal(digits))
    } else {
        None
    }
}

/// The index that a segment of a pointer writes: a number without a sign
/// and without a leading zero, unless it is the single digit zero.
pub open spec fn array_index(segment: Seq<char>) -> Option<nat> {
    if segment.len() > 1 && segment[0] == '0' {
        None
    } else {
        number(segment)
    }
}

/// The value one segment further into `node`.
pub open spec fn step(node: JsonModel, segment: Seq<char>) -> Option<JsonModel> {
    match node {
        JsonModel::Object(entries) => lookup(entries, segment),
        JsonModel::Array(items) => match array_index(segment) {
            Some(i) => if i < items.len() {
                Some(items[i as int])
            } else {
                None
            },
            None => None,
        },
        _ => None,
    }
}

/// The value that a sequence of segments leads to from `node`.
pub open spec fn follow(node: JsonModel, path: Seq<Seq<char>>) -> Option<JsonModel>
    decreases path.len(),
{
    if path.len() == 0 {
        Some(node)
    } else {
        match follow(node, path.drop_last()) {
            Some(inner) => step(inner, path.last()),
            None => None,
        }
    }
}

/// The value that `pointer` addresses in `document`.
pub open spec fn addressed(document: JsonModel, pointer: Seq<char>) -> Option<JsonModel> {
    match segments(pointer) {
        Some(path) => follow(document, path),
        None => None,
    }
}

/// `text` with `with` in the place of every pair of `first` and `second`:
/// the pairs are found from the left, and none overlaps another.
pub open spec fn replaced(text: Seq<char>, first: char, second: char, with: Seq<char>) -> Seq<
    char,
>
    decreases text.len(),
{
    if text.len() == 0 {
        text
    } else if text.len() >= 2 && text[0] == first && text[1] == second {
        with + replaced(text.skip(2), first, second, with)
    } else {
        seq![text[0]] + replaced(text.skip(1), first, second, with)
    }
}

/// The key that an escaped segment stands for: `~1` is read as a slash,
/// and after that `~0` as a tilde.
pub open spec fn unescaped(segment: Seq<char>) -> Seq<char> {
    replaced(replaced(segment, '~', '1', "/"@), '~', '0', "~"@)
}

/// The path that an escaped text writes: its pieces between slashes, each
/// unescaped.
pub open spec fn escaped_path(text: Seq<char>) -> Seq<Seq<char>> {
    split(text, '/').map_values(|piece: Seq<char>| unescaped(piece))
}

/// Following a path is taking its first step and following the rest.
pub proof fn lemma_follow_first(node: JsonModel, path: Seq<Seq<char>>)
    requires
        path.len() > 0,
    ensures
        follow(node, path) == match step(node, path[0]) {
            Some(next) => follow(next, path.skip(1)),
            None => None,
        },
    decreases path.len(),
{
    if path.len() == 1 {
        assert(path.drop_last() =~= Seq::empty());
        assert(path.skip(1) =~= Seq::empty());
        assert(follow(node, path.drop_last()) == Some(node));
    } else {
        lemma_follow_first(node, path.drop_last());
        assert(path.drop_last()[0] == path[0]);
        assert(path.skip(1).drop_last() =~= path.drop_last().skip(1));
        assert(path.skip(1).last() == path.last());
    }
}

/// A longer sequence of digits writes no smaller a number.
pub proof fn lemma_decimal_grows(digits: Seq<char>, n: int)
    requires
        0 <= n <= digits.len(),
    ensures
        decimal(digits.take(n)) <= decimal(digits),
    decreases digits.len() - n,
{
    if n == digits.len() {
        assert(digits.take(n) =~= digits);
    } else {
        lemma_decimal_grows(digits, n + 1);
        assert(digits.take(n + 1).drop_last() =~= digits.take(n));
    }
}

/// The pieces written one after the other, with the separator between them.
pub open spec fn joined(pieces: Seq<Seq<char>>, separator: char) -> Seq<char>
    decreases pieces.len(),
{
    if pieces.len() == 0 {
        Seq::empty()
    } else if pieces.len() == 1 {
        pieces[0]
    } else {
        joined(pieces.drop_last(), separator).push(separator) + pieces.last()
    }
}

/// A text has at least one piece, no piece holds the separator, and the
/// pieces with the separator between them are the text.
pub proof fn lemma_split(text: Seq<char>, separator: char)
    ensures
        split(text, separator).len() >= 1,
        forall|i: int, j: int|
            0 <= i < split(text, separator).len() && 0 <= j < split(text, separator)[i].len()
                ==> split(text, separator)[i][j] != separator,
        joined(split(text, separator), separator) == text,
    decreases text.len(),
{
    let pieces = split(text, separator);
    if text.len() == 0 {
        assert(joined(pieces, separator) =~= text);
    } else {
        let front = split(text.drop_last(), separator);
        lemma_split(text.drop_last(), separator);
        if text.last() == separator {
            assert(pieces.drop_last() =~= front);
            assert(joined(pieces, separator) =~= text);
        } else {
            let grown = front.last().push(text.last());
            assert forall|i: int, j: int|
                0 <= i < pieces.len() && 0 <= j < pieces[i].len() implies pieces[i][j]
                != separator by {
                if i < pieces.len() - 1 {
                    assert(pieces[i] == front[i]);
                } else if j < front.last().len() {
                    assert(pieces[i][j] == front.last()[j]);
                }
            }
            if front.len() == 1 {
                assert(joined(pieces, separator) =~= text);
            } else {
                assert(pieces.drop_last() =~= front.drop_last());
                assert(joined(pieces, separator) =~= joined(front, separator).push(text.last()));
                assert(joined(pieces, separator) =~= text);
            }
        }
    }
}

/// Once a path has led nowhere, no longer path leads anywhere.
pub proof fn lemma_follow_stays_none(node: JsonModel, path: Seq<Seq<char>>, n: int)
    requires
        0 <= n <= path.len(),
        follow(node, path.take(n)) is None,
    ensures
        follow(node, path) is None,
    decreases path.len() - n,
{
    if n == path.len() {
        assert(path.take(n) =~= path);
    } else {
        assert(path.take(n + 1).drop_last() =~= path.take(n));
        lemma_follow_stays_none(node, path, n + 1);
    }
}

/// The number that the characters from `from` on write.
pub fn parse_number(chars: &Vec<char>, from: usize) -> (value: Option<usize>)
    requires
        from <= chars.len(),
    ensures
        match value {
            Some(n) => number(chars@.skip(from as int)) == Some(n as nat),
            None => number(chars@.skip(from as int)) is None,
        },
{
    let ghost digits = chars@.skip(from as int);
    let n = chars.len();
    if from == n {
        return None;
    }
    let mut value: usize = 0;
    let mut i: usize = from;
    assert(digits.take(0) =~= Seq::empty());
    while i < n
        invariant
            n == chars.len(),
            digits == chars@.skip(from as int),
            from <= i <= n,
            value == decimal(digits.take(i - from)),
            forall|j: int| 0 <= j < i - from ==> is_digit(#[trigger] digits[j]),
        decreases n - i,
    {
        let c = chars[i];
        assert(c == digits[i - from]);
        if c < '0' || c > '9' {
            return None;
        }
        let digit: usize = (c as u32 - '0' as u32) as usize;
        proof {
            assert(digits.take(i - from + 1).drop_last() =~= digits.take(i - from));
            lemma_decimal_grows(digits, i - from + 1);
        }
        if value > (usize::MAX - digit) / 10 {
            return None;
        }
        value = value * 10 + digit;
        i += 1;
    }
    assert(digits.take(n - from) =~= digits);
    Some(value)
}

/// The index that `text` writes as a segment of a pointer.
pub fn parse_index(text: &str) -> (index: Option<usize>)
    ensures
        match index {
            Some(i) => array_index(text@) == Some(i as nat),
            None => array_index(text@) is None,
        },
{
    let chars = chars_of(text);
    if chars.len() > 1 && chars[0] == '0' {
        return None;
    }
    assert(chars@.skip(0) =~= chars@);
    parse_number(&chars, 0)
}

/// The pieces of `text` between its separators.
pub fn split_text(text: &str, separator: char) -> (pieces: Vec<String>)
    ensures
        texts_view(pieces@) == split(text@, separator),
{
    let chars = chars_of(text);
    let n = chars.len();
    let mut pieces: Vec<String> = Vec::new();
    let mut start: usize = 0;
    let mut i: usize = 0;
    proof {
        assert(text@.take(0) =~= Seq::empty());
        assert(text@.subrange(0, 0) =~= Seq::empty());
        assert(texts_view(pieces@).push(Seq::empty()) =~= seq![Seq::<char>::empty()]);
    }
    while i < n
        invariant
            n == chars.len(),
            chars@ == text@,
            start <= i <= n,
            split(text@.take(i as int), separator) == texts_view(pieces@).push(
                text@.subrange(start as int, i as int),
            ),
        decreases n - i,
    {
        let ghost done = texts_view(pieces@);
        let ghost current = text@.subrange(start as int, i as int);
        proof {
            assert(text@.take(i + 1).drop_last() =~= text@.take(i as int));
            assert(text@.take(i + 1).last() == chars@[i as int]);
        }
        if chars[i] == separator {
            let piece = text.substring_char(start, i).to_owned();
            pieces.push(piece);
            start = i + 1;
            proof {
                assert(texts_view(pieces@) =~= done.push(current));
                assert(text@.subrange(start as int, i + 1) =~= Seq::empty());
            }
        } else {
            proof {
                assert(current.push(chars@[i as int]) =~= text@.subrange(start as int, i + 1));
                assert(done.push(current).update(done.len() as int, current.push(chars@[i as int]))
                    =~= done.push(text@.subrange(start as int, i + 1)));
            }
        }
        i += 1;
    }
    let ghost done = texts_view(pieces@);
    let piece = text.substring_char(start, n).to_owned();
    pieces.push(piece);
    proof {
        assert(text@.take(n as int) =~= text@);
        assert(texts_view(pieces@) =~= done.push(text@.subrange(start as int, n as int)));
    }
    pieces
}

/// `text` with `with` in the place of every pair of `first` and `second`.
pub fn replace_pair(text: &str, first: char, second: char, with: &str) -> (out: String)
    ensures
        out@ == replaced(text@, first, second, with@),
{
    let chars = chars_of(text);
    let n = chars.len();
    let mut out = String::new();
    let mut i: usize = 0;
    proof {
        assert(text@.skip(0) =~= text@);
        assert(out@ + text@ =~= text@);
        assert(out@ + replaced(text@, first, second, with@) =~= replaced(
            text@,
            first,
            second,
            with@,
        ));
    }
    while i < n
        invariant
            i <= n,
            n == chars.len(),
            chars@ == text@,
            replaced(text@, first, second, with@) == out@ + replaced(
                text@.skip(i as int),
                first,
                second,
                with@,
            ),
        decreases n - i,
    {
        let ghost rest = text@.skip(i as int);
        let ghost before = out@;
        if chars[i] == first && i + 1 < n && chars[i + 1] == second {
            out.append(with);
            proof {
                assert(rest.skip(2) =~= text@.skip(i + 2));
                let tail = replaced(rest.skip(2), first, second, with@);
                assert((before + with@) + tail =~= before + (with@ + tail));
            }
            i += 2;
        } else {
            out.append(text.substring_char(i, i + 1));
            proof {
                assert(text@.subrange(i as int, i + 1) =~= seq![rest[0]]);
                assert(rest.skip(1) =~= text@.skip(i + 1));
                let tail = replaced(rest.skip(1), first, second, with@);
                assert((before + seq![rest[0]]) + tail =~= before + (seq![rest[0]] + tail));
            }
            i += 1;
        }
    }
    proof {
        assert(out@ + text@.skip(n as int) =~= out@);
    }
    out
}

/// The key that an escaped segment stands for.
pub fn unescape(segment: &str) -> (key: String)
    ensures
        key@ == unescaped(segment@),
{
    let slashes = replace_pair(segment, '~', '1', "/");
    replace_pair(slashes.as_str(), '~', '0', "~")
}

/// The path that an escaped text writes.
pub fn escaped_segments(text: &str) -> (path: Vec<String>)
    ensures
        texts_view(path@) == escaped_path(text@),
{
    let pieces = split_text(text, '/');
    let mut path: Vec<String> = Vec::new();
    let mut i: usize = 0;
    while i < pieces.len()
        invariant
            i <= pieces.len(),
            texts_view(pieces@) == split(text@, '/'),
            path@.len() == i,
            forall|j: int| 0 <= j < i ==> path@[j]@ == unescaped(pieces@[j]@),
        decreases pieces.len() - i,
    {
        path.push(unescape(pieces[i].as_str()));
        i += 1;
    }
    assert(texts_view(path@) =~= escaped_path(text@));
    path
}

/// The value one segment further into `node`.
pub fn step_into<'a>(node: &'a Json, segment: &str) -> (found: Option<&'a Json>)
    ensures
        match found {
            Some(value) => step(node@, segment@) == Some(value@),
            None => step(node@, segment@) is None,
        },
{
    match node {
        Json::Object(entries) => {
            proof {
                lemma_object_view(*entries);
            }
            value_of(entries, segment)
        },
        Json::Array(items) => {
            proof {
                lemma_array_view(*items);
            }
            match parse_index(segment) {
                Some(i) => if i < items.len() {
                    Some(&items[i])
                } else {
                    None
                },
                None => None,
            }
        },
        _ => None,
    }
}

impl Json {
    /// The value that `pointer` addresses in this document.
    pub fn pointer<'a>(&'a self, pointer: &str) -> (found: Option<&'a Json>)
        ensures
            match found {
                Some(value) => addressed(self@, pointer@) == Some(value@),
                None => addressed(self@, pointer@) is None,
            },
    {
        let chars = chars_of(pointer);
        if chars.len() == 0 {
            return Some(self);
        }
        if chars[0] != '/' {
            return None;
        }
        let path = split_text(pointer.substring_char(1, chars.len()), '/');
        let ghost whole = texts_view(path@);
        assert(whole == segments(pointer@)->0);
        let mut node: &'a Json = self;
        let mut i: usize = 0;
        assert(whole.take(0) =~= Seq::empty());
        while i < path.len()
            invariant
                i <= path.len(),
                whole == texts_view(path@),
                segments(pointer@) == Some(whole),
                follow(self@, whole.take(i as int)) == Some(node@),
            decreases path.len() - i,
        {
            proof {
                assert(whole.take(i + 1).drop_last() =~= whole.take(i as int));
                assert(whole.take(i + 1).last() == path@[i as int]@);
            }
            match step_into(node, path[i].as_str()) {
                Some(next) => {
                    node = next;
                },
                None => {
                    proof {
                        lemma_follow_stays_none(self@, whole, i + 1);
                    }
                    return None;
                },
            }
            i += 1;
        }
        assert(whole.take(i as int) =~= whole);
        Some(node)
    }
}

} // verus!
