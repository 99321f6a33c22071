//! What holds of every resolution.

use crate::error::ErrorModel;
use crate::json::{
    find, lemma_find, lemma_find_none, lemma_with_entry_well_formed, lemma_without_well_formed,
    lookup, well_formed, without, Entries, JsonModel,
};
use crate::pointer::{addressed, array_index, follow, segments};
use crate::resolution::{
    collected, declared_base, expanded, merged, missing, not_found_message, resolved,
    resolved_below, resolved_entries, resolved_items, selected, stripped, substituted, Context,
    Resolution, StopModel,
};
use crate::target::located;
use crate::target::TargetModel;
use vstd::prelude::*;

verus! {

/// A document without references and definitions: no object in it, at any
/// depth, has an entry under `$ref` or under `definitions`.
pub open spec fn plain(node: JsonModel) -> bool
    decreases node,
{
    match node {
        JsonModel::Object(entries) => forall|i: int|
            0 <= i < entries.len() ==> {
                &&& (#[trigger] entries[i]).0 != "$ref"@
                &&& entries[i].0 != "definitions"@
                &&& plain(entries[i].1)
            },
        JsonModel::Array(items) => forall|i: int|
            0 <= i < items.len() ==> plain(#[trigger] items[i]),
        _ => true,
    }
}

/// Resolving a document without references and definitions gives the
/// document back, and leaves the collected definitions as they were:
/// whatever the cache holds, whatever the base, the references in use and
/// the budget.
pub proof fn lemma_plain_is_unchanged(
    context: Context,
    node: JsonModel,
    base: Seq<char>,
    used: Seq<Seq<char>>,
    definitions: Entries,
    budget: nat,
)
    requires
        plain(node),
    ensures
        resolved(context, node, base, used, definitions, budget) == Ok::<
            (JsonModel, Entries),
            StopModel,
        >((node, definitions)),
    decreases node, 0nat,
{
    match node {
        JsonModel::Object(entries) => {
            lemma_find_none(entries, "$ref"@);
            lemma_find_none(entries, "definitions"@);
            lemma_plain_entries(
                context,
                entries,
                entries.len() as int,
                true,
                declared_base(node, base),
                used,
                definitions,
                budget,
            );
            assert(entries.take(entries.len() as int) =~= entries);
        },
        JsonModel::Array(items) => {
            lemma_plain_items(context, items, items.len() as int, base, used, definitions, budget);
            assert(items.take(items.len() as int) =~= items);
        },
        _ => {},
    }
}

/// The entries of a plain object, up to any point, resolve to themselves,
/// whether or not `definitions` and `$ref` are to be left out.
pub proof fn lemma_plain_entries(
    context: Context,
    entries: Entries,
    n: int,
    strip: bool,
    base: Seq<char>,
    used: Seq<Seq<char>>,
    definitions: Entries,
    budget: nat,
)
    requires
        plain(JsonModel::Object(entries)),
        0 <= n <= entries.len(),
    ensures
        resolved_entries(context, entries.take(n), strip, base, used, definitions, budget) == Ok::<
            (Entries, Entries),
            StopModel,
        >((entries.take(n), definitions)),
    decreases entries, n,
{
    if n == 0 {
        assert(entries.take(0) =~= Seq::empty());
    } else {
        lemma_plain_entries(context, entries, n - 1, strip, base, used, definitions, budget);
        assert(entries.take(n).drop_last() =~= entries.take(n - 1));
        assert(entries.take(n).last() == entries[n - 1]);
        assert(JsonModel::Object(entries)->Object_0 == entries);
        assert(entries[n - 1].0 != "$ref"@ && entries[n - 1].0 != "definitions"@);
        assert(plain(entries[n - 1].1));
        lemma_plain_is_unchanged(context, entries[n - 1].1, base, used, definitions, budget);
        assert(entries.take(n - 1).push(entries[n - 1]) =~= entries.take(n));
    }
}

/// The items of a plain array, up to any point, resolve to themselves.
pub proof fn lemma_plain_items(
    context: Context,
    items: Seq<JsonModel>,
    n: int,
    base: Seq<char>,
    used: Seq<Seq<char>>,
    definitions: Entries,
    budget: nat,
)
    requires
        plain(JsonModel::Array(items)),
        0 <= n <= items.len(),
    ensures
        resolved_items(context, items.take(n), base, used, definitions, budget) == Ok::<
            (Seq<JsonModel>, Entries),
            StopModel,
        >((items.take(n), definitions)),
    decreases items, n,
{
    if n == 0 {
        assert(items.take(0) =~= Seq::empty());
    } else {
        lemma_plain_items(context, items, n - 1, base, used, definitions, budget);
        assert(items.take(n).drop_last() =~= items.take(n - 1));
        assert(items.take(n).last() == items[n - 1]);
        assert(JsonModel::Array(items)->Array_0 == items);
        assert(plain(items[n - 1]));
        lemma_plain_is_unchanged(context, items[n - 1], base, used, definitions, budget);
        assert(items.take(n - 1).push(items[n - 1]) =~= items.take(n));
    }
}

/// A reference that is already being expanded is not expanded again: the
/// object that holds it stays, without `definitions` and `$ref`, and with
/// what is below it untouched. This holds with any budget, also with none.
pub proof fn lemma_reference_in_use_is_left(
    context: Context,
    entries: Entries,
    reference: Seq<char>,
    target: TargetModel,
    base: Seq<char>,
    used: Seq<Seq<char>>,
    definitions: Entries,
    budget: nat,
)
    requires
        used.contains(target.full),
        lookup(context.cache, target.document) matches Some(document) && selected(
            document,
            target.fragment,
        ) is Some,
    ensures
        expanded(context, entries, reference, target, base, used, definitions, budget) == Ok::<
            (JsonModel, Entries),
            StopModel,
        >((JsonModel::Object(stripped(entries)), definitions)),
{
}

/// Whether `node` is an object that declares `$id` as a string.
pub open spec fn declares_id(node: JsonModel) -> bool {
    match node {
        JsonModel::Object(entries) => lookup(entries, "$id"@) matches Some(JsonModel::String(_)),
        _ => false,
    }
}

/// References are read against the nearest `$id` around them. An object
/// that declares `$id` as a string resolves in the same way under any two
/// inherited bases; a value that declares none hands the base it inherits
/// on to what is below it. The reference of an object is read against the
/// base so found, and what the reference names is resolved with its own
/// document as the base.
pub proof fn lemma_nearest_id_is_the_base(
    context: Context,
    node: JsonModel,
    inherited: Seq<char>,
    other: Seq<char>,
    used: Seq<Seq<char>>,
    definitions: Entries,
    budget: nat,
)
    ensures
        declares_id(node) ==> resolved(context, node, inherited, used, definitions, budget)
            == resolved(context, node, other, used, definitions, budget),
        !declares_id(node) ==> declared_base(node, inherited) == inherited,
        node matches JsonModel::Object(entries) ==> (lookup(entries, "$ref"@) matches Some(
            JsonModel::String(reference),
        ) ==> resolved(context, node, inherited, used, definitions, budget) == match located(
            declared_base(node, inherited),
            reference,
        ) {
            Err(error) => Err(StopModel::Failed(error)),
            Ok(target) => expanded(
                context,
                entries,
                reference,
                target,
                declared_base(node, inherited),
                used,
                collected(entries, definitions),
                budget,
            ),
        }),
{
    if declares_id(node) {
        assert(declared_base(node, inherited) == declared_base(node, other));
    }
}

/// Whether every reference in `node` has a `$id` around it inside `node`:
/// whether `node` declares `$id`, or holds no reference itself and every
/// value in it that a resolution visits has its references so enclosed.
pub open spec fn encloses_its_references(node: JsonModel) -> bool
    decreases node,
{
    declares_id(node) || match node {
        JsonModel::Object(entries) => !(lookup(entries, "$ref"@) matches Some(
            JsonModel::String(_),
        )) && forall|i: int|
            0 <= i < entries.len() ==> (#[trigger] entries[i]).0 == "definitions"@
                || encloses_its_references(entries[i].1),
        JsonModel::Array(items) => forall|i: int|
            0 <= i < items.len() ==> encloses_its_references(#[trigger] items[i]),
        _ => true,
    }
}

/// The nearest `$id` around a reference decides, at any depth: a value
/// whose references all have a `$id` around them inside the value
/// resolves in the same way under any two inherited bases.
pub proof fn lemma_enclosing_id_hides_the_base(
    context: Context,
    node: JsonModel,
    inherited: Seq<char>,
    other: Seq<char>,
    used: Seq<Seq<char>>,
    definitions: Entries,
    budget: nat,
)
    requires
        encloses_its_references(node),
    ensures
        resolved(context, node, inherited, used, definitions, budget) == resolved(
            context,
            node,
            other,
            used,
            definitions,
            budget,
        ),
    decreases node, 0nat,
{
    if declares_id(node) {
        assert(declared_base(node, inherited) == declared_base(node, other));
    } else {
        match node {
            JsonModel::Object(entries) => {
                assert(JsonModel::Object(entries)->Object_0 == entries);
                lemma_enclosed_entries(
                    context,
                    entries,
                    inherited,
                    other,
                    used,
                    collected(entries, definitions),
                    budget,
                );
            },
            JsonModel::Array(items) => {
                assert(JsonModel::Array(items)->Array_0 == items);
                lemma_enclosed_items(context, items, inherited, other, used, definitions, budget);
            },
            _ => {},
        }
    }
}

/// Entries whose values enclose their references resolve in the same way
/// under any two bases.
pub proof fn lemma_enclosed_entries(
    context: Context,
    entries: Entries,
    inherited: Seq<char>,
    other: Seq<char>,
    used: Seq<Seq<char>>,
    definitions: Entries,
    budget: nat,
)
    requires
        forall|i: int|
            0 <= i < entries.len() ==> (#[trigger] entries[i]).0 == "definitions"@
                || encloses_its_references(entries[i].1),
    ensures
        resolved_entries(context, entries, true, inherited, used, definitions, budget)
            == resolved_entries(context, entries, true, other, used, definitions, budget),
    decreases entries, 0nat,
{
    if entries.len() > 0 {
        let front = entries.drop_last();
        let last = entries.last();
        assert forall|i: int| 0 <= i < front.len() implies (#[trigger] front[i]).0
            == "definitions"@ || encloses_its_references(front[i].1) by {
            assert(front[i] == entries[i]);
        }
        lemma_enclosed_entries(context, front, inherited, other, used, definitions, budget);
        match resolved_entries(context, front, true, inherited, used, definitions, budget) {
            Err(_) => {},
            Ok((_, definitions)) => {
                assert(entries[entries.len() - 1] == last);
                if last.0 != "definitions"@ {
                    lemma_enclosing_id_hides_the_base(
                        context,
                        last.1,
                        inherited,
                        other,
                        used,
                        definitions,
                        budget,
                    );
                }
            },
        }
    }
}

/// Items that enclose their references resolve in the same way under any
/// two bases.
pub proof fn lemma_enclosed_items(
    context: Context,
    items: Seq<JsonModel>,
    inherited: Seq<char>,
    other: Seq<char>,
    used: Seq<Seq<char>>,
    definitions: Entries,
    budget: nat,
)
    requires
        forall|i: int| 0 <= i < items.len() ==> encloses_its_references(#[trigger] items[i]),
    ensures
        resolved_items(context, items, inherited, used, definitions, budget) == resolved_items(
            context,
            items,
            other,
            used,
            definitions,
            budget,
        ),
    decreases items, 0nat,
{
    if items.len() > 0 {
        let front = items.drop_last();
        assert forall|i: int| 0 <= i < front.len() implies encloses_its_references(
            #[trigger] front[i],
        ) by {
            assert(front[i] == items[i]);
        }
        lemma_enclosed_items(context, front, inherited, other, used, definitions, budget);
        match resolved_items(context, front, inherited, used, definitions, budget) {
            Err(_) => {},
            Ok((_, definitions)) => {
                assert(items[items.len() - 1] == items.last());
                lemma_enclosing_id_hides_the_base(
                    context,
                    items.last(),
                    inherited,
                    other,
                    used,
                    definitions,
                    budget,
                );
            },
        }
    }
}

/// A reference whose fragment addresses nothing in the document it names
/// fails, and the error's text holds the reference as it was written and
/// the fragment.
pub proof fn lemma_missing_fragment_fails(
    context: Context,
    entries: Entries,
    reference: Seq<char>,
    target: TargetModel,
    base: Seq<char>,
    used: Seq<Seq<char>>,
    definitions: Entries,
    budget: nat,
)
    requires
        lookup(context.cache, target.document) matches Some(document) && target.fragment matches Some(
            fragment,
        ) && addressed(document, fragment) is None,
    ensures
        expanded(context, entries, reference, target, base, used, definitions, budget) == Err::<
            (JsonModel, Entries),
            StopModel,
        >(
            StopModel::Failed(
                ErrorModel::JsonPointerNotFound {
                    pointer: not_found_message(reference, target.fragment->0),
                },
            ),
        ),
        ({
            let message = not_found_message(reference, target.fragment->0);
            let fragment = target.fragment->0;
            let first = "ref `"@.len() as int;
            let second = first + reference.len() + "` can not be resolved as pointer `"@.len();
            &&& message.subrange(first, first + reference.len()) == reference
            &&& message.subrange(second, second + fragment.len()) == fragment
        }),
{
    let message = not_found_message(reference, target.fragment->0);
    let fragment = target.fragment->0;
    let first = "ref `"@.len() as int;
    let second = first + reference.len() + "` can not be resolved as pointer `"@.len();
    assert(message.subrange(first, first + reference.len()) =~= reference);
    assert(message.subrange(second, second + fragment.len()) =~= fragment);
}

/// What a request to load says: the cache holds nothing under the
/// document's identifier, and the request is the one made for a missing
/// document of that identifier.
pub open spec fn asks_for_missing(context: Context, stop: StopModel) -> bool {
    stop matches StopModel::Load(request) ==> lookup(context.cache, request.identifier) is None
        && missing(request.identifier) == stop
}

/// A resolution asks only for a document that the cache lacks. So a
/// document that was handed over is never asked for again.
pub proof fn lemma_load_is_for_a_missing_document(
    context: Context,
    node: JsonModel,
    base: Seq<char>,
    used: Seq<Seq<char>>,
    definitions: Entries,
    budget: nat,
)
    ensures
        resolved(context, node, base, used, definitions, budget) matches Err(stop)
            ==> asks_for_missing(context, stop),
    decreases budget, node, 0nat,
{
    match node {
        JsonModel::Object(entries) => {
            let base = declared_base(node, base);
            let definitions = collected(entries, definitions);
            match lookup(entries, "$ref"@) {
                Some(JsonModel::String(reference)) => match located(base, reference) {
                    Err(_) => {},
                    Ok(target) => {
                        lemma_expansion_asks_for_missing(
                            context,
                            entries,
                            reference,
                            target,
                            base,
                            used,
                            definitions,
                            budget,
                        );
                    },
                },
                _ => {
                    lemma_entries_ask_for_missing(
                        context,
                        entries,
                        true,
                        base,
                        used,
                        definitions,
                        budget,
                    );
                },
            }
        },
        JsonModel::Array(items) => {
            lemma_items_ask_for_missing(context, items, base, used, definitions, budget);
        },
        _ => {},
    }
}

/// An expansion asks only for a document that the cache lacks.
pub proof fn lemma_expansion_asks_for_missing(
    context: Context,
    entries: Entries,
    reference: Seq<char>,
    target: TargetModel,
    base: Seq<char>,
    used: Seq<Seq<char>>,
    definitions: Entries,
    budget: nat,
)
    ensures
        expanded(context, entries, reference, target, base, used, definitions, budget) matches Err(
            stop,
        ) ==> asks_for_missing(context, stop),
    decreases budget, entries, 0nat,
{
    match lookup(context.cache, target.document) {
        None => {},
        Some(document) => match selected(document, target.fragment) {
            None => {},
            Some(schema) => {
                if !used.contains(target.full) && budget > 0 {
                    let deeper = (budget - 1) as nat;
                    lemma_load_is_for_a_missing_document(
                        context,
                        schema,
                        target.document,
                        used.push(target.full),
                        definitions,
                        deeper,
                    );
                    match resolved(
                        context,
                        schema,
                        target.document,
                        used.push(target.full),
                        definitions,
                        deeper,
                    ) {
                        Err(_) => {},
                        Ok((content, definitions)) => {
                            lemma_below_asks_for_missing(
                                context,
                                substituted(
                                    context.reference_key,
                                    content,
                                    JsonModel::Object(stripped(entries)),
                                ),
                                base,
                                used,
                                definitions,
                                deeper,
                            );
                        },
                    }
                }
            },
        },
    }
}

/// Resolving what is below a value asks only for a document that the cache
/// lacks.
pub proof fn lemma_below_asks_for_missing(
    context: Context,
    value: JsonModel,
    base: Seq<char>,
    used: Seq<Seq<char>>,
    definitions: Entries,
    budget: nat,
)
    ensures
        resolved_below(context, value, base, used, definitions, budget) matches Err(stop)
            ==> asks_for_missing(context, stop),
    decreases budget, value, 0nat,
{
    match value {
        JsonModel::Object(entries) => {
            lemma_entries_ask_for_missing(context, entries, false, base, used, definitions, budget);
        },
        JsonModel::Array(items) => {
            lemma_items_ask_for_missing(context, items, base, used, definitions, budget);
        },
        _ => {},
    }
}

/// Resolving entries asks only for a document that the cache lacks.
pub proof fn lemma_entries_ask_for_missing(
    context: Context,
    entries: Entries,
    strip: bool,
    base: Seq<char>,
    used: Seq<Seq<char>>,
    definitions: Entries,
    budget: nat,
)
    ensures
        resolved_entries(context, entries, strip, base, used, definitions, budget) matches Err(
            stop,
        ) ==> asks_for_missing(context, stop),
    decreases budget, entries, 0nat,
{
    if entries.len() > 0 {
        lemma_entries_ask_for_missing(
            context,
            entries.drop_last(),
            strip,
            base,
            used,
            definitions,
            budget,
        );
        match resolved_entries(
            context,
            entries.drop_last(),
            strip,
            base,
            used,
            definitions,
            budget,
        ) {
            Err(_) => {},
            Ok((_, definitions)) => {
                lemma_load_is_for_a_missing_document(
                    context,
                    entries.last().1,
                    base,
                    used,
                    definitions,
                    budget,
                );
            },
        }
    }
}

/// Resolving items asks only for a document that the cache lacks.
pub proof fn lemma_items_ask_for_missing(
    context: Context,
    items: Seq<JsonModel>,
    base: Seq<char>,
    used: Seq<Seq<char>>,
    definitions: Entries,
    budget: nat,
)
    ensures
        resolved_items(context, items, base, used, definitions, budget) matches Err(stop)
            ==> asks_for_missing(context, stop),
    decreases budget, items, 0nat,
{
    if items.len() > 0 {
        lemma_items_ask_for_missing(context, items.drop_last(), base, used, definitions, budget);
        match resolved_items(context, items.drop_last(), base, used, definitions, budget) {
            Err(_) => {},
            Ok((_, definitions)) => {
                lemma_load_is_for_a_missing_document(
                    context,
                    items.last(),
                    base,
                    used,
                    definitions,
                    budget,
                );
            },
        }
    }
}

/// Whether a resolution failed at the limit on how deep expansions nest.
pub open spec fn stopped_at_limit<T>(outcome: Result<T, StopModel>) -> bool {
    match outcome {
        Err(StopModel::Failed(ErrorModel::ExpansionLimit { .. })) => true,
        _ => false,
    }
}

/// The limit decides nothing but whether a resolution fails at it: a
/// resolution that does not fail at the limit gives the same with a larger
/// budget.
pub proof fn lemma_larger_budget_changes_nothing(
    context: Context,
    node: JsonModel,
    base: Seq<char>,
    used: Seq<Seq<char>>,
    definitions: Entries,
    budget: nat,
)
    requires
        !stopped_at_limit(resolved(context, node, base, used, definitions, budget)),
    ensures
        resolved(context, node, base, used, definitions, budget + 1) == resolved(
            context,
            node,
            base,
            used,
            definitions,
            budget,
        ),
    decreases budget, node, 0nat,
{
    match node {
        JsonModel::Object(entries) => {
            let base = declared_base(node, base);
            let definitions = collected(entries, definitions);
            match lookup(entries, "$ref"@) {
                Some(JsonModel::String(reference)) => match located(base, reference) {
                    Err(_) => {},
                    Ok(target) => {
                        lemma_larger_budget_expands_alike(
                            context,
                            entries,
                            reference,
                            target,
                            base,
                            used,
                            definitions,
                            budget,
                        );
                    },
                },
                _ => {
                    lemma_larger_budget_for_entries(
                        context,
                        entries,
                        true,
                        base,
                        used,
                        definitions,
                        budget,
                    );
                },
            }
        },
        JsonModel::Array(items) => {
            lemma_larger_budget_for_items(context, items, base, used, definitions, budget);
        },
        _ => {},
    }
}

/// An expansion that does not fail at the limit gives the same with a
/// larger budget.
pub proof fn lemma_larger_budget_expands_alike(
    context: Context,
    entries: Entries,
    reference: Seq<char>,
    target: TargetModel,
    base: Seq<char>,
    used: Seq<Seq<char>>,
    definitions: Entries,
    budget: nat,
)
    requires
        !stopped_at_limit(
            expanded(context, entries, reference, target, base, used, definitions, budget),
        ),
    ensures
        expanded(context, entries, reference, target, base, used, definitions, budget + 1)
            == expanded(context, entries, reference, target, base, used, definitions, budget),
    decreases budget, entries, 0nat,
{
    match lookup(context.cache, target.document) {
        None => {},
        Some(document) => match selected(document, target.fragment) {
            None => {},
            Some(schema) => {
                if !used.contains(target.full) {
                    let deeper = (budget - 1) as nat;
                    let chain = used.push(target.full);
                    lemma_larger_budget_changes_nothing(
                        context,
                        schema,
                        target.document,
                        chain,
                        definitions,
                        deeper,
                    );
                    match resolved(context, schema, target.document, chain, definitions, deeper) {
                        Err(_) => {},
                        Ok((content, definitions)) => {
                            lemma_larger_budget_below(
                                context,
                                substituted(
                                    context.reference_key,
                                    content,
                                    JsonModel::Object(stripped(entries)),
                                ),
                                base,
                                used,
                                definitions,
                                deeper,
                            );
                        },
                    }
                }
            },
        },
    }
}

/// Resolving what is below a value, where it does not fail at the limit,
/// gives the same with a larger budget.
pub proof fn lemma_larger_budget_below(
    context: Context,
    value: JsonModel,
    base: Seq<char>,
    used: Seq<Seq<char>>,
    definitions: Entries,
    budget: nat,
)
    requires
        !stopped_at_limit(resolved_below(context, value, base, used, definitions, budget)),
    ensures
        resolved_below(context, value, base, used, definitions, budget + 1) == resolved_below(
            context,
            value,
            base,
            used,
            definitions,
            budget,
        ),
    decreases budget, value, 0nat,
{
    match value {
        JsonModel::Object(entries) => {
            lemma_larger_budget_for_entries(
                context,
                entries,
                false,
                base,
                used,
                definitions,
                budget,
            );
        },
        JsonModel::Array(items) => {
            lemma_larger_budget_for_items(context, items, base, used, definitions, budget);
        },
        _ => {},
    }
}

/// Resolving entries, where it does not fail at the limit, gives the same
/// with a larger budget.
pub proof fn lemma_larger_budget_for_entries(
    context: Context,
    entries: Entries,
    strip: bool,
    base: Seq<char>,
    used: Seq<Seq<char>>,
    definitions: Entries,
    budget: nat,
)
    requires
        !stopped_at_limit(
            resolved_entries(context, entries, strip, base, used, definitions, budget),
        ),
    ensures
        resolved_entries(context, entries, strip, base, used, definitions, budget + 1)
            == resolved_entries(context, entries, strip, base, used, definitions, budget),
    decreases budget, entries, 0nat,
{
    if entries.len() > 0 {
        let front = entries.drop_last();
        lemma_larger_budget_for_entries(context, front, strip, base, used, definitions, budget);
        match resolved_entries(context, front, strip, base, used, definitions, budget) {
            Err(_) => {},
            Ok((_, definitions)) => {
                let key = entries.last().0;
                if !(strip && key == "definitions"@) {
                    lemma_larger_budget_changes_nothing(
                        context,
                        entries.last().1,
                        base,
                        used,
                        definitions,
                        budget,
                    );
                }
            },
        }
    }
}

/// Resolving items, where it does not fail at the limit, gives the same
/// with a larger budget.
pub proof fn lemma_larger_budget_for_items(
    context: Context,
    items: Seq<JsonModel>,
    base: Seq<char>,
    used: Seq<Seq<char>>,
    definitions: Entries,
    budget: nat,
)
    requires
        !stopped_at_limit(resolved_items(context, items, base, used, definitions, budget)),
    ensures
        resolved_items(context, items, base, used, definitions, budget + 1) == resolved_items(
            context,
            items,
            base,
            used,
            definitions,
            budget,
        ),
    decreases budget, items, 0nat,
{
    if items.len() > 0 {
        let front = items.drop_last();
        lemma_larger_budget_for_items(context, front, base, used, definitions, budget);
        match resolved_items(context, front, base, used, definitions, budget) {
            Err(_) => {},
            Ok((_, definitions)) => {
                lemma_larger_budget_changes_nothing(
                    context,
                    items.last(),
                    base,
                    used,
                    definitions,
                    budget,
                );
            },
        }
    }
}

/// The value under a key of a well-formed object is well formed.
pub proof fn lemma_lookup_well_formed(entries: Entries, key: Seq<char>)
    requires
        well_formed(JsonModel::Object(entries)),
    ensures
        lookup(entries, key) matches Some(value) ==> well_formed(value),
{
    assert(JsonModel::Object(entries)->Object_0 == entries);
    lemma_find(entries, key);
    match find(entries, key) {
        Some(i) => {
            assert(well_formed(entries[i].1));
        },
        None => {},
    }
}

/// What a path leads to in a well-formed document is well formed.
pub proof fn lemma_follow_well_formed(document: JsonModel, path: Seq<Seq<char>>)
    requires
        well_formed(document),
    ensures
        follow(document, path) matches Some(value) ==> well_formed(value),
    decreases path.len(),
{
    if path.len() > 0 {
        lemma_follow_well_formed(document, path.drop_last());
        match follow(document, path.drop_last()) {
            Some(JsonModel::Object(entries)) => {
                lemma_lookup_well_formed(entries, path.last());
            },
            Some(JsonModel::Array(items)) => {
                assert(JsonModel::Array(items)->Array_0 == items);
                match array_index(path.last()) {
                    Some(i) => {
                        if i < items.len() {
                            assert(well_formed(items[i as int]));
                        }
                    },
                    None => {},
                }
            },
            _ => {},
        }
    }
}

/// The accumulator stays well formed when the entries of a well-formed
/// object go into it.
pub proof fn lemma_merged_well_formed(definitions: Entries, found: Entries)
    requires
        well_formed(JsonModel::Object(definitions)),
        well_formed(JsonModel::Object(found)),
    ensures
        well_formed(JsonModel::Object(merged(definitions, found))),
    decreases found.len(),
{
    if found.len() > 0 {
        let front = found.drop_last();
        assert(JsonModel::Object(found)->Object_0 == found);
        assert(JsonModel::Object(front)->Object_0 == front);
        assert(well_formed(JsonModel::Object(front))) by {
            assert forall|i: int, j: int| 0 <= i < j < front.len() implies (#[trigger] front[i]).0
                != (#[trigger] front[j]).0 by {
                assert(front[i] == found[i] && front[j] == found[j]);
            }
            assert forall|i: int| 0 <= i < front.len() implies well_formed(
                (#[trigger] front[i]).1,
            ) by {
                assert(front[i] == found[i]);
            }
        }
        lemma_merged_well_formed(definitions, front);
        assert(well_formed(found.last().1)) by {
            assert(found[found.len() - 1] == found.last());
        }
        lemma_with_entry_well_formed(merged(definitions, front), found.last().0, found.last().1);
    }
}

/// Whether every document in the cache, what is resolved, and the
/// accumulator are well formed, and no identifier is in the cache twice.
pub open spec fn all_well_formed(context: Context, node: JsonModel, definitions: Entries) -> bool {
    &&& well_formed(JsonModel::Object(context.cache))
    &&& well_formed(node)
    &&& well_formed(JsonModel::Object(definitions))
}

/// Whether a resolution, where it gave a value, gave a well-formed one
/// and left the accumulator well formed.
pub open spec fn gave_well_formed(resolution: Resolution) -> bool {
    resolution matches Ok((value, definitions)) ==> well_formed(value) && well_formed(
        JsonModel::Object(definitions),
    )
}

/// Resolving well-formed documents gives well-formed documents: where the
/// cache, the document and the accumulator hold no key twice in any object,
/// neither do the resolved document and the accumulator after it.
pub proof fn lemma_resolution_is_well_formed(
    context: Context,
    node: JsonModel,
    base: Seq<char>,
    used: Seq<Seq<char>>,
    definitions: Entries,
    budget: nat,
)
    requires
        all_well_formed(context, node, definitions),
    ensures
        gave_well_formed(resolved(context, node, base, used, definitions, budget)),
    decreases budget, node, 0nat,
{
    match node {
        JsonModel::Object(entries) => {
            let base = declared_base(node, base);
            lemma_collected_well_formed(entries, definitions);
            let definitions = collected(entries, definitions);
            match lookup(entries, "$ref"@) {
                Some(JsonModel::String(reference)) => match located(base, reference) {
                    Err(_) => {},
                    Ok(target) => {
                        lemma_expansion_is_well_formed(
                            context,
                            entries,
                            reference,
                            target,
                            base,
                            used,
                            definitions,
                            budget,
                        );
                    },
                },
                _ => {
                    lemma_entries_stay_well_formed(
                        context,
                        entries,
                        true,
                        base,
                        used,
                        definitions,
                        budget,
                    );
                },
            }
        },
        JsonModel::Array(items) => {
            lemma_items_stay_well_formed(context, items, base, used, definitions, budget);
        },
        _ => {},
    }
}

/// The accumulator stays well formed when a well-formed object is visited.
pub proof fn lemma_collected_well_formed(entries: Entries, definitions: Entries)
    requires
        well_formed(JsonModel::Object(entries)),
        well_formed(JsonModel::Object(definitions)),
    ensures
        well_formed(JsonModel::Object(collected(entries, definitions))),
{
    lemma_lookup_well_formed(entries, "definitions"@);
    match lookup(entries, "definitions"@) {
        Some(JsonModel::Object(found)) => {
            lemma_merged_well_formed(definitions, found);
        },
        _ => {},
    }
}

/// A well-formed object without `definitions` and `$ref` is well formed.
pub proof fn lemma_stripped_well_formed(entries: Entries)
    requires
        well_formed(JsonModel::Object(entries)),
    ensures
        well_formed(JsonModel::Object(stripped(entries))),
{
    lemma_without_well_formed(entries, "definitions"@);
    lemma_without_well_formed(without(entries, "definitions"@), "$ref"@);
}

/// An expansion among well-formed documents gives a well-formed document.
pub proof fn lemma_expansion_is_well_formed(
    context: Context,
    entries: Entries,
    reference: Seq<char>,
    target: TargetModel,
    base: Seq<char>,
    used: Seq<Seq<char>>,
    definitions: Entries,
    budget: nat,
)
    requires
        all_well_formed(context, JsonModel::Object(entries), definitions),
    ensures
        gave_well_formed(
            expanded(context, entries, reference, target, base, used, definitions, budget),
        ),
    decreases budget, entries, 0nat,
{
    lemma_lookup_well_formed(context.cache, target.document);
    lemma_stripped_well_formed(entries);
    match lookup(context.cache, target.document) {
        None => {},
        Some(document) => {
            match target.fragment {
                Some(pointer) => match segments(pointer) {
                    Some(path) => {
                        lemma_follow_well_formed(document, path);
                    },
                    None => {},
                },
                None => {},
            }
            match selected(document, target.fragment) {
                None => {},
                Some(schema) => {
                    if !used.contains(target.full) && budget > 0 {
                        let deeper = (budget - 1) as nat;
                        let chain = used.push(target.full);
                        lemma_resolution_is_well_formed(
                            context,
                            schema,
                            target.document,
                            chain,
                            definitions,
                            deeper,
                        );
                        match resolved(
                            context,
                            schema,
                            target.document,
                            chain,
                            definitions,
                            deeper,
                        ) {
                            Err(_) => {},
                            Ok((content, definitions)) => {
                                let kept = JsonModel::Object(stripped(entries));
                                match (context.reference_key, content) {
                                    (Some(key), JsonModel::Object(inner)) => {
                                        lemma_with_entry_well_formed(inner, key, kept);
                                    },
                                    _ => {},
                                }
                                lemma_below_stays_well_formed(
                                    context,
                                    substituted(context.reference_key, content, kept),
                                    base,
                                    used,
                                    definitions,
                                    deeper,
                                );
                            },
                        }
                    }
                },
            }
        },
    }
}

/// Resolving what is below a well-formed value gives a well-formed value.
pub proof fn lemma_below_stays_well_formed(
    context: Context,
    value: JsonModel,
    base: Seq<char>,
    used: Seq<Seq<char>>,
    definitions: Entries,
    budget: nat,
)
    requires
        all_well_formed(context, value, definitions),
    ensures
        gave_well_formed(resolved_below(context, value, base, used, definitions, budget)),
    decreases budget, value, 0nat,
{
    match value {
        JsonModel::Object(entries) => {
            lemma_entries_stay_well_formed(
                context,
                entries,
                false,
                base,
                used,
                definitions,
                budget,
            );
        },
        JsonModel::Array(items) => {
            lemma_items_stay_well_formed(context, items, base, used, definitions, budget);
        },
        _ => {},
    }
}

/// Resolving the entries of a well-formed object gives the entries of a
/// well-formed object, each under a key that was there.
pub proof fn lemma_entries_stay_well_formed(
    context: Context,
    entries: Entries,
    strip: bool,
    base: Seq<char>,
    used: Seq<Seq<char>>,
    definitions: Entries,
    budget: nat,
)
    requires
        all_well_formed(context, JsonModel::Object(entries), definitions),
    ensures
        resolved_entries(context, entries, strip, base, used, definitions, budget) matches Ok(
            (below, after),
        ) ==> {
            &&& well_formed(JsonModel::Object(below))
            &&& well_formed(JsonModel::Object(after))
            &&& forall|i: int|
                0 <= i < below.len() ==> exists|j: int|
                    0 <= j < entries.len() && entries[j].0 == (#[trigger] below[i]).0
        },
    decreases budget, entries, 0nat,
{
    assert(JsonModel::Object(entries)->Object_0 == entries);
    if entries.len() > 0 {
        let front = entries.drop_last();
        let last = entries.last();
        assert(JsonModel::Object(front)->Object_0 == front);
        assert(well_formed(JsonModel::Object(front))) by {
            assert forall|i: int, j: int| 0 <= i < j < front.len() implies (#[trigger] front[i]).0
                != (#[trigger] front[j]).0 by {
                assert(front[i] == entries[i] && front[j] == entries[j]);
            }
            assert forall|i: int| 0 <= i < front.len() implies well_formed(
                (#[trigger] front[i]).1,
            ) by {
                assert(front[i] == entries[i]);
            }
        }
        lemma_entries_stay_well_formed(context, front, strip, base, used, definitions, budget);
        match resolved_entries(context, front, strip, base, used, definitions, budget) {
            Err(_) => {},
            Ok((before, definitions)) => {
                assert forall|i: int| 0 <= i < before.len() implies exists|j: int|
                    0 <= j < entries.len() && entries[j].0 == (#[trigger] before[i]).0 by {
                    let j = choose|j: int| 0 <= j < front.len() && front[j].0 == before[i].0;
                    assert(entries[j] == front[j]);
                }
                if !(strip && last.0 == "definitions"@) {
                    assert(well_formed(last.1)) by {
                        assert(entries[entries.len() - 1] == last);
                    }
                    lemma_resolution_is_well_formed(
                        context,
                        last.1,
                        base,
                        used,
                        definitions,
                        budget,
                    );
                    match resolved(context, last.1, base, used, definitions, budget) {
                        Err(_) => {},
                        Ok((value, _)) => {
                            let below = before.push((last.0, value));
                            assert(JsonModel::Object(before)->Object_0 == before);
                            assert(JsonModel::Object(below)->Object_0 == below);
                            assert forall|i: int, j: int|
                                0 <= i < j < below.len() implies (#[trigger] below[i]).0 != (
                            #[trigger] below[j]).0 by {
                                if j < before.len() {
                                    assert(below[i] == before[i] && below[j] == before[j]);
                                } else {
                                    assert(below[i] == before[i]);
                                    let at = choose|at: int|
                                        0 <= at < front.len() && front[at].0 == before[i].0;
                                    assert(entries[at] == front[at]);
                                    assert(entries[entries.len() - 1] == last);
                                }
                            }
                            assert forall|i: int| 0 <= i < below.len() implies well_formed(
                                (#[trigger] below[i]).1,
                            ) by {
                                if i < before.len() {
                                    assert(below[i] == before[i]);
                                }
                            }
                            assert forall|i: int| 0 <= i < below.len() implies exists|j: int|
                                0 <= j < entries.len() && entries[j].0 == (#[trigger] below[i]).0 by {
                                if i < before.len() {
                                    assert(below[i] == before[i]);
                                } else {
                                    assert(entries[entries.len() - 1].0 == below[i].0);
                                }
                            }
                        },
                    }
                }
            },
        }
    } else {
        let empty = Seq::<(Seq<char>, JsonModel)>::empty();
        assert(JsonModel::Object(empty)->Object_0 == empty);
    }
}

/// Resolving the items of a well-formed array gives the items of a
/// well-formed array.
pub proof fn lemma_items_stay_well_formed(
    context: Context,
    items: Seq<JsonModel>,
    base: Seq<char>,
    used: Seq<Seq<char>>,
    definitions: Entries,
    budget: nat,
)
    requires
        all_well_formed(context, JsonModel::Array(items), definitions),
    ensures
        resolved_items(context, items, base, used, definitions, budget) matches Ok(
            (below, after),
        ) ==> well_formed(JsonModel::Array(below)) && well_formed(JsonModel::Object(after)),
    decreases budget, items, 0nat,
{
    assert(JsonModel::Array(items)->Array_0 == items);
    if items.len() > 0 {
        let front = items.drop_last();
        assert(JsonModel::Array(front)->Array_0 == front);
        assert(well_formed(JsonModel::Array(front))) by {
            assert forall|i: int| 0 <= i < front.len() implies well_formed(
                #[trigger] front[i],
            ) by {
                assert(front[i] == items[i]);
            }
        }
        lemma_items_stay_well_formed(context, front, base, used, definitions, budget);
        match resolved_items(context, front, base, used, definitions, budget) {
            Err(_) => {},
            Ok((before, definitions)) => {
                assert(well_formed(items.last())) by {
                    assert(items[items.len() - 1] == items.last());
                }
                lemma_resolution_is_well_formed(
                    context,
                    items.last(),
                    base,
                    used,
                    definitions,
                    budget,
                );
                match resolved(context, items.last(), base, used, definitions, budget) {
                    Err(_) => {},
                    Ok((value, _)) => {
                        let below = before.push(value);
                        assert(JsonModel::Array(before)->Array_0 == before);
                        assert(JsonModel::Array(below)->Array_0 == below);
                        assert forall|i: int| 0 <= i < below.len() implies well_formed(
                            #[trigger] below[i],
                        ) by {
                            if i < before.len() {
                                assert(below[i] == before[i]);
                            }
                        }
                    },
                }
            },
        }
    } else {
        let empty = Seq::<JsonModel>::empty();
        assert(JsonModel::Array(empty)->Array_0 == empty);
    }
}

} // verus!
