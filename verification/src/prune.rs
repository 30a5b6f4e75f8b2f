//! Dropping empty strings and empty objects, at every depth.
use crate::value::{entries_view, items_view, lemma_entries_view, lemma_items_view, Json, Value};
use vstd::prelude::*;

verus! {

/// What a pruning pass drops.
#[derive(Clone, Copy, Debug, PartialEq, Eq)]
pub enum Empty {
    /// Strings without characters.
    Strings,
    /// Objects without entries.
    Objects,
}

/// The string without characters.
pub open spec fn is_empty_string(v: Json) -> bool {
    v matches Json::String(s) && s.len() == 0
}

/// The object without entries.
pub open spec fn is_empty_object(v: Json) -> bool {
    v matches Json::Object(entries) && entries.len() == 0
}

/// Whether a pass that drops `what` drops the value `v`.
pub open spec fn is_dropped(what: Empty, v: Json) -> bool {
    match what {
        Empty::Strings => is_empty_string(v),
        Empty::Objects => is_empty_object(v),
    }
}

/// The document after a pruning pass: without the array items and object
/// entries, at any depth, whose value the pass drops. A value is looked at
/// after its own children were pruned, so an object that only held empty
/// objects is an empty object by then, and goes too.
pub open spec fn prune(what: Empty, v: Json) -> Json
    decreases v,
{
    match v {
        Json::Object(entries) => Json::Object(prune_entries(what, entries)),
        Json::Array(items) => Json::Array(prune_items(what, items)),
        _ => v,
    }
}

/// The items pruned, without those that are dropped.
pub open spec fn prune_items(what: Empty, items: Seq<Json>) -> Seq<Json>
    decreases items,
{
    if items.len() == 0 {
        Seq::empty()
    } else {
        let kept = prune_items(what, items.drop_last());
        let last = prune(what, items.last());
        if is_dropped(what, last) {
            kept
        } else {
            kept.push(last)
        }
    }
}

/// The entries with their values pruned, without those whose value is
/// dropped.
pub open spec fn prune_entries(what: Empty, entries: Seq<(Seq<char>, Json)>) -> Seq<
    (Seq<char>, Json),
>
    decreases entries,
{
    if entries.len() == 0 {
        Seq::empty()
    } else {
        let kept = prune_entries(what, entries.drop_last());
        let last = prune(what, entries.last().1);
        if is_dropped(what, last) {
            kept
        } else {
            kept.push((entries.last().0, last))
        }
    }
}

/// The document without the array items and object entries, at any depth,
/// whose value is the empty string.
pub open spec fn prune_strings(v: Json) -> Json {
    prune(Empty::Strings, v)
}

/// The document without the array items and object entries, at any depth,
/// whose value is an object without entries, be it from the start or after
/// its own children were pruned.
pub open spec fn prune_objects(v: Json) -> Json {
    prune(Empty::Objects, v)
}

/// None of the items is dropped, and each is free of what is dropped.
pub open spec fn items_free_of(what: Empty, items: Seq<Json>) -> bool
    decreases items, 0int,
{
    forall|i: int|
        0 <= i < items.len() ==> !is_dropped(what, #[trigger] items[i]) && free_of(what, items[i])
}

/// None of the values of the entries is dropped, and each is free of what is
/// dropped.
pub open spec fn entries_free_of(what: Empty, entries: Seq<(Seq<char>, Json)>) -> bool
    decreases entries, 0int,
{
    forall|i: int|
        0 <= i < entries.len() ==> !is_dropped(what, (#[trigger] entries[i]).1) && free_of(
            what,
            entries[i].1,
        )
}

/// No array item and no object entry of the document, at any depth, is a
/// value that the pass drops.
pub open spec fn free_of(what: Empty, v: Json) -> bool
    decreases v, 1int,
{
    match v {
        Json::Object(entries) => entries_free_of(what, entries),
        Json::Array(items) => items_free_of(what, items),
        _ => true,
    }
}

/// No array item and no object entry, at any depth, is the empty string.
pub open spec fn free_of_empty_strings(v: Json) -> bool {
    free_of(Empty::Strings, v)
}

/// No array item and no object entry, at any depth, is an object without
/// entries.
pub open spec fn free_of_empty_objects(v: Json) -> bool {
    free_of(Empty::Objects, v)
}

/// After a pruning pass, nothing that it drops is left below the root.
pub proof fn lemma_prune_leaves_none(what: Empty, v: Json)
    ensures
        free_of(what, prune(what, v)),
    decreases v, 0int,
{
    match v {
        Json::Object(entries) => lemma_prune_entries_leave_none(what, entries),
        Json::Array(items) => lemma_prune_items_leave_none(what, items),
        _ => {},
    }
}

proof fn lemma_prune_items_leave_none(what: Empty, items: Seq<Json>)
    ensures
        items_free_of(what, prune_items(what, items)),
    decreases items, 0int,
{
    if items.len() > 0 {
        lemma_prune_items_leave_none(what, items.drop_last());
        lemma_prune_leaves_none(what, items.last());
        let kept = prune_items(what, items.drop_last());
        let last = prune(what, items.last());
        let all = prune_items(what, items);
        assert forall|i: int| 0 <= i < all.len() implies !is_dropped(what, #[trigger] all[i])
            && free_of(what, all[i]) by {
            if i < kept.len() {
                assert(all[i] == kept[i]);
            } else {
                assert(all[i] == last);
            }
        }
    }
}

proof fn lemma_prune_entries_leave_none(what: Empty, entries: Seq<(Seq<char>, Json)>)
    ensures
        entries_free_of(what, prune_entries(what, entries)),
    decreases entries, 0int,
{
    if entries.len() > 0 {
        lemma_prune_entries_leave_none(what, entries.drop_last());
        lemma_prune_leaves_none(what, entries.last().1);
        let kept = prune_entries(what, entries.drop_last());
        let last = prune(what, entries.last().1);
        let all = prune_entries(what, entries);
        assert forall|i: int| 0 <= i < all.len() implies !is_dropped(what, (#[trigger] all[i]).1)
            && free_of(what, all[i].1) by {
            if i < kept.len() {
                assert(all[i] == kept[i]);
            } else {
                assert(all[i].1 == last);
            }
        }
    }
}

/// A pruning pass leaves a document as it is where nothing that it drops
/// stands below the root.
pub proof fn lemma_prune_fixes_pruned(what: Empty, v: Json)
    requires
        free_of(what, v),
    ensures
        prune(what, v) == v,
    decreases v, 0int,
{
    match v {
        Json::Object(entries) => {
            lemma_prune_entries_fixed(what, entries, entries.len() as int);
            assert(entries.take(entries.len() as int) =~= entries);
        },
        Json::Array(items) => {
            lemma_prune_items_fixed(what, items, items.len() as int);
            assert(items.take(items.len() as int) =~= items);
        },
        _ => {},
    }
}

proof fn lemma_prune_items_fixed(what: Empty, items: Seq<Json>, n: int)
    requires
        0 <= n <= items.len(),
        items_free_of(what, items),
    ensures
        prune_items(what, items.take(n)) == items.take(n),
    decreases items, n,
{
    if n > 0 {
        lemma_prune_items_fixed(what, items, n - 1);
        lemma_prune_fixes_pruned(what, items[n - 1]);
        assert(items.take(n).drop_last() =~= items.take(n - 1));
        assert(items.take(n - 1).push(items[n - 1]) =~= items.take(n));
    } else {
        assert(items.take(0) =~= Seq::<Json>::empty());
    }
}

proof fn lemma_prune_entries_fixed(what: Empty, entries: Seq<(Seq<char>, Json)>, n: int)
    requires
        0 <= n <= entries.len(),
        entries_free_of(what, entries),
    ensures
        prune_entries(what, entries.take(n)) == entries.take(n),
    decreases entries, n,
{
    if n > 0 {
        lemma_prune_entries_fixed(what, entries, n - 1);
        lemma_prune_fixes_pruned(what, entries[n - 1].1);
        assert(entries.take(n).drop_last() =~= entries.take(n - 1));
        assert(entries.take(n - 1).push(entries[n - 1]) =~= entries.take(n));
    } else {
        assert(entries.take(0) =~= Seq::<(Seq<char>, Json)>::empty());
    }
}

/// A pruning pass that runs twice gives what it gives when it runs once.
pub proof fn lemma_prune_idempotent(what: Empty, v: Json)
    ensures
        prune(what, prune(what, v)) == prune(what, v),
{
    lemma_prune_leaves_none(what, v);
    lemma_prune_fixes_pruned(what, prune(what, v));
}

/// Pruning the empty strings twice gives what pruning them once gives.
pub proof fn lemma_prune_strings_idempotent(v: Json)
    ensures
        prune_strings(prune_strings(v)) == prune_strings(v),
{
    lemma_prune_idempotent(Empty::Strings, v);
}

/// Pruning the empty objects twice gives what pruning them once gives.
pub proof fn lemma_prune_objects_idempotent(v: Json)
    ensures
        prune_objects(prune_objects(v)) == prune_objects(v),
{
    lemma_prune_idempotent(Empty::Objects, v);
}

/// An object that holds nothing but empty objects, at whatever depth, is
/// pruned to an empty object, so that it is dropped where it is an item or
/// an entry itself.
pub proof fn lemma_hollow_object_is_dropped(entries: Seq<(Seq<char>, Json)>)
    requires
        forall|i: int|
            0 <= i < entries.len() ==> is_empty_object(
                prune_objects((#[trigger] entries[i]).1),
            ),
    ensures
        is_empty_object(prune_objects(Json::Object(entries))),
    decreases entries.len(),
{
    if entries.len() > 0 {
        let rest = entries.drop_last();
        assert forall|i: int| 0 <= i < rest.len() implies is_empty_object(
            prune_objects((#[trigger] rest[i]).1),
        ) by {
            assert(rest[i] == entries[i]);
        }
        lemma_hollow_object_is_dropped(rest);
        assert(entries.last() == entries[entries.len() - 1]);
    }
}

/// The entries that a pruning pass keeps come from the entries that went
/// in, in their order: `origin` tells for each kept entry where it stood.
proof fn lemma_prune_entries_origin(what: Empty, entries: Seq<(Seq<char>, Json)>) -> (origin: Seq<
    int,
>)
    ensures
        origin.len() == prune_entries(what, entries).len(),
        forall|i: int|
            0 <= i < origin.len() ==> 0 <= (#[trigger] origin[i]) < entries.len() && prune_entries(
                what,
                entries,
            )[i] == (entries[origin[i]].0, prune(what, entries[origin[i]].1)),
        forall|i: int, j: int| 0 <= i < j < origin.len() ==> origin[i] < origin[j],
    decreases entries.len(),
{
    if entries.len() == 0 {
        Seq::empty()
    } else {
        let before = lemma_prune_entries_origin(what, entries.drop_last());
        let last = prune(what, entries.last().1);
        if is_dropped(what, last) {
            before
        } else {
            before.push(entries.len() - 1)
        }
    }
}

/// A pruning pass gives a well-formed document for a well-formed one.
pub proof fn lemma_prune_well_formed(what: Empty, v: Json)
    requires
        v.well_formed(),
    ensures
        prune(what, v).well_formed(),
    decreases v, 0int,
{
    match v {
        Json::Object(entries) => {
            let kept = prune_entries(what, entries);
            let origin = lemma_prune_entries_origin(what, entries);
            assert forall|i: int| 0 <= i < kept.len() implies
                (#[trigger] kept[i]).1.well_formed() by {
                assert(entries[origin[i]].1.well_formed());
                lemma_prune_well_formed(what, entries[origin[i]].1);
            }
            assert forall|i: int, j: int| 0 <= i < j < kept.len() implies
                (#[trigger] kept[i]).0 != (#[trigger] kept[j]).0 by {
                assert(origin[i] < origin[j]);
                assert(entries[origin[i]].0 != entries[origin[j]].0);
            }
        },
        Json::Array(items) => {
            assert forall|i: int| 0 <= i < items.len() implies
                (#[trigger] items[i]).well_formed() by {}
            lemma_prune_items_well_formed(what, items);
            let kept = prune_items(what, items);
            assert forall|i: int| 0 <= i < kept.len() implies
                (#[trigger] kept[i]).well_formed() by {}
        },
        _ => {},
    }
}

proof fn lemma_prune_items_well_formed(what: Empty, items: Seq<Json>)
    requires
        forall|i: int| 0 <= i < items.len() ==> (#[trigger] items[i]).well_formed(),
    ensures
        forall|i: int|
            0 <= i < prune_items(what, items).len() ==> (#[trigger] prune_items(
                what,
                items,
            )[i]).well_formed(),
    decreases items, 0int,
{
    if items.len() > 0 {
        let rest = items.drop_last();
        assert forall|i: int| 0 <= i < rest.len() implies (#[trigger] rest[i]).well_formed() by {
            assert(rest[i] == items[i]);
        }
        lemma_prune_items_well_formed(what, rest);
        assert(items.last() == items[items.len() - 1]);
        lemma_prune_well_formed(what, items.last());
        let kept = prune_items(what, rest);
        let all = prune_items(what, items);
        assert forall|i: int| 0 <= i < all.len() implies (#[trigger] all[i]).well_formed() by {
            if i < kept.len() {
                assert(all[i] == kept[i]);
            }
        }
    }
}

/// Whether a value is the string without characters.
pub fn holds_empty_string(value: &Value) -> (empty: bool)
    ensures
        empty == is_empty_string(value@),
{
    match value {
        Value::String(s) => s.as_str().is_empty(),
        _ => false,
    }
}

/// Whether a value is the object without entries.
pub fn holds_empty_object(value: &Value) -> (empty: bool)
    ensures
        empty == is_empty_object(value@),
{
    match value {
        Value::Object(entries) => {
            proof {
                lemma_entries_view(entries@);
            }
            entries.len() == 0
        },
        _ => false,
    }
}

/// Whether a pass that drops `what` drops the value.
pub fn drops(what: Empty, value: &Value) -> (dropped: bool)
    ensures
        dropped == is_dropped(what, value@),
{
    match what {
        Empty::Strings => holds_empty_string(value),
        Empty::Objects => holds_empty_object(value),
    }
}

/// Runs a pruning pass over a value.
pub fn remove_empty(what: Empty, value: Value) -> (pruned: Value)
    ensures
        pruned@ == prune(what, value@),
        free_of(what, pruned@),
        value@.well_formed() ==> pruned@.well_formed(),
    decreases value,
{
    proof {
        lemma_prune_leaves_none(what, value@);
        if value@.well_formed() {
            lemma_prune_well_formed(what, value@);
        }
    }
    match value {
        Value::Object(object) => remove_empty_from_object(what, object),
        Value::Array(arr) => remove_empty_from_array(what, arr),
        other => other,
    }
}

/// Prunes the values of an object and drops the entries whose value is then
/// one that the pass drops.
pub fn remove_empty_from_object(what: Empty, object: Vec<(String, Value)>) -> (pruned: Value)
    ensures
        pruned@ == prune(what, Json::Object(entries_view(object@))),
    decreases object,
{
    let ghost source = object@;
    let ghost entries = entries_view(source);
    let mut kept: Vec<(String, Value)> = Vec::new();
    proof {
        lemma_entries_view(source);
        assert(entries.take(0) =~= Seq::<(Seq<char>, Json)>::empty());
    }
    for entry in it: object
        invariant
            it.seq() == source,
            entries == entries_view(source),
            entries.len() == source.len(),
            forall|j: int| 0 <= j < source.len() ==>
                decreases_to!(object => (#[trigger] source[j]).1),
            entries_view(kept@) == prune_entries(what, entries.take(it.index() as int)),
    {
        let ghost k = it.index() as int;
        proof {
            lemma_entries_view(source);
            assert(entries.take(k + 1).drop_last() =~= entries.take(k));
            assert(entries.take(k + 1).last() == entries[k]);
        }
        let child = remove_empty(what, entry.1);
        if !drops(what, &child) {
            let ghost before = kept@;
            kept.push((entry.0, child));
            proof {
                lemma_entries_view(kept@);
                lemma_entries_view(before);
                assert(entries_view(kept@) =~= entries_view(before).push((entries[k].0, child@)));
            }
        }
    }
    assert(entries.take(source.len() as int) =~= entries);
    Value::Object(kept)
}

/// Prunes the items of an array and drops those that are then values that
/// the pass drops.
pub fn remove_empty_from_array(what: Empty, arr: Vec<Value>) -> (pruned: Value)
    ensures
        pruned@ == prune(what, Json::Array(items_view(arr@))),
    decreases arr,
{
    let ghost source = arr@;
    let ghost items = items_view(source);
    let mut kept: Vec<Value> = Vec::new();
    proof {
        lemma_items_view(source);
        assert(items.take(0) =~= Seq::<Json>::empty());
    }
    for item in it: arr
        invariant
            it.seq() == source,
            items == items_view(source),
            items.len() == source.len(),
            forall|j: int| 0 <= j < source.len() ==> decreases_to!(arr => #[trigger] source[j]),
            items_view(kept@) == prune_items(what, items.take(it.index() as int)),
    {
        let ghost k = it.index() as int;
        proof {
            lemma_items_view(source);
            assert(items.take(k + 1).drop_last() =~= items.take(k));
            assert(items.take(k + 1).last() == items[k]);
        }
        let child = remove_empty(what, item);
        if !drops(what, &child) {
            let ghost before = kept@;
            kept.push(child);
            proof {
                lemma_items_view(kept@);
                lemma_items_view(before);
                assert(items_view(kept@) =~= items_view(before).push(child@));
            }
        }
    }
    assert(items.take(source.len() as int) =~= items);
    Value::Array(kept)
}

/// Drops every array item and object entry, at any depth, whose value is
/// the empty string.
pub fn remove_empty_strings(value: Value) -> (pruned: Value)
    ensures
        pruned@ == prune_strings(value@),
        free_of_empty_strings(pruned@),
        value@.well_formed() ==> pruned@.well_formed(),
{
    remove_empty(Empty::Strings, value)
}

/// Drops every array item and object entry, at any depth, whose value is an
/// object without entries.
///
/// A value is looked at after its own children were pruned, so an object
/// that held nothing but empty objects is dropped too.
pub fn remove_empty_objects(value: Value) -> (pruned: Value)
    ensures
        pruned@ == prune_objects(value@),
        free_of_empty_objects(pruned@),
        value@.well_formed() ==> pruned@.well_formed(),
{
    remove_empty(Empty::Objects, value)
}

} // verus!
