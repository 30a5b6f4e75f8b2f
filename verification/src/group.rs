//! Turning objects whose keys are all indices into arrays.
use crate::numeral::{parse_unsigned, read_unsigned};
use crate::text::to_chars;
use crate::value::{
    distinct_keys, entries_view, items_view, lemma_entries_view, lemma_items_view, Json, Value,
};
use vstd::prelude::*;

verus! {

/// Whether a key reads as an index: an unsigned 64-bit integer.
pub open spec fn is_index(key: Seq<char>) -> bool {
    parse_unsigned(key) is Some
}

/// Whether every key of the entries reads as an index.
pub open spec fn all_index_keys(entries: Seq<(Seq<char>, Json)>) -> bool {
    forall|i: int| 0 <= i < entries.len() ==> is_index((#[trigger] entries[i]).0)
}

/// The values of the entries, in the order of the entries.
pub open spec fn entry_values(entries: Seq<(Seq<char>, Json)>) -> Seq<Json> {
    Seq::new(entries.len(), |i: int| entries[i].1)
}

/// The document with every object that has entries, all under index keys,
/// replaced by the array of its values in the order of its entries. The
/// replacement works from the leaves upwards. An object without entries
/// stays an object.
pub open spec fn group(v: Json) -> Json
    decreases v,
{
    match v {
        Json::Object(entries) => if entries.len() > 0 && all_index_keys(entries) {
            Json::Array(entry_values(group_entries(entries)))
        } else {
            Json::Object(group_entries(entries))
        },
        Json::Array(items) => Json::Array(group_items(items)),
        _ => v,
    }
}

/// Each item grouped.
pub open spec fn group_items(items: Seq<Json>) -> Seq<Json>
    decreases items,
{
    if items.len() == 0 {
        Seq::empty()
    } else {
        group_items(items.drop_last()).push(group(items.last()))
    }
}

/// Each entry with its value grouped, under its key.
pub open spec fn group_entries(entries: Seq<(Seq<char>, Json)>) -> Seq<(Seq<char>, Json)>
    decreases entries,
{
    if entries.len() == 0 {
        Seq::empty()
    } else {
        group_entries(entries.drop_last()).push((entries.last().0, group(entries.last().1)))
    }
}

/// `group_items` works item by item.
pub proof fn lemma_group_items(items: Seq<Json>)
    ensures
        group_items(items).len() == items.len(),
        forall|i: int| 0 <= i < items.len() ==>
            (#[trigger] group_items(items)[i]) == group(items[i]),
    decreases items.len(),
{
    if items.len() > 0 {
        lemma_group_items(items.drop_last());
    }
}

/// `group_entries` works entry by entry and keeps the keys.
pub proof fn lemma_group_entries(entries: Seq<(Seq<char>, Json)>)
    ensures
        group_entries(entries).len() == entries.len(),
        forall|i: int|
            0 <= i < entries.len() ==> (#[trigger] group_entries(entries)[i]) == (
                entries[i].0,
                group(entries[i].1),
            ),
    decreases entries.len(),
{
    if entries.len() > 0 {
        lemma_group_entries(entries.drop_last());
    }
}

/// Grouping twice gives what grouping once gives.
pub proof fn lemma_group_idempotent(v: Json)
    ensures
        group(group(v)) == group(v),
    decreases v,
{
    match v {
        Json::Object(entries) => {
            let once = group_entries(entries);
            lemma_group_entries(entries);
            assert forall|i: int| 0 <= i < entries.len() implies group(group(entries[i].1))
                == group(entries[i].1) by {
                lemma_group_idempotent(entries[i].1);
            }
            if entries.len() > 0 && all_index_keys(entries) {
                let values = entry_values(once);
                lemma_group_items(values);
                assert(group_items(values) =~= values);
            } else {
                lemma_group_entries(once);
                assert(group_entries(once) =~= once);
                if once.len() > 0 && all_index_keys(once) {
                    assert forall|i: int| 0 <= i < entries.len() implies is_index(
                        (#[trigger] entries[i]).0,
                    ) by {
                        assert(once[i].0 == entries[i].0);
                    }
                }
            }
        },
        Json::Array(items) => {
            let once = group_items(items);
            lemma_group_items(items);
            lemma_group_items(once);
            assert forall|i: int| 0 <= i < items.len() implies group(group(items[i])) == group(
                items[i],
            ) by {
                lemma_group_idempotent(items[i]);
            }
            assert(group_items(once) =~= once);
        },
        _ => {},
    }
}

/// Rewrites every object that has entries, all under index keys, as the
/// array of its values, from the leaves upwards.
pub fn group_numeric_arrays(value: Value) -> (grouped: Value)
    ensures
        grouped@ == group(value@),
        value@.well_formed() ==> grouped@.well_formed(),
    decreases value,
{
    proof {
        if value@.well_formed() {
            lemma_group_well_formed(value@);
        }
    }
    match value {
        Value::Object(object) => group_numeric_arrays_in_object(object),
        Value::Array(arr) => group_numeric_arrays_in_array(arr),
        other => other,
    }
}

/// Groups the values of an object, then the object itself.
pub fn group_numeric_arrays_in_object(object: Vec<(String, Value)>) -> (grouped: Value)
    ensures
        grouped@ == group(Json::Object(entries_view(object@))),
    decreases object,
{
    let ghost source = object@;
    let ghost entries = entries_view(source);
    let mut indexed = object.len() > 0;
    let mut inner: Vec<(String, Value)> = Vec::new();
    proof {
        lemma_entries_view(source);
    }
    for entry in it: object
        invariant
            it.seq() == source,
            entries == entries_view(source),
            entries.len() == source.len(),
            forall|j: int| 0 <= j < source.len() ==>
                decreases_to!(object => (#[trigger] source[j]).1),
            inner.len() == it.index(),
            entries_view(inner@) == group_entries(entries.take(it.index() as int)),
            indexed == (source.len() > 0 && all_index_keys(entries.take(it.index() as int))),
    {
        let ghost k = it.index() as int;
        proof {
            lemma_entries_view(source);
            lemma_entries_view(inner@);
            assert(entries.take(k + 1).drop_last() =~= entries.take(k));
            assert(entries.take(k + 1).last() == entries[k]);
        }
        let key_chars = to_chars(entry.0.as_str());
        let is_index_key = read_unsigned(&key_chars).is_some();
        let child = group_numeric_arrays(entry.1);
        let ghost before = inner@;
        inner.push((entry.0, child));
        proof {
            lemma_entries_view(inner@);
            assert(entries_view(inner@) =~= entries_view(before).push((entries[k].0, child@)));
            if indexed && is_index_key {
                assert forall|i: int| 0 <= i < k + 1 implies is_index(
                    (#[trigger] entries.take(k + 1)[i]).0,
                ) by {
                    if i < k {
                        assert(entries.take(k)[i] == entries.take(k + 1)[i]);
                    }
                }
            } else if indexed {
                assert(!is_index(entries.take(k + 1)[k].0));
            } else if source.len() > 0 {
                let bad = choose|i: int|
                    0 <= i < entries.take(k).len() && !is_index((#[trigger] entries.take(k)[i]).0);
                assert(entries.take(k + 1)[bad] == entries.take(k)[bad]);
            }
        }
        indexed = indexed && is_index_key;
    }
    assert(entries.take(source.len() as int) =~= entries);
    if indexed {
        let ghost keyed = inner@;
        let mut values: Vec<Value> = Vec::new();
        for entry in it: inner
            invariant
                it.seq() == keyed,
                values.len() == it.index(),
                forall|j: int| 0 <= j < it.index() ==> (#[trigger] values@[j])@ == keyed[j].1@,
        {
            values.push(entry.1);
        }
        proof {
            lemma_entries_view(keyed);
            lemma_items_view(values@);
            assert(items_view(values@) =~= entry_values(entries_view(keyed)));
        }
        Value::Array(values)
    } else {
        Value::Object(inner)
    }
}

/// Groups each item of an array.
pub fn group_numeric_arrays_in_array(arr: Vec<Value>) -> (grouped: Value)
    ensures
        grouped@ == group(Json::Array(items_view(arr@))),
    decreases arr,
{
    let ghost source = arr@;
    let ghost items = items_view(source);
    let mut inner: Vec<Value> = Vec::new();
    proof {
        lemma_items_view(source);
    }
    for item in it: arr
        invariant
            it.seq() == source,
            items == items_view(source),
            items.len() == source.len(),
            forall|j: int| 0 <= j < source.len() ==> decreases_to!(arr => #[trigger] source[j]),
            items_view(inner@) == group_items(items.take(it.index() as int)),
    {
        let ghost k = it.index() as int;
        proof {
            lemma_items_view(source);
            assert(items.take(k + 1).drop_last() =~= items.take(k));
            assert(items.take(k + 1).last() == items[k]);
        }
        let child = group_numeric_arrays(item);
        let ghost before = inner@;
        inner.push(child);
        proof {
            lemma_items_view(inner@);
            lemma_items_view(before);
            assert(items_view(inner@) =~= items_view(before).push(child@));
        }
    }
    assert(items.take(source.len() as int) =~= items);
    Value::Array(inner)
}

/// Grouping a well-formed document gives a well-formed document.
pub proof fn lemma_group_well_formed(v: Json)
    requires
        v.well_formed(),
    ensures
        group(v).well_formed(),
    decreases v,
{
    match v {
        Json::Object(entries) => {
            let inner = group_entries(entries);
            lemma_group_entries(entries);
            assert forall|i: int| 0 <= i < inner.len() implies
                (#[trigger] inner[i]).1.well_formed() by {
                assert(entries[i].1.well_formed());
                lemma_group_well_formed(entries[i].1);
            }
            assert(distinct_keys(inner)) by {
                assert forall|i: int, j: int| 0 <= i < j < inner.len() implies
                    (#[trigger] inner[i]).0 != (#[trigger] inner[j]).0 by {
                    assert(entries[i].0 != entries[j].0);
                }
            }
            let values = entry_values(inner);
            assert forall|i: int| 0 <= i < values.len() implies
                (#[trigger] values[i]).well_formed() by {
                assert(inner[i].1.well_formed());
            }
        },
        Json::Array(items) => {
            let inner = group_items(items);
            lemma_group_items(items);
            assert forall|i: int| 0 <= i < inner.len() implies
                (#[trigger] inner[i]).well_formed() by {
                assert(items[i].well_formed());
                lemma_group_well_formed(items[i]);
            }
        },
        _ => {},
    }
}

} // verus!
