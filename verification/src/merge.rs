//! Merging two values that land on the same key path.
use crate::value::{
    distinct_keys, entries_view, find_key, items_view, key_position, lemma_entries_view,
    lemma_items_view, lemma_key_position, Json, Value,
};
use vstd::multiset::Multiset;
use vstd::prelude::*;

verus! {

/// The merge of two documents that land on the same key path.
///
/// Two objects are merged key by key; two arrays are concatenated; an array
/// and anything else give the array with the other value appended; two other
/// values give the array of the two.
pub open spec fn merge(a: Json, b: Json) -> Json
    decreases b, 0int,
{
    match (a, b) {
        (Json::Object(x), Json::Object(y)) => Json::Object(merge_entries(x, y)),
        (Json::Array(x), Json::Array(y)) => Json::Array(x + y),
        (Json::Array(x), _) => Json::Array(x.push(b)),
        (_, Json::Array(y)) => Json::Array(y.push(a)),
        _ => Json::Array(seq![a, b]),
    }
}

/// The entries of `x` after each entry of `y`, in order, was put in.
pub open spec fn merge_entries(
    x: Seq<(Seq<char>, Json)>,
    y: Seq<(Seq<char>, Json)>,
) -> Seq<(Seq<char>, Json)>
    decreases y, 0int,
{
    if y.len() == 0 {
        x
    } else {
        upsert(merge_entries(x, y.drop_last()), y.last().0, y.last().1)
    }
}

/// Insert-or-merge: where no entry has the key, the entry is appended; else
/// the first entry with the key holds the merge of its value and the new one.
pub open spec fn upsert(entries: Seq<(Seq<char>, Json)>, key: Seq<char>, value: Json) -> Seq<
    (Seq<char>, Json),
>
    decreases value, 1int,
{
    match key_position(entries, key) {
        None => entries.push((key, value)),
        Some(at) => entries.update(at, (key, merge(entries[at].1, value))),
    }
}

/// The value to store under a key: the new value where the key was vacant,
/// else the merge of what was there and the new value.
pub open spec fn upsert_value(existing: Option<Json>, data: Json) -> Json {
    match existing {
        None => data,
        Some(before) => merge(before, data),
    }
}

/// Puts an entry into the entries of an object under construction:
/// appended where the key is new, merged into the first entry with that key
/// where it is not.
pub fn upsert_entry(entries: &mut Vec<(String, Value)>, key: String, value: Value)
    ensures
        entries_view(final(entries)@) == upsert(entries_view(old(entries)@), key@, value@),
        distinct_keys(entries_view(old(entries)@)) ==> distinct_keys(entries_view(final(entries)@)),
    decreases value, 2int,
{
    broadcast use {lemma_entries_view, lemma_items_view};

    proof {
        lemma_key_position(entries_view(entries@), key@);
        if distinct_keys(entries_view(entries@)) {
            lemma_upsert_keeps_keys_distinct(entries_view(entries@), key@, value@);
        }
    }
    match find_key(entries, &key) {
        None => {
            let prepared = prepare_upsert(None, value);
            entries.push((key, prepared));
            assert(entries_view(entries@) =~= entries_view(old(entries)@).push((key@, value@)));
        },
        Some(at) => {
            let (_, before) = entries.remove(at);
            let prepared = prepare_upsert(Some(before), value);
            entries.insert(at, (key, prepared));
            assert(entries_view(entries@) =~= entries_view(old(entries)@).update(
                at as int,
                (key@, prepared@),
            ));
        },
    }
}

/// The value to store under a key, given what the key held before: the new
/// value where it was vacant, else the merge of the old and the new value.
pub fn prepare_upsert(existing: Option<Value>, data: Value) -> (prepared: Value)
    ensures
        prepared@ == upsert_value(
            match existing {
                Some(before) => Some(before@),
                None => None,
            },
            data@,
        ),
    decreases data, 1int,
{
    match existing {
        None => data,
        Some(before) => merge_values(before, data),
    }
}

/// Merges two values that land on the same key path; `v1` is the one that was
/// there first.
pub fn merge_values(v1: Value, v2: Value) -> (merged: Value)
    ensures
        merged@ == merge(v1@, v2@),
        v1@.well_formed() && v2@.well_formed() ==> merged@.well_formed(),
    decreases v2, 0int,
{
    broadcast use {lemma_entries_view, lemma_items_view};

    proof {
        if v1@.well_formed() && v2@.well_formed() {
            lemma_merge_well_formed(v1@, v2@);
        }
    }
    match v1 {
        Value::Object(mut o1) => match v2 {
            Value::Object(o2) => {
                let ghost x = entries_view(o1@);
                let ghost y = entries_view(o2@);
                let ghost entries2 = o2@;
                assert(y.take(0) =~= Seq::empty());
                for entry in it: o2
                    invariant
                        it.seq() == entries2,
                        y == entries_view(entries2),
                        forall|j: int|
                            0 <= j < entries2.len() ==>
                                decreases_to!(v2 => (#[trigger] entries2[j]).1),
                        entries_view(o1@) == merge_entries(x, y.take(it.index() as int)),
                {
                    let ghost k = it.index() as int;
                    proof {
                        lemma_entries_view(entries2);
                    }
                    assert(y.take(k + 1).drop_last() =~= y.take(k));
                    assert(y.take(k + 1).last() == (entry.0@, entry.1@));
                    upsert_entry(&mut o1, entry.0, entry.1);
                }
                assert(y.take(y.len() as int) =~= y);
                Value::Object(o1)
            },
            Value::Array(mut a2) => {
                let ghost before = items_view(a2@);
                a2.push(Value::Object(o1));
                assert(items_view(a2@) =~= before.push(v1@));
                Value::Array(a2)
            },
            other => {
                let mut both: Vec<Value> = Vec::new();
                both.push(Value::Object(o1));
                both.push(other);
                assert(items_view(both@) =~= seq![v1@, v2@]);
                Value::Array(both)
            },
        },
        Value::Array(mut a1) => match v2 {
            Value::Array(mut a2) => {
                let ghost x = items_view(a1@);
                let ghost y = items_view(a2@);
                a1.append(&mut a2);
                assert(items_view(a1@) =~= x + y);
                Value::Array(a1)
            },
            other => {
                let ghost x = items_view(a1@);
                a1.push(other);
                assert(items_view(a1@) =~= x.push(v2@));
                Value::Array(a1)
            },
        },
        first => match v2 {
            Value::Array(mut a2) => {
                let ghost y = items_view(a2@);
                a2.push(first);
                assert(items_view(a2@) =~= y.push(v1@));
                Value::Array(a2)
            },
            other => {
                let mut both: Vec<Value> = Vec::new();
                both.push(first);
                both.push(other);
                assert(items_view(both@) =~= seq![v1@, v2@]);
                Value::Array(both)
            },
        },
    }
}

/// The values merged into `first` one after the other, from left to right.
pub open spec fn merge_all(first: Json, rest: Seq<Json>) -> Json
    decreases rest.len(),
{
    if rest.len() == 0 {
        first
    } else {
        merge(merge_all(first, rest.drop_last()), rest.last())
    }
}

/// The scalars that occur in a document, each as often as it occurs.
pub open spec fn leaves(v: Json) -> Multiset<Json>
    decreases v,
{
    match v {
        Json::Array(items) => leaves_of_items(items),
        Json::Object(entries) => leaves_of_entries(entries),
        _ => Multiset::singleton(v),
    }
}

/// The scalars that occur in a sequence of documents.
pub open spec fn leaves_of_items(items: Seq<Json>) -> Multiset<Json>
    decreases items,
{
    if items.len() == 0 {
        Multiset::empty()
    } else {
        leaves_of_items(items.drop_last()).add(leaves(items.last()))
    }
}

/// The scalars that occur in the values of a sequence of entries.
pub open spec fn leaves_of_entries(entries: Seq<(Seq<char>, Json)>) -> Multiset<Json>
    decreases entries,
{
    if entries.len() == 0 {
        Multiset::empty()
    } else {
        leaves_of_entries(entries.drop_last()).add(leaves(entries.last().1))
    }
}

proof fn lemma_leaves_push(items: Seq<Json>, v: Json)
    ensures
        leaves_of_items(items.push(v)) == leaves_of_items(items).add(leaves(v)),
{
    assert(items.push(v).drop_last() =~= items);
}

proof fn lemma_leaves_concat(x: Seq<Json>, y: Seq<Json>)
    ensures
        leaves_of_items(x + y) == leaves_of_items(x).add(leaves_of_items(y)),
    decreases y.len(),
{
    if y.len() == 0 {
        assert(x + y =~= x);
        assert(leaves_of_items(x).add(Multiset::empty()) =~= leaves_of_items(x));
    } else {
        lemma_leaves_concat(x, y.drop_last());
        assert((x + y).drop_last() =~= x + y.drop_last());
        assert(leaves_of_items(x).add(leaves_of_items(y.drop_last())).add(leaves(y.last()))
            =~= leaves_of_items(x).add(leaves_of_items(y.drop_last()).add(leaves(y.last()))));
    }
}

proof fn lemma_leaves_entry_push(entries: Seq<(Seq<char>, Json)>, key: Seq<char>, v: Json)
    ensures
        leaves_of_entries(entries.push((key, v))) == leaves_of_entries(entries).add(leaves(v)),
{
    assert(entries.push((key, v)).drop_last() =~= entries);
}

proof fn lemma_leaves_entry_update(
    entries: Seq<(Seq<char>, Json)>,
    at: int,
    key: Seq<char>,
    v: Json,
    extra: Multiset<Json>,
)
    requires
        0 <= at < entries.len(),
        leaves(v) == leaves(entries[at].1).add(extra),
    ensures
        leaves_of_entries(entries.update(at, (key, v))) == leaves_of_entries(entries).add(extra),
    decreases entries.len(),
{
    let updated = entries.update(at, (key, v));
    if at == entries.len() - 1 {
        assert(updated.drop_last() =~= entries.drop_last());
        assert(leaves_of_entries(entries.drop_last()).add(leaves(entries[at].1).add(extra))
            =~= leaves_of_entries(entries.drop_last()).add(leaves(entries[at].1)).add(extra));
    } else {
        lemma_leaves_entry_update(entries.drop_last(), at, key, v, extra);
        assert(updated.drop_last() =~= entries.drop_last().update(at, (key, v)));
        assert(leaves_of_entries(entries.drop_last()).add(extra).add(leaves(entries.last().1))
            =~= leaves_of_entries(entries.drop_last()).add(leaves(entries.last().1)).add(extra));
    }
}

/// Merging loses and invents nothing: the scalars of a merge are those of
/// its two operands together.
pub proof fn lemma_merge_keeps_leaves(a: Json, b: Json)
    ensures
        leaves(merge(a, b)) == leaves(a).add(leaves(b)),
    decreases b, 0int,
{
    match (a, b) {
        (Json::Object(x), Json::Object(y)) => {
            lemma_merge_entries_keeps_leaves(x, y);
        },
        (Json::Array(x), Json::Array(y)) => {
            lemma_leaves_concat(x, y);
        },
        (Json::Array(x), _) => {
            lemma_leaves_push(x, b);
        },
        (_, Json::Array(y)) => {
            lemma_leaves_push(y, a);
            assert(leaves(b).add(leaves(a)) =~= leaves(a).add(leaves(b)));
        },
        _ => {
            let none = Seq::<Json>::empty();
            lemma_leaves_push(none, a);
            lemma_leaves_push(none.push(a), b);
            assert(none.push(a).push(b) =~= seq![a, b]);
            assert(leaves_of_items(none) =~= Multiset::empty());
            assert(Multiset::<Json>::empty().add(leaves(a)) =~= leaves(a));
        },
    }
}

proof fn lemma_merge_entries_keeps_leaves(x: Seq<(Seq<char>, Json)>, y: Seq<(Seq<char>, Json)>)
    ensures
        leaves_of_entries(merge_entries(x, y)) == leaves_of_entries(x).add(leaves_of_entries(y)),
    decreases y, 0int,
{
    if y.len() == 0 {
        assert(leaves_of_entries(x).add(Multiset::empty()) =~= leaves_of_entries(x));
    } else {
        lemma_merge_entries_keeps_leaves(x, y.drop_last());
        lemma_upsert_keeps_leaves(merge_entries(x, y.drop_last()), y.last().0, y.last().1);
        assert(leaves_of_entries(x).add(leaves_of_entries(y.drop_last())).add(leaves(y.last().1))
            =~= leaves_of_entries(x).add(leaves_of_entries(y.drop_last()).add(leaves(y.last().1))));
    }
}

proof fn lemma_upsert_keeps_leaves(entries: Seq<(Seq<char>, Json)>, key: Seq<char>, value: Json)
    ensures
        leaves_of_entries(upsert(entries, key, value)) == leaves_of_entries(entries).add(
            leaves(value),
        ),
    decreases value, 1int,
{
    lemma_key_position(entries, key);
    match key_position(entries, key) {
        None => {
            lemma_leaves_entry_push(entries, key, value);
        },
        Some(at) => {
            lemma_merge_keeps_leaves(entries[at].1, value);
            lemma_leaves_entry_update(
                entries,
                at,
                key,
                merge(entries[at].1, value),
                leaves(value),
            );
        },
    }
}

/// Merging in either order gives the same scalars, each as often; only their
/// order may differ.
pub proof fn lemma_merge_order_keeps_leaves(a: Json, b: Json)
    ensures
        leaves(merge(a, b)) == leaves(merge(b, a)),
{
    lemma_merge_keeps_leaves(a, b);
    lemma_merge_keeps_leaves(b, a);
    assert(leaves(a).add(leaves(b)) =~= leaves(b).add(leaves(a)));
}

/// Merging is associative up to order: however three values are grouped,
/// the merge holds the same scalars, each as often.
pub proof fn lemma_merge_grouping_keeps_leaves(a: Json, b: Json, c: Json)
    ensures
        leaves(merge(merge(a, b), c)) == leaves(merge(a, merge(b, c))),
{
    lemma_merge_keeps_leaves(a, b);
    lemma_merge_keeps_leaves(merge(a, b), c);
    lemma_merge_keeps_leaves(b, c);
    lemma_merge_keeps_leaves(a, merge(b, c));
    assert(leaves(a).add(leaves(b)).add(leaves(c)) =~= leaves(a).add(leaves(b).add(leaves(c))));
}

/// Values that are merged into an array one after the other, none of them an
/// array itself, are appended to it in that order.
pub proof fn lemma_merge_all_appends(items: Seq<Json>, rest: Seq<Json>)
    requires
        forall|i: int| 0 <= i < rest.len() ==> !(rest[i] is Array),
    ensures
        merge_all(Json::Array(items), rest) == Json::Array(items + rest),
    decreases rest.len(),
{
    if rest.len() == 0 {
        assert(items + rest =~= items);
    } else {
        lemma_merge_all_appends(items, rest.drop_last());
        assert((items + rest.drop_last()).push(rest.last()) =~= items + rest);
    }
}

/// Values that are merged one after the other, from left to right, give the
/// array of them in that order, where none of them is an array and the
/// first two are not both objects.
pub proof fn lemma_merge_all_in_order(first: Json, rest: Seq<Json>)
    requires
        rest.len() >= 1,
        !(first is Array),
        forall|i: int| 0 <= i < rest.len() ==> !(rest[i] is Array),
        !(first is Object && rest[0] is Object),
    ensures
        merge_all(first, rest) == Json::Array(seq![first] + rest),
    decreases rest.len(),
{
    if rest.len() == 1 {
        assert(rest.drop_last() =~= Seq::<Json>::empty());
        assert(merge_all(first, rest.drop_last()) == first);
        assert(seq![first, rest.last()] =~= seq![first] + rest);
    } else {
        assert(rest.drop_last()[0] == rest[0]);
        lemma_merge_all_in_order(first, rest.drop_last());
        assert((seq![first] + rest.drop_last()).push(rest.last()) =~= seq![first] + rest);
    }
}

/// Three values merged from left to right give the array of the three in
/// that order, where none of them is an array and the first two are not both
/// objects.
pub proof fn lemma_merge_three_in_order(a: Json, b: Json, c: Json)
    requires
        !(a is Array),
        !(b is Array),
        !(c is Array),
        !(a is Object && b is Object),
    ensures
        merge(merge(a, b), c) == Json::Array(seq![a, b, c]),
{
    assert(seq![a, b].push(c) =~= seq![a, b, c]);
}

/// Putting an entry in keeps the keys distinct.
pub proof fn lemma_upsert_keeps_keys_distinct(
    entries: Seq<(Seq<char>, Json)>,
    key: Seq<char>,
    value: Json,
)
    requires
        distinct_keys(entries),
    ensures
        distinct_keys(upsert(entries, key, value)),
{
    lemma_key_position(entries, key);
}

/// Merging the entries of one object into those of another keeps the keys
/// distinct.
pub proof fn lemma_merge_entries_keeps_keys_distinct(
    x: Seq<(Seq<char>, Json)>,
    y: Seq<(Seq<char>, Json)>,
)
    requires
        distinct_keys(x),
    ensures
        distinct_keys(merge_entries(x, y)),
    decreases y.len(),
{
    if y.len() > 0 {
        lemma_merge_entries_keeps_keys_distinct(x, y.drop_last());
        lemma_upsert_keeps_keys_distinct(merge_entries(x, y.drop_last()), y.last().0, y.last().1);
    }
}

/// The merge of two well-formed documents is well-formed.
pub proof fn lemma_merge_well_formed(a: Json, b: Json)
    requires
        a.well_formed(),
        b.well_formed(),
    ensures
        merge(a, b).well_formed(),
    decreases b, 0int,
{
    match (a, b) {
        (Json::Object(x), Json::Object(y)) => {
            lemma_merge_entries_well_formed(x, y);
        },
        (Json::Array(x), Json::Array(y)) => {
            let all = x + y;
            assert forall|i: int| 0 <= i < all.len() implies (#[trigger] all[i]).well_formed() by {
                if i < x.len() {
                    assert(all[i] == x[i]);
                } else {
                    assert(all[i] == y[i - x.len()]);
                }
            }
        },
        (Json::Array(x), _) => {
            let all = x.push(b);
            assert forall|i: int| 0 <= i < all.len() implies (#[trigger] all[i]).well_formed() by {
                if i < x.len() {
                    assert(all[i] == x[i]);
                }
            }
        },
        (_, Json::Array(y)) => {
            let all = y.push(a);
            assert forall|i: int| 0 <= i < all.len() implies (#[trigger] all[i]).well_formed() by {
                if i < y.len() {
                    assert(all[i] == y[i]);
                }
            }
        },
        _ => {
            let all = seq![a, b];
            assert forall|i: int| 0 <= i < all.len() implies (#[trigger] all[i]).well_formed() by {}
        },
    }
}

proof fn lemma_merge_entries_well_formed(x: Seq<(Seq<char>, Json)>, y: Seq<(Seq<char>, Json)>)
    requires
        Json::Object(x).well_formed(),
        Json::Object(y).well_formed(),
    ensures
        Json::Object(merge_entries(x, y)).well_formed(),
    decreases y, 0int,
{
    if y.len() > 0 {
        let rest = y.drop_last();
        assert forall|i: int| 0 <= i < rest.len() implies (#[trigger] rest[i]).1.well_formed() by {
            assert(rest[i] == y[i]);
        }
        assert(distinct_keys(rest)) by {
            assert forall|i: int, j: int| 0 <= i < j < rest.len() implies
                (#[trigger] rest[i]).0 != (#[trigger] rest[j]).0 by {
                assert(rest[i] == y[i] && rest[j] == y[j]);
            }
        }
        lemma_merge_entries_well_formed(x, rest);
        assert(y.last() == y[y.len() - 1]);
        lemma_upsert_well_formed(merge_entries(x, rest), y.last().0, y.last().1);
    }
}

/// Putting a well-formed value into the entries of a well-formed object
/// gives the entries of a well-formed object.
pub proof fn lemma_upsert_well_formed(entries: Seq<(Seq<char>, Json)>, key: Seq<char>, value: Json)
    requires
        Json::Object(entries).well_formed(),
        value.well_formed(),
    ensures
        Json::Object(upsert(entries, key, value)).well_formed(),
    decreases value, 1int,
{
    lemma_key_position(entries, key);
    lemma_upsert_keeps_keys_distinct(entries, key, value);
    let out = upsert(entries, key, value);
    match key_position(entries, key) {
        None => {
            assert forall|i: int| 0 <= i < out.len() implies
                (#[trigger] out[i]).1.well_formed() by {
                if i < entries.len() {
                    assert(out[i] == entries[i]);
                }
            }
        },
        Some(at) => {
            assert(entries[at].1.well_formed());
            lemma_merge_well_formed(entries[at].1, value);
            assert forall|i: int| 0 <= i < out.len() implies
                (#[trigger] out[i]).1.well_formed() by {
                if i != at {
                    assert(out[i] == entries[i]);
                }
            }
        },
    }
}

} // verus!
