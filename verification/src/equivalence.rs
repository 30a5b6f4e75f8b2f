//! Comparing documents without regard to the order of object entries.
use crate::value::{
    distinct_keys, entries_view, find_key, float_bits_zero, items_view, key_position,
    lemma_entries_view, lemma_items_view, lemma_key_position, lookup, Json, Number, Value,
    FLOAT_MAGNITUDE_MASK,
};
use vstd::prelude::*;
use vstd::set_lib::lemma_subset_equality;

verus! {

/// Whether two numbers are the same number: alike in kind and value, where
/// the two zeros of floating-point numbers count as one value.
pub open spec fn same_number(a: Number, b: Number) -> bool {
    match (a, b) {
        (Number::Float(x), Number::Float(y)) => x == y || (float_bits_zero(x) && float_bits_zero(
            y,
        )),
        _ => a == b,
    }
}

/// Whether two documents say the same: alike variant by variant, arrays item
/// by item in order, objects key by key whatever the order of their
/// entries.
pub open spec fn equivalent(a: Json, b: Json) -> bool
    decreases a,
{
    match (a, b) {
        (Json::Null, Json::Null) => true,
        (Json::Bool(x), Json::Bool(y)) => x == y,
        (Json::Number(x), Json::Number(y)) => same_number(x, y),
        (Json::String(x), Json::String(y)) => x == y,
        (Json::Array(x), Json::Array(y)) => {
            &&& x.len() == y.len()
            &&& forall|i: int| 0 <= i < x.len() ==> equivalent(#[trigger] x[i], y[i])
        },
        (Json::Object(x), Json::Object(y)) => {
            &&& x.len() == y.len()
            &&& forall|i: int| 0 <= i < x.len() ==> held_alike(#[trigger] x[i], y)
        },
        _ => false,
    }
}

/// Whether the entries hold, under the key of `entry`, a value that says
/// the same as the value of `entry`.
pub open spec fn held_alike(entry: (Seq<char>, Json), entries: Seq<(Seq<char>, Json)>) -> bool
    decreases entry,
{
    match lookup(entries, entry.0) {
        Some(v) => equivalent(entry.1, v),
        None => false,
    }
}

/// The keys of the entries, in order.
pub open spec fn keys(entries: Seq<(Seq<char>, Json)>) -> Seq<Seq<char>> {
    Seq::new(entries.len(), |i: int| entries[i].0)
}

/// The position at which `lookup` finds the key.
pub open spec fn lookup_position(entries: Seq<(Seq<char>, Json)>, key: Seq<char>) -> int
    recommends
        lookup(entries, key) is Some,
{
    key_position(entries, key).unwrap()
}

/// A well-formed document says the same as itself.
pub proof fn lemma_equivalent_reflexive(a: Json)
    requires
        a.well_formed(),
    ensures
        equivalent(a, a),
    decreases a,
{
    match a {
        Json::Array(x) => {
            assert forall|i: int| 0 <= i < x.len() implies equivalent(#[trigger] x[i], x[i]) by {
                lemma_equivalent_reflexive(x[i]);
            }
        },
        Json::Object(x) => {
            assert forall|i: int| 0 <= i < x.len() implies held_alike(#[trigger] x[i], x) by {
                lemma_key_position(x, x[i].0);
                lemma_equivalent_reflexive(x[i].1);
            }
        },
        _ => {},
    }
}

/// Two lists of entries of equal length, with no key twice in either: where
/// every key of the first is a key of the second, every key of the second
/// is a key of the first.
proof fn lemma_same_keys(x: Seq<(Seq<char>, Json)>, y: Seq<(Seq<char>, Json)>)
    requires
        distinct_keys(x),
        distinct_keys(y),
        x.len() == y.len(),
        forall|i: int| 0 <= i < x.len() ==> lookup(y, (#[trigger] x[i]).0) is Some,
    ensures
        forall|j: int| 0 <= j < y.len() ==> lookup(x, (#[trigger] y[j]).0) is Some,
{
    let kx = keys(x);
    let ky = keys(y);
    assert(kx.no_duplicates()) by {
        assert forall|i: int, j: int| 0 <= i < kx.len() && 0 <= j < kx.len() && i != j implies kx[i]
            != kx[j] by {
            if i < j {
                assert(x[i].0 != x[j].0);
            } else {
                assert(x[j].0 != x[i].0);
            }
        }
    }
    assert(ky.no_duplicates()) by {
        assert forall|i: int, j: int| 0 <= i < ky.len() && 0 <= j < ky.len() && i != j implies ky[i]
            != ky[j] by {
            if i < j {
                assert(y[i].0 != y[j].0);
            } else {
                assert(y[j].0 != y[i].0);
            }
        }
    }
    kx.unique_seq_to_set();
    ky.unique_seq_to_set();
    assert(kx.to_set().subset_of(ky.to_set())) by {
        assert forall|k: Seq<char>| kx.to_set().contains(k) implies ky.to_set().contains(k) by {
            let i = choose|i: int| 0 <= i < kx.len() && kx[i] == k;
            assert(lookup(y, x[i].0) is Some);
            lemma_key_position(y, k);
            let at = lookup_position(y, k);
            assert(ky[at] == k);
        }
    }
    lemma_subset_equality(kx.to_set(), ky.to_set());
    assert forall|j: int| 0 <= j < y.len() implies lookup(x, (#[trigger] y[j]).0) is Some by {
        let k = y[j].0;
        assert(ky[j] == k);
        assert(ky.to_set().contains(k));
        assert(kx.to_set().contains(k));
        let i = choose|i: int| 0 <= i < kx.len() && kx[i] == k;
        assert(x[i].0 == k);
        lemma_key_position(x, k);
    }
}

/// Of two well-formed documents, the second says the same as the first
/// where the first says the same as the second.
pub proof fn lemma_equivalent_symmetric(a: Json, b: Json)
    requires
        a.well_formed(),
        b.well_formed(),
        equivalent(a, b),
    ensures
        equivalent(b, a),
    decreases a,
{
    match (a, b) {
        (Json::Array(x), Json::Array(y)) => {
            assert forall|i: int| 0 <= i < y.len() implies equivalent(#[trigger] y[i], x[i]) by {
                assert(equivalent(x[i], y[i]));
                lemma_equivalent_symmetric(x[i], y[i]);
            }
        },
        (Json::Object(x), Json::Object(y)) => {
            assert forall|i: int| 0 <= i < x.len() implies
                lookup(y, (#[trigger] x[i]).0) is Some by {
                assert(held_alike(x[i], y));
            }
            lemma_same_keys(x, y);
            assert forall|j: int| 0 <= j < y.len() implies held_alike(#[trigger] y[j], x) by {
                let k = y[j].0;
                lemma_key_position(x, k);
                lemma_key_position(y, k);
                let i = lookup_position(x, k);
                assert(held_alike(x[i], y));
                assert(lookup_position(y, k) == j);
                lemma_equivalent_symmetric(x[i].1, y[j].1);
            }
        },
        _ => {},
    }
}

/// Where a first document says the same as a second, and the second the
/// same as a third, the first says the same as the third.
pub proof fn lemma_equivalent_transitive(a: Json, b: Json, c: Json)
    requires
        equivalent(a, b),
        equivalent(b, c),
    ensures
        equivalent(a, c),
    decreases a,
{
    match (a, b, c) {
        (Json::Array(x), Json::Array(y), Json::Array(z)) => {
            assert forall|i: int| 0 <= i < x.len() implies equivalent(#[trigger] x[i], z[i]) by {
                assert(equivalent(x[i], y[i]));
                assert(equivalent(y[i], z[i]));
                lemma_equivalent_transitive(x[i], y[i], z[i]);
            }
        },
        (Json::Object(x), Json::Object(y), Json::Object(z)) => {
            assert forall|i: int| 0 <= i < x.len() implies held_alike(#[trigger] x[i], z) by {
                let k = x[i].0;
                assert(held_alike(x[i], y));
                lemma_key_position(y, k);
                let j = lookup_position(y, k);
                assert(held_alike(y[j], z));
                lemma_equivalent_transitive(x[i].1, y[j].1, lookup(z, k).unwrap());
            }
        },
        _ => {},
    }
}

/// Whether two numbers are the same number.
pub fn numbers_alike(a: &Number, b: &Number) -> (alike: bool)
    ensures
        alike == same_number(*a, *b),
{
    match (a, b) {
        (Number::PosInt(x), Number::PosInt(y)) => *x == *y,
        (Number::NegInt(x), Number::NegInt(y)) => *x == *y,
        (Number::Float(x), Number::Float(y)) => *x == *y || (*x & FLOAT_MAGNITUDE_MASK == 0 && *y
            & FLOAT_MAGNITUDE_MASK == 0),
        _ => false,
    }
}

/// Whether two values say the same: alike variant by variant, arrays item by
/// item in order, objects key by key whatever the order of their entries.
pub fn same_document(a: &Value, b: &Value) -> (same: bool)
    ensures
        same == equivalent(a@, b@),
    decreases a,
{
    match (a, b) {
        (Value::Null, Value::Null) => true,
        (Value::Bool(x), Value::Bool(y)) => *x == *y,
        (Value::Number(x), Value::Number(y)) => numbers_alike(x, y),
        (Value::String(x), Value::String(y)) => *x == *y,
        (Value::Array(x), Value::Array(y)) => {
            proof {
                lemma_items_view(x@);
                lemma_items_view(y@);
            }
            if x.len() != y.len() {
                return false;
            }
            let mut at: usize = 0;
            while at < x.len()
                invariant
                    at <= x.len(),
                    x.len() == y.len(),
                    a@ == Json::Array(items_view(x@)),
                    b@ == Json::Array(items_view(y@)),
                    forall|j: int| 0 <= j < x.len() ==> decreases_to!(a => #[trigger] x@[j]),
                    forall|j: int|
                        0 <= j < at ==> equivalent(
                            #[trigger] items_view(x@)[j],
                            items_view(y@)[j],
                        ),
                decreases x.len() - at,
            {
                proof {
                    lemma_items_view(x@);
                    lemma_items_view(y@);
                }
                if !same_document(&x[at], &y[at]) {
                    assert(!equivalent(items_view(x@)[at as int], items_view(y@)[at as int]));
                    return false;
                }
                at = at + 1;
            }
            true
        },
        (Value::Object(x), Value::Object(y)) => {
            proof {
                lemma_entries_view(x@);
                lemma_entries_view(y@);
            }
            if x.len() != y.len() {
                return false;
            }
            let mut at: usize = 0;
            while at < x.len()
                invariant
                    at <= x.len(),
                    x.len() == y.len(),
                    a@ == Json::Object(entries_view(x@)),
                    b@ == Json::Object(entries_view(y@)),
                    forall|j: int| 0 <= j < x.len() ==> decreases_to!(a => (#[trigger] x@[j]).1),
                    forall|j: int|
                        0 <= j < at ==> held_alike(
                            #[trigger] entries_view(x@)[j],
                            entries_view(y@),
                        ),
                decreases x.len() - at,
            {
                proof {
                    lemma_entries_view(x@);
                    lemma_entries_view(y@);
                    lemma_key_position(entries_view(y@), x@[at as int].0@);
                }
                let alike = match find_key(y, &x[at].0) {
                    Some(found) => same_document(&x[at].1, &y[found].1),
                    None => false,
                };
                if !alike {
                    assert(!held_alike(entries_view(x@)[at as int], entries_view(y@)));
                    return false;
                }
                at = at + 1;
            }
            true
        },
        _ => false,
    }
}

} // verus!
