//! Folding rows into columns.
use crate::keypath::separator_view;
use crate::rows::names_view;
use crate::text::{
    comes_before, find, lemma_first_occurrence_from, lemma_precedes_irreflexive,
    lemma_precedes_total, lemma_precedes_transitive, precedes, prefix_before, to_chars,
};
use crate::value::{
    distinct_keys, entries_view, find_key, items_view, lemma_entries_view, lemma_items_view,
    lemma_key_position, lookup, Json, Value,
};
use vstd::pervasive::unreached;
use vstd::prelude::*;
use vstd::string::StrSliceExecFns;

verus! {

/// Each name comes before all that follow it: the names are in ascending
/// order and no name occurs twice.
pub open spec fn ascending(names: Seq<Seq<char>>) -> bool {
    forall|i: int, j: int| 0 <= i < j < names.len() ==> precedes(names[i], names[j])
}

/// The position of the first name from `from` on that does not come before
/// `name`; the number of names where there is none.
pub open spec fn slot_from(names: Seq<Seq<char>>, name: Seq<char>, from: int) -> int
    decreases names.len() - from,
{
    if from < 0 || from >= names.len() {
        names.len() as int
    } else if !precedes(names[from], name) {
        from
    } else {
        slot_from(names, name, from + 1)
    }
}

/// The names with `name` put in at its place in the order, unless it is
/// there already.
pub open spec fn with_name(names: Seq<Seq<char>>, name: Seq<char>) -> Seq<Seq<char>> {
    let at = slot_from(names, name, 0);
    if at < names.len() && names[at] == name {
        names
    } else {
        names.insert(at, name)
    }
}

/// The names in ascending order, each once.
pub open spec fn ascending_names(names: Seq<Seq<char>>) -> Seq<Seq<char>>
    decreases names.len(),
{
    if names.len() == 0 {
        Seq::empty()
    } else {
        with_name(ascending_names(names.drop_last()), names.last())
    }
}

/// Each header cut down to what stands before its first separator.
pub open spec fn prefixes(headers: Seq<Seq<char>>, separator: Seq<char>) -> Seq<Seq<char>> {
    Seq::new(headers.len(), |i: int| prefix_before(headers[i], separator))
}

/// The column names of the folded document. Without a separator these are
/// the headers as they are. With one, each header is cut down to what
/// stands before its first separator, and the results are put in ascending
/// order, each once.
pub open spec fn distilled(headers: Seq<Seq<char>>, separator: Option<Seq<char>>) -> Seq<
    Seq<char>,
> {
    match separator {
        None => headers,
        Some(s) => ascending_names(prefixes(headers, s)),
    }
}

/// The names without those that occurred before, in the order of their
/// first occurrence.
pub open spec fn first_occurrences(names: Seq<Seq<char>>) -> Seq<Seq<char>>
    decreases names.len(),
{
    if names.len() == 0 {
        Seq::empty()
    } else {
        let before = first_occurrences(names.drop_last());
        if before.contains(names.last()) {
            before
        } else {
            before.push(names.last())
        }
    }
}

/// What a row holds under a key: the value of its first entry with that key,
/// null where it has none.
pub open spec fn cell(row: Json, key: Seq<char>) -> Json {
    match row {
        Json::Object(entries) => match lookup(entries, key) {
            Some(v) => v,
            None => Json::Null,
        },
        _ => Json::Null,
    }
}

/// What each row holds under a key, in the order of the rows.
pub open spec fn column(rows: Seq<Json>, key: Seq<char>) -> Seq<Json> {
    Seq::new(rows.len(), |i: int| cell(rows[i], key))
}

/// The object that holds, under each key, the array of what each row holds
/// under it.
pub open spec fn columns(rows: Seq<Json>, keys: Seq<Seq<char>>) -> Json {
    Json::Object(Seq::new(keys.len(), |j: int| (keys[j], Json::Array(column(rows, keys[j])))))
}

/// The rows folded into columns: one key for each distilled header, and
/// under it the array of what each row holds under that key.
pub open spec fn folded(
    rows: Seq<Json>,
    headers: Seq<Seq<char>>,
    separator: Option<Seq<char>>,
) -> Json {
    columns(rows, first_occurrences(distilled(headers, separator)))
}

/// What `slot_from` returns: a position with only earlier names before it,
/// at which no name stands that comes before `name`.
pub proof fn lemma_slot_from(names: Seq<Seq<char>>, name: Seq<char>, from: int)
    requires
        0 <= from <= names.len(),
    ensures
        from <= slot_from(names, name, from) <= names.len(),
        forall|i: int| from <= i < slot_from(names, name, from) ==> precedes(names[i], name),
        slot_from(names, name, from) < names.len() ==> !precedes(
            names[slot_from(names, name, from)],
            name,
        ),
    decreases names.len() - from,
{
    if from < names.len() && precedes(names[from], name) {
        lemma_slot_from(names, name, from + 1);
    }
}

/// Putting a name into ascending names keeps them ascending, and adds that
/// name and no other.
pub proof fn lemma_with_name(names: Seq<Seq<char>>, name: Seq<char>)
    requires
        ascending(names),
    ensures
        ascending(with_name(names, name)),
        forall|x: Seq<char>|
            with_name(names, name).contains(x) <==> (names.contains(x) || x == name),
{
    let at = slot_from(names, name, 0);
    let out = with_name(names, name);
    lemma_slot_from(names, name, 0);
    if at < names.len() && names[at] == name {
        assert forall|x: Seq<char>| out.contains(x) <==> (names.contains(x) || x == name) by {
            if x == name {
                assert(names[at] == x);
            }
        }
    } else {
        assert forall|i: int, j: int| 0 <= i < j < out.len() implies precedes(out[i], out[j]) by {
            if j < at {
                assert(out[i] == names[i] && out[j] == names[j]);
            } else if j == at {
                assert(out[i] == names[i]);
            } else {
                assert(out[j] == names[j - 1]);
                lemma_precedes_total(name, names[at]);
                if j - 1 > at {
                    lemma_precedes_transitive(name, names[at], names[j - 1]);
                }
                if i < at {
                    assert(out[i] == names[i]);
                    lemma_precedes_transitive(names[i], name, names[j - 1]);
                } else if i == at {
                } else {
                    assert(out[i] == names[i - 1]);
                }
            }
        }
        assert forall|x: Seq<char>| out.contains(x) <==> (names.contains(x) || x == name) by {
            if out.contains(x) {
                let k = choose|k: int| 0 <= k < out.len() && out[k] == x;
                if k < at {
                    assert(names[k] == x);
                } else if k > at {
                    assert(names[k - 1] == x);
                }
            }
            if names.contains(x) {
                let k = choose|k: int| 0 <= k < names.len() && names[k] == x;
                if k < at {
                    assert(out[k] == x);
                } else {
                    assert(out[k + 1] == x);
                }
            }
            if x == name {
                assert(out[at] == x);
            }
        }
    }
}

/// The distilled names are in ascending order, each once, and they are the
/// names that went in.
pub proof fn lemma_ascending_names(names: Seq<Seq<char>>)
    ensures
        ascending(ascending_names(names)),
        forall|x: Seq<char>| ascending_names(names).contains(x) <==> names.contains(x),
    decreases names.len(),
{
    if names.len() > 0 {
        let rest = names.drop_last();
        lemma_ascending_names(rest);
        lemma_with_name(ascending_names(rest), names.last());
        assert forall|x: Seq<char>| ascending_names(names).contains(x) <==> names.contains(
            x,
        ) by {
            if names.contains(x) {
                let k = choose|k: int| 0 <= k < names.len() && names[k] == x;
                if k < rest.len() {
                    assert(rest[k] == x);
                }
            }
            if rest.contains(x) {
                let k = choose|k: int| 0 <= k < rest.len() && rest[k] == x;
                assert(names[k] == x);
            }
            if x == names.last() {
                assert(names[names.len() - 1] == x);
            }
        }
    }
}

/// In ascending names no name occurs twice.
pub proof fn lemma_ascending_has_no_repeats(names: Seq<Seq<char>>)
    requires
        ascending(names),
    ensures
        names.no_duplicates(),
{
    assert forall|i: int, j: int| 0 <= i < names.len() && 0 <= j < names.len() && i != j implies
        names[i]
        != names[j] by {
        lemma_precedes_irreflexive(names[i]);
        if i < j {
            assert(precedes(names[i], names[j]));
        } else {
            assert(precedes(names[j], names[i]));
        }
    }
}

/// `first_occurrences` keeps every name, each once.
pub proof fn lemma_first_occurrences(names: Seq<Seq<char>>)
    ensures
        first_occurrences(names).no_duplicates(),
        forall|x: Seq<char>| first_occurrences(names).contains(x) <==> names.contains(x),
    decreases names.len(),
{
    if names.len() > 0 {
        let rest = names.drop_last();
        let before = first_occurrences(rest);
        let out = first_occurrences(names);
        lemma_first_occurrences(rest);
        assert forall|x: Seq<char>| out.contains(x) <==> names.contains(x) by {
            if names.contains(x) {
                let k = choose|k: int| 0 <= k < names.len() && names[k] == x;
                if k < rest.len() {
                    assert(rest[k] == x);
                }
            }
            if rest.contains(x) {
                let k = choose|k: int| 0 <= k < rest.len() && rest[k] == x;
                assert(names[k] == x);
            }
            if x == names.last() {
                assert(names[names.len() - 1] == x);
            }
            if out.contains(x) && !before.contains(names.last()) {
                let k = choose|k: int| 0 <= k < out.len() && out[k] == x;
                if k < before.len() {
                    assert(before[k] == x);
                }
            }
            if before.contains(x) && !before.contains(names.last()) {
                let k = choose|k: int| 0 <= k < before.len() && before[k] == x;
                assert(out[k] == x);
            }
            if x == names.last() && !before.contains(names.last()) {
                assert(out[out.len() - 1] == x);
            }
        }
        if !before.contains(names.last()) {
            assert forall|i: int, j: int|
                0 <= i < out.len() && 0 <= j < out.len() && i != j implies out[i] != out[j] by {
                if i < before.len() {
                    assert(out[i] == before[i]);
                }
                if j < before.len() {
                    assert(out[j] == before[j]);
                }
            }
        }
    }
}

/// Names of which none occurs twice are their own first occurrences.
pub proof fn lemma_first_occurrences_of_distinct(names: Seq<Seq<char>>)
    requires
        names.no_duplicates(),
    ensures
        first_occurrences(names) == names,
    decreases names.len(),
{
    if names.len() > 0 {
        let rest = names.drop_last();
        lemma_first_occurrences_of_distinct(rest);
        if rest.contains(names.last()) {
            let k = choose|k: int| 0 <= k < rest.len() && rest[k] == names.last();
            assert(names[k] == names[names.len() - 1]);
        }
        assert(rest.push(names.last()) =~= names);
    }
}

/// Headers that were distilled along a separator are their own first
/// occurrences: none of them occurs twice.
pub proof fn lemma_distilled_names_are_distinct(headers: Seq<Seq<char>>, separator: Seq<char>)
    ensures
        distilled(headers, Some(separator)).no_duplicates(),
        first_occurrences(distilled(headers, Some(separator))) == distilled(
            headers,
            Some(separator),
        ),
{
    let names = distilled(headers, Some(separator));
    lemma_ascending_names(prefixes(headers, separator));
    lemma_ascending_has_no_repeats(names);
    lemma_first_occurrences_of_distinct(names);
}

/// The shape of a folded document. It has one entry for each distinct
/// distilled header, in the order of their first occurrence and no key
/// twice; where no distilled header occurs twice, which is so whenever
/// there is a separator, that is one entry for each distilled header, in
/// their order. Under each key stands an array with one item for each row,
/// in the order of the rows: what the row holds under the key, null where it
/// holds nothing.
pub proof fn lemma_fold_shape(
    rows: Seq<Json>,
    headers: Seq<Seq<char>>,
    separator: Option<Seq<char>>,
)
    ensures
        folded(rows, headers, separator) is Object,
        ({
            let keys = first_occurrences(distilled(headers, separator));
            let entries = folded(rows, headers, separator)->Object_0;
            &&& keys.no_duplicates()
            &&& forall|x: Seq<char>| keys.contains(x) <==> distilled(headers, separator).contains(x)
            &&& distilled(headers, separator).no_duplicates() ==> keys == distilled(
                headers,
                separator,
            )
            &&& separator is Some ==> keys == distilled(headers, separator)
            &&& entries.len() == keys.len()
            &&& distinct_keys(entries)
            &&& forall|j: int|
                0 <= j < entries.len() ==> {
                    &&& (#[trigger] entries[j]).0 == keys[j]
                    &&& entries[j].1 is Array
                    &&& entries[j].1->Array_0.len() == rows.len()
                    &&& forall|i: int|
                        0 <= i < rows.len() ==> (#[trigger] entries[j].1->Array_0[i]) == cell(
                            rows[i],
                            keys[j],
                        )
                }
        }),
{
    lemma_first_occurrences(distilled(headers, separator));
    if distilled(headers, separator).no_duplicates() {
        lemma_first_occurrences_of_distinct(distilled(headers, separator));
    }
    if separator is Some {
        lemma_distilled_names_are_distinct(headers, separator.unwrap());
    }
}

/// What stands in `header` before the first occurrence of the separator;
/// all of it where there is none.
pub fn header_prefix(header: &str, separator: &Vec<char>) -> (prefix: String)
    ensures
        prefix@ == prefix_before(header@, separator@),
{
    let chars = to_chars(header);
    proof {
        lemma_first_occurrence_from(header@, separator@, 0);
    }
    match find(&chars, separator) {
        None => header.to_owned(),
        Some(at) => header.substring_char(0, at).to_owned(),
    }
}

/// Puts a name into ascending names at its place in the order, unless it is
/// there already.
pub fn insert_name(names: &mut Vec<String>, name: String)
    ensures
        names_view(final(names)@) == with_name(names_view(old(names)@), name@),
{
    let ghost before = names_view(names@);
    let name_chars = to_chars(name.as_str());
    let mut at: usize = 0;
    let mut placed = false;
    while at < names.len() && !placed
        invariant
            at <= names.len(),
            names@ == old(names)@,
            name_chars@ == name@,
            before == names_view(names@),
            slot_from(before, name@, 0) == slot_from(before, name@, at as int),
            placed ==> at < names.len() && !precedes(before[at as int], name@),
        decreases names.len() - at + (if placed { 0int } else { 1int }),
    {
        let other = to_chars(names[at].as_str());
        assert(before[at as int] == other@);
        if comes_before(&other, &name_chars) {
            at = at + 1;
        } else {
            placed = true;
        }
    }
    assert(slot_from(before, name@, 0) == at);
    if at < names.len() && names[at] == name {
        assert(before[at as int] == name@);
    } else {
        assert(at < names.len() ==> before[at as int] != name@);
        names.insert(at, name);
        assert(names_view(names@) =~= before.insert(at as int, name@));
    }
}

/// The column names of the folded document. Without a separator these are
/// the headers as they are. With one, each header is cut down to what
/// stands before its first separator, and the results are put in ascending
/// order by code points, each once.
pub fn distill_headers(headers: &[String], ds: Option<&str>) -> (names: Vec<String>)
    ensures
        names_view(names@) == distilled(names_view(headers@), separator_view(ds)),
        ds is Some ==> ascending(names_view(names@)),
        ds matches Some(separator) ==> forall|x: Seq<char>|
            names_view(names@).contains(x) <==> prefixes(names_view(headers@), separator@).contains(
                x,
            ),
{
    let mut names: Vec<String> = Vec::new();
    match ds {
        Some(separator) => {
            let separator_chars = to_chars(separator);
            let ghost cut = prefixes(names_view(headers@), separator@);
            let mut at: usize = 0;
            assert(cut.take(0) =~= Seq::<Seq<char>>::empty());
            while at < headers.len()
                invariant
                    at <= headers.len(),
                    separator_chars@ == separator@,
                    cut == prefixes(names_view(headers@), separator@),
                    names_view(names@) == ascending_names(cut.take(at as int)),
                decreases headers.len() - at,
            {
                let prefix = header_prefix(headers[at].as_str(), &separator_chars);
                proof {
                    assert(cut.take(at + 1).drop_last() =~= cut.take(at as int));
                    assert(cut.take(at + 1).last() == prefix@);
                }
                insert_name(&mut names, prefix);
                at = at + 1;
            }
            proof {
                assert(cut.take(headers.len() as int) =~= cut);
                lemma_ascending_names(cut);
            }
        },
        None => {
            let mut at: usize = 0;
            while at < headers.len()
                invariant
                    at <= headers.len(),
                    names_view(names@) == names_view(headers@).take(at as int),
                decreases headers.len() - at,
            {
                let ghost before = names_view(names@);
                names.push(headers[at].clone());
                assert(names_view(names@) =~= before.push(headers@[at as int]@));
                at = at + 1;
                assert(names_view(names@) =~= names_view(headers@).take(at as int));
            }
            assert(names_view(headers@).take(headers.len() as int) =~= names_view(headers@));
        },
    }
    names
}

/// The names without those that occurred before.
pub fn keep_first_occurrences(names: Vec<String>) -> (kept: Vec<String>)
    ensures
        names_view(kept@) == first_occurrences(names_view(names@)),
{
    let ghost source = names@;
    let ghost all = names_view(source);
    let mut kept: Vec<String> = Vec::new();
    assert(all.take(0) =~= Seq::<Seq<char>>::empty());
    for name in it: names
        invariant
            it.seq() == source,
            all == names_view(source),
            names_view(kept@) == first_occurrences(all.take(it.index() as int)),
    {
        let ghost k = it.index() as int;
        proof {
            assert(all.take(k + 1).drop_last() =~= all.take(k));
            assert(all.take(k + 1).last() == name@);
        }
        if !crate::rows::is_listed(kept.as_slice(), &name) {
            let ghost before = names_view(kept@);
            kept.push(name);
            assert(names_view(kept@) =~= before.push(name@));
        }
    }
    assert(all.take(source.len() as int) =~= all);
    kept
}

/// What each row holds under a key, in the order of the rows.
pub fn collect_column(rows: &Vec<Value>, key: &String) -> (cells: Vec<Value>)
    ensures
        items_view(cells@) == column(items_view(rows@), key@),
{
    let mut cells: Vec<Value> = Vec::new();
    let mut at: usize = 0;
    while at < rows.len()
        invariant
            at <= rows.len(),
            cells.len() == at,
            forall|i: int| 0 <= i < at ==> (#[trigger] cells@[i])@ == cell(rows@[i]@, key@),
        decreases rows.len() - at,
    {
        let value = match &rows[at] {
            Value::Object(entries) => {
                proof {
                    lemma_entries_view(entries@);
                    lemma_key_position(entries_view(entries@), key@);
                }
                match find_key(entries, key) {
                    Some(found) => entries[found].1.clone(),
                    None => Value::Null,
                }
            },
            _ => Value::Null,
        };
        cells.push(value);
        at = at + 1;
    }
    proof {
        lemma_items_view(cells@);
        lemma_items_view(rows@);
        assert(items_view(cells@) =~= column(items_view(rows@), key@));
    }
    cells
}

/// Folds an array of row objects into one object of columns: for each
/// distilled header one key, and under it the array of what each row holds
/// under that key, in the order of the rows, with null for a row that holds
/// nothing under it.
pub fn fold(items: Value, headers: &[String], ds: Option<&str>) -> (root: Value)
    requires
        items@ is Array,
        forall|i: int| 0 <= i < items@->Array_0.len() ==> (#[trigger] items@->Array_0[i]) is Object,
    ensures
        root@ == folded(items@->Array_0, names_view(headers@), separator_view(ds)),
        items@.well_formed() ==> root@.well_formed(),
{
    proof {
        if items@.well_formed() {
            lemma_folded_well_formed(items@->Array_0, names_view(headers@), separator_view(ds));
        }
    }
    let keys = keep_first_occurrences(distill_headers(headers, ds));
    match items {
        Value::Array(rows) => {
            let ghost wanted = names_view(keys@);
            let mut root: Vec<(String, Value)> = Vec::new();
            let ghost source = keys@;
            for key in it: keys
                invariant
                    it.seq() == source,
                    wanted == names_view(source),
                    root.len() == it.index(),
                    forall|j: int|
                        0 <= j < it.index() ==> (#[trigger] root@[j]).0@ == wanted[j] && root@[j].1@
                            == Json::Array(column(items_view(rows@), wanted[j])),
            {
                let cells = collect_column(&rows, &key);
                root.push((key, Value::Array(cells)));
            }
            proof {
                lemma_entries_view(root@);
                assert(entries_view(root@) =~= columns(items_view(rows@), wanted)->Object_0);
            }
            Value::Object(root)
        },
        _ => unreached(),
    }
}

/// Folding well-formed rows gives a well-formed document.
pub proof fn lemma_folded_well_formed(
    rows: Seq<Json>,
    headers: Seq<Seq<char>>,
    separator: Option<Seq<char>>,
)
    requires
        forall|i: int| 0 <= i < rows.len() ==> (#[trigger] rows[i]).well_formed(),
    ensures
        folded(rows, headers, separator).well_formed(),
{
    lemma_fold_shape(rows, headers, separator);
    let keys = first_occurrences(distilled(headers, separator));
    let entries = folded(rows, headers, separator)->Object_0;
    assert forall|j: int| 0 <= j < entries.len() implies
        (#[trigger] entries[j]).1.well_formed() by {
        let cells = column(rows, keys[j]);
        assert forall|i: int| 0 <= i < cells.len() implies (#[trigger] cells[i]).well_formed() by {
            assert(rows[i].well_formed());
            match rows[i] {
                Json::Object(held) => {
                    lemma_key_position(held, keys[j]);
                },
                _ => {},
            }
        }
    }
}

} // verus!
