//! Building one document for each row, and shaping the collection of them.
use crate::group::{group, group_numeric_arrays};
use crate::keypath::{dimensional_converter, lemma_expand_well_formed, placed, separator_view};
use crate::merge::{
    lemma_upsert_keeps_keys_distinct, lemma_upsert_well_formed, upsert, upsert_entry,
};
use crate::prune::{prune_objects, prune_strings, remove_empty_objects, remove_empty_strings};
use crate::rows::{
    booleans_in, cell_rejected, columns_to_booleans, columns_to_numbers, names_view, numbers_in,
    row_to_values, text_cells, texts_view, ConversionError,
};
use crate::transpose::{fold, folded};
use crate::value::{
    distinct_keys, entries_view, items_view, lemma_entries_view, lemma_items_view,
    values_well_formed, Json, Value,
};
use vstd::prelude::*;

verus! {

/// The entries of the document that a row becomes: each cell, in the order
/// of the row, is expanded along the separator and put into the document,
/// merged with what its key held before.
pub open spec fn document_entries(
    row: Seq<(Seq<char>, Json)>,
    separator: Option<Seq<char>>,
) -> Seq<(Seq<char>, Json)>
    decreases row.len(),
{
    if row.len() == 0 {
        Seq::empty()
    } else {
        let entry = placed(row.last().0, row.last().1, separator);
        upsert(document_entries(row.drop_last(), separator), entry.0, entry.1)
    }
}

/// The document that a row becomes.
pub open spec fn document(row: Seq<(Seq<char>, Json)>, separator: Option<Seq<char>>) -> Json {
    Json::Object(document_entries(row, separator))
}

/// No key occurs twice in the document of a row.
pub proof fn lemma_document_keys_distinct(
    row: Seq<(Seq<char>, Json)>,
    separator: Option<Seq<char>>,
)
    ensures
        distinct_keys(document_entries(row, separator)),
    decreases row.len(),
{
    if row.len() > 0 {
        lemma_document_keys_distinct(row.drop_last(), separator);
        let entry = placed(row.last().0, row.last().1, separator);
        lemma_upsert_keeps_keys_distinct(
            document_entries(row.drop_last(), separator),
            entry.0,
            entry.1,
        );
    }
}

/// The document of a row of well-formed values is well-formed.
pub proof fn lemma_document_well_formed(row: Seq<(Seq<char>, Json)>, separator: Option<Seq<char>>)
    requires
        separator matches Some(s) ==> s.len() > 0,
        values_well_formed(row),
    ensures
        document(row, separator).well_formed(),
    decreases row.len(),
{
    if row.len() > 0 {
        let rest = row.drop_last();
        assert(values_well_formed(rest)) by {
            assert forall|i: int| 0 <= i < rest.len() implies
                (#[trigger] rest[i]).1.well_formed() by {
                assert(rest[i] == row[i]);
            }
        }
        lemma_document_well_formed(rest, separator);
        assert(row.last() == row[row.len() - 1]);
        let entry = placed(row.last().0, row.last().1, separator);
        if separator is Some {
            lemma_expand_well_formed(row.last().0, row.last().1, separator.unwrap());
        }
        lemma_upsert_well_formed(document_entries(rest, separator), entry.0, entry.1);
    } else {
        assert(distinct_keys(document_entries(row, separator)));
    }
}

/// Builds the document of a row: each cell, in the order of the row, is
/// expanded along the separator and put into the document; a cell whose key
/// is taken is merged with what is there.
pub fn row_to_document(row: Vec<(String, Value)>, ds: Option<&str>) -> (doc: Value)
    requires
        ds matches Some(separator) ==> separator@.len() > 0,
    ensures
        doc@ == document(entries_view(row@), separator_view(ds)),
        doc@ is Object,
        distinct_keys(doc@->Object_0),
        values_well_formed(entries_view(row@)) ==> doc@.well_formed(),
{
    let ghost source = row@;
    let ghost cells = entries_view(source);
    let ghost separator = separator_view(ds);
    let mut items: Vec<(String, Value)> = Vec::new();
    proof {
        lemma_entries_view(source);
        assert(cells.take(0) =~= Seq::<(Seq<char>, Json)>::empty());
    }
    for cell in it: row
        invariant
            it.seq() == source,
            cells == entries_view(source),
            cells.len() == source.len(),
            separator == separator_view(ds),
            ds matches Some(s) ==> s@.len() > 0,
            entries_view(items@) == document_entries(cells.take(it.index() as int), separator),
    {
        let ghost k = it.index() as int;
        proof {
            lemma_entries_view(source);
            assert(cells.take(k + 1).drop_last() =~= cells.take(k));
            assert(cells.take(k + 1).last() == cells[k]);
        }
        let (key, value) = dimensional_converter(cell.0.as_str(), &cell.1, ds);
        upsert_entry(&mut items, key, value);
    }
    proof {
        assert(cells.take(source.len() as int) =~= cells);
        lemma_document_keys_distinct(cells, separator);
        if values_well_formed(cells) {
            lemma_document_well_formed(cells, separator);
        }
    }
    Value::Object(items)
}

/// The typed row that a row of raw cells becomes: every text a string, then
/// the cells of the numeric columns numbers, then the cells of the boolean
/// columns booleans. `None` where a cell of a numeric column holds a text
/// that is not numeric.
pub open spec fn typed_row(
    row: Seq<(Seq<char>, Seq<char>)>,
    floats: Seq<Option<u64>>,
    numeric: Seq<Seq<char>>,
    boolean: Seq<Seq<char>>,
) -> Option<Seq<(Seq<char>, Json)>> {
    if exists|i: int| 0 <= i < row.len() && cell_rejected(numeric, text_cells(row), floats, i) {
        None
    } else {
        Some(booleans_in(boolean, numbers_in(numeric, text_cells(row), floats)))
    }
}

/// Types the cells of a row: every text becomes a string, then each cell of a
/// numeric column the number it stands for, then each cell of a boolean
/// column the boolean it stands for.
///
/// `floats` holds, for the cell at each position of the row, what its text
/// reads as a binary64 floating-point number, as a bit pattern, or `None`
/// where it is not the text of one; positions past its end read as `None`.
///
/// Fails on the first cell of a numeric column whose text is not numeric.
pub fn type_row(
    row: &Vec<(String, String)>,
    floats: &[Option<u64>],
    numeric: &[String],
    boolean: &[String],
) -> (r: Result<Vec<(String, Value)>, ConversionError>)
    ensures
        match r {
            Ok(typed) => typed_row(
                texts_view(row@),
                floats@,
                names_view(numeric@),
                names_view(boolean@),
            ) == Some(entries_view(typed@)) && values_well_formed(entries_view(typed@)),
            Err(e) => {
                &&& typed_row(
                    texts_view(row@),
                    floats@,
                    names_view(numeric@),
                    names_view(boolean@),
                ) is None
                &&& exists|i: int|
                    {
                        &&& 0 <= i < row@.len()
                        &&& cell_rejected(
                            names_view(numeric@),
                            text_cells(texts_view(row@)),
                            floats@,
                            i,
                        )
                        &&& forall|j: int|
                            0 <= j < i ==> !cell_rejected(
                                names_view(numeric@),
                                text_cells(texts_view(row@)),
                                floats@,
                                j,
                            )
                        &&& e.column@ == row@[i].0@
                        &&& e.text@ == row@[i].1@
                    }
            },
        },
{
    let values = row_to_values(row);
    proof {
        lemma_entries_view(values@);
    }
    match columns_to_numbers(numeric, values, floats) {
        Ok(numbers) => Ok(columns_to_booleans(boolean, numbers)),
        Err(e) => Err(e),
    }
}

/// The passes that shape the collection of documents, in the order in which
/// they run.
#[derive(Clone, Copy, Debug, PartialEq, Eq)]
pub struct Passes {
    /// Turn objects whose keys are all indices into arrays.
    pub arrays: bool,
    /// Drop empty strings.
    pub remove_empty_strings: bool,
    /// Drop empty objects.
    pub remove_empty_objects: bool,
    /// Fold the rows into columns.
    pub fold: bool,
}

/// The rows cannot be folded into columns: after the earlier passes, the
/// item at position `row` of the collection is not an object.
#[derive(Debug, PartialEq, Eq)]
pub struct NotFoldable {
    /// The position of the first item that is not an object.
    pub row: usize,
}

/// Every value of every row is well-formed.
pub open spec fn rows_well_formed(rows: Seq<Seq<(Seq<char>, Json)>>) -> bool {
    forall|i: int| 0 <= i < rows.len() ==> values_well_formed(#[trigger] rows[i])
}

/// The rows that a list of typed rows holds.
pub open spec fn rows_view(rows: Seq<Vec<(String, Value)>>) -> Seq<Seq<(Seq<char>, Json)>> {
    Seq::new(rows.len(), |i: int| entries_view(rows[i]@))
}

/// The array of the documents of the rows, in the order of the rows.
pub open spec fn documents(
    rows: Seq<Seq<(Seq<char>, Json)>>,
    separator: Option<Seq<char>>,
) -> Json {
    Json::Array(Seq::new(rows.len(), |i: int| document(rows[i], separator)))
}

/// The collection after the passes that come before the fold: grouping,
/// then the pruning of strings, then the pruning of objects, each where it
/// is switched on.
pub open spec fn reshaped(collection: Json, passes: Passes) -> Json {
    let grouped = if passes.arrays {
        group(collection)
    } else {
        collection
    };
    let without_strings = if passes.remove_empty_strings {
        prune_strings(grouped)
    } else {
        grouped
    };
    if passes.remove_empty_objects {
        prune_objects(without_strings)
    } else {
        without_strings
    }
}

/// The position of the first item from `from` on that is not an object.
pub open spec fn first_non_object_from(items: Seq<Json>, from: int) -> Option<int>
    decreases items.len() - from,
{
    if from < 0 || from >= items.len() {
        None
    } else if !(items[from] is Object) {
        Some(from)
    } else {
        first_non_object_from(items, from + 1)
    }
}

/// What `first_non_object_from` returns is the earliest item from `from` on
/// that is not an object; it returns `None` where all are objects.
pub proof fn lemma_first_non_object_from(items: Seq<Json>, from: int)
    requires
        0 <= from,
    ensures
        match first_non_object_from(items, from) {
            Some(at) => {
                &&& from <= at < items.len()
                &&& !(items[at] is Object)
                &&& forall|i: int| from <= i < at ==> items[i] is Object
            },
            None => forall|i: int| from <= i < items.len() ==> items[i] is Object,
        },
    decreases items.len() - from,
{
    if from < items.len() && items[from] is Object {
        lemma_first_non_object_from(items, from + 1);
    }
}

/// The document that rows are shaped into: the array of their documents
/// after the passes; with the fold switched on, the object of columns that
/// the array folds into, which is owed only where every item of the array is
/// an object.
pub open spec fn shaped(
    rows: Seq<Seq<(Seq<char>, Json)>>,
    headers: Seq<Seq<char>>,
    separator: Option<Seq<char>>,
    passes: Passes,
) -> Result<Json, int> {
    let collection = reshaped(documents(rows, separator), passes);
    if !passes.fold {
        Ok(collection)
    } else {
        match first_non_object_from(collection->Array_0, 0) {
            Some(at) => Err(at),
            None => Ok(folded(collection->Array_0, headers, separator)),
        }
    }
}

/// Shapes typed rows into the output document: each row becomes a document;
/// the array of the documents then goes through grouping, the pruning of
/// strings, the pruning of objects and the fold, in this order, each where
/// it is switched on.
///
/// With the fold switched on, fails where an item of the array is no object
/// by then, and tells the position of the first such item.
pub fn shape(
    rows: Vec<Vec<(String, Value)>>,
    headers: &[String],
    ds: Option<&str>,
    passes: Passes,
) -> (r: Result<Value, NotFoldable>)
    requires
        ds matches Some(separator) ==> separator@.len() > 0,
    ensures
        match r {
            Ok(v) => shaped(rows_view(rows@), names_view(headers@), separator_view(ds), passes)
                == Ok::<Json, int>(v@),
            Err(e) => shaped(rows_view(rows@), names_view(headers@), separator_view(ds), passes)
                == Err::<Json, int>(e.row as int),
        },
        rows_well_formed(rows_view(rows@)) ==> (r matches Ok(v) ==> v@.well_formed()),
{
    let ghost source = rows@;
    let ghost separator = separator_view(ds);
    let mut items: Vec<Value> = Vec::new();
    for row in it: rows
        invariant
            it.seq() == source,
            separator == separator_view(ds),
            ds matches Some(s) ==> s@.len() > 0,
            items.len() == it.index(),
            forall|i: int|
                0 <= i < it.index() ==> (#[trigger] items@[i])@ == document(
                    rows_view(source)[i],
                    separator,
                ),
            rows_well_formed(rows_view(source)) ==> forall|i: int|
                0 <= i < it.index() ==> (#[trigger] items@[i])@.well_formed(),
    {
        assert(rows_view(source)[it.index() as int] == entries_view(row@));
        let doc = row_to_document(row, ds);
        items.push(doc);
    }
    proof {
        lemma_items_view(items@);
        assert(items_view(items@) =~= documents(rows_view(source), separator)->Array_0);
        if rows_well_formed(rows_view(source)) {
            assert forall|i: int| 0 <= i < items@.len() implies (#[trigger] items_view(
                items@,
            )[i]).well_formed() by {
                assert(items@[i]@.well_formed());
            }
        }
    }
    let mut collection = Value::Array(items);
    if passes.arrays {
        collection = group_numeric_arrays(collection);
    }
    if passes.remove_empty_strings {
        collection = remove_empty_strings(collection);
    }
    if passes.remove_empty_objects {
        collection = remove_empty_objects(collection);
    }
    assert(collection@ == reshaped(documents(rows_view(source), separator), passes));
    if !passes.fold {
        return Ok(collection);
    }
    match first_non_object(&collection) {
        Some(at) => Err(NotFoldable { row: at }),
        None => {
            proof {
                lemma_first_non_object_from(collection@->Array_0, 0);
            }
            Ok(fold(collection, headers, ds))
        },
    }
}

/// Whether a value is an object.
pub fn is_object(value: &Value) -> (yes: bool)
    ensures
        yes == (value@ is Object),
{
    match value {
        Value::Object(_) => true,
        _ => false,
    }
}

/// The position of the first item of an array that is not an object.
pub fn first_non_object(collection: &Value) -> (found: Option<usize>)
    requires
        collection@ is Array,
    ensures
        match found {
            Some(at) => first_non_object_from(collection@->Array_0, 0) == Some(at as int),
            None => first_non_object_from(collection@->Array_0, 0) is None,
        },
{
    match collection {
        Value::Array(items) => {
            let ghost docs = items_view(items@);
            let mut at: usize = 0;
            proof {
                lemma_items_view(items@);
            }
            while at < items.len()
                invariant
                    at <= items.len(),
                    docs == items_view(items@),
                    docs == collection@->Array_0,
                    docs.len() == items.len(),
                    first_non_object_from(docs, 0) == first_non_object_from(docs, at as int),
                decreases items.len() - at,
            {
                proof {
                    lemma_items_view(items@);
                }
                assert(docs[at as int] == items@[at as int]@);
                if !is_object(&items[at]) {
                    return Some(at);
                }
                at = at + 1;
            }
            None
        },
        _ => vstd::pervasive::unreached(),
    }
}

} // verus!
