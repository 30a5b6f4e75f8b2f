//! Rows of cells: typing the cells of declared columns.
use crate::coerce::{to_number, truthy, value_to_bool, value_to_number};
use crate::value::{entries_view, lemma_entries_view, values_well_formed, Json, Value};
use vstd::prelude::*;
use vstd::string::StringExecFns;

verus! {

/// The names that a list of strings holds.
pub open spec fn names_view(names: Seq<String>) -> Seq<Seq<char>> {
    Seq::new(names.len(), |i: int| names[i]@)
}

/// The cells that a list of pairs of strings holds.
pub open spec fn texts_view(row: Seq<(String, String)>) -> Seq<(Seq<char>, Seq<char>)> {
    Seq::new(row.len(), |i: int| (row[i].0@, row[i].1@))
}

/// A row of raw cells as a row of values: each text becomes a string.
pub open spec fn text_cells(row: Seq<(Seq<char>, Seq<char>)>) -> Seq<(Seq<char>, Json)> {
    Seq::new(row.len(), |i: int| (row[i].0, Json::String(row[i].1)))
}

/// The row with every cell of a listed column replaced by the boolean it
/// stands for.
pub open spec fn booleans_in(columns: Seq<Seq<char>>, row: Seq<(Seq<char>, Json)>) -> Seq<
    (Seq<char>, Json),
> {
    Seq::new(
        row.len(),
        |i: int|
            if columns.contains(row[i].0) {
                (row[i].0, Json::Bool(truthy(row[i].1)))
            } else {
                row[i]
            },
    )
}

/// The float reading that belongs to the cell at position `at`: the one at
/// that position of `floats`, or none where `floats` is too short.
pub open spec fn reading_at(floats: Seq<Option<u64>>, at: int) -> Option<u64> {
    if 0 <= at < floats.len() {
        floats[at]
    } else {
        None
    }
}

/// Whether the cell at position `at` belongs to a listed column and holds a
/// text that is not numeric.
pub open spec fn cell_rejected(
    columns: Seq<Seq<char>>,
    row: Seq<(Seq<char>, Json)>,
    floats: Seq<Option<u64>>,
    at: int,
) -> bool {
    columns.contains(row[at].0) && to_number(row[at].1, reading_at(floats, at)) is None
}

/// The row with every cell of a listed column replaced by the number it
/// stands for.
pub open spec fn numbers_in(
    columns: Seq<Seq<char>>,
    row: Seq<(Seq<char>, Json)>,
    floats: Seq<Option<u64>>,
) -> Seq<(Seq<char>, Json)> {
    Seq::new(
        row.len(),
        |i: int|
            if columns.contains(row[i].0) {
                (row[i].0, Json::Number(to_number(row[i].1, reading_at(floats, i)).unwrap()))
            } else {
                row[i]
            },
    )
}

/// A cell of a column that was declared numeric holds a text that is not a
/// number.
#[derive(Debug, PartialEq, Eq)]
pub struct ConversionError {
    /// The name of the column.
    pub column: String,
    /// The text of the cell.
    pub text: String,
}

/// The text that opens the message of a [`ConversionError`].
pub open spec fn conversion_message_start() -> Seq<char> {
    "Could not calculate numeric value of column "@
}

/// The text that stands between column and cell in the message of a
/// [`ConversionError`].
pub open spec fn conversion_message_middle() -> Seq<char> {
    ": not a number: "@
}

impl ConversionError {
    /// A sentence that names the column and the text.
    pub fn message(&self) -> (sentence: String)
        ensures
            sentence@ == conversion_message_start() + self.column@ + conversion_message_middle()
                + self.text@,
    {
        let mut sentence = String::from_str("Could not calculate numeric value of column ");
        sentence.append(self.column.as_str());
        sentence.append(": not a number: ");
        sentence.append(self.text.as_str());
        sentence
    }
}

/// Whether `name` is one of `names`.
pub fn is_listed(names: &[String], name: &String) -> (listed: bool)
    ensures
        listed == names_view(names@).contains(name@),
{
    let mut at: usize = 0;
    while at < names.len()
        invariant
            at <= names.len(),
            forall|j: int| 0 <= j < at ==> names_view(names@)[j] != name@,
        decreases names.len() - at,
    {
        if names[at] == *name {
            assert(names_view(names@)[at as int] == name@);
            return true;
        }
        at = at + 1;
    }
    false
}

/// Turns a row of raw cells into a row of values: each text becomes a string
/// value under the same column name.
pub fn row_to_values(row: &Vec<(String, String)>) -> (values: Vec<(String, Value)>)
    ensures
        entries_view(values@) == text_cells(texts_view(row@)),
        values_well_formed(entries_view(values@)),
{
    let mut values: Vec<(String, Value)> = Vec::new();
    let mut at: usize = 0;
    while at < row.len()
        invariant
            at <= row.len(),
            values.len() == at,
            forall|j: int|
                0 <= j < at ==> (#[trigger] values@[j]).0@ == row@[j].0@ && values@[j].1@
                    == Json::String(row@[j].1@),
        decreases row.len() - at,
    {
        values.push((row[at].0.clone(), Value::String(row[at].1.clone())));
        at = at + 1;
    }
    proof {
        lemma_entries_view(values@);
        assert(entries_view(values@) =~= text_cells(texts_view(row@)));
    }
    values
}

/// Replaces the cell of each listed column by the boolean it stands for.
pub fn columns_to_booleans(columns: &[String], row: Vec<(String, Value)>) -> (typed: Vec<
    (String, Value),
>)
    ensures
        entries_view(typed@) == booleans_in(names_view(columns@), entries_view(row@)),
        values_well_formed(entries_view(row@)) ==> values_well_formed(entries_view(typed@)),
{
    let ghost cells = entries_view(row@);
    let ghost names = names_view(columns@);
    let ghost source = row@;
    let mut typed: Vec<(String, Value)> = Vec::new();
    proof {
        lemma_entries_view(source);
    }
    for cell in it: row
        invariant
            it.seq() == source,
            cells == entries_view(source),
            cells.len() == source.len(),
            names == names_view(columns@),
            typed.len() == it.index(),
            forall|j: int|
                0 <= j < it.index() ==> (#[trigger] typed@[j]).0@ == booleans_in(names, cells)[j].0
                    && typed@[j].1@ == booleans_in(names, cells)[j].1,
    {
        proof {
            lemma_entries_view(source);
        }
        if is_listed(columns, &cell.0) {
            let b = value_to_bool(&cell.1);
            typed.push((cell.0, Value::Bool(b)));
        } else {
            typed.push(cell);
        }
    }
    proof {
        lemma_entries_view(typed@);
        assert(entries_view(typed@) =~= booleans_in(names, cells));
    }
    typed
}

/// Replaces the cell of each listed column by the number it stands for.
///
/// `floats` holds, for the cell at each position of the row, what a text in
/// it reads as a binary64 floating-point number, as a bit pattern, or `None`
/// where it is not the text of one; positions past its end read as `None`.
///
/// Fails on the first cell of a listed column that holds a text which is not
/// numeric, and names that column and text.
pub fn columns_to_numbers(
    columns: &[String],
    row: Vec<(String, Value)>,
    floats: &[Option<u64>],
) -> (r: Result<Vec<(String, Value)>, ConversionError>)
    ensures
        match r {
            Ok(typed) => {
                &&& forall|i: int|
                    0 <= i < row@.len() ==> !cell_rejected(
                        names_view(columns@),
                        entries_view(row@),
                        floats@,
                        i,
                    )
                &&& entries_view(typed@) == numbers_in(
                    names_view(columns@),
                    entries_view(row@),
                    floats@,
                )
                &&& values_well_formed(entries_view(row@)) ==> values_well_formed(
                    entries_view(typed@),
                )
            },
            Err(e) => exists|i: int|
                {
                    &&& 0 <= i < row@.len()
                    &&& cell_rejected(names_view(columns@), entries_view(row@), floats@, i)
                    &&& forall|j: int|
                        0 <= j < i ==> !cell_rejected(
                            names_view(columns@),
                            entries_view(row@),
                            floats@,
                            j,
                        )
                    &&& e.column@ == entries_view(row@)[i].0
                    &&& entries_view(row@)[i].1 == Json::String(e.text@)
                },
        },
{
    let ghost cells = entries_view(row@);
    let ghost names = names_view(columns@);
    let ghost source = row@;
    let mut typed: Vec<(String, Value)> = Vec::new();
    proof {
        lemma_entries_view(source);
    }
    let count = row.len();
    let mut at: usize = 0;
    for cell in it: row
        invariant
            it.seq() == source,
            source.len() == count,
            cells == entries_view(source),
            cells.len() == source.len(),
            names == names_view(columns@),
            at == it.index(),
            typed.len() == it.index(),
            forall|j: int| 0 <= j < it.index() ==> !cell_rejected(names, cells, floats@, j),
            forall|j: int|
                0 <= j < it.index() ==> (#[trigger] typed@[j]).0@ == numbers_in(
                    names,
                    cells,
                    floats@,
                )[j].0 && typed@[j].1@ == numbers_in(names, cells, floats@)[j].1,
    {
        proof {
            lemma_entries_view(source);
        }
        if is_listed(columns, &cell.0) {
            let reading = if at < floats.len() {
                floats[at]
            } else {
                None
            };
            match value_to_number(&cell.1, reading) {
                Ok(n) => {
                    typed.push((cell.0, Value::Number(n)));
                },
                Err(text) => {
                    assert(cell_rejected(names, cells, floats@, at as int));
                    return Err(ConversionError { column: cell.0, text });
                },
            }
        } else {
            typed.push(cell);
        }
        at = at + 1;
    }
    proof {
        lemma_entries_view(typed@);
        let out = numbers_in(names, cells, floats@);
        assert(entries_view(typed@) =~= out);
        if values_well_formed(cells) {
            assert forall|i: int| 0 <= i < out.len() implies
                (#[trigger] out[i]).1.well_formed() by {
                assert(cells[i].1.well_formed());
                assert(!cell_rejected(names, cells, floats@, i));
            }
        }
    }
    Ok(typed)
}

} // verus!
