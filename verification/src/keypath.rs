//! Expanding a column name into a path of nested keys.
use crate::text::{
    contains, find, first_occurrence, lemma_first_occurrence_from, to_chars,
};
use crate::value::{distinct_keys, entries_view, lemma_entries_view, Json, Value};
use vstd::prelude::*;
use vstd::string::{StrSliceExecFns, StringExecFns};

verus! {

/// The text with every occurrence of the separator replaced by a dot. The
/// occurrences are found from left to right and do not overlap.
pub open spec fn dotted(text: Seq<char>, separator: Seq<char>) -> Seq<char>
    decreases text.len(),
    when separator.len() > 0
{
    match first_occurrence(text, separator) {
        None => text,
        Some(at) => {
            proof {
                lemma_first_occurrence_from(text, separator, 0);
            }
            text.subrange(0, at) + seq!['.'] + dotted(
                text.subrange(at + separator.len(), text.len() as int),
                separator,
            )
        },
    }
}

/// Replacing separators by dots never makes a text longer.
pub proof fn lemma_dotted_is_no_longer(text: Seq<char>, separator: Seq<char>)
    requires
        separator.len() > 0,
    ensures
        dotted(text, separator).len() <= text.len(),
    decreases text.len(),
{
    lemma_first_occurrence_from(text, separator, 0);
    match first_occurrence(text, separator) {
        None => {},
        Some(at) => {
            lemma_dotted_is_no_longer(
                text.subrange(at + separator.len(), text.len() as int),
                separator,
            );
        },
    }
}

/// The entry that a column name and its value become under a separator: the
/// name itself where the separator does not occur in it; else the part before
/// the first separator as the key, and as the value an object with one entry,
/// which the rest of the name, its separators replaced by dots, and the value
/// become in the same way.
pub open spec fn expand(key: Seq<char>, value: Json, separator: Seq<char>) -> (Seq<char>, Json)
    decreases key.len(),
    when separator.len() > 0
{
    match first_occurrence(key, separator) {
        None => (key, value),
        Some(at) => {
            proof {
                lemma_first_occurrence_from(key, separator, 0);
                lemma_dotted_is_no_longer(
                    key.subrange(at + separator.len(), key.len() as int),
                    separator,
                );
            }
            (
                key.subrange(0, at),
                Json::Object(
                    seq![
                        expand(
                            dotted(key.subrange(at + separator.len(), key.len() as int), separator),
                            value,
                            separator,
                        ),
                    ],
                ),
            )
        },
    }
}

/// The entry that a column name and its value become: unchanged without a
/// separator, expanded along the separator with one.
pub open spec fn placed(key: Seq<char>, value: Json, separator: Option<Seq<char>>) -> (
    Seq<char>,
    Json,
) {
    match separator {
        None => (key, value),
        Some(s) => expand(key, value, s),
    }
}

/// What a separator given as a string stands for.
pub open spec fn separator_view(ds: Option<&str>) -> Option<Seq<char>> {
    match ds {
        None => None,
        Some(s) => Some(s@),
    }
}

/// Where the separator is a dot, the rest of a name stays as it is.
pub proof fn lemma_dotted_with_dot(text: Seq<char>)
    ensures
        dotted(text, seq!['.']) == text,
    decreases text.len(),
{
    let dot = seq!['.'];
    lemma_first_occurrence_from(text, dot, 0);
    match first_occurrence(text, dot) {
        None => {},
        Some(at) => {
            let rest = text.subrange(at + 1, text.len() as int);
            lemma_dotted_with_dot(rest);
            assert(text.subrange(at, at + 1) =~= dot);
            assert(text.subrange(0, at) + dot + rest =~= text);
        },
    }
}

/// Where the separator is a dot, a name is cut at each dot in turn: the part
/// before its first dot is the key, and the part after it is expanded in
/// the same way.
pub proof fn lemma_expand_with_dot(key: Seq<char>, value: Json)
    ensures
        expand(key, value, seq!['.']) == (match first_occurrence(key, seq!['.']) {
            None => (key, value),
            Some(at) => (
                key.subrange(0, at),
                Json::Object(
                    seq![expand(key.subrange(at + 1, key.len() as int), value, seq!['.'])],
                ),
            ),
        }),
{
    let dot = seq!['.'];
    match first_occurrence(key, dot) {
        None => {},
        Some(at) => {
            lemma_dotted_with_dot(key.subrange(at + 1, key.len() as int));
        },
    }
}

/// Replaces every occurrence of the separator in `text` by a dot.
pub fn dot_joined(text: &str, separator: &Vec<char>) -> (joined: String)
    requires
        separator@.len() > 0,
    ensures
        joined@ == dotted(text@, separator@),
    decreases text@.len(),
{
    let chars = to_chars(text);
    proof {
        lemma_first_occurrence_from(text@, separator@, 0);
    }
    match find(&chars, separator) {
        None => text.to_owned(),
        Some(at) => {
            assert(at + separator.len() <= chars.len());
            let mut joined = text.substring_char(0, at).to_owned();
            let rest = text.substring_char(at + separator.len(), chars.len());
            let tail = dot_joined(rest, separator);
            proof {
                reveal_strlit(".");
                assert("."@ =~= seq!['.']);
            }
            joined.append(".");
            joined.append(tail.as_str());
            joined
        },
    }
}

/// Expands a name along a separator that is given by its characters.
pub fn expand_key(key: &str, value: &Value, separator: &Vec<char>) -> (entry: (String, Value))
    requires
        separator@.len() > 0,
    ensures
        (entry.0@, entry.1@) == expand(key@, value@, separator@),
    decreases key@.len(),
{
    let chars = to_chars(key);
    proof {
        lemma_first_occurrence_from(key@, separator@, 0);
    }
    match find(&chars, separator) {
        None => (key.to_owned(), value.clone()),
        Some(at) => {
            assert(at + separator.len() <= chars.len());
            let this_key = key.substring_char(0, at).to_owned();
            let rest = key.substring_char(at + separator.len(), chars.len());
            let key_chain = dot_joined(rest, separator);
            proof {
                lemma_dotted_is_no_longer(rest@, separator@);
            }
            let (next_key, data) = expand_key(key_chain.as_str(), value, separator);
            let mut inner: Vec<(String, Value)> = Vec::new();
            inner.push((next_key, data));
            proof {
                lemma_entries_view(inner@);
                assert(entries_view(inner@) =~= seq![(next_key@, data@)]);
            }
            (this_key, Value::Object(inner))
        },
    }
}

/// Turns a column name and the value of its cell into the entry that goes
/// into the row's document. Without a separator, and where the separator
/// does not occur in the name, that is the name and the value as they are.
/// Else the name is cut at the first separator: the part before it is the
/// key, and the value is an object that holds the entry for the rest of the
/// name, in which every further separator was replaced by a dot.
pub fn dimensional_converter(key: &str, value: &Value, ds: Option<&str>) -> (entry: (
    String,
    Value,
))
    requires
        ds matches Some(separator) ==> separator@.len() > 0,
    ensures
        (entry.0@, entry.1@) == placed(key@, value@, separator_view(ds)),
        ds is None || !contains(key@, ds.unwrap()@) ==> entry.0@ == key@ && entry.1@ == value@,
        value@.well_formed() ==> entry.1@.well_formed(),
{
    proof {
        if value@.well_formed() && ds is Some {
            lemma_expand_well_formed(key@, value@, ds.unwrap()@);
        }
    }
    match ds {
        None => (key.to_owned(), value.clone()),
        Some(separator) => {
            let separator_chars = to_chars(separator);
            expand_key(key, value, &separator_chars)
        },
    }
}

/// The entry for a well-formed value holds a well-formed value.
pub proof fn lemma_expand_well_formed(key: Seq<char>, value: Json, separator: Seq<char>)
    requires
        separator.len() > 0,
        value.well_formed(),
    ensures
        expand(key, value, separator).1.well_formed(),
    decreases key.len(),
{
    lemma_first_occurrence_from(key, separator, 0);
    match first_occurrence(key, separator) {
        None => {},
        Some(at) => {
            let rest = key.subrange(at + separator.len(), key.len() as int);
            lemma_dotted_is_no_longer(rest, separator);
            lemma_expand_well_formed(dotted(rest, separator), value, separator);
            let inner = seq![expand(dotted(rest, separator), value, separator)];
            assert(distinct_keys(inner));
            assert forall|i: int| 0 <= i < inner.len() implies
                (#[trigger] inner[i]).1.well_formed() by {}
        },
    }
}

} // verus!
