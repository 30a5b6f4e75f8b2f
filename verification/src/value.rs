//! The JSON value model and its mathematical view.
use vstd::prelude::*;

verus! {

/// Bits of a binary64 pattern that hold the exponent.
pub const FLOAT_EXPONENT_MASK: u64 = 0x7ff0_0000_0000_0000;

/// Bits of a binary64 pattern that hold exponent and fraction, without the sign.
pub const FLOAT_MAGNITUDE_MASK: u64 = 0x7fff_ffff_ffff_ffff;

/// A JSON number: a non-negative integer, a negative integer, or a binary64
/// floating-point number given by its IEEE 754 bit pattern.
#[derive(Clone, Copy, Debug, PartialEq, Eq, Structural)]
pub enum Number {
    /// An integer in `0 ..= u64::MAX`.
    PosInt(u64),
    /// An integer below zero.
    NegInt(i64),
    /// The bit pattern of a finite binary64 number.
    Float(u64),
}

/// Whether a binary64 bit pattern stands for a finite number, that is neither
/// an infinity nor a NaN.
pub open spec fn float_bits_finite(bits: u64) -> bool {
    bits & FLOAT_EXPONENT_MASK != FLOAT_EXPONENT_MASK
}

/// Whether a binary64 bit pattern stands for positive or negative zero.
pub open spec fn float_bits_zero(bits: u64) -> bool {
    bits & FLOAT_MAGNITUDE_MASK == 0
}

impl Number {
    /// The representation is canonical: integers from zero upwards are
    /// `PosInt`, and a float is finite.
    pub open spec fn well_formed(self) -> bool {
        match self {
            Number::PosInt(_) => true,
            Number::NegInt(i) => i < 0,
            Number::Float(bits) => float_bits_finite(bits),
        }
    }

    /// Whether the number is numerically zero.
    pub open spec fn is_zero(self) -> bool {
        match self {
            Number::PosInt(u) => u == 0,
            Number::NegInt(i) => i == 0,
            Number::Float(bits) => float_bits_zero(bits),
        }
    }

    /// The number for an unsigned integer.
    pub fn from_u64(value: u64) -> (n: Number)
        ensures
            n == Number::PosInt(value),
    {
        Number::PosInt(value)
    }

    /// The number for a signed integer, in canonical form.
    pub fn from_i64(value: i64) -> (n: Number)
        ensures
            n == (if value < 0 {
                Number::NegInt(value)
            } else {
                Number::PosInt(value as u64)
            }),
            n.well_formed(),
    {
        if value < 0 {
            Number::NegInt(value)
        } else {
            Number::PosInt(value as u64)
        }
    }

    /// The number for a binary64 bit pattern; infinities and NaNs are not
    /// JSON numbers.
    pub fn from_float_bits(bits: u64) -> (n: Option<Number>)
        ensures
            n == (if float_bits_finite(bits) {
                Some(Number::Float(bits))
            } else {
                None
            }),
            n matches Some(x) ==> x.well_formed(),
    {
        if bits & FLOAT_EXPONENT_MASK != FLOAT_EXPONENT_MASK {
            Some(Number::Float(bits))
        } else {
            None
        }
    }
}

/// The mathematical JSON document that a [`Value`] stands for.
///
/// An object is the sequence of its entries in insertion order.
pub ghost enum Json {
    Null,
    Bool(bool),
    Number(Number),
    String(Seq<char>),
    Array(Seq<Json>),
    Object(Seq<(Seq<char>, Json)>),
}

/// No key occurs in two entries.
pub open spec fn distinct_keys(entries: Seq<(Seq<char>, Json)>) -> bool {
    forall|i: int, j: int|
        0 <= i < j < entries.len() ==> (#[trigger] entries[i]).0 != (#[trigger] entries[j]).0
}

/// Every entry holds a well-formed value.
pub open spec fn values_well_formed(entries: Seq<(Seq<char>, Json)>) -> bool {
    forall|i: int| 0 <= i < entries.len() ==> (#[trigger] entries[i]).1.well_formed()
}

impl Json {
    /// Numbers are canonical and no object holds a key twice, at every depth.
    pub open spec fn well_formed(self) -> bool
        decreases self,
    {
        match self {
            Json::Number(n) => n.well_formed(),
            Json::Array(items) => forall|i: int|
                0 <= i < items.len() ==> (#[trigger] items[i]).well_formed(),
            Json::Object(entries) => distinct_keys(entries) && forall|i: int|
                0 <= i < entries.len() ==> (#[trigger] entries[i]).1.well_formed(),
            _ => true,
        }
    }
}

/// A JSON value.
///
/// An object keeps its entries in insertion order. Two values are `==` when
/// they are built alike: objects with the same entries in the same order,
/// floats with the same bit pattern. To compare two values without regard to
/// the order of entries, use `equivalence::same_document`.
#[derive(Debug, PartialEq)]
pub enum Value {
    Null,
    Bool(bool),
    Number(Number),
    String(String),
    Array(Vec<Value>),
    Object(Vec<(String, Value)>),
}

impl Value {
    /// The document that the value stands for.
    pub open spec fn json(self) -> Json
        decreases self,
    {
        match self {
            Value::Null => Json::Null,
            Value::Bool(b) => Json::Bool(b),
            Value::Number(n) => Json::Number(n),
            Value::String(s) => Json::String(s@),
            Value::Array(items) => Json::Array(items_view(items@)),
            Value::Object(entries) => Json::Object(entries_view(entries@)),
        }
    }
}

impl View for Value {
    type V = Json;

    open spec fn view(&self) -> Json {
        self.json()
    }
}

/// The documents that a sequence of values stands for.
pub open spec fn items_view(items: Seq<Value>) -> Seq<Json>
    decreases items,
{
    if items.len() == 0 {
        Seq::empty()
    } else {
        items_view(items.drop_last()).push(items.last().json())
    }
}

/// The entries that a sequence of keyed values stands for.
pub open spec fn entries_view(entries: Seq<(String, Value)>) -> Seq<(Seq<char>, Json)>
    decreases entries,
{
    if entries.len() == 0 {
        Seq::empty()
    } else {
        entries_view(entries.drop_last()).push((entries.last().0@, entries.last().1.json()))
    }
}

/// The view of a sequence of values is taken item by item.
pub broadcast proof fn lemma_items_view(items: Seq<Value>)
    ensures
        (#[trigger] items_view(items)).len() == items.len(),
        forall|i: int| 0 <= i < items.len() ==> (#[trigger] items_view(items)[i]) == items[i]@,
    decreases items.len(),
{
    if items.len() > 0 {
        lemma_items_view(items.drop_last());
    }
}

/// The view of a sequence of keyed values is taken entry by entry.
pub broadcast proof fn lemma_entries_view(entries: Seq<(String, Value)>)
    ensures
        (#[trigger] entries_view(entries)).len() == entries.len(),
        forall|i: int|
            0 <= i < entries.len() ==> (#[trigger] entries_view(entries)[i]) == (
                entries[i].0@,
                entries[i].1@,
            ),
    decreases entries.len(),
{
    if entries.len() > 0 {
        lemma_entries_view(entries.drop_last());
    }
}

impl Clone for Value {
    /// A deep copy.
    fn clone(&self) -> (copy: Value)
        ensures
            copy@ == self@,
        decreases self,
    {
        match self {
            Value::Null => Value::Null,
            Value::Bool(b) => Value::Bool(*b),
            Value::Number(n) => Value::Number(*n),
            Value::String(s) => Value::String(s.clone()),
            Value::Array(items) => {
                let mut out: Vec<Value> = Vec::new();
                let mut i: usize = 0;
                while i < items.len()
                    invariant
                        i <= items.len(),
                        forall|j: int|
                            0 <= j < items.len() ==> decreases_to!(self => #[trigger] items@[j]),
                        out@.len() == i,
                        forall|j: int| 0 <= j < i ==> (#[trigger] out@[j])@ == items@[j]@,
                    decreases items.len() - i,
                {
                    out.push(items[i].clone());
                    i = i + 1;
                }
                proof {
                    lemma_items_view(out@);
                    lemma_items_view(items@);
                    assert(items_view(out@) =~= items_view(items@));
                }
                Value::Array(out)
            },
            Value::Object(entries) => {
                let mut out: Vec<(String, Value)> = Vec::new();
                let mut i: usize = 0;
                while i < entries.len()
                    invariant
                        i <= entries.len(),
                        forall|j: int|
                            0 <= j < entries.len() ==>
                                decreases_to!(self => #[trigger] entries@[j]),
                        out@.len() == i,
                        forall|j: int|
                            0 <= j < i ==> (#[trigger] out@[j]).0@ == entries@[j].0@ && out@[j].1@
                                == entries@[j].1@,
                    decreases entries.len() - i,
                {
                    let key = entries[i].0.clone();
                    let value = entries[i].1.clone();
                    out.push((key, value));
                    i = i + 1;
                }
                proof {
                    lemma_entries_view(out@);
                    lemma_entries_view(entries@);
                    assert(entries_view(out@) =~= entries_view(entries@));
                }
                Value::Object(out)
            },
        }
    }
}

/// The position of the first entry from `from` on whose key is `key`.
pub open spec fn key_position_from(
    entries: Seq<(Seq<char>, Json)>,
    key: Seq<char>,
    from: int,
) -> Option<int>
    decreases entries.len() - from,
{
    if from < 0 || from >= entries.len() {
        None
    } else if entries[from].0 == key {
        Some(from)
    } else {
        key_position_from(entries, key, from + 1)
    }
}

/// The position of the first entry whose key is `key`.
pub open spec fn key_position(entries: Seq<(Seq<char>, Json)>, key: Seq<char>) -> Option<int> {
    key_position_from(entries, key, 0)
}

/// The value of the first entry whose key is `key`.
pub open spec fn lookup(entries: Seq<(Seq<char>, Json)>, key: Seq<char>) -> Option<Json> {
    match key_position(entries, key) {
        Some(at) => Some(entries[at].1),
        None => None,
    }
}

/// `key_position_from` finds the earliest entry with the key from `from` on,
/// exactly when there is one.
pub proof fn lemma_key_position_from(entries: Seq<(Seq<char>, Json)>, key: Seq<char>, from: int)
    requires
        0 <= from,
    ensures
        match key_position_from(entries, key, from) {
            Some(at) => {
                &&& from <= at < entries.len()
                &&& entries[at].0 == key
                &&& forall|j: int| from <= j < at ==> entries[j].0 != key
            },
            None => forall|j: int| from <= j < entries.len() ==> entries[j].0 != key,
        },
    decreases entries.len() - from,
{
    if from < entries.len() && entries[from].0 != key {
        lemma_key_position_from(entries, key, from + 1);
    }
}

/// What `key_position` returns: the earliest entry with the key, or `None`
/// where no entry has it.
pub proof fn lemma_key_position(entries: Seq<(Seq<char>, Json)>, key: Seq<char>)
    ensures
        match key_position(entries, key) {
            Some(at) => {
                &&& 0 <= at < entries.len()
                &&& entries[at].0 == key
                &&& forall|j: int| 0 <= j < at ==> entries[j].0 != key
            },
            None => forall|j: int| 0 <= j < entries.len() ==> entries[j].0 != key,
        },
{
    lemma_key_position_from(entries, key, 0);
}

/// The position of the first entry whose key is `key`.
pub fn find_key(entries: &Vec<(String, Value)>, key: &String) -> (found: Option<usize>)
    ensures
        match found {
            Some(at) => key_position(entries_view(entries@), key@) == Some(at as int),
            None => key_position(entries_view(entries@), key@) is None,
        },
{
    let mut at: usize = 0;
    while at < entries.len()
        invariant
            at <= entries.len(),
            forall|j: int| 0 <= j < at ==> entries_view(entries@)[j].0 != key@,
        decreases entries.len() - at,
    {
        proof {
            lemma_entries_view(entries@);
        }
        if entries[at].0 == *key {
            proof {
                assert(entries_view(entries@)[at as int].0 == key@);
                lemma_key_position(entries_view(entries@), key@);
            }
            return Some(at);
        }
        at = at + 1;
    }
    proof {
        lemma_entries_view(entries@);
        lemma_key_position(entries_view(entries@), key@);
    }
    None
}

} // verus!
