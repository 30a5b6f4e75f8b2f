//! Shapes flat rows of text cells into nested, typed JSON documents.
//!
//! A row is an ordered list of `(column, cell)` pairs. Each row becomes one
//! JSON object: column names are split into key paths, cells that land on the
//! same path are merged into arrays, and optional passes turn index-keyed
//! objects into arrays, drop empty strings and objects, and transpose the
//! rows into one object of columns.
//!
//! Every function is stated over [`value::Json`], the mathematical document
//! that a [`value::Value`] stands for.
pub mod coerce;
pub mod document;
pub mod equivalence;
pub mod group;
pub mod keypath;
pub mod merge;
pub mod numeral;
pub mod prune;
pub mod rows;
pub mod sys;
pub mod text;
pub mod transpose;
pub mod value;
