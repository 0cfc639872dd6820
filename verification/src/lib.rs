//! Structural summaries of nested, dynamically typed documents, for a Python
//! extension module that is handed a `dict` and answers with its shape.
//!
//! A document enters as a [`raw::RawValue`], is normalized into a closed
//! [`value::TaggedValue`] tree, and is then reduced in one traversal to a
//! [`summary::Summary`] of five statistics.

pub mod laws;
pub mod normalize;
pub mod raw;
pub mod summary;
pub mod value;

use crate::normalize::{UnsupportedTypeError, entries_form, pydict_to_value, supported};
use crate::raw::RawValue;
use crate::summary::{Summary, summary_of, try_summarize_value};
use crate::value::Tree;
use vstd::prelude::*;

verus! {

/// Summarizes the document whose top level is the map-like value with the
/// entries `entries`: normalizes it, then summarizes the tree.
///
/// An unsupported value anywhere in the document is an error, and no summary
/// comes back with it. `Ok(None)` says that the document is supported but
/// that a count of its summary exceeds what a `usize` holds.
pub fn summarize_large_json(entries: &Vec<(RawValue, RawValue)>) -> (outcome: Result<
    Option<Summary>,
    UnsupportedTypeError,
>)
    ensures
        outcome is Ok <==> forall|i: int|
            0 <= i < entries@.len() ==> (#[trigger] entries@[i]).0.as_string is Some && supported(
                entries@[i].1,
            ),
        match outcome {
            Ok(Some(summary)) => entries_form(entries@) matches Some(normal) && summary@
                == summary_of(Tree::Object(normal)) && summary@.fits(),
            Ok(None) => entries_form(entries@) matches Some(normal) && !summary_of(
                Tree::Object(normal),
            ).fits(),
            Err(_) => entries_form(entries@) is None,
        },
{
    match pydict_to_value(entries) {
        Ok(value) => Ok(try_summarize_value(&value)),
        Err(error) => Err(error),
    }
}

} // verus!
