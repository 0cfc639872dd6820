//! Normalization: from a dynamically typed value to a tagged tree.

use crate::raw::RawValue;
use crate::value::{Number, TaggedValue, Tree, is_finite};
use vstd::prelude::*;

verus! {

/// The error of normalization: a value of none of the six supported shapes,
/// an object key that is not a string, or a float that is not finite.
#[derive(Debug, PartialEq, Eq)]
pub struct UnsupportedTypeError {}

impl UnsupportedTypeError {
    /// What the error says to a reader.
    pub fn message(&self) -> (message: &'static str)
        ensures
            message@ == "Unsupported type."@,
    {
        "Unsupported type."
    }
}

/// The tree that `raw` normalizes to, or `None` where normalization fails.
///
/// The tests are applied in a fixed order and the first that the value
/// passed decides: map, sequence, string, integer, float, boolean, none.
pub open spec fn normal_form(raw: RawValue) -> Option<Tree>
    decreases raw,
{
    if let Some(entries) = raw.as_map {
        match entries_form(entries@) {
            Some(normal) => Some(Tree::Object(normal)),
            None => None,
        }
    } else if let Some(items) = raw.as_sequence {
        match items_form(items@) {
            Some(normal) => Some(Tree::Array(normal)),
            None => None,
        }
    } else if let Some(text) = raw.as_string {
        Some(Tree::String(text@))
    } else if let Some(integer) = raw.as_integer {
        Some(Tree::Number(Number::Integer(integer)))
    } else if let Some(bits) = raw.as_float {
        if is_finite(bits) {
            Some(Tree::Number(Number::Float(bits)))
        } else {
            None
        }
    } else if let Some(flag) = raw.as_boolean {
        Some(Tree::Boolean(flag))
    } else if raw.is_none {
        Some(Tree::Null)
    } else {
        None
    }
}

/// The entries that the entries of a map-like value normalize to, one for
/// one and in order, or `None` where a key is not a string or a value has no
/// normal form.
pub open spec fn entries_form(entries: Seq<(RawValue, RawValue)>) -> Option<
    Seq<(Seq<char>, Tree)>,
>
    decreases entries,
{
    if entries.len() == 0 {
        Some(Seq::empty())
    } else {
        match (
            entries_form(entries.drop_last()),
            entries.last().0.as_string,
            normal_form(entries.last().1),
        ) {
            (Some(front), Some(key), Some(value)) => Some(front.push((key@, value))),
            _ => None,
        }
    }
}

/// The elements that the elements of a sequence-like value normalize to, one
/// for one and in order, or `None` where one of them has no normal form.
pub open spec fn items_form(items: Seq<RawValue>) -> Option<Seq<Tree>>
    decreases items,
{
    if items.len() == 0 {
        Some(Seq::empty())
    } else {
        match (items_form(items.drop_last()), normal_form(items.last())) {
            (Some(front), Some(value)) => Some(front.push(value)),
            _ => None,
        }
    }
}

/// Whether every value that normalization reaches in `raw` is one that it
/// accepts: each is of a supported shape, each key of a map is a string, and
/// each float is finite.
pub open spec fn supported(raw: RawValue) -> bool
    decreases raw,
{
    if let Some(entries) = raw.as_map {
        forall|i: int|
            0 <= i < entries@.len() ==> (#[trigger] entries@[i]).0.as_string is Some && supported(
                entries@[i].1,
            )
    } else if let Some(items) = raw.as_sequence {
        forall|i: int| 0 <= i < items@.len() ==> supported(#[trigger] items@[i])
    } else if raw.as_string is Some || raw.as_integer is Some {
        true
    } else if let Some(bits) = raw.as_float {
        is_finite(bits)
    } else {
        raw.as_boolean is Some || raw.is_none
    }
}

/// The entries of an object are the entries of the map-like value, one for
/// one and in order: the key is the string of the key, the value the normal
/// form of the value. There is no object where one key is no string or one
/// value has no normal form.
pub proof fn law_entries_one_for_one(entries: Seq<(RawValue, RawValue)>)
    ensures
        entries_form(entries) is Some <==> forall|i: int|
            0 <= i < entries.len() ==> (#[trigger] entries[i]).0.as_string is Some && normal_form(
                entries[i].1,
            ) is Some,
        entries_form(entries) matches Some(normal) ==> {
            &&& normal.len() == entries.len()
            &&& forall|i: int|
                0 <= i < entries.len() ==> (#[trigger] normal[i]) == (
                    entries[i].0.as_string->Some_0@,
                    normal_form(entries[i].1)->Some_0,
                )
        },
    decreases entries.len(),
{
    if entries.len() > 0 {
        let front = entries.drop_last();
        law_entries_one_for_one(front);
        assert forall|i: int| 0 <= i < front.len() implies front[i] == entries[i] by {}
        if entries_form(entries) is Some {
            assert forall|i: int| 0 <= i < entries.len() implies (#[trigger] entries[i]).0.as_string
                is Some && normal_form(entries[i].1) is Some by {
                if i < front.len() {
                    assert(front[i] == entries[i]);
                }
            }
        }
    }
}

/// The elements of an array are the normal forms of the elements of the
/// sequence-like value, one for one and in order. There is no array where
/// one element has no normal form.
pub proof fn law_items_one_for_one(items: Seq<RawValue>)
    ensures
        items_form(items) is Some <==> forall|i: int|
            0 <= i < items.len() ==> normal_form(#[trigger] items[i]) is Some,
        items_form(items) matches Some(normal) ==> {
            &&& normal.len() == items.len()
            &&& forall|i: int|
                0 <= i < items.len() ==> (#[trigger] normal[i]) == normal_form(items[i])->Some_0
        },
    decreases items.len(),
{
    if items.len() > 0 {
        let front = items.drop_last();
        law_items_one_for_one(front);
        assert forall|i: int| 0 <= i < front.len() implies front[i] == items[i] by {}
        if items_form(items) is Some {
            assert forall|i: int| 0 <= i < items.len() implies normal_form(#[trigger] items[i])
                is Some by {
                if i < front.len() {
                    assert(front[i] == items[i]);
                }
            }
        }
    }
}

/// Normalization succeeds exactly on the supported values.
pub proof fn law_supported(raw: RawValue)
    ensures
        normal_form(raw) is Some <==> supported(raw),
    decreases raw,
{
    if let Some(entries) = raw.as_map {
        law_entries_one_for_one(entries@);
        assert forall|i: int| 0 <= i < entries@.len() implies (normal_form(
            (#[trigger] entries@[i]).1,
        ) is Some <==> supported(entries@[i].1)) by {
            law_supported(entries@[i].1);
        }
    } else if let Some(items) = raw.as_sequence {
        law_items_one_for_one(items@);
        assert forall|i: int| 0 <= i < items@.len() implies (normal_form(#[trigger] items@[i])
            is Some <==> supported(items@[i])) by {
            law_supported(items@[i]);
        }
    }
}

/// Whether each map that normalization reaches in `raw` uses no string
/// twice as a key.
pub open spec fn well_keyed(raw: RawValue) -> bool
    decreases raw,
{
    if let Some(entries) = raw.as_map {
        &&& forall|i: int, j: int|
            0 <= i < j < entries@.len() && (#[trigger] entries@[i]).0.as_string is Some && (
            #[trigger] entries@[j]).0.as_string is Some ==> entries@[i].0.as_string->Some_0@
                != entries@[j].0.as_string->Some_0@
        &&& forall|i: int| 0 <= i < entries@.len() ==> well_keyed((#[trigger] entries@[i]).1)
    } else if let Some(items) = raw.as_sequence {
        forall|i: int| 0 <= i < items@.len() ==> well_keyed(#[trigger] items@[i])
    } else {
        true
    }
}

/// The normal form of a value is well formed: its floats are finite, and
/// its objects use no key twice, given that the maps of the value use none
/// twice.
pub proof fn law_normal_form_well_formed(raw: RawValue)
    requires
        well_keyed(raw),
    ensures
        normal_form(raw) matches Some(tree) ==> tree.well_formed(),
    decreases raw,
{
    if let Some(tree) = normal_form(raw) {
        tree.lemma_well_formed();
        if let Some(entries) = raw.as_map {
            law_entries_one_for_one(entries@);
            let normal = tree->Object_0;
            assert forall|i: int| 0 <= i < tree.arity() implies (#[trigger] tree.child(
                i,
            )).well_formed() by {
                assert(normal[i].1 == normal_form(entries@[i].1)->Some_0);
                law_normal_form_well_formed(entries@[i].1);
            }
            assert forall|i: int, j: int|
                0 <= i < tree.own_keys().len() && 0 <= j < tree.own_keys().len() && i
                    != j implies tree.own_keys()[i] != tree.own_keys()[j] by {
                assert(normal[i].0 == entries@[i].0.as_string->Some_0@);
                assert(normal[j].0 == entries@[j].0.as_string->Some_0@);
            }
        } else if let Some(items) = raw.as_sequence {
            law_items_one_for_one(items@);
            let normal = tree->Array_0;
            assert forall|i: int| 0 <= i < tree.arity() implies (#[trigger] tree.child(
                i,
            )).well_formed() by {
                assert(normal[i] == normal_form(items@[i])->Some_0);
                law_normal_form_well_formed(items@[i]);
            }
        }
    }
}

/// Whether normalization of `raw` comes upon `part`: as `raw` itself, as a
/// key or under a value of the map that `raw` is, or under an element of the
/// sequence that `raw` is.
pub open spec fn reaches(raw: RawValue, part: RawValue) -> bool
    decreases raw,
{
    ||| raw == part
    ||| raw.as_map matches Some(entries) && exists|i: int|
        0 <= i < entries@.len() && ((#[trigger] entries@[i]).0 == part || reaches(
            entries@[i].1,
            part,
        ))
    ||| raw.as_map is None && (raw.as_sequence matches Some(items) && exists|i: int|
        0 <= i < items@.len() && reaches(#[trigger] items@[i], part))
}

/// Unsupported-type rejection: a value of none of the supported shapes has
/// no normal form, and neither has any value whose normalization comes upon
/// it, at whatever depth.
pub proof fn law_unsupported_rejected(raw: RawValue, part: RawValue)
    requires
        part.shapeless(),
        reaches(raw, part),
    ensures
        normal_form(raw) is None,
    decreases raw,
{
    if raw == part {
    } else if let Some(entries) = raw.as_map {
        let i = choose|i: int|
            0 <= i < entries@.len() && ((#[trigger] entries@[i]).0 == part || reaches(
                entries@[i].1,
                part,
            ));
        law_entries_one_for_one(entries@);
        if entries@[i].0 != part {
            law_unsupported_rejected(entries@[i].1, part);
        }
    } else if let Some(items) = raw.as_sequence {
        let i = choose|i: int| 0 <= i < items@.len() && reaches(#[trigger] items@[i], part);
        law_items_one_for_one(items@);
        law_unsupported_rejected(items@[i], part);
    }
}

/// Where the first entries of a map-like value have no normal form, the
/// whole of them has none.
proof fn lemma_entries_form_prefix(entries: Seq<(RawValue, RawValue)>, n: int)
    requires
        0 <= n <= entries.len(),
        entries_form(entries.take(n)) is None,
    ensures
        entries_form(entries) is None,
    decreases entries.len(),
{
    if n < entries.len() {
        assert(entries.drop_last().take(n) =~= entries.take(n));
        lemma_entries_form_prefix(entries.drop_last(), n);
    } else {
        assert(entries.take(n) =~= entries);
    }
}

/// Where the first elements of a sequence-like value have no normal form,
/// the whole of them has none.
proof fn lemma_items_form_prefix(items: Seq<RawValue>, n: int)
    requires
        0 <= n <= items.len(),
        items_form(items.take(n)) is None,
    ensures
        items_form(items) is None,
    decreases items.len(),
{
    if n < items.len() {
        assert(items.drop_last().take(n) =~= items.take(n));
        lemma_items_form_prefix(items.drop_last(), n);
    } else {
        assert(items.take(n) =~= items);
    }
}

/// Whether `bits` is the pattern of a finite IEEE 754 double.
pub fn finite(bits: u64) -> (finite: bool)
    ensures
        finite == is_finite(bits),
{
    (bits >> 52) & 0x7ff != 0x7ff
}

/// Normalizes one value of any shape.
///
/// The first error anywhere in the value ends the whole normalization: no
/// part of a tree comes back with it.
pub fn py_to_value(raw: &RawValue) -> (outcome: Result<TaggedValue, UnsupportedTypeError>)
    ensures
        outcome is Ok <==> supported(*raw),
        match outcome {
            Ok(value) => normal_form(*raw) == Some(value@),
            Err(_) => normal_form(*raw) is None,
        },
    decreases raw,
{
    proof {
        law_supported(*raw);
    }
    if let Some(entries) = &raw.as_map {
        pydict_to_value(entries)
    } else if let Some(items) = &raw.as_sequence {
        pylist_to_value(items)
    } else if let Some(text) = &raw.as_string {
        Ok(TaggedValue::String(text.clone()))
    } else if let Some(integer) = raw.as_integer {
        Ok(TaggedValue::Number(Number::Integer(integer)))
    } else if let Some(bits) = raw.as_float {
        if finite(bits) {
            Ok(TaggedValue::Number(Number::Float(bits)))
        } else {
            Err(UnsupportedTypeError {  })
        }
    } else if let Some(flag) = raw.as_boolean {
        Ok(TaggedValue::Boolean(flag))
    } else if raw.is_none {
        Ok(TaggedValue::Null)
    } else {
        Err(UnsupportedTypeError {  })
    }
}

/// Normalizes the entries of a map-like value into an object: each key must
/// be a string, each value is normalized in turn.
pub fn pydict_to_value(entries: &Vec<(RawValue, RawValue)>) -> (outcome: Result<
    TaggedValue,
    UnsupportedTypeError,
>)
    ensures
        outcome is Ok <==> forall|i: int|
            0 <= i < entries@.len() ==> (#[trigger] entries@[i]).0.as_string is Some && supported(
                entries@[i].1,
            ),
        match outcome {
            Ok(value) => entries_form(entries@) == Some(value@->Object_0) && value@ is Object,
            Err(_) => entries_form(entries@) is None,
        },
    decreases entries,
{
    proof {
        law_entries_one_for_one(entries@);
        assert forall|i: int| 0 <= i < entries@.len() implies (normal_form(
            (#[trigger] entries@[i]).1,
        ) is Some <==> supported(entries@[i].1)) by {
            law_supported(entries@[i].1);
        }
    }
    let mut normal: Vec<(String, TaggedValue)> = Vec::new();
    let mut i: usize = 0;
    assert(entries@.take(0) =~= Seq::empty());
    while i < entries.len()
        invariant
            i <= entries.len(),
            normal.len() == i,
            entries_form(entries@.take(i as int)) matches Some(front) && front.len() == i
                && forall|j: int|
                0 <= j < i ==> front[j] == ((#[trigger] normal[j]).0@, normal[j].1@),
        decreases entries.len() - i,
    {
        proof {
            assert(entries@.take(i + 1).drop_last() =~= entries@.take(i as int));
            assert(entries@.take(i + 1).last() == entries@[i as int]);
        }
        let key = match &entries[i].0.as_string {
            Some(key) => key.clone(),
            None => {
                proof {
                    lemma_entries_form_prefix(entries@, i + 1);
                }
                return Err(UnsupportedTypeError {  });
            },
        };
        let value = match py_to_value(&entries[i].1) {
            Ok(value) => value,
            Err(error) => {
                proof {
                    lemma_entries_form_prefix(entries@, i + 1);
                }
                return Err(error);
            },
        };
        normal.push((key, value));
        i = i + 1;
    }
    let object = TaggedValue::Object(normal);
    proof {
        assert(entries@.take(i as int) =~= entries@);
        object.lemma_view();
        let front = entries_form(entries@)->Some_0;
        assert forall|j: int| 0 <= j < front.len() implies front[j] == object@->Object_0[j] by {
            assert(object@.child(j) == normal[j].1@);
            assert(object@.own_keys()[j] == normal[j].0@);
        }
        assert(front =~= object@->Object_0);
    }
    Ok(object)
}

/// Normalizes the elements of a sequence-like value into an array, each
/// element in turn.
pub fn pylist_to_value(items: &Vec<RawValue>) -> (outcome: Result<
    TaggedValue,
    UnsupportedTypeError,
>)
    ensures
        outcome is Ok <==> forall|i: int| 0 <= i < items@.len() ==> supported(#[trigger] items@[i]),
        match outcome {
            Ok(value) => items_form(items@) == Some(value@->Array_0) && value@ is Array,
            Err(_) => items_form(items@) is None,
        },
    decreases items,
{
    proof {
        law_items_one_for_one(items@);
        assert forall|i: int| 0 <= i < items@.len() implies (normal_form(#[trigger] items@[i])
            is Some <==> supported(items@[i])) by {
            law_supported(items@[i]);
        }
    }
    let mut normal: Vec<TaggedValue> = Vec::new();
    let mut i: usize = 0;
    assert(items@.take(0) =~= Seq::empty());
    while i < items.len()
        invariant
            i <= items.len(),
            normal.len() == i,
            items_form(items@.take(i as int)) matches Some(front) && front.len() == i
                && forall|j: int| 0 <= j < i ==> front[j] == (#[trigger] normal[j])@,
        decreases items.len() - i,
    {
        proof {
            assert(items@.take(i + 1).drop_last() =~= items@.take(i as int));
            assert(items@.take(i + 1).last() == items@[i as int]);
        }
        let value = match py_to_value(&items[i]) {
            Ok(value) => value,
            Err(error) => {
                proof {
                    lemma_items_form_prefix(items@, i + 1);
                }
                return Err(error);
            },
        };
        normal.push(value);
        i = i + 1;
    }
    let array = TaggedValue::Array(normal);
    proof {
        assert(items@.take(i as int) =~= items@);
        array.lemma_view();
        let front = items_form(items@)->Some_0;
        assert forall|j: int| 0 <= j < front.len() implies front[j] == array@->Array_0[j] by {
            assert(array@.child(j) == normal[j]@);
        }
        assert(front =~= array@->Array_0);
    }
    Ok(array)
}

} // verus!
