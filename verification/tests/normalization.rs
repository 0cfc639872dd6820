use data_summarizer::normalize::{finite, py_to_value, pydict_to_value, pylist_to_value};
use data_summarizer::normalize::UnsupportedTypeError;
use data_summarizer::raw::RawValue;
use data_summarizer::value::{Number, TaggedValue};

fn key(name: &str) -> RawValue {
    RawValue::string(name.to_string())
}

#[test]
fn each_shape_normalizes_to_its_variant() {
    assert_eq!(
        py_to_value(&RawValue::string("x".to_string())),
        Ok(TaggedValue::String("x".to_string()))
    );
    assert_eq!(
        py_to_value(&RawValue::integer(-7)),
        Ok(TaggedValue::Number(Number::Integer(-7)))
    );
    assert_eq!(
        py_to_value(&RawValue::float(1.5f64.to_bits())),
        Ok(TaggedValue::Number(Number::Float(1.5f64.to_bits())))
    );
    assert_eq!(py_to_value(&RawValue::boolean(true)), Ok(TaggedValue::Boolean(true)));
    assert_eq!(py_to_value(&RawValue::boolean(false)), Ok(TaggedValue::Boolean(false)));
    assert_eq!(py_to_value(&RawValue::none()), Ok(TaggedValue::Null));
    assert_eq!(py_to_value(&RawValue::map(Vec::new())), Ok(TaggedValue::Object(Vec::new())));
    assert_eq!(py_to_value(&RawValue::sequence(Vec::new())), Ok(TaggedValue::Array(Vec::new())));
}

#[test]
fn integer_limits_are_kept() {
    assert_eq!(
        py_to_value(&RawValue::integer(i64::MAX)),
        Ok(TaggedValue::Number(Number::Integer(i64::MAX)))
    );
    assert_eq!(
        py_to_value(&RawValue::integer(i64::MIN)),
        Ok(TaggedValue::Number(Number::Integer(i64::MIN)))
    );
}

#[test]
fn unsupported_value_is_rejected() {
    assert_eq!(py_to_value(&RawValue::unsupported()), Err(UnsupportedTypeError {}));
}

#[test]
fn error_message_names_the_unsupported_type() {
    let error = py_to_value(&RawValue::unsupported()).unwrap_err();
    assert_eq!(error.message(), "Unsupported type.");
}

#[test]
fn nested_value_is_normalized_one_for_one() {
    let raw = RawValue::map(vec![
        (key("name"), RawValue::string("n".to_string())),
        (
            key("list"),
            RawValue::sequence(vec![
                RawValue::integer(1),
                RawValue::none(),
                RawValue::map(vec![(key("deep"), RawValue::boolean(true))]),
            ]),
        ),
    ]);
    let expected = TaggedValue::Object(vec![
        ("name".to_string(), TaggedValue::String("n".to_string())),
        (
            "list".to_string(),
            TaggedValue::Array(vec![
                TaggedValue::Number(Number::Integer(1)),
                TaggedValue::Null,
                TaggedValue::Object(vec![("deep".to_string(), TaggedValue::Boolean(true))]),
            ]),
        ),
    ]);
    assert_eq!(py_to_value(&raw), Ok(expected));
}

#[test]
fn entries_keep_their_order() {
    let entries = vec![
        (key("z"), RawValue::integer(1)),
        (key("a"), RawValue::integer(2)),
        (key("m"), RawValue::integer(3)),
    ];
    let expected = TaggedValue::Object(vec![
        ("z".to_string(), TaggedValue::Number(Number::Integer(1))),
        ("a".to_string(), TaggedValue::Number(Number::Integer(2))),
        ("m".to_string(), TaggedValue::Number(Number::Integer(3))),
    ]);
    assert_eq!(pydict_to_value(&entries), Ok(expected));
}

#[test]
fn elements_keep_their_order() {
    let items = vec![RawValue::integer(3), RawValue::integer(1), RawValue::integer(2)];
    let expected = TaggedValue::Array(vec![
        TaggedValue::Number(Number::Integer(3)),
        TaggedValue::Number(Number::Integer(1)),
        TaggedValue::Number(Number::Integer(2)),
    ]);
    assert_eq!(pylist_to_value(&items), Ok(expected));
}

#[test]
fn key_that_is_no_string_is_rejected() {
    let entries = vec![(RawValue::integer(1), RawValue::integer(2))];
    assert_eq!(pydict_to_value(&entries), Err(UnsupportedTypeError {}));
    let entries = vec![
        (key("a"), RawValue::integer(1)),
        (RawValue::none(), RawValue::integer(2)),
    ];
    assert_eq!(pydict_to_value(&entries), Err(UnsupportedTypeError {}));
}

#[test]
fn key_is_read_as_a_string_only() {
    let mut both = RawValue::integer(5);
    both.as_string = Some("five".to_string());
    let entries = vec![(both, RawValue::none())];
    assert_eq!(
        pydict_to_value(&entries),
        Ok(TaggedValue::Object(vec![("five".to_string(), TaggedValue::Null)]))
    );
}

#[test]
fn unsupported_element_fails_the_whole_sequence() {
    let items = vec![RawValue::integer(1), RawValue::unsupported(), RawValue::integer(3)];
    assert_eq!(pylist_to_value(&items), Err(UnsupportedTypeError {}));
    assert_eq!(py_to_value(&RawValue::sequence(items)), Err(UnsupportedTypeError {}));
}

#[test]
fn unsupported_value_deep_in_the_tree_fails_the_whole() {
    let raw = RawValue::map(vec![
        (key("a"), RawValue::integer(1)),
        (
            key("b"),
            RawValue::sequence(vec![RawValue::map(vec![(
                key("c"),
                RawValue::sequence(vec![RawValue::unsupported()]),
            )])]),
        ),
        (key("d"), RawValue::integer(2)),
    ]);
    assert_eq!(py_to_value(&raw), Err(UnsupportedTypeError {}));
}

#[test]
fn float_that_is_not_finite_is_rejected() {
    assert_eq!(
        py_to_value(&RawValue::float(f64::INFINITY.to_bits())),
        Err(UnsupportedTypeError {})
    );
    assert_eq!(
        py_to_value(&RawValue::float(f64::NEG_INFINITY.to_bits())),
        Err(UnsupportedTypeError {})
    );
    assert_eq!(py_to_value(&RawValue::float(f64::NAN.to_bits())), Err(UnsupportedTypeError {}));
}

#[test]
fn float_that_is_not_finite_is_rejected_before_later_tests() {
    let mut raw = RawValue::float(f64::NAN.to_bits());
    raw.as_boolean = Some(true);
    raw.is_none = true;
    assert_eq!(py_to_value(&raw), Err(UnsupportedTypeError {}));
}

#[test]
fn finite_floats_are_kept_bit_for_bit() {
    for value in [0.0f64, -0.0, 1.0, -2.5, f64::MAX, f64::MIN, f64::MIN_POSITIVE, 5e-324] {
        assert_eq!(
            py_to_value(&RawValue::float(value.to_bits())),
            Ok(TaggedValue::Number(Number::Float(value.to_bits())))
        );
    }
}

#[test]
fn finite_agrees_with_the_floating_point_test() {
    let samples = [
        0.0f64,
        -0.0,
        1.0,
        -1.0,
        f64::MAX,
        f64::MIN,
        f64::MIN_POSITIVE,
        5e-324,
        f64::EPSILON,
        f64::INFINITY,
        f64::NEG_INFINITY,
        f64::NAN,
        -f64::NAN,
    ];
    for value in samples {
        assert_eq!(finite(value.to_bits()), value.is_finite());
    }
    assert!(finite(0x7fef_ffff_ffff_ffff));
    assert!(!finite(0x7ff0_0000_0000_0000));
    assert!(!finite(0x7ff0_0000_0000_0001));
    assert!(!finite(0xfff0_0000_0000_0000));
    assert!(!finite(u64::MAX));
    assert!(finite(0x8000_0000_0000_0000));
}

fn every_test_passed() -> RawValue {
    RawValue {
        as_map: Some(Vec::new()),
        as_sequence: Some(Vec::new()),
        as_string: Some("s".to_string()),
        as_integer: Some(1),
        as_float: Some(1.0f64.to_bits()),
        as_boolean: Some(true),
        is_none: true,
    }
}

#[test]
fn first_test_passed_decides_the_variant() {
    let mut raw = every_test_passed();
    assert_eq!(py_to_value(&raw), Ok(TaggedValue::Object(Vec::new())));
    raw.as_map = None;
    assert_eq!(py_to_value(&raw), Ok(TaggedValue::Array(Vec::new())));
    raw.as_sequence = None;
    assert_eq!(py_to_value(&raw), Ok(TaggedValue::String("s".to_string())));
    raw.as_string = None;
    assert_eq!(py_to_value(&raw), Ok(TaggedValue::Number(Number::Integer(1))));
    raw.as_integer = None;
    assert_eq!(py_to_value(&raw), Ok(TaggedValue::Number(Number::Float(1.0f64.to_bits()))));
    raw.as_float = None;
    assert_eq!(py_to_value(&raw), Ok(TaggedValue::Boolean(true)));
    raw.as_boolean = None;
    assert_eq!(py_to_value(&raw), Ok(TaggedValue::Null));
    raw.is_none = false;
    assert_eq!(py_to_value(&raw), Err(UnsupportedTypeError {}));
}

#[test]
fn boolean_that_reads_as_an_integer_is_a_number() {
    let mut raw = RawValue::boolean(true);
    raw.as_integer = Some(1);
    raw.as_float = Some(1.0f64.to_bits());
    assert_eq!(py_to_value(&raw), Ok(TaggedValue::Number(Number::Integer(1))));
}

#[test]
fn integer_that_reads_as_a_float_stays_an_integer() {
    let mut raw = RawValue::integer(3);
    raw.as_float = Some(3.0f64.to_bits());
    assert_eq!(py_to_value(&raw), Ok(TaggedValue::Number(Number::Integer(3))));
}

#[test]
fn map_with_a_bad_entry_is_not_read_as_a_sequence() {
    let mut raw = RawValue::map(vec![(key("a"), RawValue::unsupported())]);
    raw.as_sequence = Some(Vec::new());
    raw.as_string = Some("s".to_string());
    assert_eq!(py_to_value(&raw), Err(UnsupportedTypeError {}));
}

#[test]
fn builders_set_one_shape_each() {
    let blank = RawValue::unsupported();
    assert_eq!(blank.as_map, None);
    assert_eq!(blank.as_sequence, None);
    assert_eq!(blank.as_string, None);
    assert_eq!(blank.as_integer, None);
    assert_eq!(blank.as_float, None);
    assert_eq!(blank.as_boolean, None);
    assert!(!blank.is_none);

    let mut expected = RawValue::unsupported();
    expected.as_integer = Some(4);
    assert_eq!(RawValue::integer(4), expected);

    let mut expected = RawValue::unsupported();
    expected.as_float = Some(9);
    assert_eq!(RawValue::float(9), expected);

    let mut expected = RawValue::unsupported();
    expected.as_boolean = Some(false);
    assert_eq!(RawValue::boolean(false), expected);

    let mut expected = RawValue::unsupported();
    expected.is_none = true;
    assert_eq!(RawValue::none(), expected);

    let mut expected = RawValue::unsupported();
    expected.as_string = Some("t".to_string());
    assert_eq!(RawValue::string("t".to_string()), expected);

    let mut expected = RawValue::unsupported();
    expected.as_sequence = Some(vec![RawValue::none()]);
    assert_eq!(RawValue::sequence(vec![RawValue::none()]), expected);

    let mut expected = RawValue::unsupported();
    expected.as_map = Some(vec![(RawValue::none(), RawValue::none())]);
    assert_eq!(RawValue::map(vec![(RawValue::none(), RawValue::none())]), expected);
}
