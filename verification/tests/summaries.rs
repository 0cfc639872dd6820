use data_summarizer::summary::{summarize_value, try_summarize_value, Summary, TypeHistogram};
use data_summarizer::value::{Number, TaggedValue, TypeTag};

fn whole(value: i64) -> TaggedValue {
    TaggedValue::Number(Number::Integer(value))
}

fn text(value: &str) -> TaggedValue {
    TaggedValue::String(value.to_string())
}

fn object(entries: Vec<(&str, TaggedValue)>) -> TaggedValue {
    TaggedValue::Object(
        entries
            .into_iter()
            .map(|(key, value)| (key.to_string(), value))
            .collect(),
    )
}

fn names(keys: &[&str]) -> Vec<String> {
    keys.iter().map(|key| key.to_string()).collect()
}

fn histogram(counts: [usize; 6]) -> TypeHistogram {
    TypeHistogram {
        object: counts[0],
        array: counts[1],
        string: counts[2],
        number: counts[3],
        boolean: counts[4],
        null: counts[5],
    }
}

#[test]
fn scalar_at_the_root() {
    let expect = |value: TaggedValue, counts: [usize; 6]| {
        let summary = summarize_value(&value);
        assert_eq!(
            summary,
            Summary {
                size: 1,
                keys: Vec::new(),
                nested_object_count: 0,
                type_histogram: histogram(counts),
                nested_array_with_object_count: 0,
            }
        );
    };
    expect(text("x"), [0, 0, 1, 0, 0, 0]);
    expect(whole(3), [0, 0, 0, 1, 0, 0]);
    expect(TaggedValue::Number(Number::Float(2.5f64.to_bits())), [0, 0, 0, 1, 0, 0]);
    expect(TaggedValue::Boolean(false), [0, 0, 0, 0, 1, 0]);
    expect(TaggedValue::Null, [0, 0, 0, 0, 0, 1]);
}

#[test]
fn empty_array_at_the_root() {
    let summary = summarize_value(&TaggedValue::Array(Vec::new()));
    assert_eq!(
        summary,
        Summary {
            size: 0,
            keys: Vec::new(),
            nested_object_count: 0,
            type_histogram: histogram([0, 1, 0, 0, 0, 0]),
            nested_array_with_object_count: 0,
        }
    );
}

#[test]
fn array_adds_nothing_to_size_by_itself() {
    let nested = TaggedValue::Array(vec![
        TaggedValue::Array(Vec::new()),
        TaggedValue::Array(vec![TaggedValue::Array(Vec::new())]),
    ]);
    let summary = summarize_value(&nested);
    assert_eq!(summary.size, 0);
    assert_eq!(summary.type_histogram, histogram([0, 4, 0, 0, 0, 0]));
}

#[test]
fn array_with_several_objects_is_counted_once() {
    let value = TaggedValue::Array(vec![
        object(vec![]),
        whole(1),
        object(vec![("k", TaggedValue::Null)]),
        object(vec![]),
    ]);
    let summary = summarize_value(&value);
    assert_eq!(summary.nested_array_with_object_count, 1);
    assert_eq!(summary.nested_object_count, 3);
    assert_eq!(summary.size, 3);
    assert_eq!(summary.keys, names(&["k"]));
    assert_eq!(summary.type_histogram, histogram([3, 1, 0, 1, 0, 1]));
}

#[test]
fn only_direct_children_make_an_array_count() {
    let value = TaggedValue::Array(vec![TaggedValue::Array(vec![object(vec![])])]);
    let summary = summarize_value(&value);
    assert_eq!(summary.nested_array_with_object_count, 1);

    let value = TaggedValue::Array(vec![object(vec![(
        "a",
        TaggedValue::Array(vec![whole(1)]),
    )])]);
    let summary = summarize_value(&value);
    assert_eq!(summary.nested_array_with_object_count, 1);
    assert_eq!(summary.type_histogram, histogram([1, 2, 0, 1, 0, 0]));
}

#[test]
fn each_qualifying_array_is_counted() {
    let value = object(vec![
        ("a", TaggedValue::Array(vec![object(vec![]), object(vec![])])),
        ("b", TaggedValue::Array(vec![whole(1)])),
        ("c", TaggedValue::Array(vec![TaggedValue::Null, object(vec![])])),
    ]);
    let summary = summarize_value(&value);
    assert_eq!(summary.nested_array_with_object_count, 2);
    assert_eq!(summary.nested_object_count, 4);
    assert_eq!(summary.size, 5);
}

#[test]
fn keys_come_once_in_order_of_first_occurrence() {
    let value = object(vec![
        ("b", object(vec![("a", whole(1)), ("b", whole(2))])),
        ("c", TaggedValue::Array(vec![object(vec![("a", whole(3)), ("d", whole(4))])])),
        ("a", whole(5)),
    ]);
    let summary = summarize_value(&value);
    assert_eq!(summary.keys, names(&["b", "c", "a", "d"]));
    assert_eq!(summary.size, 12);
}

#[test]
fn strings_in_arrays_are_no_keys() {
    let value = object(vec![(
        "list",
        TaggedValue::Array(vec![text("not_a_key"), text("list2")]),
    )]);
    let summary = summarize_value(&value);
    assert_eq!(summary.keys, names(&["list"]));
    let value = TaggedValue::Array(vec![text("a"), text("b")]);
    assert!(summarize_value(&value).keys.is_empty());
}

#[test]
fn key_repeated_within_one_object_is_one_key_and_two_entries() {
    let value = object(vec![("a", whole(1)), ("a", whole(2))]);
    let summary = summarize_value(&value);
    assert_eq!(summary.keys, names(&["a"]));
    assert_eq!(summary.size, 4);
}

#[test]
fn size_is_leaves_plus_entries() {
    let value = object(vec![
        ("a", TaggedValue::Array(vec![whole(1), text("x"), TaggedValue::Null])),
        ("b", object(vec![("c", TaggedValue::Boolean(true)), ("d", object(vec![]))])),
        ("e", TaggedValue::Array(Vec::new())),
    ]);
    let leaves = 4;
    let entries = 3 + 2;
    let summary = summarize_value(&value);
    assert_eq!(summary.size, leaves + entries);
}

#[test]
fn histogram_sums_to_objects_arrays_and_leaves() {
    let value = object(vec![
        ("a", TaggedValue::Array(vec![whole(1), text("x"), TaggedValue::Null])),
        ("b", object(vec![("c", TaggedValue::Boolean(true)), ("d", object(vec![]))])),
        ("e", TaggedValue::Array(Vec::new())),
    ]);
    let summary = summarize_value(&value);
    let sum: usize = summary
        .type_histogram
        .entries()
        .iter()
        .map(|entry| entry.1)
        .sum();
    let arrays = 2;
    let leaves = 4;
    assert_eq!(summary.nested_object_count, 3);
    assert_eq!(sum, summary.nested_object_count + arrays + leaves);
    assert_eq!(summary.type_histogram, histogram([3, 2, 1, 1, 1, 1]));
}

#[test]
fn keys_are_the_union_of_the_objects_own_keys() {
    let value = object(vec![
        ("outer", TaggedValue::Array(vec![
            object(vec![("x", text("outer")), ("y", whole(1))]),
            text("z"),
        ])),
        ("y", object(vec![("w", TaggedValue::Null)])),
    ]);
    let mut keys = summarize_value(&value).keys;
    keys.sort();
    assert_eq!(keys, names(&["outer", "w", "x", "y"]));
}

#[test]
fn summarizing_twice_gives_the_same_summary() {
    let value = object(vec![
        ("a", TaggedValue::Array(vec![whole(1), object(vec![("b", whole(2))])])),
        ("c", text("x")),
    ]);
    let first = summarize_value(&value);
    let second = summarize_value(&value);
    assert_eq!(first, second);
    assert_eq!(try_summarize_value(&value), Some(first));
}

#[test]
fn try_summarize_gives_the_summary() {
    let value = object(vec![("a", TaggedValue::Array(vec![whole(1), whole(2), whole(3)]))]);
    let summary = try_summarize_value(&value).expect("the counts fit");
    assert_eq!(
        summary,
        Summary {
            size: 4,
            keys: names(&["a"]),
            nested_object_count: 1,
            type_histogram: histogram([1, 1, 0, 3, 0, 0]),
            nested_array_with_object_count: 0,
        }
    );
}

#[test]
fn deep_nesting_is_followed_to_the_bottom() {
    let mut value = whole(0);
    for depth in 0..50 {
        value = if depth % 2 == 0 {
            TaggedValue::Array(vec![value])
        } else {
            object(vec![("k", value)])
        };
    }
    let summary = summarize_value(&value);
    assert_eq!(summary.nested_object_count, 25);
    assert_eq!(summary.type_histogram, histogram([25, 25, 0, 1, 0, 0]));
    assert_eq!(summary.size, 26);
    assert_eq!(summary.nested_array_with_object_count, 24);
    assert_eq!(summary.keys, names(&["k"]));
}

#[test]
fn new_summary_is_empty() {
    assert_eq!(
        Summary::new(),
        Summary {
            size: 0,
            keys: Vec::new(),
            nested_object_count: 0,
            type_histogram: histogram([0, 0, 0, 0, 0, 0]),
            nested_array_with_object_count: 0,
        }
    );
    assert_eq!(TypeHistogram::new(), histogram([0, 0, 0, 0, 0, 0]));
    assert!(TypeHistogram::new().entries().is_empty());
}

#[test]
fn histogram_lists_the_tags_that_occurred_in_tag_order() {
    let all = histogram([6, 5, 4, 3, 2, 1]);
    assert_eq!(
        all.entries(),
        vec![
            (TypeTag::Object, 6),
            (TypeTag::Array, 5),
            (TypeTag::String, 4),
            (TypeTag::Number, 3),
            (TypeTag::Boolean, 2),
            (TypeTag::Null, 1),
        ]
    );
    let some = histogram([0, 7, 0, 0, 9, 0]);
    assert_eq!(some.entries(), vec![(TypeTag::Array, 7), (TypeTag::Boolean, 9)]);
}

#[test]
fn histogram_entry_is_absent_until_the_tag_occurs() {
    let counts = histogram([0, 2, 0, 1, 0, 0]);
    assert_eq!(counts.get(TypeTag::Object), None);
    assert_eq!(counts.get(TypeTag::Array), Some(2));
    assert_eq!(counts.get(TypeTag::Number), Some(1));
    assert_eq!(counts.count(TypeTag::Object), 0);
    assert_eq!(counts.count(TypeTag::Array), 2);
    assert_eq!(counts.count(TypeTag::String), 0);
    assert_eq!(counts.count(TypeTag::Number), 1);
    assert_eq!(counts.count(TypeTag::Boolean), 0);
    assert_eq!(counts.count(TypeTag::Null), 0);
}

#[test]
fn tags_have_their_fixed_names() {
    assert_eq!(TypeTag::Object.name(), "Object");
    assert_eq!(TypeTag::Array.name(), "Array");
    assert_eq!(TypeTag::String.name(), "String");
    assert_eq!(TypeTag::Number.name(), "Number");
    assert_eq!(TypeTag::Boolean.name(), "Boolean");
    assert_eq!(TypeTag::Null.name(), "Null");
}

#[test]
fn node_reports_its_tag() {
    assert_eq!(object(vec![]).tag(), TypeTag::Object);
    assert_eq!(TaggedValue::Array(Vec::new()).tag(), TypeTag::Array);
    assert_eq!(text("").tag(), TypeTag::String);
    assert_eq!(whole(0).tag(), TypeTag::Number);
    assert_eq!(TaggedValue::Boolean(true).tag(), TypeTag::Boolean);
    assert_eq!(TaggedValue::Null.tag(), TypeTag::Null);
}
