use kglite_visual::appearance::{color, PALETTE_SIZE};
use kglite_visual::error::refuse_when;
use std::time::{Duration, Instant};

use kglite_visual::output::{MAX_OUTPUT_BYTES, MAX_OUTPUT_PROPERTY_BYTES};
use kglite_visual::output_values::{PropertyBudget, PropertyValue, BASE_ENCODED_BYTES};

fn work_deadline() -> Instant {
    Instant::now() + Duration::from_secs(10)
}

#[test]
fn owned_keys_and_nested_values_are_refused_before_clone() {
    let mut budget = PropertyBudget::new(work_deadline());
    assert!(budget
        .clone_text(&"k".repeat(MAX_OUTPUT_PROPERTY_BYTES + 1))
        .is_err());
    let mut nested = PropertyValue::Scalar;
    for _ in 0..34 {
        nested = PropertyValue::List(vec![nested]);
    }
    assert!(PropertyBudget::new(work_deadline())
        .clone_value(&nested)
        .is_err());
    assert!(PropertyBudget::new(Instant::now())
        .clone_value(&PropertyValue::Scalar)
        .is_err());
}

#[test]
fn encoded_preflight_accounts_for_escape_expansion_before_writer() {
    let mut budget = PropertyBudget::new(work_deadline());
    budget
        .clone_value(&PropertyValue::Text("\"<&".repeat(200_000)))
        .unwrap();
    assert!(budget.encoded > MAX_OUTPUT_BYTES);
}

#[test]
fn a_cloned_value_keeps_its_keys_items_and_order() {
    let value = PropertyValue::Entries(vec![
        ("name".to_string(), PropertyValue::Text("Ada".to_string())),
        (
            "tags".to_string(),
            PropertyValue::List(vec![PropertyValue::Scalar, PropertyValue::Text("x".to_string())]),
        ),
    ]);
    let mut budget = PropertyBudget::new(work_deadline());
    let copy = budget.clone_value(&value).unwrap();
    match copy {
        PropertyValue::Entries(items) => {
            assert_eq!(items.len(), 2);
            assert_eq!(items[0].0, "name");
            assert!(matches!(&items[0].1, PropertyValue::Text(t) if t == "Ada"));
            assert_eq!(items[1].0, "tags");
            match &items[1].1 {
                PropertyValue::List(tags) => {
                    assert_eq!(tags.len(), 2);
                    assert!(matches!(tags[0], PropertyValue::Scalar));
                    assert!(matches!(&tags[1], PropertyValue::Text(t) if t == "x"));
                }
                _ => panic!("tags changed kind"),
            }
        }
        _ => panic!("entries changed kind"),
    }
    assert!(budget.encoded > BASE_ENCODED_BYTES);
}

#[test]
fn graph_valued_and_non_finite_values_are_refused() {
    let mut budget = PropertyBudget::new(work_deadline());
    assert!(budget.clone_value(&PropertyValue::GraphValued).is_err());
    assert!(budget.clone_value(&PropertyValue::NonFinite { coordinate: true }).is_err());
    assert!(budget.clone_value(&PropertyValue::NonFinite { coordinate: false }).is_err());
}

#[test]
fn a_check_refuses_exactly_when_its_outcome_refused() {
    assert!(refuse_when(false, "late").is_ok());
    assert_eq!(refuse_when(true, "late").unwrap_err().message(), "late");
}

#[test]
fn colours_follow_the_key_order_and_the_palette_wraps_after_eight() {
    let keys = vec![
        Some("\"b\"".to_string()),
        Some("\"a\"".to_string()),
        None,
        Some("\"b\"".to_string()),
    ];
    let m = color(&keys).unwrap();
    assert_eq!(m.categories.len(), 2);
    assert_eq!((m.categories[0].key.as_str(), m.categories[0].count), ("\"a\"", 1));
    assert_eq!((m.categories[1].key.as_str(), m.categories[1].count), ("\"b\"", 2));
    assert_eq!(m.nodes, vec![Some(1), Some(0), None, Some(1)]);
    assert_eq!(m.other_categories, 0);

    let many: Vec<Option<String>> = (0..10).map(|i| Some(format!("{i}"))).collect();
    let m = color(&many).unwrap();
    assert_eq!(m.categories.len(), PALETTE_SIZE);
    assert_eq!(m.other_categories, 2);
    assert_eq!(m.nodes[8], Some(0));
    assert_eq!(m.nodes[9], Some(1));

    let huge = vec![Some("x".repeat(600 * 1024))];
    assert_eq!(color(&huge).unwrap_err().message(), "appearance categories exceed 1 MiB");
}
