//! Flattening-engine tests: determinism, ordering, exclusion, and the
//! pairing of array elements with their owners.

use demo_schema::datatable::{ParseSendTable, SendTableName};
use demo_schema::sendprop::{
    RawSendPropDefinition, SendPropFlag, SendPropFlags, SendPropIdentifier, SendPropType,
};

fn leaf(table: &str, name: &str, changes_often: bool) -> RawSendPropDefinition {
    let flags = if changes_often {
        SendPropFlags::default().with(SendPropFlag::ChangesOften)
    } else {
        SendPropFlags::default()
    };
    RawSendPropDefinition {
        prop_type: SendPropType::Int,
        name: name.to_owned(),
        identifier: SendPropIdentifier::new(table, name),
        flags,
        table_name: None,
        low_value: Some(0),
        high_value: Some(0),
        bit_count: Some(16),
        element_count: None,
        array_property: None,
        original_bit_count: Some(16),
    }
}

fn reference(table: &str, name: &str, target: &str, collapsible: bool) -> RawSendPropDefinition {
    let flags = if collapsible {
        SendPropFlags::default().with(SendPropFlag::Collapsible)
    } else {
        SendPropFlags::default()
    };
    RawSendPropDefinition {
        prop_type: SendPropType::DataTable,
        name: name.to_owned(),
        identifier: SendPropIdentifier::new(table, name),
        flags,
        table_name: Some(SendTableName(target.to_owned())),
        low_value: None,
        high_value: None,
        bit_count: None,
        element_count: None,
        array_property: None,
        original_bit_count: None,
    }
}

fn exclude(table: &str, name: &str, target: &str) -> RawSendPropDefinition {
    RawSendPropDefinition {
        prop_type: SendPropType::DataTable,
        name: name.to_owned(),
        identifier: SendPropIdentifier::new(table, name),
        flags: SendPropFlags::default().with(SendPropFlag::Exclude),
        table_name: Some(SendTableName(target.to_owned())),
        low_value: None,
        high_value: None,
        bit_count: None,
        element_count: None,
        array_property: None,
        original_bit_count: None,
    }
}

fn table(name: &str, props: Vec<RawSendPropDefinition>) -> ParseSendTable {
    ParseSendTable { name: SendTableName(name.to_owned()), props, needs_decoder: true }
}

fn base_tables() -> Vec<ParseSendTable> {
    vec![
        table(
            "outer",
            vec![
                leaf("outer", "a", false),
                reference("outer", "spliced", "inner", true),
                leaf("outer", "b", true),
                reference("outer", "block", "tail", false),
            ],
        ),
        table("inner", vec![leaf("inner", "ia", true), leaf("inner", "ib", false)]),
        table("tail", vec![leaf("tail", "ta", false), leaf("tail", "tb", true)]),
    ]
}

#[test]
fn flattening_is_deterministic() {
    let tables = base_tables();
    let first = tables[0].flatten_props(&tables).expect("flattens");
    let second = tables[0].flatten_props(&tables).expect("flattens");
    assert_eq!(first.len(), second.len());
    for (x, y) in first.iter().zip(second.iter()) {
        assert_eq!(x.name, y.name);
        assert_eq!(x.identifier, y.identifier);
        assert_eq!(x.prop_type, y.prop_type);
        assert_eq!(x.flags, y.flags);
    }
}

#[test]
fn changes_often_props_come_first_in_original_order() {
    let tables = base_tables();
    let flat = tables[0].flatten_props(&tables).expect("flattens");
    // collapsible "inner" splices at the current level, "tail" forms its own
    // trailing block; the partition then moves changes-often entries first.
    let names: Vec<&str> = flat.iter().map(|p| p.name.as_str()).collect();
    assert_eq!(names, vec!["tb", "ia", "b", "ta", "a", "ib"]);
    let mut seen_ordinary = false;
    for p in flat.iter() {
        if p.changes_often() {
            assert!(!seen_ordinary, "a changes-often property after an ordinary one");
        } else {
            seen_ordinary = true;
        }
    }
}

#[test]
fn excluded_property_never_appears() {
    let tables = vec![
        table(
            "root",
            vec![exclude("root", "px", "child"), reference("root", "sub", "child", false)],
        ),
        table("child", vec![leaf("child", "px", false), leaf("child", "py", false)]),
    ];
    let flat = tables[0].flatten_props(&tables).expect("flattens");
    let names: Vec<&str> = flat.iter().map(|p| p.name.as_str()).collect();
    assert_eq!(names, vec!["py"]);
}

#[test]
fn exclusion_propagates_through_references() {
    // "root" references "mid"; "mid" holds the exclusion directive against
    // "child"; the excluded identifier must not survive anywhere under
    // "root" either.
    let tables = vec![
        table("root", vec![reference("root", "m", "mid", false), reference(
            "root", "c", "child", false,
        )]),
        table("mid", vec![exclude("mid", "px", "child")]),
        table("child", vec![leaf("child", "px", false), leaf("child", "py", false)]),
    ];
    let flat = tables[0].flatten_props(&tables).expect("flattens");
    let names: Vec<&str> = flat.iter().map(|p| p.name.as_str()).collect();
    assert_eq!(names, vec!["py"]);
}

#[test]
fn paired_array_flattens_to_one_entry() {
    let owner = RawSendPropDefinition {
        prop_type: SendPropType::Array,
        name: "arr".to_owned(),
        identifier: SendPropIdentifier::new("t", "arr"),
        flags: SendPropFlags::default(),
        table_name: None,
        low_value: None,
        high_value: None,
        bit_count: None,
        element_count: Some(4),
        array_property: Some(Box::new(RawSendPropDefinition {
            prop_type: SendPropType::Int,
            name: "elem".to_owned(),
            identifier: SendPropIdentifier::new("t", "elem"),
            flags: SendPropFlags::default().with(SendPropFlag::InsideArray),
            table_name: None,
            low_value: Some(0),
            high_value: Some(0),
            bit_count: Some(8),
            element_count: None,
            array_property: None,
            original_bit_count: Some(8),
        })),
        original_bit_count: None,
    };
    let tables = vec![table("t", vec![owner])];
    let flat = tables[0].flatten_props(&tables).expect("flattens");
    assert_eq!(flat.len(), 1);
    assert_eq!(flat[0].prop_type, SendPropType::Array);
    assert_eq!(flat[0].name.as_str(), "arr");
    assert!(flat[0].array_property.is_some());
}

#[test]
fn cyclic_references_fail_cleanly() {
    let tables = vec![
        table("a", vec![reference("a", "to_b", "b", false)]),
        table("b", vec![reference("b", "to_a", "a", false)]),
    ];
    assert!(tables[0].flatten_props(&tables).is_err());
}
