use std::collections::HashMap;

use mcl::nbt::load_chunk;
use mcl::nbt::DecodeError;
use mcl::nbt::Schema;

fn compound(entries: Vec<(&str, fastnbt::Value)>) -> fastnbt::Value {
    let mut m: HashMap<String, fastnbt::Value> = HashMap::new();
    for (k, v) in entries {
        m.insert(k.to_string(), v);
    }
    fastnbt::Value::Compound(m)
}

fn flat_payload(version: i32, inhabited: i64, section_ys: &[i8]) -> Vec<u8> {
    let sections: Vec<fastnbt::Value> = section_ys
        .iter()
        .map(|y| compound(vec![("Y", fastnbt::Value::Byte(*y))]))
        .collect();
    let root = compound(vec![
        ("DataVersion", fastnbt::Value::Int(version)),
        ("InhabitedTime", fastnbt::Value::Long(inhabited)),
        ("sections", fastnbt::Value::List(sections)),
    ]);
    fastnbt::to_bytes(&root).unwrap()
}

fn nested_payload(version: i32, inhabited: i64, section_ys: &[i8]) -> Vec<u8> {
    let sections: Vec<fastnbt::Value> = section_ys
        .iter()
        .map(|y| compound(vec![("Y", fastnbt::Value::Byte(*y))]))
        .collect();
    let level = compound(vec![
        ("InhabitedTime", fastnbt::Value::Long(inhabited)),
        ("Sections", fastnbt::Value::List(sections)),
    ]);
    let root = compound(vec![
        ("DataVersion", fastnbt::Value::Int(version)),
        ("Level", level),
    ]);
    fastnbt::to_bytes(&root).unwrap()
}

#[test]
fn version_tag_dispatches_between_schemas() {
    // A tag at the schema revision decodes through the flat layout, one
    // below it through the nested layout, and semantically equivalent fields
    // yield the same inhabited time.
    let flat = flat_payload(2825, 777, &[0, 1]);
    let nested = nested_payload(2724, 777, &[0, 1]);
    let c_flat = load_chunk(&flat).unwrap();
    let c_nested = load_chunk(&nested).unwrap();
    assert!(c_flat.schema == Schema::Flat);
    assert!(c_nested.schema == Schema::Nested);
    assert_eq!(c_flat.inhabited_time(), 777);
    assert_eq!(c_nested.inhabited_time(), 777);
    assert_eq!(c_flat.inhabited_time(), c_nested.inhabited_time());
    assert_eq!(c_flat.sections().len(), 2);
    assert_eq!(c_nested.sections().len(), 2);
    assert_eq!(c_flat.sections()[1].y, 1);
    assert_eq!(c_nested.sections()[1].y, 1);
}

#[test]
fn missing_version_tag_fails() {
    let root = compound(vec![("InhabitedTime", fastnbt::Value::Long(3))]);
    let bytes = fastnbt::to_bytes(&root).unwrap();
    assert!(matches!(load_chunk(&bytes), Err(DecodeError::MissingVersion)));
    assert!(matches!(load_chunk(b"not a document"), Err(DecodeError::MissingVersion)));
}

#[test]
fn missing_required_fields_fail() {
    // Flat layout without a section list.
    let root = compound(vec![
        ("DataVersion", fastnbt::Value::Int(2860)),
        ("InhabitedTime", fastnbt::Value::Long(3)),
    ]);
    let bytes = fastnbt::to_bytes(&root).unwrap();
    assert!(matches!(load_chunk(&bytes), Err(DecodeError::BadFields)));
    // Nested layout without the Level wrapper.
    let root = compound(vec![("DataVersion", fastnbt::Value::Int(100))]);
    let bytes = fastnbt::to_bytes(&root).unwrap();
    assert!(matches!(load_chunk(&bytes), Err(DecodeError::BadFields)));
    // A flat-layout document whose fields sit under Level fails the flat
    // schema even though it would satisfy the nested one.
    let nested_with_new_tag = nested_payload(2825, 4, &[0]);
    assert!(matches!(load_chunk(&nested_with_new_tag), Err(DecodeError::BadFields)));
}

#[test]
fn block_entities_are_optional_and_positional() {
    let entities = fastnbt::Value::List(vec![
        compound(vec![
            ("x", fastnbt::Value::Int(1)),
            ("y", fastnbt::Value::Int(64)),
            ("z", fastnbt::Value::Int(-9)),
        ]),
        compound(vec![("id", fastnbt::Value::String("chest".to_string()))]),
    ]);
    let root = compound(vec![
        ("DataVersion", fastnbt::Value::Int(2825)),
        ("InhabitedTime", fastnbt::Value::Long(0)),
        ("sections", fastnbt::Value::List(vec![])),
        ("block_entities", entities),
    ]);
    let bytes = fastnbt::to_bytes(&root).unwrap();
    let c = load_chunk(&bytes).unwrap();
    // The entry without position fields is skipped.
    assert_eq!(c.block_entities().len(), 1);
    assert_eq!(c.block_entities()[0].x, 1);
    assert_eq!(c.block_entities()[0].y, 64);
    assert_eq!(c.block_entities()[0].z, -9);
    // Absent list decodes as no entities.
    let no_list = flat_payload(2825, 0, &[]);
    assert_eq!(load_chunk(&no_list).unwrap().block_entities().len(), 0);
}

fn block_state_table() -> fastnbt::Value {
    compound(vec![(
        "palette",
        fastnbt::Value::List(vec![compound(vec![(
            "Name",
            fastnbt::Value::String("minecraft:stone".to_string()),
        )])]),
    )])
}

#[test]
fn section_block_state_presence_is_reported() {
    let sections = fastnbt::Value::List(vec![
        compound(vec![("Y", fastnbt::Value::Byte(-4))]),
        compound(vec![("Y", fastnbt::Value::Byte(0)), ("block_states", block_state_table())]),
    ]);
    let root = compound(vec![
        ("DataVersion", fastnbt::Value::Int(2825)),
        ("InhabitedTime", fastnbt::Value::Long(5)),
        ("sections", sections),
    ]);
    let bytes = fastnbt::to_bytes(&root).unwrap();
    let c = load_chunk(&bytes).unwrap();
    assert_eq!(c.sections().len(), 2);
    assert!(!c.sections()[0].has_block_states);
    assert!(c.sections()[1].has_block_states);
}

#[test]
fn malformed_block_state_table_fails_decode() {
    // A block-state table that is present but not a palette-indexed table
    // makes the payload structurally invalid, as under the strict schema.
    let sections = fastnbt::Value::List(vec![compound(vec![
        ("Y", fastnbt::Value::Byte(0)),
        ("block_states", fastnbt::Value::Int(3)),
    ])]);
    let root = compound(vec![
        ("DataVersion", fastnbt::Value::Int(2825)),
        ("InhabitedTime", fastnbt::Value::Long(5)),
        ("sections", sections),
    ]);
    let bytes = fastnbt::to_bytes(&root).unwrap();
    assert!(matches!(load_chunk(&bytes), Err(DecodeError::BadFields)));
}

/// A document of nothing but `levels` nested empty-named compounds.
fn nested_compound_doc(levels: usize) -> Vec<u8> {
    let mut doc: Vec<u8> = vec![0x0A, 0, 0];
    for _ in 0..levels {
        doc.extend_from_slice(&[0x0A, 0, 0]);
    }
    for _ in 0..levels + 1 {
        doc.push(0x00);
    }
    doc
}

#[test]
fn deeply_nested_payload_is_rejected_up_front() {
    // The decoder recurses per nesting level, so a nesting bomb must be
    // turned away by the verified pre-scan, not handed to it.
    let bomb = nested_compound_doc(200);
    assert!(!mcl::nbt::doc_shallow(&bomb));
    assert!(matches!(load_chunk(&bomb), Err(DecodeError::MissingVersion)));
    // Nesting within the bound passes the scan (and then fails decoding
    // only for its missing version tag).
    let deep_but_fine = nested_compound_doc(100);
    assert!(mcl::nbt::doc_shallow(&deep_but_fine));
    assert!(matches!(load_chunk(&deep_but_fine), Err(DecodeError::MissingVersion)));
    // Real payloads pass the scan.
    assert!(mcl::nbt::doc_shallow(&flat_payload(2825, 1, &[0])));
    assert!(mcl::nbt::doc_shallow(&nested_payload(2724, 1, &[0])));
}
