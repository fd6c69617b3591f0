use heapquery::graph::{filter, is_essential_edge};
use heapquery::rows::{ingest, IngestOutput};
use heapquery::snapshot::{FieldDesc, RawSnapshot, SnapshotError};
use heapquery::text::u64_to_string;

fn strs(xs: &[&str]) -> Vec<String> {
    xs.iter().map(|s| s.to_string()).collect()
}

fn node_meta() -> (Vec<String>, Vec<FieldDesc>) {
    (
        strs(&["type", "name", "id", "self_size", "edge_count"]),
        vec![
            FieldDesc::Domain(strs(&["synthetic", "object"])),
            FieldDesc::Tag("string".to_string()),
            FieldDesc::Tag("number".to_string()),
            FieldDesc::Tag("number".to_string()),
            FieldDesc::Tag("number".to_string()),
        ],
    )
}

fn edge_meta() -> (Vec<String>, Vec<FieldDesc>) {
    (
        strs(&["type", "name_or_index", "to_node"]),
        vec![
            FieldDesc::Domain(strs(&[
                "context", "element", "property", "internal", "hidden", "shortcut", "weak",
            ])),
            FieldDesc::Tag("string_or_number".to_string()),
            FieldDesc::Tag("node".to_string()),
        ],
    )
}

fn snapshot(nodes: Vec<u64>, edges: Vec<u64>, strings: Vec<String>, locations: Vec<u64>) -> RawSnapshot {
    let (node_fields, node_types) = node_meta();
    let (edge_fields, edge_types) = edge_meta();
    RawSnapshot {
        node_fields,
        node_types,
        edge_fields,
        edge_types,
        nodes,
        edges,
        strings,
        locations,
    }
}

const PROPERTY: u64 = 2;
const SHORTCUT: u64 = 5;
const WEAK: u64 = 6;
const ELEMENT: u64 = 1;

fn run(s: &RawSnapshot) -> IngestOutput {
    ingest(s).expect("well-formed snapshot must ingest")
}

#[test]
fn minimal_snapshot() {
    let s = snapshot(
        vec![0, 0, 1, 0, 0],
        vec![],
        strs(&["(root)", "synthetic"]),
        vec![],
    );
    let out = run(&s);
    assert_eq!(out.node_rows.len(), 1);
    assert_eq!(out.edge_rows.len(), 0);
    assert_eq!(out.location_rows.len(), 0);
    let r = &out.node_rows[0];
    assert_eq!(r.id, 1);
    assert_eq!(r.name, "(root)");
    assert_eq!(r.kind, "synthetic");
    assert_eq!(r.self_size, 0);
    assert_eq!(r.children_count, 0);
    assert_eq!(r.distance, 0);
    assert_eq!(r.retain_size, 0);
}

#[test]
fn two_node_chain() {
    let s = snapshot(
        vec![0, 0, 1, 10, 1, 1, 1, 2, 7, 0],
        vec![PROPERTY, 0, 5],
        strs(&["(root)", "a"]),
        vec![],
    );
    let out = run(&s);
    assert_eq!(out.node_rows.len(), 2);
    assert_eq!(out.node_rows[0].distance, 0);
    assert_eq!(out.node_rows[0].retain_size, 10);
    assert_eq!(out.node_rows[1].id, 2);
    assert_eq!(out.node_rows[1].distance, 1);
    assert_eq!(out.node_rows[1].retain_size, 17);
    assert_eq!(out.edge_rows.len(), 1);
    let e = &out.edge_rows[0];
    assert_eq!(e.from, 1);
    assert_eq!(e.to, 2);
    assert_eq!(e.kind, "property");
}

#[test]
fn cycle_back_edge_is_persisted_but_not_retraversed() {
    // root(10) -> A(id 2, 5) -> B(id 3, 5) -> A
    let s = snapshot(
        vec![
            0, 0, 1, 10, 1, // root, one edge
            1, 1, 2, 5, 1, // A, one edge
            1, 2, 3, 5, 1, // B, one edge (back to A)
        ],
        vec![PROPERTY, 0, 5, PROPERTY, 0, 10, PROPERTY, 0, 5],
        strs(&["(root)", "a", "b"]),
        vec![],
    );
    let out = run(&s);
    assert_eq!(out.node_rows[1].distance, 1);
    assert_eq!(out.node_rows[1].retain_size, 15);
    assert_eq!(out.node_rows[2].distance, 2);
    assert_eq!(out.node_rows[2].retain_size, 20);
    assert_eq!(out.edge_rows.len(), 3);
    assert_eq!(out.edge_rows[2].from, 3);
    assert_eq!(out.edge_rows[2].to, 2);
}

#[test]
fn weak_edge_dropped_from_traversal_kept_in_persistence() {
    let s = snapshot(
        vec![0, 0, 1, 10, 1, 1, 1, 2, 7, 0],
        vec![WEAK, 0, 5],
        strs(&["(root)", "a"]),
        vec![],
    );
    let out = run(&s);
    assert_eq!(out.node_rows[1].distance, 0);
    assert_eq!(out.node_rows[1].retain_size, 7);
    assert_eq!(out.edge_rows.len(), 1);
    assert_eq!(out.edge_rows[0].kind, "weak");
}

#[test]
fn shortcut_honored_from_root_only() {
    // root -shortcut-> A; A -property-> B; B -shortcut-> A (persisted, not walked)
    let s = snapshot(
        vec![
            0, 0, 1, 0, 1, // root
            1, 1, 2, 1, 1, // A
            1, 2, 3, 1, 1, // B
        ],
        vec![SHORTCUT, 0, 5, PROPERTY, 0, 10, SHORTCUT, 0, 5],
        strs(&["(root)", "a", "b"]),
        vec![],
    );
    let out = run(&s);
    assert_eq!(out.node_rows[1].distance, 1);
    assert_eq!(out.node_rows[2].distance, 2);
    assert_eq!(out.edge_rows.len(), 3);
    assert_eq!(out.edge_rows[2].kind, "shortcut");
    // A was discovered through the root's shortcut, not re-seeded by B's
    assert_eq!(out.node_rows[1].retain_size, 1);
}

#[test]
fn numeric_edge_name_becomes_decimal_text() {
    let s = snapshot(
        vec![0, 0, 1, 0, 1, 1, 1, 2, 0, 0],
        vec![ELEMENT, 42, 5],
        strs(&["(root)", "a"]),
        vec![],
    );
    let out = run(&s);
    assert_eq!(out.edge_rows[0].name_or_index, "42");
    assert_eq!(out.edge_rows[0].kind, "element");
}

#[test]
fn string_table_overflow_falls_back_to_raw_integer() {
    // name index 9 overflows the two-entry string table: the raw integer is
    // stored (as decimal text), not an error
    let s = snapshot(
        vec![0, 9, 1, 0, 0],
        vec![],
        strs(&["(root)", "synthetic"]),
        vec![],
    );
    let out = run(&s);
    assert_eq!(out.node_rows[0].name, "9");
}

#[test]
fn location_rows_resolve_node_ids() {
    let s = snapshot(
        vec![0, 0, 1, 10, 1, 1, 1, 2, 7, 0],
        vec![PROPERTY, 0, 5],
        strs(&["(root)", "a"]),
        vec![5, 7, 8, 9, 0, 1, 2, 3],
    );
    let out = run(&s);
    assert_eq!(out.location_rows.len(), 2);
    assert_eq!(out.location_rows[0].node_id, 2);
    assert_eq!(out.location_rows[0].script_id, 7);
    assert_eq!(out.location_rows[0].line, 8);
    assert_eq!(out.location_rows[0].col, 9);
    assert_eq!(out.location_rows[1].node_id, 1);
}

#[test]
fn edge_row_conservation_on_sample() {
    let s = snapshot(
        vec![
            0, 0, 1, 0, 2, //
            1, 1, 2, 1, 1, //
            1, 2, 3, 1, 0,
        ],
        vec![PROPERTY, 0, 5, PROPERTY, 0, 10, WEAK, 0, 0],
        strs(&["(root)", "a", "b"]),
        vec![],
    );
    let out = run(&s);
    let total: u64 = out.node_rows.iter().map(|r| r.children_count).sum();
    assert_eq!(out.edge_rows.len() as u64, total);
    assert_eq!(out.node_rows.len(), s.nodes.len() / s.node_fields.len());
}

#[test]
fn unknown_meta_tag_is_decode_error() {
    let mut s = snapshot(vec![0, 0, 1, 0, 0], vec![], strs(&["(root)"]), vec![]);
    s.node_types[1] = FieldDesc::Tag("mystery".to_string());
    assert!(matches!(ingest(&s), Err(SnapshotError::Decode)));
}

#[test]
fn missing_required_field_is_parse_error() {
    let mut s = snapshot(vec![0, 0, 1, 0, 0], vec![], strs(&["(root)"]), vec![]);
    s.node_fields[2] = "ident".to_string();
    assert!(matches!(ingest(&s), Err(SnapshotError::Parse)));
}

#[test]
fn ragged_node_array_is_parse_error() {
    let s = snapshot(vec![0, 0, 1, 0], vec![], strs(&["(root)"]), vec![]);
    assert!(matches!(ingest(&s), Err(SnapshotError::Parse)));
}

#[test]
fn enum_index_out_of_domain_is_parse_error() {
    let s = snapshot(vec![17, 0, 1, 0, 0], vec![], strs(&["(root)"]), vec![]);
    assert!(matches!(ingest(&s), Err(SnapshotError::Parse)));
}

#[test]
fn bad_edge_destination_is_parse_error() {
    // to_node 7 is not a multiple of the node field count
    let s = snapshot(
        vec![0, 0, 1, 0, 1, 1, 1, 2, 0, 0],
        vec![PROPERTY, 0, 7],
        strs(&["(root)", "a"]),
        vec![],
    );
    assert!(matches!(ingest(&s), Err(SnapshotError::Parse)));
}

#[test]
fn missing_edge_data_is_parse_error() {
    let s = snapshot(
        vec![0, 0, 1, 0, 1],
        vec![PROPERTY, 0],
        strs(&["(root)"]),
        vec![],
    );
    assert!(matches!(ingest(&s), Err(SnapshotError::Parse)));
}

#[test]
fn ragged_locations_are_parse_error() {
    let s = snapshot(vec![0, 0, 1, 0, 0], vec![], strs(&["(root)"]), vec![5, 7, 8]);
    assert!(matches!(ingest(&s), Err(SnapshotError::Parse)));
}

#[test]
fn essential_edge_rules() {
    assert!(is_essential_edge("property", 1));
    assert!(is_essential_edge("property", 9));
    assert!(!is_essential_edge("weak", 1));
    assert!(!is_essential_edge("weak", 9));
    assert!(is_essential_edge("shortcut", 1));
    assert!(!is_essential_edge("shortcut", 9));
}

#[test]
fn filter_passes_everything_today() {
    assert!(filter("system / NativeContext", "hidden", "sloppy_function_map"));
    assert!(filter("", "", ""));
}

#[test]
fn decimal_rendering_is_exact() {
    assert_eq!(u64_to_string(0), "0");
    assert_eq!(u64_to_string(42), "42");
    assert_eq!(u64_to_string(10), "10");
    assert_eq!(u64_to_string(18446744073709551615), "18446744073709551615");
}
