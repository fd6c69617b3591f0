use heapquery::dbname::{assoc_db_name, setup_db_if_needed};
use heapquery::jsonio::ingest_snapshot_text;
use heapquery::snapshot::SnapshotError;

const MINIMAL: &str = r#"{
  "snapshot": {
    "meta": {
      "node_fields": ["type", "name", "id", "self_size", "edge_count"],
      "node_types": [["synthetic", "object"], "string", "number", "number", "number"],
      "edge_fields": ["type", "name_or_index", "to_node"],
      "edge_types": [["context", "element", "property", "internal", "hidden", "shortcut", "weak"],
                     "string_or_number", "node"]
    },
    "node_count": 1,
    "edge_count": 0
  },
  "nodes": [0, 0, 1, 0, 0],
  "edges": [],
  "strings": ["(root)", "synthetic"],
  "locations": []
}"#;

const CHAIN: &str = r#"{
  "snapshot": {
    "meta": {
      "node_fields": ["type", "name", "id", "self_size", "edge_count"],
      "node_types": [["synthetic", "object"], "string", "number", "number", "number"],
      "edge_fields": ["type", "name_or_index", "to_node"],
      "edge_types": [["context", "element", "property", "internal", "hidden", "shortcut", "weak"],
                     "string_or_number", "node"]
    }
  },
  "nodes": [0, 0, 1, 10, 1,
            1, 1, 2, 7, 0],
  "edges": [2, 0, 5],
  "strings": ["(root)", "a"],
  "locations": []
}"#;

#[test]
fn text_pipeline_minimal() {
    let out = ingest_snapshot_text(MINIMAL).expect("minimal snapshot ingests");
    assert_eq!(out.node_rows.len(), 1);
    assert_eq!(out.node_rows[0].id, 1);
    assert_eq!(out.node_rows[0].name, "(root)");
    assert_eq!(out.node_rows[0].kind, "synthetic");
    assert_eq!(out.node_rows[0].distance, 0);
    assert_eq!(out.node_rows[0].retain_size, 0);
    assert_eq!(out.edge_rows.len(), 0);
    assert_eq!(out.location_rows.len(), 0);
}

#[test]
fn text_pipeline_chain() {
    let out = ingest_snapshot_text(CHAIN).expect("chain snapshot ingests");
    assert_eq!(out.node_rows[1].distance, 1);
    assert_eq!(out.node_rows[1].retain_size, 17);
    assert_eq!(out.edge_rows.len(), 1);
    assert_eq!(out.edge_rows[0].from, 1);
    assert_eq!(out.edge_rows[0].to, 2);
    assert_eq!(out.edge_rows[0].kind, "property");
    assert_eq!(out.edge_rows[0].name_or_index, "(root)");
}

#[test]
fn text_pipeline_same_input_same_tables() {
    let a = ingest_snapshot_text(CHAIN).expect("chain snapshot ingests");
    let b = ingest_snapshot_text(CHAIN).expect("chain snapshot ingests");
    assert_eq!(a.node_rows.len(), b.node_rows.len());
    for (x, y) in a.node_rows.iter().zip(b.node_rows.iter()) {
        assert_eq!(x.id, y.id);
        assert_eq!(x.name, y.name);
        assert_eq!(x.kind, y.kind);
        assert_eq!(x.self_size, y.self_size);
        assert_eq!(x.children_count, y.children_count);
        assert_eq!(x.distance, y.distance);
        assert_eq!(x.retain_size, y.retain_size);
    }
    assert_eq!(a.edge_rows.len(), b.edge_rows.len());
    for (x, y) in a.edge_rows.iter().zip(b.edge_rows.iter()) {
        assert_eq!(x.from, y.from);
        assert_eq!(x.to, y.to);
        assert_eq!(x.kind, y.kind);
        assert_eq!(x.name_or_index, y.name_or_index);
    }
}

#[test]
fn malformed_json_is_parse_error() {
    assert!(matches!(ingest_snapshot_text("{ not json"), Err(SnapshotError::Parse)));
}

#[test]
fn missing_snapshot_member_is_parse_error() {
    assert!(matches!(ingest_snapshot_text("{\"nodes\": []}"), Err(SnapshotError::Parse)));
}

#[test]
fn non_integer_node_entry_is_parse_error() {
    let text = MINIMAL.replace("\"nodes\": [0, 0, 1, 0, 0]", "\"nodes\": [0, 0, \"x\", 0, 0]");
    assert!(matches!(ingest_snapshot_text(&text), Err(SnapshotError::Parse)));
}

#[test]
fn unknown_type_tag_in_text_is_decode_error() {
    let text = MINIMAL.replace("\"string\", \"number\", \"number\", \"number\"",
        "\"string\", \"number_or_else\", \"number\", \"number\"");
    assert!(matches!(ingest_snapshot_text(&text), Err(SnapshotError::Decode)));
}

#[test]
fn db_name_from_path() {
    assert_eq!(assoc_db_name("dir/foo.heapsnapshot"), "foo.db3");
    assert_eq!(assoc_db_name("foo.heapsnapshot"), "foo.db3");
    assert_eq!(assoc_db_name("/a/b/archive.tar.gz"), "archive.tar.db3");
    assert_eq!(assoc_db_name(".bashrc"), ".bashrc.db3");
    assert_eq!(assoc_db_name("plain"), "plain.db3");
}

#[test]
fn setup_runs_only_without_database() {
    assert!(setup_db_if_needed(false));
    assert!(!setup_db_if_needed(true));
}
