use vstd::prelude::*;

verus! {

/// The failures the decoder can report.
///
/// `Parse` covers every structural fault of the snapshot (a required meta
/// entry missing, a record array whose length does not match the field
/// layout, an index out of range); `Decode` is reserved for a field type tag
/// in the meta header that the decoder does not know.
#[derive(Debug, PartialEq, Eq, Structural, Clone, Copy)]
pub enum SnapshotError {
    Parse,
    Decode,
}

/// One field type descriptor from `snapshot.meta`: either an enum domain
/// (the column stores indices into the list of strings) or a primitive tag
/// such as `"string"` or `"number"`.
pub enum FieldDesc {
    Domain(Vec<String>),
    Tag(String),
}

/// The snapshot reduced to plain values: the meta header's field layout, the
/// flat integer arrays for nodes, edges and locations, and the string table.
///
/// This is exactly the data the decoder reads; everything else in the JSON
/// document is ignored.
pub struct RawSnapshot {
    pub node_fields: Vec<String>,
    pub node_types: Vec<FieldDesc>,
    pub edge_fields: Vec<String>,
    pub edge_types: Vec<FieldDesc>,
    pub nodes: Vec<u64>,
    pub edges: Vec<u64>,
    pub strings: Vec<String>,
    pub locations: Vec<u64>,
}

impl RawSnapshot {
    /// Number of fields in one node record.
    pub open spec fn f_n(self) -> int {
        self.node_fields@.len() as int
    }

    /// Number of fields in one edge record.
    pub open spec fn f_e(self) -> int {
        self.edge_fields@.len() as int
    }

    /// Number of node records the `nodes` array holds.
    pub open spec fn n_records(self) -> int {
        self.nodes@.len() as int / self.f_n()
    }

    /// The raw (undecoded) value of field `j` of node record `k`.
    pub open spec fn node_raw(self, k: int, j: int) -> u64 {
        self.nodes@[k * self.f_n() + j]
    }

    /// The raw value of field `l` of edge record `j`.
    pub open spec fn edge_raw(self, j: int, l: int) -> u64 {
        self.edges@[j * self.f_e() + l]
    }

    /// The node layout is usable: at least one field per record, and the
    /// flat array is a whole number of records.
    pub open spec fn nodes_shape_ok(self) -> bool {
        &&& self.f_n() > 0
        &&& self.nodes@.len() as int % self.f_n() == 0
    }
}

} // verus!
