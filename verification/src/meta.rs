use vstd::prelude::*;
use crate::snapshot::{FieldDesc, RawSnapshot, SnapshotError};
use crate::text::{dec_str, str_eq};

verus! {

/// A decoded column value: a string or a plain number.
pub enum DecodedValue {
    Str(String),
    Num(u64),
}

/// The text a decoded value is persisted as: a string is kept as is, a
/// number is rendered in decimal.
pub open spec fn spec_text_of(dv: DecodedValue) -> Seq<char> {
    match dv {
        DecodedValue::Str(s) => s@,
        DecodedValue::Num(n) => dec_str(n as int),
    }
}

/// Whether a meta type descriptor carries a known tag. The tags `"node"`
/// and `"string_or_number"` exist for edge columns only.
pub open spec fn tag_known(d: FieldDesc, edge: bool) -> bool {
    match d {
        FieldDesc::Domain(dom) => true,
        FieldDesc::Tag(t) => t@ == "string"@ || t@ == "number"@ || (edge && t@ == "node"@) || (edge
            && t@ == "string_or_number"@),
    }
}

/// What the descriptor's decoder yields on the raw value `v`, given the
/// string table (meaningful under `tag_known`). `None` marks the one fatal
/// case: an enum index out of its domain. A string reference that overflows
/// the string table is not an error: the raw integer is passed through
/// (real snapshots contain such references).
pub open spec fn spec_decode_field(
    d: FieldDesc,
    edge: bool,
    v: u64,
    strings: Seq<String>,
) -> Option<DecodedValue> {
    match d {
        FieldDesc::Domain(dom) => if (v as int) < dom@.len() {
            Some(DecodedValue::Str(dom@[v as int]))
        } else {
            None
        },
        FieldDesc::Tag(t) => if t@ == "string"@ || (edge && t@ == "string_or_number"@) {
            if (v as int) < strings.len() {
                Some(DecodedValue::Str(strings[v as int]))
            } else {
                Some(DecodedValue::Num(v))
            }
        } else {
            Some(DecodedValue::Num(v))
        },
    }
}

/// The first position of `name` in `fields` at or after `i`; -1 if absent.
pub open spec fn spec_find_field(fields: Seq<String>, name: Seq<char>, i: int) -> int
    decreases fields.len() - i,
{
    if i < 0 || i >= fields.len() {
        -1
    } else if fields[i]@ == name {
        i
    } else {
        spec_find_field(fields, name, i + 1)
    }
}

/// Decodes one raw column value as its descriptor prescribes.
pub fn decode_field(d: &FieldDesc, edge: bool, v: u64, strings: &Vec<String>) -> (r: Result<
    DecodedValue,
    SnapshotError,
>)
    ensures
        !tag_known(*d, edge) ==> r == Err::<DecodedValue, SnapshotError>(SnapshotError::Decode),
        tag_known(*d, edge) ==> (match spec_decode_field(*d, edge, v, strings@) {
            Some(x) => r == Ok::<DecodedValue, SnapshotError>(x),
            None => r == Err::<DecodedValue, SnapshotError>(SnapshotError::Parse),
        }),
{
    match d {
        FieldDesc::Domain(dom) => {
            if v < dom.len() as u64 {
                Ok(DecodedValue::Str(dom[v as usize].clone()))
            } else {
                Err(SnapshotError::Parse)
            }
        },
        FieldDesc::Tag(t) => {
            if str_eq(t.as_str(), "string") || (edge && str_eq(t.as_str(), "string_or_number")) {
                if v < strings.len() as u64 {
                    Ok(DecodedValue::Str(strings[v as usize].clone()))
                } else {
                    Ok(DecodedValue::Num(v))
                }
            } else if str_eq(t.as_str(), "number") || (edge && str_eq(t.as_str(), "node")) {
                Ok(DecodedValue::Num(v))
            } else {
                Err(SnapshotError::Decode)
            }
        },
    }
}

/// Finds the position of a required field name within a field list.
fn find_field(fields: &Vec<String>, name: &str) -> (r: Option<usize>)
    ensures
        (match r {
            Some(i) => i as int == spec_find_field(fields@, name@, 0) && i < fields@.len(),
            None => spec_find_field(fields@, name@, 0) < 0,
        }),
{
    let mut i: usize = 0;
    while i < fields.len()
        invariant
            0 <= i <= fields@.len(),
            spec_find_field(fields@, name@, 0) == spec_find_field(fields@, name@, i as int),
        decreases fields@.len() - i,
    {
        if str_eq(fields[i].as_str(), name) {
            assert(spec_find_field(fields@, name@, i as int) == i);
            return Some(i);
        }
        i += 1;
    }
    None
}

/// The positions, within one record, of the fields the pipeline reads, as
/// `snapshot.meta` prescribes them.
pub struct MetaTable {
    pub node_type_o: usize,
    pub node_name_o: usize,
    pub node_id_o: usize,
    pub node_self_size_o: usize,
    pub node_edge_count_o: usize,
    pub edge_type_o: usize,
    pub edge_noi_o: usize,
    pub edge_to_o: usize,
}

impl RawSnapshot {
    /// Each field list has a type descriptor (extra descriptors are ignored).
    pub open spec fn meta_len_ok(self) -> bool {
        &&& self.node_types@.len() >= self.f_n()
        &&& self.edge_types@.len() >= self.f_e()
    }

    /// Every type descriptor that is in use carries a known tag.
    pub open spec fn meta_decodable(self) -> bool {
        &&& forall|j: int| 0 <= j < self.f_n() ==> tag_known(#[trigger] self.node_types@[j], false)
        &&& forall|l: int| 0 <= l < self.f_e() ==> tag_known(#[trigger] self.edge_types@[l], true)
    }

    pub open spec fn off_node_type(self) -> int {
        spec_find_field(self.node_fields@, "type"@, 0)
    }

    pub open spec fn off_node_name(self) -> int {
        spec_find_field(self.node_fields@, "name"@, 0)
    }

    pub open spec fn off_node_id(self) -> int {
        spec_find_field(self.node_fields@, "id"@, 0)
    }

    pub open spec fn off_node_self_size(self) -> int {
        spec_find_field(self.node_fields@, "self_size"@, 0)
    }

    pub open spec fn off_node_edge_count(self) -> int {
        spec_find_field(self.node_fields@, "edge_count"@, 0)
    }

    pub open spec fn off_edge_type(self) -> int {
        spec_find_field(self.edge_fields@, "type"@, 0)
    }

    pub open spec fn off_edge_noi(self) -> int {
        spec_find_field(self.edge_fields@, "name_or_index"@, 0)
    }

    pub open spec fn off_edge_to(self) -> int {
        spec_find_field(self.edge_fields@, "to_node"@, 0)
    }

    /// All required fields exist: `type`, `name`, `id`, `self_size` and
    /// `edge_count` among the node fields; `type`, `name_or_index` and
    /// `to_node` among the edge fields.
    pub open spec fn offsets_ok(self) -> bool {
        &&& self.off_node_type() >= 0
        &&& self.off_node_name() >= 0
        &&& self.off_node_id() >= 0
        &&& self.off_node_self_size() >= 0
        &&& self.off_node_edge_count() >= 0
        &&& self.off_edge_type() >= 0
        &&& self.off_edge_noi() >= 0
        &&& self.off_edge_to() >= 0
    }

    /// The whole meta header is usable.
    pub open spec fn meta_ok(self) -> bool {
        &&& self.meta_len_ok()
        &&& self.meta_decodable()
        &&& self.offsets_ok()
    }

    /// `m` holds exactly the required-field positions of this snapshot.
    pub open spec fn meta_good(self, m: MetaTable) -> bool {
        &&& self.meta_ok()
        &&& m.node_type_o == self.off_node_type()
        &&& m.node_name_o == self.off_node_name()
        &&& m.node_id_o == self.off_node_id()
        &&& m.node_self_size_o == self.off_node_self_size()
        &&& m.node_edge_count_o == self.off_node_edge_count()
        &&& m.edge_type_o == self.off_edge_type()
        &&& m.edge_noi_o == self.off_edge_noi()
        &&& m.edge_to_o == self.off_edge_to()
    }
}

/// Checks that the first `count` descriptors all carry known tags.
fn check_tags(descs: &Vec<FieldDesc>, count: usize, edge: bool) -> (r: Result<(), SnapshotError>)
    requires
        count <= descs@.len(),
    ensures
        (r is Ok) <==> (forall|j: int| 0 <= j < count ==> tag_known(#[trigger] descs@[j], edge)),
        (r matches Err(e) ==> e == SnapshotError::Decode),
{
    let mut j: usize = 0;
    while j < count
        invariant
            0 <= j <= count <= descs@.len(),
            forall|i: int| 0 <= i < j ==> tag_known(#[trigger] descs@[i], edge),
        decreases count - j,
    {
        match &descs[j] {
            FieldDesc::Domain(dom) => {},
            FieldDesc::Tag(t) => {
                let known = str_eq(t.as_str(), "string") || str_eq(t.as_str(), "number") || (edge
                    && str_eq(t.as_str(), "node")) || (edge && str_eq(
                    t.as_str(),
                    "string_or_number",
                ));
                if !known {
                    assert(!tag_known(descs@[j as int], edge));
                    return Err(SnapshotError::Decode);
                }
            },
        }
        j += 1;
    }
    Ok(())
}

/// Interprets `snapshot.meta`: checks that each field list is covered by
/// type descriptors, that every descriptor in use carries a known tag, and
/// that the required fields exist; yields the required-field positions.
///
/// `Decode` is returned exactly when the descriptors cover the fields but
/// one of them carries an unknown tag; every other fault is `Parse`.
pub fn decode_meta(s: &RawSnapshot) -> (r: Result<MetaTable, SnapshotError>)
    ensures
        (r is Ok) <==> s.meta_ok(),
        (match r {
            Ok(m) => s.meta_good(m),
            Err(e) => (e == SnapshotError::Decode <==> (s.meta_len_ok() && !s.meta_decodable()))
                && (e == SnapshotError::Decode || e == SnapshotError::Parse),
        }),
{
    if s.node_types.len() < s.node_fields.len() || s.edge_types.len() < s.edge_fields.len() {
        return Err(SnapshotError::Parse);
    }
    if let Err(e) = check_tags(&s.node_types, s.node_fields.len(), false) {
        return Err(e);
    }
    if let Err(e) = check_tags(&s.edge_types, s.edge_fields.len(), true) {
        return Err(e);
    }
    let node_type_o = match find_field(&s.node_fields, "type") {
        Some(i) => i,
        None => {
            return Err(SnapshotError::Parse);
        },
    };
    let node_name_o = match find_field(&s.node_fields, "name") {
        Some(i) => i,
        None => {
            return Err(SnapshotError::Parse);
        },
    };
    let node_id_o = match find_field(&s.node_fields, "id") {
        Some(i) => i,
        None => {
            return Err(SnapshotError::Parse);
        },
    };
    let node_self_size_o = match find_field(&s.node_fields, "self_size") {
        Some(i) => i,
        None => {
            return Err(SnapshotError::Parse);
        },
    };
    let node_edge_count_o = match find_field(&s.node_fields, "edge_count") {
        Some(i) => i,
        None => {
            return Err(SnapshotError::Parse);
        },
    };
    let edge_type_o = match find_field(&s.edge_fields, "type") {
        Some(i) => i,
        None => {
            return Err(SnapshotError::Parse);
        },
    };
    let edge_noi_o = match find_field(&s.edge_fields, "name_or_index") {
        Some(i) => i,
        None => {
            return Err(SnapshotError::Parse);
        },
    };
    let edge_to_o = match find_field(&s.edge_fields, "to_node") {
        Some(i) => i,
        None => {
            return Err(SnapshotError::Parse);
        },
    };
    Ok(MetaTable {
        node_type_o,
        node_name_o,
        node_id_o,
        node_self_size_o,
        node_edge_count_o,
        edge_type_o,
        edge_noi_o,
        edge_to_o,
    })
}

} // verus!
