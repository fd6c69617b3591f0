use vstd::prelude::*;
use crate::rows::{analyzed, ingest, IngestOutput};
use crate::snapshot::{FieldDesc, RawSnapshot, SnapshotError};

verus! {

/// Declares serde_json::Value so that signatures can carry it; the library
/// treats such a value as opaque and reads it only through the wrappers
/// below.
#[verifier::external_type_specification]
#[verifier::external_body]
pub struct ExValue(serde_json::Value);

/// The value tree a JSON text parses to; `None` when the text is not valid
/// JSON. serde_json::from_str is a function of the text alone.
pub uninterp spec fn json_of(text: Seq<char>) -> Option<serde_json::Value>;

/// The member of a JSON object under a key; `None` when the value is not an
/// object or has no such member. serde_json::Value::get is a function of
/// the value and the key alone.
pub uninterp spec fn member_of(v: serde_json::Value, key: Seq<char>) -> Option<
    serde_json::Value,
>;

/// The elements of a JSON array; `None` when the value is not an array.
pub uninterp spec fn elements_of(v: serde_json::Value) -> Option<Seq<serde_json::Value>>;

/// The value of a JSON number representable as an unsigned 64-bit integer;
/// `None` otherwise.
pub uninterp spec fn unsigned_of(v: serde_json::Value) -> Option<u64>;

/// The characters of a JSON string; `None` when the value is not a string.
pub uninterp spec fn chars_of(v: serde_json::Value) -> Option<Seq<char>>;

/// Relies on serde_json::from_str: parses a JSON document into a value
/// tree; `None` exactly when the text is not valid JSON.
#[verifier::external_body]
fn parse_json(text: &str) -> (r: Option<serde_json::Value>)
    ensures
        r == json_of(text@),
{
    match serde_json::from_str::<serde_json::Value>(text) {
        Ok(v) => Some(v),
        Err(_) => None,
    }
}

/// Relies on serde_json::Value::get: the member of a JSON object under a
/// key; `None` when the value is not an object or has no such member.
#[verifier::external_body]
fn json_get<'a>(v: &'a serde_json::Value, key: &str) -> (r: Option<&'a serde_json::Value>)
    ensures
        (match r {
            Some(m) => member_of(*v, key@) == Some(*m),
            None => member_of(*v, key@) is None,
        }),
{
    v.get(key)
}

/// Relies on serde_json::Value::as_array: the elements when the value is a
/// JSON array, `None` otherwise.
#[verifier::external_body]
fn json_as_array<'a>(v: &'a serde_json::Value) -> (r: Option<&'a Vec<serde_json::Value>>)
    ensures
        (match r {
            Some(a) => elements_of(*v) == Some(a@),
            None => elements_of(*v) is None,
        }),
{
    v.as_array()
}

/// Relies on serde_json::Value::as_u64: the value when it is a JSON number
/// representable as an unsigned 64-bit integer, `None` otherwise.
#[verifier::external_body]
fn json_as_u64(v: &serde_json::Value) -> (r: Option<u64>)
    ensures
        r == unsigned_of(*v),
{
    v.as_u64()
}

/// Relies on serde_json::Value::as_str: the characters when the value is a
/// JSON string, `None` otherwise.
#[verifier::external_body]
fn json_as_str<'a>(v: &'a serde_json::Value) -> (r: Option<&'a str>)
    ensures
        (match r {
            Some(st) => chars_of(*v) == Some(st@),
            None => chars_of(*v) is None,
        }),
{
    v.as_str()
}

/// The elements of the array member under a key.
pub open spec fn member_elements(v: serde_json::Value, key: Seq<char>) -> Option<
    Seq<serde_json::Value>,
> {
    match member_of(v, key) {
        Some(m) => elements_of(m),
        None => None,
    }
}

/// The `snapshot.meta` member.
pub open spec fn meta_of(v: serde_json::Value) -> Option<serde_json::Value> {
    match member_of(v, "snapshot"@) {
        Some(sn) => member_of(sn, "meta"@),
        None => None,
    }
}

pub open spec fn numbers_shape_ok(elems: Seq<serde_json::Value>) -> bool {
    forall|i: int| 0 <= i < elems.len() ==> (#[trigger] unsigned_of(elems[i])) is Some
}

pub open spec fn numbers_match(elems: Seq<serde_json::Value>, out: Seq<u64>) -> bool {
    &&& out.len() == elems.len()
    &&& forall|i: int| 0 <= i < elems.len() ==> unsigned_of(elems[i]) == Some(#[trigger] out[i])
}

pub open spec fn strings_shape_ok(elems: Seq<serde_json::Value>) -> bool {
    forall|i: int| 0 <= i < elems.len() ==> (#[trigger] chars_of(elems[i])) is Some
}

pub open spec fn strings_match(elems: Seq<serde_json::Value>, out: Seq<String>) -> bool {
    &&& out.len() == elems.len()
    &&& forall|i: int| 0 <= i < elems.len() ==> chars_of(elems[i]) == Some((#[trigger] out[i])@)
}

/// A meta type descriptor is either an array of strings or a string tag.
pub open spec fn desc_shape_ok(v: serde_json::Value) -> bool {
    match elements_of(v) {
        Some(dom) => strings_shape_ok(dom),
        None => chars_of(v) is Some,
    }
}

pub open spec fn descs_shape_ok(elems: Seq<serde_json::Value>) -> bool {
    forall|i: int| 0 <= i < elems.len() ==> desc_shape_ok(#[trigger] elems[i])
}

pub open spec fn desc_match(v: serde_json::Value, d: FieldDesc) -> bool {
    match elements_of(v) {
        Some(dom) => d matches FieldDesc::Domain(ss) && strings_match(dom, ss@),
        None => d matches FieldDesc::Tag(t) && chars_of(v) == Some(t@),
    }
}

pub open spec fn descs_match(elems: Seq<serde_json::Value>, out: Seq<FieldDesc>) -> bool {
    &&& out.len() == elems.len()
    &&& forall|i: int| 0 <= i < elems.len() ==> desc_match(elems[i], #[trigger] out[i])
}

/// Every required path of the document exists with the right shape: the
/// four meta lists under `snapshot.meta`, and the four flat arrays.
pub open spec fn doc_shape_ok(v: serde_json::Value) -> bool {
    &&& (match meta_of(v) {
        Some(m) => {
            &&& (match member_elements(m, "node_fields"@) {
                Some(e) => strings_shape_ok(e),
                None => false,
            })
            &&& (match member_elements(m, "node_types"@) {
                Some(e) => descs_shape_ok(e),
                None => false,
            })
            &&& (match member_elements(m, "edge_fields"@) {
                Some(e) => strings_shape_ok(e),
                None => false,
            })
            &&& (match member_elements(m, "edge_types"@) {
                Some(e) => descs_shape_ok(e),
                None => false,
            })
        },
        None => false,
    })
    &&& (match member_elements(v, "nodes"@) {
        Some(e) => numbers_shape_ok(e),
        None => false,
    })
    &&& (match member_elements(v, "edges"@) {
        Some(e) => numbers_shape_ok(e),
        None => false,
    })
    &&& (match member_elements(v, "strings"@) {
        Some(e) => strings_shape_ok(e),
        None => false,
    })
    &&& (match member_elements(v, "locations"@) {
        Some(e) => numbers_shape_ok(e),
        None => false,
    })
}

/// `s` is the plain snapshot the document encodes: each field of `s` is the
/// projection of the corresponding document member.
pub open spec fn snapshot_matches(v: serde_json::Value, s: RawSnapshot) -> bool {
    &&& doc_shape_ok(v)
    &&& (match meta_of(v) {
        Some(m) => {
            &&& (match member_elements(m, "node_fields"@) {
                Some(e) => strings_match(e, s.node_fields@),
                None => false,
            })
            &&& (match member_elements(m, "node_types"@) {
                Some(e) => descs_match(e, s.node_types@),
                None => false,
            })
            &&& (match member_elements(m, "edge_fields"@) {
                Some(e) => strings_match(e, s.edge_fields@),
                None => false,
            })
            &&& (match member_elements(m, "edge_types"@) {
                Some(e) => descs_match(e, s.edge_types@),
                None => false,
            })
        },
        None => false,
    })
    &&& (match member_elements(v, "nodes"@) {
        Some(e) => numbers_match(e, s.nodes@),
        None => false,
    })
    &&& (match member_elements(v, "edges"@) {
        Some(e) => numbers_match(e, s.edges@),
        None => false,
    })
    &&& (match member_elements(v, "strings"@) {
        Some(e) => strings_match(e, s.strings@),
        None => false,
    })
    &&& (match member_elements(v, "locations"@) {
        Some(e) => numbers_match(e, s.locations@),
        None => false,
    })
}

/// Reads a JSON array of unsigned integers into plain values.
fn json_u64_array(arr: &Vec<serde_json::Value>) -> (r: Option<Vec<u64>>)
    ensures
        (r is Some) <==> numbers_shape_ok(arr@),
        (r matches Some(out) ==> numbers_match(arr@, out@)),
{
    let mut out: Vec<u64> = Vec::new();
    let mut i: usize = 0;
    while i < arr.len()
        invariant
            0 <= i <= arr@.len(),
            out@.len() == i,
            forall|j: int| 0 <= j < i ==> unsigned_of(arr@[j]) == Some(#[trigger] out@[j]),
            forall|j: int| 0 <= j < i ==> (#[trigger] unsigned_of(arr@[j])) is Some,
        decreases arr@.len() - i,
    {
        match json_as_u64(&arr[i]) {
            Some(n) => out.push(n),
            None => {
                assert(!numbers_shape_ok(arr@));
                return None;
            },
        }
        i += 1;
    }
    Some(out)
}

/// Reads a JSON array of strings into plain values.
fn json_string_array(arr: &Vec<serde_json::Value>) -> (r: Option<Vec<String>>)
    ensures
        (r is Some) <==> strings_shape_ok(arr@),
        (r matches Some(out) ==> strings_match(arr@, out@)),
{
    let mut out: Vec<String> = Vec::new();
    let mut i: usize = 0;
    while i < arr.len()
        invariant
            0 <= i <= arr@.len(),
            out@.len() == i,
            forall|j: int| 0 <= j < i ==> chars_of(arr@[j]) == Some((#[trigger] out@[j])@),
            forall|j: int| 0 <= j < i ==> (#[trigger] chars_of(arr@[j])) is Some,
        decreases arr@.len() - i,
    {
        match json_as_str(&arr[i]) {
            Some(st) => out.push(st.to_owned()),
            None => {
                assert(!strings_shape_ok(arr@));
                return None;
            },
        }
        i += 1;
    }
    Some(out)
}

/// Reads a meta type descriptor list: each entry is either a list of
/// strings (an enum domain) or a primitive tag string.
fn json_descs(arr: &Vec<serde_json::Value>) -> (r: Option<Vec<FieldDesc>>)
    ensures
        (r is Some) <==> descs_shape_ok(arr@),
        (r matches Some(out) ==> descs_match(arr@, out@)),
{
    let mut out: Vec<FieldDesc> = Vec::new();
    let mut i: usize = 0;
    while i < arr.len()
        invariant
            0 <= i <= arr@.len(),
            out@.len() == i,
            forall|j: int| 0 <= j < i ==> desc_match(arr@[j], #[trigger] out@[j]),
            forall|j: int| 0 <= j < i ==> desc_shape_ok(#[trigger] arr@[j]),
        decreases arr@.len() - i,
    {
        match json_as_array(&arr[i]) {
            Some(dom) => {
                match json_string_array(dom) {
                    Some(ss) => out.push(FieldDesc::Domain(ss)),
                    None => {
                        assert(!desc_shape_ok(arr@[i as int]));
                        assert(!descs_shape_ok(arr@));
                        return None;
                    },
                }
            },
            None => {
                match json_as_str(&arr[i]) {
                    Some(st) => out.push(FieldDesc::Tag(st.to_owned())),
                    None => {
                        assert(!desc_shape_ok(arr@[i as int]));
                        assert(!descs_shape_ok(arr@));
                        return None;
                    },
                }
            },
        }
        i += 1;
    }
    Some(out)
}

/// Looks a required array member up under a key.
fn get_array<'a>(v: &'a serde_json::Value, key: &str) -> (r: Option<&'a Vec<serde_json::Value>>)
    ensures
        (match r {
            Some(a) => member_elements(*v, key@) == Some(a@),
            None => member_elements(*v, key@) is None,
        }),
{
    match json_get(v, key) {
        Some(m) => json_as_array(m),
        None => None,
    }
}

/// Projects the JSON document onto the plain snapshot model: the meta
/// header's field layout and the flat `nodes`, `edges`, `strings` and
/// `locations` arrays. `None` exactly when a required path is missing or an
/// entry has the wrong shape. Unknown top-level members are ignored.
fn snapshot_from_json(v: &serde_json::Value) -> (r: Option<RawSnapshot>)
    ensures
        (r is Some) <==> doc_shape_ok(*v),
        (r matches Some(s) ==> snapshot_matches(*v, s)),
{
    let snap = match json_get(v, "snapshot") {
        Some(s) => s,
        None => {
            return None;
        },
    };
    let meta = match json_get(snap, "meta") {
        Some(m) => m,
        None => {
            return None;
        },
    };
    let node_fields = match get_array(meta, "node_fields") {
        Some(a) => match json_string_array(a) {
            Some(ss) => ss,
            None => {
                return None;
            },
        },
        None => {
            return None;
        },
    };
    let node_types = match get_array(meta, "node_types") {
        Some(a) => match json_descs(a) {
            Some(ds) => ds,
            None => {
                return None;
            },
        },
        None => {
            return None;
        },
    };
    let edge_fields = match get_array(meta, "edge_fields") {
        Some(a) => match json_string_array(a) {
            Some(ss) => ss,
            None => {
                return None;
            },
        },
        None => {
            return None;
        },
    };
    let edge_types = match get_array(meta, "edge_types") {
        Some(a) => match json_descs(a) {
            Some(ds) => ds,
            None => {
                return None;
            },
        },
        None => {
            return None;
        },
    };
    let nodes = match get_array(v, "nodes") {
        Some(a) => match json_u64_array(a) {
            Some(ns) => ns,
            None => {
                return None;
            },
        },
        None => {
            return None;
        },
    };
    let edges = match get_array(v, "edges") {
        Some(a) => match json_u64_array(a) {
            Some(ns) => ns,
            None => {
                return None;
            },
        },
        None => {
            return None;
        },
    };
    let strings = match get_array(v, "strings") {
        Some(a) => match json_string_array(a) {
            Some(ss) => ss,
            None => {
                return None;
            },
        },
        None => {
            return None;
        },
    };
    let locations = match get_array(v, "locations") {
        Some(a) => match json_u64_array(a) {
            Some(ns) => ns,
            None => {
                return None;
            },
        },
        None => {
            return None;
        },
    };
    Some(
        RawSnapshot {
            node_fields,
            node_types,
            edge_fields,
            edge_types,
            nodes,
            edges,
            strings,
            locations,
        },
    )
}

/// The whole ingestion pipeline on the raw snapshot text: parse the JSON,
/// project it onto the plain snapshot model, decode, analyze and
/// materialize. A text that is not valid JSON, and a document that lacks a
/// required path or holds an entry of the wrong shape, are `Parse` errors;
/// the decoder's errors pass through. On a well-shaped document the result
/// is exactly the decoder's verdict on the snapshot the document encodes:
/// `Ok` holds the analysis of that snapshot, and `Ok` comes if and only if
/// the snapshot is well formed.
pub fn ingest_snapshot_text(text: &str) -> (r: Result<IngestOutput, SnapshotError>)
    ensures
        (json_of(text@) is None ==> r == Err::<IngestOutput, SnapshotError>(SnapshotError::Parse)),
        (match json_of(text@) {
            Some(v) => !doc_shape_ok(v) ==> r == Err::<IngestOutput, SnapshotError>(
                SnapshotError::Parse,
            ),
            None => true,
        }),
        (match json_of(text@) {
            Some(v) => doc_shape_ok(v) ==> (exists|s: RawSnapshot|
                {
                    &&& #[trigger] snapshot_matches(v, s)
                    &&& ((r is Ok) <==> s.snapshot_ok())
                    &&& (r matches Ok(out) ==> analyzed(s, out))
                    &&& (r matches Err(e) ==> (e == SnapshotError::Decode <==> (s.meta_len_ok()
                        && !s.meta_decodable())))
                }),
            None => true,
        }),
{
    let v = match parse_json(text) {
        Some(v) => v,
        None => {
            return Err(SnapshotError::Parse);
        },
    };
    let s = match snapshot_from_json(&v) {
        Some(s) => s,
        None => {
            return Err(SnapshotError::Parse);
        },
    };
    let r = ingest(&s);
    proof {
        assert(snapshot_matches(v, s));
    }
    r
}

} // verus!
