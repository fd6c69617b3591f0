use vstd::prelude::*;
use crate::meta::{
    spec_decode_field, spec_find_field, spec_text_of, decode_field, DecodedValue, MetaTable,
};
use crate::snapshot::{RawSnapshot, SnapshotError};
use crate::text::{str_eq, u64_to_string};

verus! {

/// One decoded node with its analysis state: `distance` (0 is the
/// "unassigned" sentinel, and the root's own distance), `retain_size`
/// (initialized to `self_size`, accumulated along the discovery path), and
/// the record indices of the successors that survive the essential-edge
/// filter.
pub struct NodeRecord {
    pub id: u64,
    pub name: String,
    pub kind: String,
    pub self_size: u64,
    pub edge_count: u64,
    pub distance: u64,
    pub retain_size: u64,
    pub successors: Vec<usize>,
}

/// One row of the `edge` table, decoded exactly as persisted: every edge of
/// the snapshot yields a row, essential or not.
pub struct EdgeRow {
    pub from: u64,
    pub to: u64,
    pub kind: String,
    pub name_or_index: String,
}

/// An edge is honored by the traversal iff it is not `weak`, and not
/// `shortcut` unless its owner is the synthetic root (id 1).
pub open spec fn spec_is_essential_edge(edge_type: Seq<char>, node_id: u64) -> bool {
    edge_type != "weak"@ && (edge_type != "shortcut"@ || node_id == 1)
}

/// Whether an edge is kept for the graph traversal; persisting is not
/// affected by this test.
pub fn is_essential_edge(edge_type: &str, node_id: u64) -> (r: bool)
    ensures
        r == spec_is_essential_edge(edge_type@, node_id),
{
    !str_eq(edge_type, "weak") && (!str_eq(edge_type, "shortcut") || node_id == 1)
}

/// A hook for future per-edge rules; today every edge passes.
pub fn filter(_node_name: &str, _node_type: &str, _edge_name: &str) -> (r: bool)
    ensures
        r,
{
    true
}

/// The text of a decoded value, with a number rendered in decimal (so a
/// numeric `name_or_index` of 42 is persisted as `"42"`).
pub fn text_of_value(dv: &DecodedValue) -> (r: String)
    ensures
        r@ == spec_text_of(*dv),
{
    match dv {
        DecodedValue::Str(s) => s.clone(),
        DecodedValue::Num(n) => u64_to_string(*n),
    }
}

impl RawSnapshot {
    /// Field `j` of node record `k`, decoded.
    pub open spec fn node_field(self, k: int, j: int) -> Option<DecodedValue> {
        spec_decode_field(self.node_types@[j], false, self.node_raw(k, j), self.strings@)
    }

    /// Field `l` of edge record `j`, decoded.
    pub open spec fn edge_field(self, j: int, l: int) -> Option<DecodedValue> {
        spec_decode_field(self.edge_types@[l], true, self.edge_raw(j, l), self.strings@)
    }

    /// The raw id of node record `k`.
    pub open spec fn id_raw(self, k: int) -> u64 {
        self.node_raw(k, self.off_node_id())
    }

    /// The raw self size of node record `k`.
    pub open spec fn self_size_raw(self, k: int) -> u64 {
        self.node_raw(k, self.off_node_self_size())
    }

    /// The raw edge count of node record `k`.
    pub open spec fn ec_raw(self, k: int) -> u64 {
        self.node_raw(k, self.off_node_edge_count())
    }

    /// The persisted text of the name of node record `k`.
    pub open spec fn name_text(self, k: int) -> Seq<char> {
        text_or_empty(self.node_field(k, self.off_node_name()))
    }

    /// The persisted text of the type of node record `k`.
    pub open spec fn type_text(self, k: int) -> Seq<char> {
        text_or_empty(self.node_field(k, self.off_node_type()))
    }

    /// A node record decodes fully, and its id, self size and edge count
    /// are numeric.
    pub open spec fn record_ok(self, k: int) -> bool {
        &&& forall|j: int| 0 <= j < self.f_n() ==> (#[trigger] self.node_field(k, j)) is Some
        &&& self.node_field(k, self.off_node_id()) == Some(DecodedValue::Num(self.id_raw(k)))
        &&& self.node_field(k, self.off_node_self_size()) == Some(
            DecodedValue::Num(self.self_size_raw(k)),
        )
        &&& self.node_field(k, self.off_node_edge_count()) == Some(
            DecodedValue::Num(self.ec_raw(k)),
        )
    }

    pub open spec fn records_ok(self) -> bool {
        forall|k: int| 0 <= k < self.n_records() ==> #[trigger] self.record_ok(k)
    }

    /// How many edges the records before `k` own together; edge ownership
    /// is positional, so this is also the index of the first edge of
    /// record `k`.
    pub open spec fn cum_ec(self, k: int) -> int
        decreases k,
    {
        if k <= 0 {
            0
        } else {
            self.cum_ec(k - 1) + self.ec_raw(k - 1)
        }
    }

    pub open spec fn total_edges(self) -> int {
        self.cum_ec(self.n_records())
    }

    /// The global index of edge `c` of node record `k`.
    pub open spec fn edge_j(self, k: int, c: int) -> int {
        self.cum_ec(k) + c
    }

    /// The raw `to_node` value of edge `j`: a position in the `nodes`
    /// array.
    pub open spec fn to_raw(self, j: int) -> u64 {
        self.edge_raw(j, self.off_edge_to())
    }

    /// The id of the node the edge points at.
    pub open spec fn to_id(self, j: int) -> u64 {
        self.nodes@[self.to_raw(j) as int + self.off_node_id()]
    }

    /// An edge record decodes fully, and its destination is a numeric,
    /// in-range node position.
    pub open spec fn edge_rec_ok(self, j: int) -> bool {
        &&& forall|l: int| 0 <= l < self.f_e() ==> (#[trigger] self.edge_field(j, l)) is Some
        &&& self.edge_field(j, self.off_edge_to()) == Some(DecodedValue::Num(self.to_raw(j)))
        &&& self.to_raw(j) as int % self.f_n() == 0
        &&& (self.to_raw(j) as int) < self.nodes@.len()
    }

    pub open spec fn edge_ok_at(self, k: int, c: int) -> bool {
        self.edge_rec_ok(self.edge_j(k, c))
    }

    /// The persisted text of the type of edge `j`.
    pub open spec fn edge_type_text(self, j: int) -> Seq<char> {
        text_or_empty(self.edge_field(j, self.off_edge_type()))
    }

    /// The persisted text of the name-or-index of edge `j`.
    pub open spec fn edge_noi_text(self, j: int) -> Seq<char> {
        text_or_empty(self.edge_field(j, self.off_edge_noi()))
    }

    /// Whether edge `j`, owned by record `k`, survives the essential-edge
    /// filter.
    pub open spec fn edge_essential(self, k: int, j: int) -> bool {
        spec_is_essential_edge(self.edge_type_text(j), self.id_raw(k))
    }

    /// The successor record indices contributed by the first `c` edges of
    /// record `k`, in source order.
    pub open spec fn succ_upto(self, k: int, c: int) -> Seq<usize>
        decreases c,
    {
        if c <= 0 {
            Seq::empty()
        } else {
            let pre = self.succ_upto(k, c - 1);
            let j = self.edge_j(k, c - 1);
            if self.edge_essential(k, j) {
                pre.push((self.to_raw(j) / (self.f_n() as u64)) as usize)
            } else {
                pre
            }
        }
    }

    /// The successors of record `k`: the destinations of its essential
    /// edges.
    pub open spec fn succ_of(self, k: int) -> Seq<usize> {
        self.succ_upto(k, self.ec_raw(k) as int)
    }

    /// The sum of the self sizes of the records before `k`.
    pub open spec fn sum_self(self, k: int) -> int
        decreases k,
    {
        if k <= 0 {
            0
        } else {
            self.sum_self(k - 1) + self.self_size_raw(k - 1)
        }
    }

    /// The self sizes sum within the machine word the analyzer accumulates
    /// retain sizes in.
    pub open spec fn sizes_fit(self) -> bool {
        self.sum_self(self.n_records()) <= u64::MAX
    }

    /// There is edge data for every owned edge, and every owned edge is
    /// well formed.
    pub open spec fn edges_ok(self) -> bool {
        &&& self.total_edges() * self.f_e() <= self.edges@.len()
        &&& forall|k: int, c: int|
            0 <= k < self.n_records() && 0 <= c < self.ec_raw(k) ==> #[trigger] self.edge_ok_at(
                k,
                c,
            )
    }

    /// Everything the graph builder needs of the node and edge arrays.
    pub open spec fn graph_ok(self) -> bool {
        &&& self.nodes_shape_ok()
        &&& self.records_ok()
        &&& self.edges_ok()
        &&& self.sizes_fit()
    }
}

/// The text of a decoded value; the empty sequence if there is none.
pub open spec fn text_or_empty(o: Option<DecodedValue>) -> Seq<char> {
    match o {
        Some(dv) => spec_text_of(dv),
        None => Seq::empty(),
    }
}

/// `rec` is the decoded form of node record `k`, in its initial analysis
/// state.
pub open spec fn rec_good(s: RawSnapshot, k: int, rec: NodeRecord) -> bool {
    &&& rec.id == s.id_raw(k)
    &&& rec.name@ == s.name_text(k)
    &&& rec.kind@ == s.type_text(k)
    &&& rec.self_size == s.self_size_raw(k)
    &&& rec.edge_count == s.ec_raw(k)
    &&& rec.distance == 0
    &&& rec.retain_size == s.self_size_raw(k)
    &&& rec.successors@ == s.succ_of(k)
}

/// `row` is the persisted form of edge `j`, owned by record `k`.
pub open spec fn erow_good(s: RawSnapshot, k: int, j: int, row: EdgeRow) -> bool {
    &&& row.from == s.id_raw(k)
    &&& row.to == s.to_id(j)
    &&& row.kind@ == s.edge_type_text(j)
    &&& row.name_or_index@ == s.edge_noi_text(j)
}

/// Row `edge_j(k, c)` of `rows` is the persisted form of edge `c` of
/// record `k`.
pub open spec fn erow_good_at(s: RawSnapshot, k: int, c: int, rows: Seq<EdgeRow>) -> bool {
    &&& 0 <= s.edge_j(k, c) < rows.len()
    &&& erow_good(s, k, s.edge_j(k, c), rows[s.edge_j(k, c)])
}

/// Every successor index points into the record table.
pub open spec fn graph_wf(g: Seq<NodeRecord>) -> bool {
    forall|k: int, i: int|
        0 <= k < g.len() && 0 <= i < g[k].successors@.len() ==> (#[trigger] g[k].successors@[i])
            < g.len()
}

/// A finished record table with its edge rows.
pub open spec fn graph_good(s: RawSnapshot, recs: Seq<NodeRecord>, rows: Seq<EdgeRow>) -> bool {
    &&& recs.len() == s.n_records()
    &&& forall|k: int| 0 <= k < recs.len() ==> #[trigger] rec_good(s, k, recs[k])
    &&& rows.len() == s.total_edges()
    &&& forall|k: int, c: int|
        0 <= k < s.n_records() && 0 <= c < s.ec_raw(k) ==> #[trigger] erow_good_at(s, k, c, rows)
    &&& graph_wf(recs)
}

/// The cumulative edge count grows with `k`.
proof fn lemma_cum_ec_mono(s: RawSnapshot, a: int, b: int)
    requires
        0 <= a <= b,
    ensures
        s.cum_ec(a) <= s.cum_ec(b),
    decreases b - a,
{
    if a < b {
        lemma_cum_ec_mono(s, a, b - 1);
    }
}

/// The self-size sum grows with `k`.
proof fn lemma_sum_self_mono(s: RawSnapshot, a: int, b: int)
    requires
        0 <= a <= b,
    ensures
        s.sum_self(a) <= s.sum_self(b),
    decreases b - a,
{
    if a < b {
        lemma_sum_self_mono(s, a, b - 1);
    }
}

/// A found field position lies within the field list.
pub proof fn lemma_find_field_in_range(fields: Seq<String>, name: Seq<char>, i: int)
    requires
        spec_find_field(fields, name, i) >= 0,
    ensures
        spec_find_field(fields, name, i) < fields.len(),
        i <= spec_find_field(fields, name, i),
    decreases fields.len() - i,
{
    if !(i < 0 || i >= fields.len()) && !(fields[i]@ == name) {
        lemma_find_field_in_range(fields, name, i + 1);
    }
}

/// All eight required offsets lie within their field lists.
pub proof fn lemma_offsets_in_range(s: RawSnapshot)
    requires
        s.offsets_ok(),
    ensures
        s.off_node_type() < s.f_n(),
        s.off_node_name() < s.f_n(),
        s.off_node_id() < s.f_n(),
        s.off_node_self_size() < s.f_n(),
        s.off_node_edge_count() < s.f_n(),
        s.off_edge_type() < s.f_e(),
        s.off_edge_noi() < s.f_e(),
        s.off_edge_to() < s.f_e(),
{
    lemma_find_field_in_range(s.node_fields@, "type"@, 0);
    lemma_find_field_in_range(s.node_fields@, "name"@, 0);
    lemma_find_field_in_range(s.node_fields@, "id"@, 0);
    lemma_find_field_in_range(s.node_fields@, "self_size"@, 0);
    lemma_find_field_in_range(s.node_fields@, "edge_count"@, 0);
    lemma_find_field_in_range(s.edge_fields@, "type"@, 0);
    lemma_find_field_in_range(s.edge_fields@, "name_or_index"@, 0);
    lemma_find_field_in_range(s.edge_fields@, "to_node"@, 0);
}

/// Decodes every node and edge record of the snapshot: yields the node
/// records (with their filtered successor lists, distance 0 and
/// `retain_size = self_size`) and one `edge` row per edge of the snapshot,
/// in source order. Succeeds exactly on snapshots whose arrays are well
/// formed (`graph_ok`); every fault is a `Parse` error.
#[verifier::loop_isolation(false)]
pub fn build_graph(s: &RawSnapshot, m: &MetaTable) -> (r: Result<
    (Vec<NodeRecord>, Vec<EdgeRow>),
    SnapshotError,
>)
    requires
        s.meta_good(*m),
    ensures
        (r is Ok) <==> s.graph_ok(),
        (r matches Err(e) ==> e == SnapshotError::Parse),
        (r matches Ok(p) ==> graph_good(*s, p.0@, p.1@)),
{
    proof {
        lemma_offsets_in_range(*s);
    }
    let f_n = s.node_fields.len();
    let f_e = s.edge_fields.len();
    if f_n == 0 || s.nodes.len() % f_n != 0 {
        return Err(SnapshotError::Parse);
    }
    let n = s.nodes.len() / f_n;
    proof {
        assert(s.nodes@.len() == n * f_n) by (nonlinear_arith)
            requires
                f_n > 0,
                n == s.nodes@.len() as int / f_n as int,
                s.nodes@.len() as int % f_n as int == 0,
        ;
    }
    let mut recs: Vec<NodeRecord> = Vec::new();
    let mut erows: Vec<EdgeRow> = Vec::new();
    let mut node_i: usize = 0;
    let mut edge_i: usize = 0;
    let mut total_sum: u64 = 0;
    let mut k: usize = 0;
    while k < n
        invariant
            s.meta_good(*m),
            s.nodes_shape_ok(),
            f_n == s.f_n(),
            f_e == s.f_e(),
            n == s.n_records(),
            s.nodes@.len() == n * f_n,
            0 <= k <= n,
            node_i == k * f_n,
            edge_i == s.cum_ec(k as int) * f_e,
            edge_i <= s.edges@.len(),
            total_sum == s.sum_self(k as int),
            recs@.len() == k,
            forall|i: int| 0 <= i < k ==> #[trigger] rec_good(*s, i, recs@[i]),
            forall|i: int| 0 <= i < k ==> #[trigger] s.record_ok(i),
            erows@.len() == s.cum_ec(k as int),
            forall|a: int, c: int|
                0 <= a < k && 0 <= c < s.ec_raw(a) ==> #[trigger] erow_good_at(*s, a, c, erows@),
            forall|a: int, c: int|
                0 <= a < k && 0 <= c < s.ec_raw(a) ==> #[trigger] s.edge_ok_at(a, c),
            forall|a: int, i: int|
                0 <= a < k && 0 <= i < recs@[a].successors@.len() ==> (
                #[trigger] recs@[a].successors@[i]) < n,
        decreases n - k,
    {
        proof {
            assert(node_i + f_n <= n * f_n) by (nonlinear_arith)
                requires
                    node_i == k * f_n,
                    k < n,
            ;
        }
        // validate every field of the record
        let mut j: usize = 0;
        while j < f_n
            invariant
                s.meta_good(*m),
                f_n == s.f_n(),
                0 <= k < n,
                n == s.n_records(),
                s.nodes@.len() == n * f_n,
                node_i == k * f_n,
                node_i + f_n <= s.nodes@.len(),
                0 <= j <= f_n,
                forall|i: int| 0 <= i < j ==> (#[trigger] s.node_field(k as int, i)) is Some,
            decreases f_n - j,
        {
            match decode_field(&s.node_types[j], false, s.nodes[node_i + j], &s.strings) {
                Ok(_) => {},
                Err(_) => {
                    assert((s.node_field(k as int, j as int)) is None);
                    assert(!s.record_ok(k as int));
                    return Err(SnapshotError::Parse);
                },
            }
            j += 1;
        }
        // read the required fields
        let id: u64 = match decode_field(
            &s.node_types[m.node_id_o],
            false,
            s.nodes[node_i + m.node_id_o],
            &s.strings,
        ) {
            Ok(DecodedValue::Num(v)) => v,
            _ => {
                assert(!s.record_ok(k as int));
                return Err(SnapshotError::Parse);
            },
        };
        let self_size: u64 = match decode_field(
            &s.node_types[m.node_self_size_o],
            false,
            s.nodes[node_i + m.node_self_size_o],
            &s.strings,
        ) {
            Ok(DecodedValue::Num(v)) => v,
            _ => {
                assert(!s.record_ok(k as int));
                return Err(SnapshotError::Parse);
            },
        };
        let ec: u64 = match decode_field(
            &s.node_types[m.node_edge_count_o],
            false,
            s.nodes[node_i + m.node_edge_count_o],
            &s.strings,
        ) {
            Ok(DecodedValue::Num(v)) => v,
            _ => {
                assert(!s.record_ok(k as int));
                return Err(SnapshotError::Parse);
            },
        };
        let name_dv = match decode_field(
            &s.node_types[m.node_name_o],
            false,
            s.nodes[node_i + m.node_name_o],
            &s.strings,
        ) {
            Ok(dv) => dv,
            Err(_) => {
                proof {
                    assert((s.node_field(k as int, s.off_node_name())) is Some);
                    assert(false);
                }
                return Err(SnapshotError::Parse);
            },
        };
        let type_dv = match decode_field(
            &s.node_types[m.node_type_o],
            false,
            s.nodes[node_i + m.node_type_o],
            &s.strings,
        ) {
            Ok(dv) => dv,
            Err(_) => {
                proof {
                    assert((s.node_field(k as int, s.off_node_type())) is Some);
                    assert(false);
                }
                return Err(SnapshotError::Parse);
            },
        };
        let name = text_of_value(&name_dv);
        let kind = text_of_value(&type_dv);
        assert(s.record_ok(k as int));
        // guard the running self-size sum
        if self_size > u64::MAX - total_sum {
            proof {
                lemma_sum_self_mono(*s, k as int + 1, n as int);
            }
            return Err(SnapshotError::Parse);
        }
        total_sum = total_sum + self_size;
        // decode the record's edges
        let mut leaf: Vec<usize> = Vec::new();
        let mut c: u64 = 0;
        while c < ec
            invariant
                s.meta_good(*m),
                s.nodes_shape_ok(),
                f_n == s.f_n(),
                f_e == s.f_e(),
                0 <= k < n,
                n == s.n_records(),
                s.nodes@.len() == n * f_n,
                node_i == k * f_n,
                0 <= c <= ec,
                ec == s.ec_raw(k as int),
                id == s.id_raw(k as int),
                edge_i == (s.cum_ec(k as int) + c) * f_e,
                edge_i <= s.edges@.len(),
                erows@.len() == s.cum_ec(k as int) + c,
                forall|a: int, cc: int|
                    0 <= a < k && 0 <= cc < s.ec_raw(a) ==> #[trigger] erow_good_at(
                        *s,
                        a,
                        cc,
                        erows@,
                    ),
                forall|a: int, cc: int|
                    0 <= a < k && 0 <= cc < s.ec_raw(a) ==> #[trigger] s.edge_ok_at(a, cc),
                forall|cc: int| 0 <= cc < c ==> #[trigger] erow_good_at(*s, k as int, cc, erows@),
                forall|cc: int| 0 <= cc < c ==> #[trigger] s.edge_ok_at(k as int, cc),
                leaf@ == s.succ_upto(k as int, c as int),
                forall|i: int| 0 <= i < leaf@.len() ==> (#[trigger] leaf@[i]) < n,
                recs@.len() == k,
                forall|i: int| 0 <= i < k ==> #[trigger] rec_good(*s, i, recs@[i]),
                forall|a: int, i: int|
                    0 <= a < k && 0 <= i < recs@[a].successors@.len() ==> (
                    #[trigger] recs@[a].successors@[i]) < n,
            decreases ec - c,
        {
            let ghost j_spec: int = s.cum_ec(k as int) + c as int;
            if f_e > s.edges.len() - edge_i {
                proof {
                    lemma_cum_ec_mono(*s, k as int + 1, n as int);
                    assert(j_spec + 1 <= s.total_edges());
                    assert((j_spec + 1) * f_e <= s.total_edges() * s.f_e()) by (nonlinear_arith)
                        requires
                            j_spec + 1 <= s.total_edges(),
                            f_e == s.f_e(),
                            0 <= f_e,
                            0 <= j_spec,
                    ;
                    assert((j_spec + 1) * f_e == j_spec * f_e + f_e) by (nonlinear_arith);
                    assert(!s.edges_ok());
                }
                return Err(SnapshotError::Parse);
            }
            // validate every field of the edge
            let mut l: usize = 0;
            while l < f_e
                invariant
                    s.meta_good(*m),
                    f_e == s.f_e(),
                    edge_i == j_spec * f_e,
                    edge_i + f_e <= s.edges@.len(),
                    0 <= l <= f_e,
                    forall|i: int| 0 <= i < l ==> (#[trigger] s.edge_field(j_spec, i)) is Some,
                decreases f_e - l,
            {
                match decode_field(&s.edge_types[l], true, s.edges[edge_i + l], &s.strings) {
                    Ok(_) => {},
                    Err(_) => {
                        assert((s.edge_field(j_spec, l as int)) is None);
                        assert(!s.edge_rec_ok(j_spec));
                        assert(!s.edge_ok_at(k as int, c as int));
                        return Err(SnapshotError::Parse);
                    },
                }
                l += 1;
            }
            let t: u64 = match decode_field(
                &s.edge_types[m.edge_to_o],
                true,
                s.edges[edge_i + m.edge_to_o],
                &s.strings,
            ) {
                Ok(DecodedValue::Num(v)) => v,
                _ => {
                    assert(!s.edge_rec_ok(j_spec));
                    assert(!s.edge_ok_at(k as int, c as int));
                    return Err(SnapshotError::Parse);
                },
            };
            if t >= s.nodes.len() as u64 || (t as usize) % f_n != 0 {
                assert(!s.edge_rec_ok(j_spec));
                assert(!s.edge_ok_at(k as int, c as int));
                return Err(SnapshotError::Parse);
            }
            let t_us = t as usize;
            let to_idx = t_us / f_n;
            proof {
                assert(to_idx < n && to_idx == s.to_raw(j_spec) as int / s.f_n()) by (
                nonlinear_arith)
                    requires
                        t_us == s.to_raw(j_spec),
                        to_idx == t_us as int / f_n as int,
                        t_us < n * f_n,
                        t_us as int % f_n as int == 0,
                        f_n == s.f_n(),
                        f_n > 0,
                ;
                assert(t_us + s.off_node_id() < s.nodes@.len()) by (nonlinear_arith)
                    requires
                        t_us as int % f_n as int == 0,
                        t_us < n * f_n,
                        n * f_n == s.nodes@.len(),
                        0 <= s.off_node_id() < f_n,
                        f_n > 0,
                ;
            }
            let to_id: u64 = s.nodes[t_us + m.node_id_o];
            let type_dv = match decode_field(
                &s.edge_types[m.edge_type_o],
                true,
                s.edges[edge_i + m.edge_type_o],
                &s.strings,
            ) {
                Ok(dv) => dv,
                Err(_) => {
                    proof {
                        assert((s.edge_field(j_spec, s.off_edge_type())) is Some);
                        assert(false);
                    }
                    return Err(SnapshotError::Parse);
                },
            };
            let noi_dv = match decode_field(
                &s.edge_types[m.edge_noi_o],
                true,
                s.edges[edge_i + m.edge_noi_o],
                &s.strings,
            ) {
                Ok(dv) => dv,
                Err(_) => {
                    proof {
                        assert((s.edge_field(j_spec, s.off_edge_noi())) is Some);
                        assert(false);
                    }
                    return Err(SnapshotError::Parse);
                },
            };
            let type_text = text_of_value(&type_dv);
            let noi_text = text_of_value(&noi_dv);
            let keep = is_essential_edge(type_text.as_str(), id) && (match &noi_dv {
                DecodedValue::Str(en) => filter(name.as_str(), kind.as_str(), en.as_str()),
                DecodedValue::Num(_) => filter(name.as_str(), kind.as_str(), ""),
            });
            if keep {
                leaf.push(to_idx);
            }
            let ghost erows_pre = erows@;
            erows.push(
                EdgeRow { from: id, to: to_id, kind: type_text, name_or_index: noi_text },
            );
            assert(s.edge_rec_ok(j_spec));
            assert(erow_good(*s, k as int, j_spec, erows@[j_spec]));
            proof {
                assert forall|a: int, cc: int|
                    0 <= a < k && 0 <= cc < s.ec_raw(a) implies #[trigger] erow_good_at(
                    *s,
                    a,
                    cc,
                    erows@,
                ) by {
                    assert(erow_good_at(*s, a, cc, erows_pre));
                    assert(erows@[s.edge_j(a, cc)] == erows_pre[s.edge_j(a, cc)]);
                }
                assert forall|cc: int| 0 <= cc <= c implies #[trigger] erow_good_at(
                    *s,
                    k as int,
                    cc,
                    erows@,
                ) by {
                    if cc < c {
                        assert(erow_good_at(*s, k as int, cc, erows_pre));
                        assert(erows@[s.edge_j(k as int, cc)] == erows_pre[s.edge_j(k as int, cc)]);
                    } else {
                        assert(s.edge_j(k as int, cc) == j_spec);
                    }
                }
            }
            proof {
                assert((j_spec + 1) * f_e == j_spec * f_e + f_e) by (nonlinear_arith);
            }
            edge_i = edge_i + f_e;
            c = c + 1;
            assert(leaf@ == s.succ_upto(k as int, c as int));
        }
        recs.push(
            NodeRecord {
                id,
                name,
                kind,
                self_size,
                edge_count: ec,
                distance: 0,
                retain_size: self_size,
                successors: leaf,
            },
        );
        assert(rec_good(*s, k as int, recs@[k as int]));
        proof {
            assert((k as int + 1) * f_n == k as int * f_n + f_n) by (nonlinear_arith);
        }
        node_i = node_i + f_n;
        k = k + 1;
    }
    assert(s.records_ok());
    assert(s.edges_ok()) by {
        assert(s.total_edges() * s.f_e() == edge_i);
    }
    assert(s.sizes_fit());
    Ok((recs, erows))
}

} // verus!
