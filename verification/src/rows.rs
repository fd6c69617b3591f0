use vstd::prelude::*;
use crate::bfs::{calculate_distance, sum_rec_self};
use crate::graph::{
    build_graph, erow_good_at, graph_good, lemma_offsets_in_range, rec_good, EdgeRow, NodeRecord,
};
use crate::meta::{decode_meta, MetaTable};
use crate::snapshot::{RawSnapshot, SnapshotError};

verus! {

/// One row of the `node` table.
pub struct NodeRow {
    pub id: u64,
    pub name: String,
    pub kind: String,
    pub self_size: u64,
    pub children_count: u64,
    pub distance: u64,
    pub retain_size: u64,
}

/// One row of the `location` table.
pub struct LocationRow {
    pub node_id: u64,
    pub script_id: u64,
    pub line: u64,
    pub col: u64,
}

/// Everything the snapshot materializes into: the three tables, ready to be
/// persisted in that order (edges first, then nodes, then locations).
pub struct IngestOutput {
    pub node_rows: Vec<NodeRow>,
    pub edge_rows: Vec<EdgeRow>,
    pub location_rows: Vec<LocationRow>,
}

impl RawSnapshot {
    /// Number of location quadruples.
    pub open spec fn n_locs(self) -> int {
        self.locations@.len() as int / 4
    }

    /// Field `f` of location quadruple `q`.
    pub open spec fn loc_raw(self, q: int, f: int) -> u64 {
        self.locations@[4 * q + f]
    }

    /// The node-array position a location points at.
    pub open spec fn loc_obj(self, q: int) -> u64 {
        self.loc_raw(q, 0)
    }

    /// The id of the node a location belongs to.
    pub open spec fn loc_node_id(self, q: int) -> u64 {
        self.nodes@[self.loc_obj(q) as int + self.off_node_id()]
    }

    /// The locations array is whole quadruples, each pointing at a valid
    /// node record position.
    pub open spec fn locations_ok(self) -> bool {
        &&& self.locations@.len() as int % 4 == 0
        &&& forall|q: int|
            0 <= q < self.n_locs() ==> (#[trigger] self.loc_obj(q)) as int % self.f_n() == 0 && (
            self.loc_obj(q) as int) < self.nodes@.len()
    }

    /// The whole snapshot is well formed: ingestion succeeds exactly here.
    pub open spec fn snapshot_ok(self) -> bool {
        &&& self.meta_ok()
        &&& self.graph_ok()
        &&& self.locations_ok()
    }

    /// The successor lists of all records, by record index.
    pub open spec fn adj_spec(self) -> Seq<Seq<usize>> {
        Seq::new(self.n_records() as nat, |k: int| self.succ_of(k))
    }

    /// The first record whose id is 1, at or after `k`; -1 if none.
    pub open spec fn find_root_raw(self, k: int) -> int
        decreases self.n_records() - k,
    {
        if k < 0 || k >= self.n_records() {
            -1
        } else if self.id_raw(k) == 1 {
            k
        } else {
            self.find_root_raw(k + 1)
        }
    }
}

/// `row` is the persisted form of location quadruple `q`.
pub open spec fn lrow_good(s: RawSnapshot, q: int, row: LocationRow) -> bool {
    &&& row.node_id == s.loc_node_id(q)
    &&& row.script_id == s.loc_raw(q, 1)
    &&& row.line == s.loc_raw(q, 2)
    &&& row.col == s.loc_raw(q, 3)
}

/// `row` carries the decoded fields of node record `k`.
pub open spec fn nrow_static_good(s: RawSnapshot, k: int, row: NodeRow) -> bool {
    &&& row.id == s.id_raw(k)
    &&& row.name@ == s.name_text(k)
    &&& row.kind@ == s.type_text(k)
    &&& row.self_size == s.self_size_raw(k)
    &&& row.children_count == s.ec_raw(k)
}

/// A node row counts as reached when it is the root row or its distance was
/// assigned.
pub open spec fn row_reached(rows: Seq<NodeRow>, root: int, v: int) -> bool {
    v == root || rows[v].distance > 0
}

/// The self sizes of the node rows, by index.
pub open spec fn selfs_rows(rows: Seq<NodeRow>) -> Seq<u64> {
    Seq::new(rows.len(), |k: int| rows[k].self_size)
}

/// The distances of the node rows, by index.
pub open spec fn dists_rows(rows: Seq<NodeRow>) -> Seq<u64> {
    Seq::new(rows.len(), |k: int| rows[k].distance)
}

/// The retain sizes of the node rows, by index.
pub open spec fn rets_rows(rows: Seq<NodeRow>) -> Seq<u64> {
    Seq::new(rows.len(), |k: int| rows[k].retain_size)
}

/// Which node rows are reached, by index.
pub open spec fn reach_rows(rows: Seq<NodeRow>, root: int) -> Seq<bool> {
    Seq::new(rows.len(), |v: int| row_reached(rows, root, v))
}

/// What the analyzer guarantees of the node rows (the analysis columns).
pub open spec fn rows_analyzed(s: RawSnapshot, rows: Seq<NodeRow>) -> bool {
    let root = s.find_root_raw(0);
    let adj = s.adj_spec();
    &&& (root < 0 ==> forall|k: int|
        0 <= k < rows.len() ==> (#[trigger] rows[k]).distance == 0 && rows[k].retain_size
            == rows[k].self_size)
    &&& (root >= 0 ==> {
        &&& rows[root].distance == 0
        &&& rows[root].retain_size == rows[root].self_size
        &&& forall|v: int|
            0 <= v < rows.len() ==> ((#[trigger] row_reached(rows, root, v))
                <==> crate::bfs::reaches(adj, root as usize, v as usize))
        &&& forall|v: int|
            0 <= v < rows.len() && !row_reached(rows, root, v) ==> (#[trigger] rows[v]).distance
                == 0 && rows[v].retain_size == rows[v].self_size
        &&& forall|v: int|
            0 <= v < rows.len() && #[trigger] row_reached(rows, root, v) && v != root ==> rows[v].distance
                >= 1 && (exists|u: int|
                0 <= u < rows.len() && row_reached(rows, root, u) && adj[u].contains(v as usize)
                    && rows[v].distance == rows[u].distance + 1 && rows[v].retain_size
                    == rows[u].retain_size + rows[v].self_size)
        &&& forall|u: int, i: int|
            #![trigger row_reached(rows, root, u), adj[u][i]]
            0 <= u < rows.len() && row_reached(rows, root, u) && 0 <= i < adj[u].len()
                ==> row_reached(rows, root, adj[u][i] as int) && rows[adj[u][i] as int].distance
                <= rows[u].distance + 1
        &&& forall|v: int|
            0 <= v < rows.len() && #[trigger] row_reached(rows, root, v) ==> rows[v].retain_size
                >= rows[v].self_size
        &&& exists|q: Seq<usize>|
            #[trigger] crate::bfs::discovery_wf(
                adj,
                (root as usize),
                selfs_rows(rows),
                reach_rows(rows, root),
                dists_rows(rows),
                rets_rows(rows),
                q,
            )
    })
}

/// The full relation between a snapshot and its materialized tables.
pub open spec fn analyzed(s: RawSnapshot, out: IngestOutput) -> bool {
    &&& s.snapshot_ok()
    &&& out.node_rows@.len() == s.n_records()
    &&& forall|k: int|
        0 <= k < s.n_records() ==> nrow_static_good(s, k, #[trigger] out.node_rows@[k])
    &&& out.edge_rows@.len() == s.total_edges()
    &&& forall|k: int, c: int|
        0 <= k < s.n_records() && 0 <= c < s.ec_raw(k) ==> #[trigger] erow_good_at(
            s,
            k,
            c,
            out.edge_rows@,
        )
    &&& out.location_rows@.len() == s.n_locs()
    &&& forall|q: int|
        0 <= q < s.n_locs() ==> lrow_good(s, q, #[trigger] out.location_rows@[q])
    &&& rows_analyzed(s, out.node_rows@)
}

/// Converts the analyzed records into `node` rows.
fn node_rows(recs: &Vec<NodeRecord>) -> (r: Vec<NodeRow>)
    ensures
        r@.len() == recs@.len(),
        forall|k: int|
            0 <= k < recs@.len() ==> {
                let row = #[trigger] r@[k];
                &&& row.id == recs@[k].id
                &&& row.name@ == recs@[k].name@
                &&& row.kind@ == recs@[k].kind@
                &&& row.self_size == recs@[k].self_size
                &&& row.children_count == recs@[k].edge_count
                &&& row.distance == recs@[k].distance
                &&& row.retain_size == recs@[k].retain_size
            },
{
    let mut out: Vec<NodeRow> = Vec::new();
    let mut k: usize = 0;
    while k < recs.len()
        invariant
            0 <= k <= recs@.len(),
            out@.len() == k,
            forall|i: int|
                0 <= i < k ==> {
                    let row = #[trigger] out@[i];
                    &&& row.id == recs@[i].id
                    &&& row.name@ == recs@[i].name@
                    &&& row.kind@ == recs@[i].kind@
                    &&& row.self_size == recs@[i].self_size
                    &&& row.children_count == recs@[i].edge_count
                    &&& row.distance == recs@[i].distance
                    &&& row.retain_size == recs@[i].retain_size
                },
        decreases recs@.len() - k,
    {
        let rec = &recs[k];
        out.push(
            NodeRow {
                id: rec.id,
                name: rec.name.clone(),
                kind: rec.kind.clone(),
                self_size: rec.self_size,
                children_count: rec.edge_count,
                distance: rec.distance,
                retain_size: rec.retain_size,
            },
        );
        k += 1;
    }
    out
}

/// Converts the locations quadruples into `location` rows, resolving each
/// node position to the node's id. Succeeds exactly when `locations_ok`.
#[verifier::loop_isolation(false)]
fn location_rows(s: &RawSnapshot, m: &MetaTable) -> (r: Result<Vec<LocationRow>, SnapshotError>)
    requires
        s.meta_good(*m),
        s.nodes_shape_ok(),
    ensures
        (r is Ok) <==> s.locations_ok(),
        (r matches Err(e) ==> e == SnapshotError::Parse),
        (r matches Ok(rows) ==> rows@.len() == s.n_locs() && forall|q: int|
            0 <= q < s.n_locs() ==> lrow_good(*s, q, #[trigger] rows@[q])),
{
    proof {
        lemma_offsets_in_range(*s);
    }
    let f_n = s.node_fields.len();
    if s.locations.len() % 4 != 0 {
        return Err(SnapshotError::Parse);
    }
    let n_locs = s.locations.len() / 4;
    proof {
        assert(s.locations@.len() == n_locs * 4) by (nonlinear_arith)
            requires
                n_locs == s.locations@.len() as int / 4,
                s.locations@.len() as int % 4 == 0,
        ;
        assert(s.nodes@.len() == (s.nodes@.len() as int / f_n as int) * f_n) by (nonlinear_arith)
            requires
                f_n > 0,
                s.nodes@.len() as int % f_n as int == 0,
        ;
    }
    let mut rows: Vec<LocationRow> = Vec::new();
    let mut q: usize = 0;
    let mut i: usize = 0;
    while q < n_locs
        invariant
            0 <= q <= n_locs,
            i == 4 * q,
            rows@.len() == q,
            forall|p: int| 0 <= p < q ==> lrow_good(*s, p, #[trigger] rows@[p]),
            forall|p: int|
                0 <= p < q ==> (#[trigger] s.loc_obj(p)) as int % f_n as int == 0 && (s.loc_obj(
                    p,
                ) as int) < s.nodes@.len(),
        decreases n_locs - q,
    {
        proof {
            assert(i + 4 <= s.locations@.len()) by (nonlinear_arith)
                requires
                    i == 4 * q,
                    q < n_locs,
                    s.locations@.len() == n_locs * 4,
            ;
        }
        let obj = s.locations[i];
        assert(s.loc_obj(q as int) == obj);
        if obj >= s.nodes.len() as u64 || (obj as usize) % f_n != 0 {
            assert(!s.locations_ok());
            return Err(SnapshotError::Parse);
        }
        proof {
            assert((obj as usize) + s.off_node_id() < s.nodes@.len()) by (nonlinear_arith)
                requires
                    obj as int % f_n as int == 0,
                    (obj as int) < s.nodes@.len(),
                    s.nodes@.len() == (s.nodes@.len() as int / f_n as int) * f_n,
                    0 <= s.off_node_id() < f_n,
                    f_n > 0,
            ;
        }
        let node_id = s.nodes[(obj as usize) + m.node_id_o];
        let script_id = s.locations[i + 1];
        let line = s.locations[i + 2];
        let col = s.locations[i + 3];
        rows.push(LocationRow { node_id, script_id, line, col });
        q += 1;
        i += 4;
    }
    assert(s.locations_ok());
    Ok(rows)
}

/// All record ids agree with the raw ids, so the first root is the same.
proof fn lemma_find_root_transfer(s: RawSnapshot, g: Seq<NodeRecord>, k: int)
    requires
        g.len() == s.n_records(),
        forall|i: int| 0 <= i < g.len() ==> #[trigger] rec_good(s, i, g[i]),
        0 <= k <= g.len(),
    ensures
        crate::bfs::find_root(g, k) == s.find_root_raw(k),
    decreases g.len() - k,
{
    if k < g.len() {
        assert(rec_good(s, k, g[k]));
        lemma_find_root_transfer(s, g, k + 1);
    }
}

/// The record self sizes sum to the raw self sizes.
proof fn lemma_sum_transfer(s: RawSnapshot, g: Seq<NodeRecord>, k: int)
    requires
        g.len() == s.n_records(),
        forall|i: int| 0 <= i < g.len() ==> #[trigger] rec_good(s, i, g[i]),
        0 <= k <= g.len(),
    ensures
        sum_rec_self(g, k) == s.sum_self(k),
    decreases k,
{
    if k > 0 {
        assert(rec_good(s, k - 1, g[k - 1]));
        lemma_sum_transfer(s, g, k - 1);
    }
}

/// Decodes, analyzes and materializes one snapshot: the `edge` rows (in
/// snapshot order), the `node` rows (with distance and retain size
/// assigned), and the `location` rows. Succeeds exactly on well-formed
/// snapshots (`snapshot_ok`); an unknown meta type tag is a `Decode` error,
/// every other fault is `Parse`.
#[verifier::rlimit(60)]
pub fn ingest(s: &RawSnapshot) -> (r: Result<IngestOutput, SnapshotError>)
    ensures
        (r is Ok) <==> s.snapshot_ok(),
        (r matches Err(e) ==> (e == SnapshotError::Decode <==> (s.meta_len_ok()
            && !s.meta_decodable()))),
        (r matches Ok(out) ==> analyzed(*s, out)),
{
    let m = match decode_meta(s) {
        Ok(m) => m,
        Err(e) => {
            return Err(e);
        },
    };
    let (mut recs, erows) = match build_graph(s, &m) {
        Ok(p) => p,
        Err(e) => {
            return Err(SnapshotError::Parse);
        },
    };
    let ghost g0 = recs@;
    proof {
        lemma_sum_transfer(*s, g0, g0.len() as int);
        lemma_find_root_transfer(*s, g0, 0);
        assert forall|k: int| 0 <= k < g0.len() implies (#[trigger] g0[k]).distance == 0
            && g0[k].retain_size == g0[k].self_size by {
            assert(rec_good(*s, k, g0[k]));
        }
    }
    calculate_distance(&mut recs);
    let nrows = node_rows(&recs);
    let lrows = match location_rows(s, &m) {
        Ok(rows) => rows,
        Err(e) => {
            return Err(SnapshotError::Parse);
        },
    };
    let out = IngestOutput { node_rows: nrows, edge_rows: erows, location_rows: lrows };
    proof {
        lemma_ingest_analyzed(*s, g0, recs@, out);
    }
    Ok(out)
}

/// Carries the builder's and the analyzer's guarantees over to the rows.
#[verifier::rlimit(100)]
proof fn lemma_ingest_analyzed(
    s: RawSnapshot,
    g: Seq<NodeRecord>,
    h: Seq<NodeRecord>,
    out: IngestOutput,
)
    requires
        s.snapshot_ok(),
        graph_good(s, g, out.edge_rows@),
        crate::bfs::bfs_post(g, h),
        s.find_root_raw(0) == crate::bfs::find_root(g, 0),
        out.node_rows@.len() == h.len(),
        forall|k: int|
            0 <= k < h.len() ==> {
                let row = #[trigger] out.node_rows@[k];
                &&& row.id == h[k].id
                &&& row.name@ == h[k].name@
                &&& row.kind@ == h[k].kind@
                &&& row.self_size == h[k].self_size
                &&& row.children_count == h[k].edge_count
                &&& row.distance == h[k].distance
                &&& row.retain_size == h[k].retain_size
            },
        out.location_rows@.len() == s.n_locs(),
        forall|q: int| 0 <= q < s.n_locs() ==> lrow_good(s, q, #[trigger] out.location_rows@[q]),
    ensures
        analyzed(s, out),
{
    let rows = out.node_rows@;
    let root = s.find_root_raw(0);
    let adj = s.adj_spec();
    assert forall|k: int| 0 <= k < g.len() implies crate::bfs::adj_of(g)[k] =~= adj[k] by {
        assert(rec_good(s, k, g[k]));
    }
    assert(crate::bfs::adj_of(g) =~~= adj);
    if root >= 0 {
        crate::bfs::lemma_find_root_bound(g, 0);
    }
    assert forall|k: int| 0 <= k < s.n_records() implies nrow_static_good(
        s,
        k,
        #[trigger] rows[k],
    ) by {
        assert(rec_good(s, k, g[k]));
        assert(crate::bfs::same_frame(g[k], h[k]));
    }
    if root >= 0 {
        assert forall|v: int|
            0 <= v < rows.len() implies ((#[trigger] row_reached(rows, root, v))
            <==> crate::bfs::reached(h, root, v)) by {}
        assert(rows[root].retain_size == rows[root].self_size) by {
            assert(crate::bfs::same_frame(g[root], h[root]));
        }
        assert forall|v: int|
            0 <= v < rows.len() && !row_reached(rows, root, v) implies (
        #[trigger] rows[v]).distance == 0 && rows[v].retain_size == rows[v].self_size by {
            assert(!crate::bfs::reached(h, root, v));
            assert(crate::bfs::same_frame(g[v], h[v]));
        }
        assert forall|v: int|
            0 <= v < rows.len() && #[trigger] row_reached(rows, root, v) && v != root implies rows[v].distance
            >= 1 && (exists|u: int|
            0 <= u < rows.len() && row_reached(rows, root, u) && adj[u].contains(v as usize)
                && rows[v].distance == rows[u].distance + 1 && rows[v].retain_size
                == rows[u].retain_size + rows[v].self_size) by {
            assert(crate::bfs::reached(h, root, v));
            let u = choose|u: int|
                0 <= u < h.len() && crate::bfs::reached(h, root, u) && crate::bfs::adj_of(
                    g,
                )[u].contains(v as usize) && h[v].distance == h[u].distance + 1
                    && h[v].retain_size == h[u].retain_size + g[v].self_size;
            assert(crate::bfs::same_frame(g[v], h[v]));
            assert(row_reached(rows, root, u) && adj[u].contains(v as usize) && rows[v].distance
                == rows[u].distance + 1 && rows[v].retain_size == rows[u].retain_size
                + rows[v].self_size);
        }
        assert forall|u: int, i: int|
            #![trigger row_reached(rows, root, u), adj[u][i]]
            0 <= u < rows.len() && row_reached(rows, root, u) && 0 <= i < adj[u].len() implies row_reached(
            rows,
            root,
            adj[u][i] as int,
        ) && rows[adj[u][i] as int].distance <= rows[u].distance + 1 by {
            assert(crate::bfs::reached(h, root, u));
            assert(crate::bfs::adj_of(g)[u][i] == adj[u][i]);
            assert(crate::bfs::reached(h, root, crate::bfs::adj_of(g)[u][i] as int));
        }
        assert forall|v: int|
            0 <= v < rows.len() && #[trigger] row_reached(rows, root, v) implies rows[v].retain_size
            >= rows[v].self_size by {
            assert(crate::bfs::reached(h, root, v));
            assert(crate::bfs::same_frame(g[v], h[v]));
        }
        // the discovery sequence of the walk carries over to the rows
        let qd = choose|q: Seq<usize>|
            #[trigger] crate::bfs::discovery_wf(
                crate::bfs::adj_of(g),
                (root as usize),
                crate::bfs::selfs_of(g),
                crate::bfs::reach_flags(h, root),
                crate::bfs::dists_of(h),
                crate::bfs::rets_of(h),
                q,
            );
        assert forall|k: int|
            0 <= k < rows.len() implies selfs_rows(rows)[k] == crate::bfs::selfs_of(g)[k]
            && dists_rows(rows)[k] == crate::bfs::dists_of(h)[k] && rets_rows(rows)[k]
            == crate::bfs::rets_of(h)[k] && reach_rows(rows, root)[k] == crate::bfs::reach_flags(
            h,
            root,
        )[k] by {
            assert(crate::bfs::same_frame(g[k], h[k]));
        }
        assert(selfs_rows(rows) =~= crate::bfs::selfs_of(g));
        assert(dists_rows(rows) =~= crate::bfs::dists_of(h));
        assert(rets_rows(rows) =~= crate::bfs::rets_of(h));
        assert(reach_rows(rows, root) =~= crate::bfs::reach_flags(h, root));
        assert(crate::bfs::discovery_wf(
            adj,
            (root as usize),
            selfs_rows(rows),
            reach_rows(rows, root),
            dists_rows(rows),
            rets_rows(rows),
            qd,
        ));
    } else {
        assert forall|k: int|
            0 <= k < rows.len() implies (#[trigger] rows[k]).distance == 0 && rows[k].retain_size
            == rows[k].self_size by {
            assert(crate::bfs::same_frame(g[k], h[k]));
            assert(rec_good(s, k, g[k]));
        }
    }
}

} // verus!
