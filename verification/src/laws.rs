use vstd::prelude::*;
use crate::rows::{analyzed, row_reached, IngestOutput, NodeRow};
use crate::snapshot::RawSnapshot;
use crate::graph::{erow_good_at, spec_is_essential_edge};

verus! {

/// The `children_count` values of the first `i` node rows, summed.
pub open spec fn sum_children(rows: Seq<NodeRow>, i: int) -> int
    decreases i,
{
    if i <= 0 {
        0
    } else {
        sum_children(rows, i - 1) + rows[i - 1].children_count
    }
}

proof fn lemma_sum_children_cum(s: RawSnapshot, rows: Seq<NodeRow>, i: int)
    requires
        rows.len() == s.n_records(),
        forall|k: int|
            0 <= k < s.n_records() ==> crate::rows::nrow_static_good(s, k, #[trigger] rows[k]),
        0 <= i <= rows.len(),
    ensures
        sum_children(rows, i) == s.cum_ec(i),
    decreases i,
{
    if i > 0 {
        assert(crate::rows::nrow_static_good(s, i - 1, rows[i - 1]));
        lemma_sum_children_cum(s, rows, i - 1);
    }
}

/// Edge-row conservation: the `edge` table holds exactly one row for each
/// edge a node row claims in its `children_count`.
pub proof fn lemma_edge_row_conservation(s: RawSnapshot, out: IngestOutput)
    requires
        analyzed(s, out),
    ensures
        out.edge_rows@.len() == sum_children(out.node_rows@, out.node_rows@.len() as int),
{
    lemma_sum_children_cum(s, out.node_rows@, out.node_rows@.len() as int);
}

/// Node-row conservation: one `node` row per record of the flat array.
pub proof fn lemma_node_row_conservation(s: RawSnapshot, out: IngestOutput)
    requires
        analyzed(s, out),
    ensures
        out.node_rows@.len() == s.nodes@.len() as int / s.node_fields@.len() as int,
{
}

/// A found root record index lies within the record table.
proof fn lemma_find_root_raw_bound(s: RawSnapshot, k: int)
    requires
        s.find_root_raw(k) >= 0,
    ensures
        k <= s.find_root_raw(k) < s.n_records(),
    decreases s.n_records() - k,
{
    if !(k < 0 || k >= s.n_records()) && s.id_raw(k) != 1 {
        lemma_find_root_raw_bound(s, k + 1);
    }
}

proof fn lemma_root_raw_at(s: RawSnapshot, i: int, k: int)
    requires
        0 <= i <= k < s.n_records(),
        s.id_raw(k) == 1,
        forall|j: int| i <= j < k ==> (#[trigger] s.id_raw(j)) != 1,
    ensures
        s.find_root_raw(i) == k,
    decreases k - i,
{
    if i < k {
        lemma_root_raw_at(s, i + 1, k);
    }
}

/// Root distance: the first `node` row with id 1 has distance 0 (and keeps
/// `retain_size = self_size`).
pub proof fn lemma_root_distance(s: RawSnapshot, out: IngestOutput, k: int)
    requires
        analyzed(s, out),
        0 <= k < out.node_rows@.len(),
        out.node_rows@[k].id == 1,
        forall|j: int| 0 <= j < k ==> (#[trigger] out.node_rows@[j]).id != 1,
    ensures
        out.node_rows@[k].distance == 0,
        out.node_rows@[k].retain_size == out.node_rows@[k].self_size,
{
    assert forall|j: int| 0 <= j < k implies (#[trigger] s.id_raw(j)) != 1 by {
        assert(crate::rows::nrow_static_good(s, j, out.node_rows@[j]));
    }
    assert(crate::rows::nrow_static_good(s, k, out.node_rows@[k]));
    lemma_root_raw_at(s, 0, k);
}

proof fn lemma_owner_upto(s: RawSnapshot, kmax: int, j: int)
    requires
        0 <= kmax <= s.n_records(),
        0 <= j < s.cum_ec(kmax),
    ensures
        exists|k: int, c: int|
            0 <= k < kmax && 0 <= c < s.ec_raw(k) && j == #[trigger] s.edge_j(k, c),
    decreases kmax,
{
    if kmax > 0 {
        if j < s.cum_ec(kmax - 1) {
            lemma_owner_upto(s, kmax - 1, j);
        } else {
            assert(0 <= kmax - 1 < kmax && 0 <= j - s.cum_ec(kmax - 1) < s.ec_raw(kmax - 1) && j
                == s.edge_j(kmax - 1, j - s.cum_ec(kmax - 1)));
        }
    }
}

proof fn lemma_succ_upto_contains(s: RawSnapshot, k: int, c: int, c2: int)
    requires
        0 <= c < c2,
        s.edge_essential(k, s.edge_j(k, c)),
    ensures
        s.succ_upto(k, c2).contains(
            ((s.to_raw(s.edge_j(k, c)) / (s.f_n() as u64)) as usize),
        ),
    decreases c2,
{
    let v = (s.to_raw(s.edge_j(k, c)) / (s.f_n() as u64)) as usize;
    if c2 == c + 1 {
        let pre = s.succ_upto(k, c);
        assert(s.succ_upto(k, c2) == pre.push(v));
        assert(pre.push(v)[pre.len() as int] == v);
    } else {
        lemma_succ_upto_contains(s, k, c, c2 - 1);
        let pre = s.succ_upto(k, c2 - 1);
        let i = choose|i: int| 0 <= i < pre.len() && pre[i] == v;
        if s.edge_essential(k, s.edge_j(k, c2 - 1)) {
            assert(s.succ_upto(k, c2)[i] == v);
        }
    }
}

/// Distance monotonicity: every persisted edge row has a `from` row and a
/// `to` row; when the edge is essential and its `from` row is reached, the
/// `to` row is reached too and its distance exceeds the `from` row's by at
/// most one.
#[verifier::rlimit(100)]
pub proof fn lemma_distance_monotonicity(s: RawSnapshot, out: IngestOutput, j: int)
    requires
        analyzed(s, out),
        0 <= j < out.edge_rows@.len(),
    ensures
        exists|k: int, m: int|
            #![trigger out.node_rows@[k], out.node_rows@[m]]
            0 <= k < out.node_rows@.len() && 0 <= m < out.node_rows@.len()
                && out.node_rows@[k].id == out.edge_rows@[j].from && out.node_rows@[m].id
                == out.edge_rows@[j].to && ((spec_is_essential_edge(
                out.edge_rows@[j].kind@,
                out.edge_rows@[j].from,
            ) && row_reached(out.node_rows@, s.find_root_raw(0), k)) ==> row_reached(
                out.node_rows@,
                s.find_root_raw(0),
                m,
            ) && out.node_rows@[m].distance <= out.node_rows@[k].distance + 1),
{
    let rows = out.node_rows@;
    let e = out.edge_rows@[j];
    let root = s.find_root_raw(0);
    let n = s.n_records();
    let f_n = s.f_n();
    lemma_owner_upto(s, n, j);
    let (k, c): (int, int) = choose|k: int, c: int|
        0 <= k < n && 0 <= c < s.ec_raw(k) && j == #[trigger] s.edge_j(k, c);
    assert(erow_good_at(s, k, c, out.edge_rows@));
    assert(crate::rows::nrow_static_good(s, k, rows[k]));
    assert(rows[k].id == e.from);
    let t = s.to_raw(j);
    let m = t as int / f_n;
    assert(s.edge_ok_at(k, c));
    assert(t as int % f_n == 0 && (t as int) < s.nodes@.len());
    assert(s.nodes@.len() == n * f_n) by (nonlinear_arith)
        requires
            f_n > 0,
            n == s.nodes@.len() as int / f_n,
            s.nodes@.len() as int % f_n == 0,
    ;
    assert(0 <= m < n && t == m * f_n) by (nonlinear_arith)
        requires
            t as int % f_n == 0,
            m == t as int / f_n,
            (t as int) < n * f_n,
            f_n > 0,
    ;
    assert(crate::rows::nrow_static_good(s, m, rows[m]));
    assert(rows[m].id == s.id_raw(m));
    assert(s.id_raw(m) == s.nodes@[m * f_n + s.off_node_id()]);
    assert(rows[m].id == e.to);
    if spec_is_essential_edge(e.kind@, e.from) && row_reached(rows, root, k) {
        assert(root >= 0) by {
            if root < 0 {
                assert(rows[k].distance == 0);
            }
        }
        assert(s.edge_essential(k, j));
        lemma_succ_upto_contains(s, k, c, s.ec_raw(k) as int);
        let v = (t / (f_n as u64)) as usize;
        assert(s.nodes@.len() <= usize::MAX) by {
            assert(vstd::std_specs::vec::spec_vec_len(&s.nodes) <= usize::MAX);
        }
        assert(s.node_fields@.len() <= usize::MAX) by {
            assert(vstd::std_specs::vec::spec_vec_len(&s.node_fields) <= usize::MAX);
        }
        assert(n <= usize::MAX) by (nonlinear_arith)
            requires
                n == s.nodes@.len() as int / f_n,
                f_n > 0,
                s.nodes@.len() <= usize::MAX,
        ;
        assert(v as int == m) by (nonlinear_arith)
            requires
                t as int % f_n == 0,
                m == t as int / f_n,
                v == (t / (f_n as u64)) as usize,
                (t as int) < n * f_n,
                n <= usize::MAX,
                f_n > 0,
                f_n <= usize::MAX,
        ;
        assert(s.adj_spec()[k] == s.succ_of(k));
        assert(s.adj_spec()[k].contains(v));
        let i = choose|i: int| 0 <= i < s.adj_spec()[k].len() && s.adj_spec()[k][i] == v;
        assert(row_reached(rows, root, s.adj_spec()[k][i] as int) && rows[s.adj_spec()[k][i] as int].distance
            <= rows[k].distance + 1);
    }
    assert(0 <= k < rows.len() && 0 <= m < rows.len() && rows[k].id == e.from && rows[m].id
        == e.to && ((spec_is_essential_edge(e.kind@, e.from) && row_reached(rows, root, k))
        ==> row_reached(rows, root, m) && rows[m].distance <= rows[k].distance + 1));
}

/// Retain lower bound: every node row's retain size is at least its self
/// size (reached rows accumulate along the discovery path; unreached rows
/// keep exactly their self size).
pub proof fn lemma_retain_lower_bound(s: RawSnapshot, out: IngestOutput)
    requires
        analyzed(s, out),
    ensures
        forall|v: int|
            0 <= v < out.node_rows@.len() ==> (#[trigger] out.node_rows@[v]).retain_size
                >= out.node_rows@[v].self_size,
{
    let rows = out.node_rows@;
    let root = s.find_root_raw(0);
    assert forall|v: int| 0 <= v < rows.len() implies (#[trigger] rows[v]).retain_size
        >= rows[v].self_size by {
        if root >= 0 {
            if row_reached(rows, root, v) {
                assert(rows[v].retain_size >= rows[v].self_size);
            } else {
                assert(rows[v].retain_size == rows[v].self_size);
            }
        }
    }
}

/// Determinism: two ingestions of one snapshot agree on every `edge` row,
/// every `location` row, and every `node` column - the decoded ones and the
/// analysis ones (`distance` and `retain_size`, pinned by the discovery
/// sequence of the walk). Re-running the tool on the same input therefore
/// re-creates the same persisted data throughout.
pub proof fn lemma_rows_deterministic(s: RawSnapshot, o1: IngestOutput, o2: IngestOutput)
    requires
        analyzed(s, o1),
        analyzed(s, o2),
    ensures
        o1.edge_rows@.len() == o2.edge_rows@.len(),
        forall|j: int|
            0 <= j < o1.edge_rows@.len() ==> (#[trigger] o1.edge_rows@[j]).from
                == o2.edge_rows@[j].from && o1.edge_rows@[j].to == o2.edge_rows@[j].to
                && o1.edge_rows@[j].kind@ == o2.edge_rows@[j].kind@
                && o1.edge_rows@[j].name_or_index@ == o2.edge_rows@[j].name_or_index@,
        o1.location_rows@.len() == o2.location_rows@.len(),
        forall|q: int|
            0 <= q < o1.location_rows@.len() ==> #[trigger] o1.location_rows@[q]
                == o2.location_rows@[q],
        o1.node_rows@.len() == o2.node_rows@.len(),
        forall|k: int|
            0 <= k < o1.node_rows@.len() ==> (#[trigger] o1.node_rows@[k]).id
                == o2.node_rows@[k].id && o1.node_rows@[k].name@ == o2.node_rows@[k].name@
                && o1.node_rows@[k].kind@ == o2.node_rows@[k].kind@ && o1.node_rows@[k].self_size
                == o2.node_rows@[k].self_size && o1.node_rows@[k].children_count
                == o2.node_rows@[k].children_count,
        forall|k: int|
            0 <= k < o1.node_rows@.len() ==> (#[trigger] o1.node_rows@[k]).distance
                == o2.node_rows@[k].distance && o1.node_rows@[k].retain_size
                == o2.node_rows@[k].retain_size,
{
    assert forall|j: int| 0 <= j < o1.edge_rows@.len() implies (#[trigger] o1.edge_rows@[j]).from
        == o2.edge_rows@[j].from && o1.edge_rows@[j].to == o2.edge_rows@[j].to
        && o1.edge_rows@[j].kind@ == o2.edge_rows@[j].kind@ && o1.edge_rows@[j].name_or_index@
        == o2.edge_rows@[j].name_or_index@ by {
        lemma_owner_upto(s, s.n_records(), j);
        let (k, c): (int, int) = choose|k: int, c: int|
            0 <= k < s.n_records() && 0 <= c < s.ec_raw(k) && j == #[trigger] s.edge_j(k, c);
        assert(erow_good_at(s, k, c, o1.edge_rows@));
        assert(erow_good_at(s, k, c, o2.edge_rows@));
    }
    assert forall|q: int| 0 <= q < o1.location_rows@.len() implies #[trigger] o1.location_rows@[q]
        == o2.location_rows@[q] by {
        assert(crate::rows::lrow_good(s, q, o1.location_rows@[q]));
        assert(crate::rows::lrow_good(s, q, o2.location_rows@[q]));
    }
    assert forall|k: int| 0 <= k < o1.node_rows@.len() implies (#[trigger] o1.node_rows@[k]).id
        == o2.node_rows@[k].id && o1.node_rows@[k].name@ == o2.node_rows@[k].name@
        && o1.node_rows@[k].kind@ == o2.node_rows@[k].kind@ && o1.node_rows@[k].self_size
        == o2.node_rows@[k].self_size && o1.node_rows@[k].children_count
        == o2.node_rows@[k].children_count by {
        assert(crate::rows::nrow_static_good(s, k, o1.node_rows@[k]));
        assert(crate::rows::nrow_static_good(s, k, o2.node_rows@[k]));
    }
    let rows1 = o1.node_rows@;
    let rows2 = o2.node_rows@;
    let root = s.find_root_raw(0);
    let adj = s.adj_spec();
    let n = s.n_records();
    if root >= 0 {
        let q1 = choose|q: Seq<usize>|
            #[trigger] crate::bfs::discovery_wf(
                adj,
                (root as usize),
                crate::rows::selfs_rows(rows1),
                crate::rows::reach_rows(rows1, root),
                crate::rows::dists_rows(rows1),
                crate::rows::rets_rows(rows1),
                q,
            );
        let q2 = choose|q: Seq<usize>|
            #[trigger] crate::bfs::discovery_wf(
                adj,
                (root as usize),
                crate::rows::selfs_rows(rows2),
                crate::rows::reach_rows(rows2, root),
                crate::rows::dists_rows(rows2),
                crate::rows::rets_rows(rows2),
                q,
            );
        // both walks see the same self sizes and the same reached set
        assert forall|k: int|
            0 <= k < n implies crate::rows::selfs_rows(rows2)[k] == crate::rows::selfs_rows(
            rows1,
        )[k] && crate::rows::reach_rows(rows2, root)[k] == crate::rows::reach_rows(
            rows1,
            root,
        )[k] by {
            assert(crate::rows::nrow_static_good(s, k, rows1[k]));
            assert(crate::rows::nrow_static_good(s, k, rows2[k]));
            assert(row_reached(rows1, root, k) <==> crate::bfs::reaches(
                adj,
                (root as usize),
                k as usize,
            ));
            assert(row_reached(rows2, root, k) <==> crate::bfs::reaches(
                adj,
                (root as usize),
                k as usize,
            ));
        }
        assert(crate::rows::selfs_rows(rows2) =~= crate::rows::selfs_rows(rows1));
        assert(crate::rows::reach_rows(rows2, root) =~= crate::rows::reach_rows(rows1, root));
        assert(crate::rows::reach_rows(rows1, root).len() <= usize::MAX) by {
            assert(vstd::std_specs::vec::spec_vec_len(&o1.node_rows) <= usize::MAX);
        }
        lemma_find_root_raw_bound(s, 0);
        assert(rows1[root].distance == 0 && rows2[root].distance == 0);
        assert(rows1[root].retain_size == rows1[root].self_size && rows2[root].retain_size
            == rows2[root].self_size);
        assert(crate::rows::nrow_static_good(s, root, rows1[root]));
        assert(crate::rows::nrow_static_good(s, root, rows2[root]));
        assert(crate::rows::dists_rows(rows1)[root] == crate::rows::dists_rows(rows2)[root]);
        assert(crate::rows::rets_rows(rows1)[root] == crate::rows::rets_rows(rows2)[root]);
        crate::bfs::lemma_discovery_deterministic(
            adj,
            (root as usize),
            crate::rows::selfs_rows(rows1),
            crate::rows::reach_rows(rows1, root),
            crate::rows::dists_rows(rows1),
            crate::rows::rets_rows(rows1),
            q1,
            crate::rows::dists_rows(rows2),
            crate::rows::rets_rows(rows2),
            q2,
        );
        assert forall|k: int|
            0 <= k < rows1.len() implies (#[trigger] rows1[k]).distance == rows2[k].distance
            && rows1[k].retain_size == rows2[k].retain_size by {
            if crate::rows::reach_rows(rows1, root)[k] {
                assert(crate::rows::dists_rows(rows1)[k] == crate::rows::dists_rows(rows2)[k]);
                assert(crate::rows::rets_rows(rows1)[k] == crate::rows::rets_rows(rows2)[k]);
            } else {
                assert(!row_reached(rows1, root, k) && !row_reached(rows2, root, k));
            }
        }
    } else {
        assert forall|k: int|
            0 <= k < rows1.len() implies (#[trigger] rows1[k]).distance == rows2[k].distance
            && rows1[k].retain_size == rows2[k].retain_size by {
            assert(crate::rows::nrow_static_good(s, k, rows1[k]));
            assert(crate::rows::nrow_static_good(s, k, rows2[k]));
        }
    }
}

/// Location integrity: every `location` row's `node_id` is the id of some
/// `node` row.
pub proof fn lemma_location_integrity(s: RawSnapshot, out: IngestOutput, q: int)
    requires
        analyzed(s, out),
        0 <= q < out.location_rows@.len(),
    ensures
        exists|k: int|
            0 <= k < out.node_rows@.len() && (#[trigger] out.node_rows@[k]).id
                == out.location_rows@[q].node_id,
{
    let rows = out.node_rows@;
    let n = s.n_records();
    let f_n = s.f_n();
    assert(crate::rows::lrow_good(s, q, out.location_rows@[q]));
    let obj = s.loc_obj(q);
    let k = obj as int / f_n;
    assert(s.nodes@.len() == n * f_n) by (nonlinear_arith)
        requires
            f_n > 0,
            n == s.nodes@.len() as int / f_n,
            s.nodes@.len() as int % f_n == 0,
    ;
    assert(0 <= k < n && obj == k * f_n) by (nonlinear_arith)
        requires
            obj as int % f_n == 0,
            k == obj as int / f_n,
            (obj as int) < n * f_n,
            f_n > 0,
    ;
    assert(crate::rows::nrow_static_good(s, k, rows[k]));
    assert(rows[k].id == s.id_raw(k));
    assert(s.id_raw(k) == s.nodes@[k * f_n + s.off_node_id()]);
    assert(rows[k].id == out.location_rows@[q].node_id);
}

} // verus!
