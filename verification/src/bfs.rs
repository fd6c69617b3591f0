use vstd::prelude::*;
use vstd::pervasive::VecAdditionalExecFns;
use crate::graph::{graph_wf, NodeRecord};

verus! {

/// The adjacency of a record table: the successor lists, by record index.
pub open spec fn adj_of(g: Seq<NodeRecord>) -> Seq<Seq<usize>> {
    Seq::new(g.len(), |k: int| g[k].successors@)
}

/// Every successor index points into the table.
pub open spec fn adj_wf(adj: Seq<Seq<usize>>) -> bool {
    forall|u: int, i: int|
        0 <= u < adj.len() && 0 <= i < adj[u].len() ==> (#[trigger] adj[u][i]) < adj.len()
}

/// `p` is a walk that starts at `v`: each entry follows an edge from the
/// vertex before it.
pub open spec fn is_walk(adj: Seq<Seq<usize>>, v: usize, p: Seq<usize>) -> bool
    decreases p.len(),
{
    if p.len() == 0 {
        true
    } else {
        &&& (v as int) < adj.len()
        &&& adj[v as int].contains(p[0])
        &&& is_walk(adj, p[0], p.drop_first())
    }
}

/// `v` lies at the end of some walk from `r` (or is `r` itself).
pub open spec fn reaches(adj: Seq<Seq<usize>>, r: usize, v: usize) -> bool {
    v == r || exists|p: Seq<usize>| is_walk(adj, r, p) && p.len() > 0 && p.last() == v
}

/// The set of visited vertices is closed under successors.
pub open spec fn closed(adj: Seq<Seq<usize>>, vis: Seq<bool>) -> bool {
    forall|u: int, i: int|
        0 <= u < adj.len() && vis[u] && 0 <= i < adj[u].len() ==> vis[(#[trigger] adj[u][i]) as int]
}

/// A walk stays a walk when extended by one edge from its last vertex.
proof fn lemma_walk_extend(adj: Seq<Seq<usize>>, r: usize, p: Seq<usize>, v: usize)
    requires
        is_walk(adj, r, p),
        p.len() > 0,
        (p.last() as int) < adj.len(),
        adj[p.last() as int].contains(v),
    ensures
        is_walk(adj, r, p.push(v)),
        p.push(v).len() > 0,
        p.push(v).last() == v,
    decreases p.len(),
{
    if p.len() == 1 {
        assert(p.push(v).drop_first() =~= seq![v]);
        assert(seq![v][0] == v);
        assert(seq![v].drop_first() =~= Seq::<usize>::empty());
        assert(is_walk(adj, v, Seq::<usize>::empty()));
        assert(is_walk(adj, p[0], seq![v]));
    } else {
        assert(p.drop_first().last() == p.last());
        lemma_walk_extend(adj, p[0], p.drop_first(), v);
        assert(p.drop_first().push(v) =~= p.push(v).drop_first());
    }
}

/// If the visited set contains the start of a walk and is closed under
/// successors, it contains the walk's end.
proof fn lemma_closed_walk(adj: Seq<Seq<usize>>, vis: Seq<bool>, r: usize, p: Seq<usize>)
    requires
        adj_wf(adj),
        vis.len() == adj.len(),
        (r as int) < adj.len(),
        vis[r as int],
        closed(adj, vis),
        is_walk(adj, r, p),
        p.len() > 0,
    ensures
        (p.last() as int) < adj.len(),
        vis[p.last() as int],
    decreases p.len(),
{
    let i = choose|i: int| 0 <= i < adj[r as int].len() && adj[r as int][i] == p[0];
    assert(vis[(adj[r as int][i]) as int]);
    if p.len() > 1 {
        lemma_closed_walk(adj, vis, p[0], p.drop_first());
    }
}

/// The first record with id 1, at or after `i`; -1 if there is none.
pub open spec fn find_root(g: Seq<NodeRecord>, i: int) -> int
    decreases g.len() - i,
{
    if i < 0 || i >= g.len() {
        -1
    } else if g[i].id == 1 {
        i
    } else {
        find_root(g, i + 1)
    }
}

/// A found root lies within the table and has id 1.
pub proof fn lemma_find_root_bound(g: Seq<NodeRecord>, k: int)
    requires
        find_root(g, k) >= 0,
    ensures
        k <= find_root(g, k) < g.len(),
        g[find_root(g, k)].id == 1,
    decreases g.len() - k,
{
    if !(k < 0 || k >= g.len()) && g[k].id != 1 {
        lemma_find_root_bound(g, k + 1);
    }
}

/// How many of the first `i` entries are set.
pub open spec fn count_vis(vs: Seq<bool>, i: int) -> int
    decreases i,
{
    if i <= 0 {
        0
    } else {
        count_vis(vs, i - 1) + if vs[i - 1] {
            1int
        } else {
            0int
        }
    }
}

/// The self sizes of the visited records among the first `i`.
pub open spec fn sum_vis(g: Seq<NodeRecord>, vs: Seq<bool>, i: int) -> int
    decreases i,
{
    if i <= 0 {
        0
    } else {
        sum_vis(g, vs, i - 1) + if vs[i - 1] {
            g[i - 1].self_size as int
        } else {
            0int
        }
    }
}

/// The self sizes of the first `i` records.
pub open spec fn sum_rec_self(g: Seq<NodeRecord>, i: int) -> int
    decreases i,
{
    if i <= 0 {
        0
    } else {
        sum_rec_self(g, i - 1) + g[i - 1].self_size
    }
}

proof fn lemma_count_vis_le(vs: Seq<bool>, i: int)
    requires
        0 <= i,
    ensures
        count_vis(vs, i) <= i,
    decreases i,
{
    if i > 0 {
        lemma_count_vis_le(vs, i - 1);
    }
}

proof fn lemma_sum_vis_le(g: Seq<NodeRecord>, vs: Seq<bool>, i: int)
    ensures
        sum_vis(g, vs, i) <= sum_rec_self(g, i),
    decreases i,
{
    if i > 0 {
        lemma_sum_vis_le(g, vs, i - 1);
    }
}

/// Newly visiting `v` raises the visited count by one and the visited sum
/// by `v`'s self size.
proof fn lemma_vis_update(g: Seq<NodeRecord>, vs: Seq<bool>, v: int, i: int)
    requires
        0 <= v < vs.len(),
        i <= vs.len(),
        !vs[v],
    ensures
        count_vis(vs.update(v, true), i) == count_vis(vs, i) + if v < i {
            1int
        } else {
            0int
        },
        sum_vis(g, vs.update(v, true), i) == sum_vis(g, vs, i) + if v < i {
            g[v].self_size as int
        } else {
            0int
        },
    decreases i,
{
    if i > 0 {
        lemma_vis_update(g, vs, v, i - 1);
    }
}

/// With nothing visited, the count and the sum are zero.
proof fn lemma_vis_zero(g: Seq<NodeRecord>, vs: Seq<bool>, i: int)
    requires
        forall|j: int| 0 <= j < i ==> !vs[j],
    ensures
        count_vis(vs, i) == 0,
        sum_vis(g, vs, i) == 0,
    decreases i,
{
    if i > 0 {
        lemma_vis_zero(g, vs, i - 1);
    }
}

/// `b` carries the same decoded fields and successors as `a` (only the
/// analysis results may differ).
pub open spec fn same_frame(a: NodeRecord, b: NodeRecord) -> bool {
    &&& b.id == a.id
    &&& b.name == a.name
    &&& b.kind == a.kind
    &&& b.self_size == a.self_size
    &&& b.edge_count == a.edge_count
    &&& b.successors@ == a.successors@
}

/// After the walk, a record counts as reached when it is the root or its
/// distance was assigned (the 0 sentinel marks "unassigned", and the root).
pub open spec fn reached(h: Seq<NodeRecord>, root: int, v: int) -> bool {
    v == root || h[v].distance > 0
}

/// What the breadth-first walk guarantees, `g` the table before and `h` the
/// table after:
/// - every decoded field is kept; only `distance` and `retain_size` change;
/// - with no root (no record of id 1) nothing changes;
/// - a record is reached exactly when the successor graph connects the root
///   to it; unreached records keep distance 0 and `retain_size = self_size`;
/// - the root keeps distance 0 and `retain_size = self_size`;
/// - every reached non-root record was discovered from a reached record one
///   step closer to the root, accumulating that record's retain size
///   (so `retain_size >= self_size` everywhere);
/// - along every kept edge the distance grows by at most one;
/// - a discovery sequence exists (`discovery_wf`): it fixes, for the given
///   successor lists, which record discovers which, so the distance and
///   retain columns are exactly those of the insertion-order frontier walk.
pub open spec fn bfs_post(g: Seq<NodeRecord>, h: Seq<NodeRecord>) -> bool {
    let root = find_root(g, 0);
    let adj = adj_of(g);
    &&& h.len() == g.len()
    &&& forall|k: int| 0 <= k < g.len() ==> same_frame(g[k], #[trigger] h[k])
    &&& (root < 0 ==> forall|k: int|
        0 <= k < g.len() ==> (#[trigger] h[k]).distance == g[k].distance && h[k].retain_size
            == g[k].retain_size)
    &&& (root >= 0 ==> {
        &&& h[root].distance == 0
        &&& h[root].retain_size == g[root].self_size
        &&& forall|v: int|
            0 <= v < h.len() ==> ((#[trigger] reached(h, root, v)) <==> reaches(
                adj,
                root as usize,
                v as usize,
            ))
        &&& forall|v: int|
            0 <= v < h.len() && !reached(h, root, v) ==> (#[trigger] h[v]).distance == 0
                && h[v].retain_size == g[v].self_size
        &&& forall|v: int|
            0 <= v < h.len() && #[trigger] reached(h, root, v) && v != root ==> h[v].distance >= 1
                && (exists|u: int|
                0 <= u < h.len() && reached(h, root, u) && adj[u].contains(v as usize)
                    && h[v].distance == h[u].distance + 1 && h[v].retain_size == h[u].retain_size
                    + g[v].self_size)
        &&& forall|u: int, i: int|
            #![trigger reached(h, root, u), adj[u][i]]
            0 <= u < h.len() && reached(h, root, u) && 0 <= i < adj[u].len() ==> reached(
                h,
                root,
                adj[u][i] as int,
            ) && h[adj[u][i] as int].distance <= h[u].distance + 1
        &&& forall|v: int|
            0 <= v < h.len() && #[trigger] reached(h, root, v) ==> h[v].retain_size
                >= h[v].self_size
        &&& exists|q: Seq<usize>|
            #[trigger] discovery_wf(
                adj,
                (root as usize),
                selfs_of(g),
                reach_flags(h, root),
                dists_of(h),
                rets_of(h),
                q,
            )
    })
}

/// Finds the root record: the first one whose id is 1.
fn find_root_idx(recs: &Vec<NodeRecord>) -> (r: Option<usize>)
    ensures
        (match r {
            Some(i) => i as int == find_root(recs@, 0) && i < recs@.len(),
            None => find_root(recs@, 0) < 0,
        }),
{
    let mut i: usize = 0;
    while i < recs.len()
        invariant
            0 <= i <= recs@.len(),
            find_root(recs@, 0) == find_root(recs@, i as int),
        decreases recs@.len() - i,
    {
        if recs[i].id == 1 {
            assert(find_root(recs@, i as int) == i);
            return Some(i);
        }
        i += 1;
    }
    None
}


/// The first queue entry whose successor list contains `v`, at or after
/// `i`; -1 if there is none. In a breadth-first walk entries are processed
/// in queue order, so this entry is the one that discovers `v`.
pub open spec fn first_lister(adj: Seq<Seq<usize>>, q: Seq<usize>, v: usize, i: int) -> int
    decreases q.len() - i,
{
    if i < 0 || i >= q.len() {
        -1
    } else if adj[q[i] as int].contains(v) {
        i
    } else {
        first_lister(adj, q, v, i + 1)
    }
}

/// The first position of `v` in a successor list, at or after `i`; -1 if
/// there is none.
pub open spec fn first_pos(l: Seq<usize>, v: usize, i: int) -> int
    decreases l.len() - i,
{
    if i < 0 || i >= l.len() {
        -1
    } else if l[i] == v {
        i
    } else {
        first_pos(l, v, i + 1)
    }
}

/// The queue index that discovered entry `j`.
pub open spec fn disc_parent(adj: Seq<Seq<usize>>, q: Seq<usize>, j: int) -> int {
    first_lister(adj, q, q[j], 0)
}

/// The position, within the discoverer's successor list, at which entry `j`
/// was first listed.
pub open spec fn disc_pos(adj: Seq<Seq<usize>>, q: Seq<usize>, j: int) -> int {
    first_pos(adj[q[disc_parent(adj, q, j)] as int], q[j], 0)
}

/// Entry `j1` was discovered strictly before entry `j2`: by an earlier
/// queue entry, or by the same entry at an earlier successor position.
pub open spec fn disc_before(adj: Seq<Seq<usize>>, q: Seq<usize>, j1: int, j2: int) -> bool {
    ||| disc_parent(adj, q, j1) < disc_parent(adj, q, j2)
    ||| (disc_parent(adj, q, j1) == disc_parent(adj, q, j2) && disc_pos(adj, q, j1) < disc_pos(
        adj,
        q,
        j2,
    ))
}

/// `q` is the discovery sequence of the breadth-first walk: it starts at
/// the root, lists each visited vertex exactly once, in discovery order
/// (each entry's discoverer is the first earlier entry that lists it, and
/// entries are sorted by discoverer and successor position), and the
/// distance and retain columns follow the discovery parent. Given the
/// graph, this determines the walk's result: in particular, each reached
/// vertex's retain size accumulates along its first-discovery path, as the
/// insertion-order frontier computes it.
pub open spec fn discovery_wf(
    adj: Seq<Seq<usize>>,
    root: usize,
    selfs: Seq<u64>,
    vis: Seq<bool>,
    dist: Seq<u64>,
    ret: Seq<u64>,
    q: Seq<usize>,
) -> bool {
    &&& q.len() >= 1
    &&& q[0] == root
    &&& forall|j: int| 0 <= j < q.len() ==> ((#[trigger] q[j]) as int) < adj.len()
    &&& forall|j1: int, j2: int|
        #![trigger q[j1], q[j2]]
        0 <= j1 < j2 < q.len() ==> q[j1] != q[j2]
    &&& forall|v: int| 0 <= v < vis.len() ==> ((#[trigger] vis[v]) <==> q.contains(v as usize))
    &&& forall|j: int|
        1 <= j < q.len() ==> {
            let p = #[trigger] disc_parent(adj, q, j);
            &&& 0 <= p < j
            &&& dist[q[j] as int] == dist[q[p] as int] + 1
            &&& ret[q[j] as int] == ret[q[p] as int] + selfs[q[j] as int]
        }
    &&& forall|j1: int, j2: int|
        #![trigger disc_parent(adj, q, j1), disc_parent(adj, q, j2)]
        1 <= j1 < j2 < q.len() ==> disc_before(adj, q, j1, j2)
}

/// A search that found its witness keeps it when the queue grows.
proof fn lemma_first_lister_push(adj: Seq<Seq<usize>>, q: Seq<usize>, w: usize, v: usize, i: int)
    requires
        0 <= i,
        first_lister(adj, q, v, i) >= 0,
    ensures
        first_lister(adj, q.push(w), v, i) == first_lister(adj, q, v, i),
    decreases q.len() - i,
{
    assert(q.push(w)[i] == q[i]);
    if !adj[q[i] as int].contains(v) {
        lemma_first_lister_push(adj, q, w, v, i + 1);
    }
}

/// The first lister is the entry that lists `v` with none before it.
proof fn lemma_first_lister_at(adj: Seq<Seq<usize>>, q: Seq<usize>, v: usize, i: int, p: int)
    requires
        0 <= i <= p < q.len(),
        adj[q[p] as int].contains(v),
        forall|k: int| i <= k < p ==> !(#[trigger] adj[q[k] as int]).contains(v),
    ensures
        first_lister(adj, q, v, i) == p,
    decreases p - i,
{
    if i < p {
        lemma_first_lister_at(adj, q, v, i + 1, p);
    }
}

/// The first position is the occurrence with none before it.
proof fn lemma_first_pos_at(l: Seq<usize>, v: usize, i: int, x: int)
    requires
        0 <= i <= x < l.len(),
        l[x] == v,
        forall|y: int| i <= y < x ==> (#[trigger] l[y]) != v,
    ensures
        first_pos(l, v, i) == x,
    decreases x - i,
{
    if i < x {
        lemma_first_pos_at(l, v, i + 1, x);
    }
}


/// A search over two queues with a common prefix finds the same entry when
/// the witness lies inside the prefix.
proof fn lemma_first_lister_prefix(
    adj: Seq<Seq<usize>>,
    q1: Seq<usize>,
    q2: Seq<usize>,
    v: usize,
    i: int,
)
    requires
        0 <= i,
        first_lister(adj, q1, v, i) >= 0,
        first_lister(adj, q1, v, i) < q2.len(),
        forall|k: int| i <= k <= first_lister(adj, q1, v, i) ==> q1[k] == #[trigger] q2[k],
    ensures
        first_lister(adj, q2, v, i) == first_lister(adj, q1, v, i),
        first_lister(adj, q1, v, i) >= i,
    decreases q1.len() - i,
{
    if !adj[q1[i] as int].contains(v) {
        lemma_first_lister_prefix(adj, q1, q2, v, i + 1);
    }
}

/// Two discovery sequences of the same walk are equal: the discoverer of
/// each entry lies in the common prefix, so the lexicographic discovery
/// order leaves no choice for the next entry.
proof fn lemma_discovery_unique_upto(
    adj: Seq<Seq<usize>>,
    root: usize,
    selfs: Seq<u64>,
    vis: Seq<bool>,
    dist1: Seq<u64>,
    ret1: Seq<u64>,
    q1: Seq<usize>,
    dist2: Seq<u64>,
    ret2: Seq<u64>,
    q2: Seq<usize>,
    j: int,
)
    requires
        discovery_wf(adj, root, selfs, vis, dist1, ret1, q1),
        discovery_wf(adj, root, selfs, vis, dist2, ret2, q2),
        adj.len() == vis.len(),
        0 <= j <= q1.len(),
        j <= q2.len(),
    ensures
        forall|k: int| 0 <= k < j ==> q1[k] == #[trigger] q2[k],
    decreases j,
{
    if j > 0 {
        lemma_discovery_unique_upto(
            adj,
            root,
            selfs,
            vis,
            dist1,
            ret1,
            q1,
            dist2,
            ret2,
            q2,
            j - 1,
        );
        let jj = j - 1;
        if jj == 0 {
            assert(q1[0] == root && q2[0] == root);
        } else {
            let v1 = q1[jj];
            let v2 = q2[jj];
            if v1 != v2 {
                // each sits in the other queue, at or after position jj
                assert(vis[v1 as int] && vis[v2 as int]);
                assert(q2.contains(v1));
                let i1 = choose|i: int| 0 <= i < q2.len() && q2[i] == v1;
                assert(i1 >= jj) by {
                    if i1 < jj {
                        assert(q1[i1] == q2[i1]);
                    }
                }
                assert(i1 > jj);
                assert(q1.contains(v2));
                let i2 = choose|i: int| 0 <= i < q1.len() && q1[i] == v2;
                assert(i2 >= jj) by {
                    if i2 < jj {
                        assert(q1[i2] == q2[i2]);
                    }
                }
                assert(i2 > jj);
                // the discoverers lie in the common prefix, so both queues
                // assign each vertex the same discoverer and position
                assert(0 <= disc_parent(adj, q1, jj) < jj);
                assert(first_lister(adj, q1, v1, 0) == disc_parent(adj, q1, jj));
                lemma_first_lister_prefix(adj, q1, q2, v1, 0);
                assert(disc_parent(adj, q2, i1) == disc_parent(adj, q1, jj));
                assert(q2[disc_parent(adj, q2, i1)] == q1[disc_parent(adj, q1, jj)]);
                assert(disc_pos(adj, q2, i1) == disc_pos(adj, q1, jj));
                assert(0 <= disc_parent(adj, q2, jj) < jj);
                assert(first_lister(adj, q2, v2, 0) == disc_parent(adj, q2, jj));
                lemma_first_lister_prefix(adj, q2, q1, v2, 0);
                assert(disc_parent(adj, q1, i2) == disc_parent(adj, q2, jj));
                assert(q1[disc_parent(adj, q1, i2)] == q2[disc_parent(adj, q2, jj)]);
                assert(disc_pos(adj, q1, i2) == disc_pos(adj, q2, jj));
                // but each queue puts its own entry strictly first
                assert(disc_before(adj, q1, jj, i2));
                assert(disc_before(adj, q2, jj, i1));
                assert(false);
            }
        }
    }
}

/// The walk's discovery sequence, and with it the distance and retain
/// columns of every record, are functions of the graph alone: two walks
/// over the same successor lists and self sizes that reach the same records
/// agree everywhere.
pub proof fn lemma_discovery_deterministic(
    adj: Seq<Seq<usize>>,
    root: usize,
    selfs: Seq<u64>,
    vis: Seq<bool>,
    dist1: Seq<u64>,
    ret1: Seq<u64>,
    q1: Seq<usize>,
    dist2: Seq<u64>,
    ret2: Seq<u64>,
    q2: Seq<usize>,
)
    requires
        discovery_wf(adj, root, selfs, vis, dist1, ret1, q1),
        discovery_wf(adj, root, selfs, vis, dist2, ret2, q2),
        adj.len() == vis.len(),
        vis.len() <= usize::MAX,
        dist1[root as int] == dist2[root as int],
        ret1[root as int] == ret2[root as int],
    ensures
        q1 == q2,
        forall|v: int|
            0 <= v < vis.len() && #[trigger] vis[v] ==> dist1[v] == dist2[v] && ret1[v] == ret2[v],
{
    // equal lengths: an extra entry would duplicate a prefix entry
    assert(q1.len() == q2.len()) by {
        if q1.len() < q2.len() {
            lemma_discovery_unique_upto(
                adj, root, selfs, vis, dist1, ret1, q1, dist2, ret2, q2, q1.len() as int,
            );
            let w = q2[q1.len() as int];
            assert(vis[w as int]);
            assert(q1.contains(w));
            let i = choose|i: int| 0 <= i < q1.len() && q1[i] == w;
            assert(q2[i] == w);
        }
        if q2.len() < q1.len() {
            lemma_discovery_unique_upto(
                adj, root, selfs, vis, dist1, ret1, q1, dist2, ret2, q2, q2.len() as int,
            );
            let w = q1[q2.len() as int];
            assert(vis[w as int]);
            assert(q2.contains(w));
            let i = choose|i: int| 0 <= i < q2.len() && q2[i] == w;
            assert(q1[i] == w);
        }
    }
    lemma_discovery_unique_upto(
        adj, root, selfs, vis, dist1, ret1, q1, dist2, ret2, q2, q1.len() as int,
    );
    assert(q1 =~= q2);
    assert(discovery_wf(adj, root, selfs, vis, dist2, ret2, q1));
    assert forall|j: int| 0 <= j < q1.len() implies dist1[q1[j] as int] == dist2[q1[j] as int]
        && ret1[q1[j] as int] == ret2[q1[j] as int] by {
        lemma_discovery_cols_eq(adj, root, selfs, vis, dist1, ret1, dist2, ret2, q1, j);
    }
    assert forall|v: int|
        0 <= v < vis.len() && #[trigger] vis[v] implies dist1[v] == dist2[v] && ret1[v]
        == ret2[v] by {
        assert(q1.contains(v as usize));
        let i = choose|i: int| 0 <= i < q1.len() && q1[i] == v as usize;
        assert((v as usize) as int == v);
        assert(dist1[q1[i] as int] == dist2[q1[i] as int]);
        assert(ret1[q1[i] as int] == ret2[q1[i] as int]);
    }
}

/// Along one shared discovery sequence the distance and retain recurrences
/// have one solution.
proof fn lemma_discovery_cols_eq(
    adj: Seq<Seq<usize>>,
    root: usize,
    selfs: Seq<u64>,
    vis: Seq<bool>,
    dist1: Seq<u64>,
    ret1: Seq<u64>,
    dist2: Seq<u64>,
    ret2: Seq<u64>,
    q: Seq<usize>,
    j: int,
)
    requires
        discovery_wf(adj, root, selfs, vis, dist1, ret1, q),
        discovery_wf(adj, root, selfs, vis, dist2, ret2, q),
        dist1[root as int] == dist2[root as int],
        ret1[root as int] == ret2[root as int],
        0 <= j < q.len(),
    ensures
        dist1[q[j] as int] == dist2[q[j] as int],
        ret1[q[j] as int] == ret2[q[j] as int],
    decreases j,
{
    if j > 0 {
        let p = disc_parent(adj, q, j);
        lemma_discovery_cols_eq(adj, root, selfs, vis, dist1, ret1, dist2, ret2, q, p);
    }
}

/// The self sizes of a record table, by index.
pub open spec fn selfs_of(g: Seq<NodeRecord>) -> Seq<u64> {
    Seq::new(g.len(), |k: int| g[k].self_size)
}

/// The distances of a record table, by index.
pub open spec fn dists_of(h: Seq<NodeRecord>) -> Seq<u64> {
    Seq::new(h.len(), |k: int| h[k].distance)
}

/// The retain sizes of a record table, by index.
pub open spec fn rets_of(h: Seq<NodeRecord>) -> Seq<u64> {
    Seq::new(h.len(), |k: int| h[k].retain_size)
}

/// Which records of a table are reached, by index.
pub open spec fn reach_flags(h: Seq<NodeRecord>, root: int) -> Seq<bool> {
    Seq::new(h.len(), |v: int| reached(h, root, v))
}

/// Everything the frontier walk establishes about the visited set and the
/// distance and retain arrays.
pub open spec fn core_post(
    g: Seq<NodeRecord>,
    root: int,
    vis: Seq<bool>,
    dist: Seq<u64>,
    ret: Seq<u64>,
) -> bool {
    let adj = adj_of(g);
    &&& vis.len() == g.len()
    &&& dist.len() == g.len()
    &&& ret.len() == g.len()
    &&& 0 <= root < g.len()
    &&& vis[root]
    &&& dist[root] == 0
    &&& ret[root] == g[root].self_size
    &&& forall|v: int|
        0 <= v < g.len() && !(#[trigger] vis[v]) ==> dist[v] == 0 && ret[v] == g[v].self_size
    &&& forall|v: int| 0 <= v < g.len() && #[trigger] vis[v] && v != root ==> dist[v] >= 1
    &&& forall|v: int|
        0 <= v < g.len() && #[trigger] vis[v] && v != root ==> (exists|w: int|
            0 <= w < g.len() && vis[w] && adj[w].contains(v as usize) && dist[v] == dist[w] + 1
                && ret[v] == ret[w] + g[v].self_size)
    &&& forall|u: int, i: int|
        #![trigger adj[u][i]]
        0 <= u < g.len() && vis[u] && 0 <= i < adj[u].len() ==> vis[adj[u][i] as int]
            && dist[adj[u][i] as int] <= dist[u] + 1
    &&& forall|v: int|
        0 <= v < g.len() && #[trigger] vis[v] ==> reaches(adj, root as usize, v as usize)
    &&& exists|q: Seq<usize>|
        #[trigger] discovery_wf(adj, (root as usize), selfs_of(g), vis, dist, ret, q)
}

/// A one-edge walk.
proof fn lemma_walk_single(adj: Seq<Seq<usize>>, r: usize, v: usize)
    requires
        (r as int) < adj.len(),
        adj[r as int].contains(v),
    ensures
        is_walk(adj, r, seq![v]),
        seq![v].len() > 0,
        seq![v].last() == v,
{
    assert(seq![v][0] == v);
    assert(seq![v].drop_first() =~= Seq::<usize>::empty());
    assert(is_walk(adj, v, Seq::<usize>::empty()));
}


/// Everything that holds between two frontier steps: the visited set, the
/// distance and retain arrays, and the frontier queue agree with a walk
/// that has processed the first `head` queue entries.
pub open spec fn bfs_inv(
    g: Seq<NodeRecord>,
    root: usize,
    vis: Seq<bool>,
    dist: Seq<u64>,
    ret: Seq<u64>,
    queue: Seq<usize>,
    head: int,
) -> bool {
    &&& vis.len() == g.len()
    &&& dist.len() == g.len()
    &&& ret.len() == g.len()
    &&& graph_wf(g)
    &&& sum_rec_self(g, g.len() as int) <= u64::MAX
    &&& (root as int) < g.len()
    &&& 0 <= head <= queue.len()
    &&& vis[root as int]
    &&& dist[root as int] == 0
    &&& ret[root as int] == g[root as int].self_size
    &&& forall|i: int|
        0 <= i < queue.len() ==> (#[trigger] queue[i]) < g.len() && vis[queue[i] as int]
    &&& forall|v: int| 0 <= v < g.len() && #[trigger] vis[v] ==> queue.contains(v as usize)
    &&& forall|v: int|
        0 <= v < g.len() && !(#[trigger] vis[v]) ==> dist[v] == 0 && ret[v] == g[v].self_size
    &&& forall|v: int| 0 <= v < g.len() && #[trigger] vis[v] && v != root ==> dist[v] >= 1
    &&& forall|v: int|
        0 <= v < g.len() && #[trigger] vis[v] && v != root ==> (exists|w: int|
            0 <= w < g.len() && vis[w] && adj_of(g)[w].contains(v as usize) && dist[v] == dist[w]
                + 1 && ret[v] == ret[w] + g[v].self_size)
    &&& forall|i: int, x: int|
        #![trigger adj_of(g)[queue[i] as int][x]]
        0 <= i < head && 0 <= x < adj_of(g)[queue[i] as int].len() ==> vis[adj_of(g)[queue[i] as int][x] as int]
            && dist[adj_of(g)[queue[i] as int][x] as int] <= dist[queue[i] as int] + 1
    &&& forall|v: int|
        0 <= v < g.len() && #[trigger] vis[v] ==> reaches(adj_of(g), root, v as usize)
    &&& forall|v: int|
        0 <= v < g.len() && #[trigger] vis[v] ==> ret[v] <= sum_vis(g, vis, g.len() as int)
            && dist[v] < count_vis(vis, g.len() as int)
    &&& count_vis(vis, g.len() as int) <= g.len()
    &&& sum_vis(g, vis, g.len() as int) <= sum_rec_self(g, g.len() as int)
    &&& queue.len() == count_vis(vis, g.len() as int)
    &&& forall|i: int, j: int|
        #![trigger queue[i], queue[j]]
        0 <= i <= j < queue.len() ==> dist[queue[i] as int] <= dist[queue[j] as int]
    &&& (head < queue.len() ==> forall|j: int|
        0 <= j < queue.len() ==> dist[(#[trigger] queue[j]) as int] <= dist[queue[head] as int]
            + 1)
    &&& queue.len() >= 1
    &&& queue[0] == root
    &&& forall|j1: int, j2: int|
        #![trigger queue[j1], queue[j2]]
        0 <= j1 < j2 < queue.len() ==> queue[j1] != queue[j2]
    &&& forall|j: int|
        1 <= j < queue.len() ==> {
            let p = #[trigger] disc_parent(adj_of(g), queue, j);
            &&& 0 <= p < j
            &&& p < head
            &&& dist[queue[j] as int] == dist[queue[p] as int] + 1
            &&& ret[queue[j] as int] == ret[queue[p] as int] + g[queue[j] as int].self_size
        }
    &&& forall|j1: int, j2: int|
        #![trigger disc_parent(adj_of(g), queue, j1), disc_parent(adj_of(g), queue, j2)]
        1 <= j1 < j2 < queue.len() ==> disc_before(adj_of(g), queue, j1, j2)
}

/// Processes one frontier entry: visits each not-yet-visited successor,
/// assigning its distance and retain size and appending it to the queue.
#[verifier::rlimit(100)]
fn process_node(
    recs: &Vec<NodeRecord>,
    root: usize,
    vis: &mut Vec<bool>,
    dist: &mut Vec<u64>,
    ret: &mut Vec<u64>,
    queue: &mut Vec<usize>,
    head: usize,
)
    requires
        bfs_inv(recs@, root, old(vis)@, old(dist)@, old(ret)@, old(queue)@, head as int),
        head < old(queue)@.len(),
    ensures
        bfs_inv(recs@, root, final(vis)@, final(dist)@, final(ret)@, final(queue)@, head as int
            + 1),
        count_vis(final(vis)@, recs@.len() as int) >= count_vis(old(vis)@, recs@.len() as int),
{
    let ghost g = recs@;
    let ghost adj = adj_of(g);
    let n = recs.len();
    proof {
        assert(adj_wf(adj));
    }
    let u = queue[head];
        let du = dist[u];
        let ru = ret[u];
        let ghost count0 = count_vis(vis@, n as int);
        let mut x: usize = 0;
        let succ_len = recs[u].successors.len();
        while x < succ_len
            invariant
                g == recs@,
                adj == adj_of(g),
                adj_wf(adj),
                n == g.len(),
                (root as int) < n,
                sum_rec_self(g, n as int) <= u64::MAX,
                vis@.len() == n,
                dist@.len() == n,
                ret@.len() == n,
                head < queue@.len(),
                u == queue@[head as int],
                du == dist@[u as int],
                ru == ret@[u as int],
                vis@[u as int],
                succ_len == adj[u as int].len(),
                0 <= x <= succ_len,
                vis@[root as int],
                dist@[root as int] == 0,
                ret@[root as int] == g[root as int].self_size,
                forall|i: int|
                    0 <= i < queue@.len() ==> (#[trigger] queue@[i]) < n && vis@[queue@[i] as int],
                forall|v: int| 0 <= v < n && #[trigger] vis@[v] ==> queue@.contains(v as usize),
                forall|v: int|
                    0 <= v < n && !(#[trigger] vis@[v]) ==> dist@[v] == 0 && ret@[v]
                        == g[v].self_size,
                forall|v: int| 0 <= v < n && #[trigger] vis@[v] && v != root ==> dist@[v] >= 1,
                forall|v: int|
                    0 <= v < n && #[trigger] vis@[v] && v != root ==> (exists|w: int|
                        0 <= w < n && vis@[w] && adj[w].contains(v as usize) && dist@[v] == dist@[w]
                            + 1 && ret@[v] == ret@[w] + g[v].self_size),
                forall|i: int, y: int|
                    #![trigger adj[queue@[i] as int][y]]
                    0 <= i < head && 0 <= y < adj[queue@[i] as int].len() ==> vis@[adj[queue@[i] as int][y] as int]
                        && dist@[adj[queue@[i] as int][y] as int] <= dist@[queue@[i] as int] + 1,
                forall|y: int|
                    0 <= y < x ==> vis@[(#[trigger] adj[u as int][y]) as int]
                        && dist@[adj[u as int][y] as int] <= du + 1,
                forall|v: int| 0 <= v < n && #[trigger] vis@[v] ==> reaches(adj, root, v as usize),
                forall|v: int|
                    0 <= v < n && #[trigger] vis@[v] ==> ret@[v] <= sum_vis(g, vis@, n as int)
                        && dist@[v] < count_vis(vis@, n as int),
                count_vis(vis@, n as int) <= n,
                sum_vis(g, vis@, n as int) <= sum_rec_self(g, n as int),
                queue@.len() == count_vis(vis@, n as int),
                count_vis(vis@, n as int) >= count0,
                forall|i: int, j: int|
                    #![trigger queue@[i], queue@[j]]
                    0 <= i <= j < queue@.len() ==> dist@[queue@[i] as int] <= dist@[queue@[j] as int],
                forall|j: int|
                    0 <= j < queue@.len() ==> dist@[(#[trigger] queue@[j]) as int] <= du + 1,
                queue@[0] == root,
                forall|j1: int, j2: int|
                    #![trigger queue@[j1], queue@[j2]]
                    0 <= j1 < j2 < queue@.len() ==> queue@[j1] != queue@[j2],
                forall|j: int|
                    1 <= j < queue@.len() ==> {
                        let p = #[trigger] disc_parent(adj, queue@, j);
                        &&& 0 <= p < j
                        &&& (p < head || (p == head && disc_pos(adj, queue@, j) < x))
                        &&& dist@[queue@[j] as int] == dist@[queue@[p] as int] + 1
                        &&& ret@[queue@[j] as int] == ret@[queue@[p] as int] + g[queue@[j] as int].self_size
                    },
                forall|j1: int, j2: int|
                    #![trigger disc_parent(adj, queue@, j1), disc_parent(adj, queue@, j2)]
                    1 <= j1 < j2 < queue@.len() ==> disc_before(adj, queue@, j1, j2),
            decreases succ_len - x,
        {
            let v = recs[u].successors[x];
            assert(v == adj[u as int][x as int]);
            assert(v < n);
            if !vis[v] {
                let ghost vis_pre = vis@;
                let ghost dist_pre = dist@;
                let ghost ret_pre = ret@;
                proof {
                    lemma_vis_update(g, vis_pre, v as int, n as int);
                    lemma_count_vis_le(vis_pre.update(v as int, true), n as int);
                    lemma_sum_vis_le(g, vis_pre.update(v as int, true), n as int);
                }
                vis.set(v, true);
                dist.set(v, du + 1);
                ret.set(v, ru + recs[v].self_size);
                let ghost queue_pre = queue@;
                queue.push(v);
                proof {
                    assert(adj[u as int].contains(v)) by {
                        assert(adj[u as int][x as int] == v);
                    }
                    assert forall|w: int| 0 <= w < n && #[trigger] vis@[w] implies queue@.contains(
                        w as usize,
                    ) by {
                        if w == v as int {
                            assert(queue@[queue@.len() - 1] == v);
                        } else {
                            assert(vis_pre[w]);
                            assert(queue_pre.contains(w as usize));
                            let qi = choose|qi: int|
                                0 <= qi < queue_pre.len() && queue_pre[qi] == w as usize;
                            assert(queue@[qi] == w as usize);
                        }
                    }
                    // the fresh record is reachable: extend a walk to u by an edge
                    if u == root {
                        lemma_walk_single(adj, root, v);
                        assert(reaches(adj, root, v));
                    } else {
                        let p = choose|p: Seq<usize>|
                            is_walk(adj, root, p) && p.len() > 0 && p.last() == u;
                        lemma_walk_extend(adj, root, p, v);
                        assert(reaches(adj, root, v));
                    }
                    // every visited record still has its discovery parent
                    assert forall|vv: int|
                        0 <= vv < n && #[trigger] vis@[vv] && vv != root implies (exists|w: int|
                        0 <= w < n && vis@[w] && adj[w].contains(vv as usize) && dist@[vv]
                            == dist@[w] + 1 && ret@[vv] == ret@[w] + g[vv].self_size) by {
                        if vv == v as int {
                            assert(vis@[u as int] && adj[u as int].contains(v) && dist@[v as int]
                                == dist@[u as int] + 1 && ret@[v as int] == ret@[u as int] + g[v as int].self_size);
                        } else {
                            assert(vis_pre[vv]);
                            let w = choose|w: int|
                                0 <= w < n && vis_pre[w] && adj[w].contains(vv as usize)
                                    && dist_pre[vv] == dist_pre[w] + 1 && ret_pre[vv] == ret_pre[w]
                                    + g[vv].self_size;
                            assert(vis@[w] && dist@[vv] == dist@[w] + 1 && ret@[vv] == ret@[w]
                                + g[vv].self_size);
                        }
                    }
                    // discovery bookkeeping: old entries keep their
                    // discoverer; the new entry was discovered here, at the
                    // current successor position
                    let ghost new_j = queue@.len() - 1;
                    assert(queue@[new_j] == v);
                    assert forall|j: int|
                        1 <= j < new_j implies disc_parent(adj, queue@, j) == disc_parent(
                        adj,
                        queue_pre,
                        j,
                    ) by {
                        assert(queue@[j] == queue_pre[j]);
                        assert(0 <= disc_parent(adj, queue_pre, j) < j);
                        lemma_first_lister_push(adj, queue_pre, v, queue_pre[j], 0);
                    }
                    assert forall|k: int|
                        0 <= k < head implies !(#[trigger] adj[queue@[k] as int]).contains(v) by {
                        if adj[queue@[k] as int].contains(v) {
                            let y = choose|y: int|
                                0 <= y < adj[queue@[k] as int].len() && adj[queue@[k] as int][y]
                                    == v;
                            assert(queue@[k] == queue_pre[k]);
                            assert(vis_pre[adj[queue_pre[k] as int][y] as int]);
                            assert(false);
                        }
                    }
                    assert(queue@[head as int] == u);
                    lemma_first_lister_at(adj, queue@, v, 0, head as int);
                    assert(disc_parent(adj, queue@, new_j) == head);
                    assert forall|y: int| 0 <= y < x implies (#[trigger] adj[u as int][y]) != v by {
                        assert(vis_pre[adj[u as int][y] as int]);
                    }
                    lemma_first_pos_at(adj[u as int], v, 0, x as int);
                    assert(disc_pos(adj, queue@, new_j) == x);
                    assert forall|j: int|
                        1 <= j < queue@.len() implies {
                            let p = #[trigger] disc_parent(adj, queue@, j);
                            &&& 0 <= p < j
                            &&& (p < head || (p == head && disc_pos(adj, queue@, j) < x + 1))
                            &&& dist@[queue@[j] as int] == dist@[queue@[p] as int] + 1
                            &&& ret@[queue@[j] as int] == ret@[queue@[p] as int] + g[queue@[j] as int].self_size
                        } by {
                        if j == new_j {
                            assert(dist@[v as int] == du + 1 && dist@[u as int] == du);
                            assert(ret@[v as int] == ru + g[v as int].self_size && ret@[u as int]
                                == ru);
                        } else {
                            let pj = disc_parent(adj, queue_pre, j);
                            assert(disc_parent(adj, queue@, j) == pj);
                            assert(queue@[j] == queue_pre[j] && queue@[pj] == queue_pre[pj]);
                            assert(vis_pre[queue_pre[j] as int] && vis_pre[queue_pre[pj] as int]);
                            assert(queue_pre[j] != v && queue_pre[pj] != v);
                        }
                    }
                    assert forall|j1: int, j2: int|
                        1 <= j1 < j2 < queue@.len() implies disc_before(adj, queue@, j1, j2) by {
                        assert(disc_parent(adj, queue@, j1) == disc_parent(adj, queue_pre, j1));
                        if j2 < new_j {
                            assert(disc_parent(adj, queue@, j2) == disc_parent(adj, queue_pre, j2));
                            assert(disc_before(adj, queue_pre, j1, j2));
                        }
                    }
                    assert forall|j1: int, j2: int|
                        0 <= j1 < j2 < queue@.len() implies queue@[j1] != queue@[j2] by {
                        if j2 == new_j {
                            assert(queue@[j1] == queue_pre[j1]);
                            assert(vis_pre[queue_pre[j1] as int]);
                        }
                    }
                }
            }
            x += 1;
        }
    proof {
        assert forall|i: int, y: int|
            #![trigger adj[queue@[i] as int][y]]
            0 <= i < head + 1 && 0 <= y < adj[queue@[i] as int].len() implies vis@[adj[queue@[i] as int][y] as int]
            && dist@[adj[queue@[i] as int][y] as int] <= dist@[queue@[i] as int] + 1 by {
            if i == head {
                assert(queue@[i] == u);
            }
        }
        if head + 1 < queue@.len() {
            let ghost hn = head + 1;
            assert(dist@[queue@[head as int] as int] <= dist@[queue@[hn as int] as int]);
            assert forall|j: int| 0 <= j < queue@.len() implies dist@[(
            #[trigger] queue@[j]) as int] <= dist@[queue@[hn as int] as int] + 1 by {
                assert(dist@[queue@[j] as int] <= du + 1);
            }
        }
    }
}

/// The frontier walk itself: visits every record the root reaches, in
/// insertion order, assigning distances and retain sizes.
#[verifier::rlimit(100)]
fn bfs_core(recs: &Vec<NodeRecord>, root: usize) -> (res: (Vec<bool>, Vec<u64>, Vec<u64>))
    requires
        graph_wf(recs@),
        (root as int) < recs@.len(),
        sum_rec_self(recs@, recs@.len() as int) <= u64::MAX,
    ensures
        core_post(recs@, root as int, res.0@, res.1@, res.2@),
{
    let ghost g = recs@;
    let ghost adj = adj_of(g);
    let n = recs.len();
    assert(adj_wf(adj));
    let mut vis: Vec<bool> = Vec::new();
    let mut dist: Vec<u64> = Vec::new();
    let mut ret: Vec<u64> = Vec::new();
    let mut k: usize = 0;
    while k < n
        invariant
            g == recs@,
            n == g.len(),
            0 <= k <= n,
            vis@.len() == k,
            dist@.len() == k,
            ret@.len() == k,
            forall|i: int| 0 <= i < k ==> !(#[trigger] vis@[i]),
            forall|i: int| 0 <= i < k ==> (#[trigger] dist@[i]) == 0,
            forall|i: int| 0 <= i < k ==> (#[trigger] ret@[i]) == g[i].self_size,
        decreases n - k,
    {
        vis.push(false);
        dist.push(0);
        ret.push(recs[k].self_size);
        k += 1;
    }
    let ghost vis0 = vis@;
    vis.set(root, true);
    let mut queue: Vec<usize> = Vec::new();
    queue.push(root);
    let mut head: usize = 0;
    proof {
        lemma_vis_zero(g, vis0, n as int);
        lemma_vis_update(g, vis0, root as int, n as int);
        assert(count_vis(vis@, n as int) == 1);
        assert(sum_vis(g, vis@, n as int) == g[root as int].self_size);
        lemma_count_vis_le(vis@, n as int);
        lemma_sum_vis_le(g, vis@, n as int);
        assert(queue@[0] == root);
    }
    while head < queue.len()
        invariant
            g == recs@,
            bfs_inv(g, root, vis@, dist@, ret@, queue@, head as int),
        decreases g.len() - count_vis(vis@, g.len() as int), queue@.len() - head,
    {
        process_node(recs, root, &mut vis, &mut dist, &mut ret, &mut queue, head);
        head += 1;
    }
    // every visited record has been processed, so its successors are visited
    proof {
        assert forall|uu: int, i: int|
            #![trigger adj[uu][i]]
            0 <= uu < n && vis@[uu] && 0 <= i < adj[uu].len() implies vis@[adj[uu][i] as int]
            && dist@[adj[uu][i] as int] <= dist@[uu] + 1 by {
            assert(queue@.contains(uu as usize));
            let qi = choose|qi: int| 0 <= qi < queue@.len() && queue@[qi] == uu as usize;
            assert(adj[queue@[qi] as int][i] == adj[uu][i]);
        }
        // the queue is the discovery sequence of the walk
        assert forall|v: int|
            0 <= v < n implies ((#[trigger] vis@[v]) <==> queue@.contains(v as usize)) by {
            if queue@.contains(v as usize) {
                let qi = choose|qi: int| 0 <= qi < queue@.len() && queue@[qi] == v as usize;
                assert(vis@[queue@[qi] as int]);
            }
        }
        assert(adj.len() == g.len());
        assert(discovery_wf(adj, root, selfs_of(g), vis@, dist@, ret@, queue@));
    }
    (vis, dist, ret)
}

/// From the walk's guarantees and the written-back table, the full
/// postcondition follows.
#[verifier::rlimit(100)]
proof fn lemma_bfs_finish(
    g: Seq<NodeRecord>,
    root: int,
    vis: Seq<bool>,
    dist: Seq<u64>,
    ret: Seq<u64>,
    h: Seq<NodeRecord>,
)
    requires
        graph_wf(g),
        g.len() <= usize::MAX,
        core_post(g, root, vis, dist, ret),
        root == find_root(g, 0),
        h.len() == g.len(),
        forall|k: int|
            0 <= k < g.len() ==> same_frame(g[k], #[trigger] h[k]) && h[k].distance == dist[k]
                && h[k].retain_size == ret[k],
    ensures
        bfs_post(g, h),
{
    let adj = adj_of(g);
    let n = g.len() as int;
    assert(adj_wf(adj));
    assert forall|v: int| 0 <= v < n implies ((#[trigger] reached(h, root, v)) <==> vis[v]) by {
        if v != root {
            if vis[v] {
                assert(dist[v] >= 1);
            } else {
                assert(dist[v] == 0);
            }
        }
    }
    assert forall|v: int|
        0 <= v < n implies ((#[trigger] reached(h, root, v)) <==> reaches(
        adj,
        root as usize,
        v as usize,
    )) by {
        if reached(h, root, v) {
            assert(vis[v]);
        } else {
            assert(!vis[v]);
            if reaches(adj, root as usize, v as usize) {
                if v == root {
                    assert(vis[v]);
                } else {
                    let p = choose|p: Seq<usize>|
                        is_walk(adj, root as usize, p) && p.len() > 0 && p.last() == v as usize;
                    assert(((root as usize) as int) == root);
                    assert(vis[(root as usize) as int]);
                    lemma_closed_walk(adj, vis, root as usize, p);
                    assert((p.last() as int) == v);
                    assert(vis[v]);
                }
                assert(false);
            }
        }
    }
    assert forall|v: int|
        0 <= v < n && #[trigger] reached(h, root, v) && v != root implies h[v].distance >= 1 && (
    exists|u: int|
        0 <= u < h.len() && reached(h, root, u) && adj[u].contains(v as usize) && h[v].distance
            == h[u].distance + 1 && h[v].retain_size == h[u].retain_size + g[v].self_size) by {
        assert(vis[v]);
        let w = choose|w: int|
            0 <= w < n && vis[w] && adj[w].contains(v as usize) && dist[v] == dist[w] + 1 && ret[v]
                == ret[w] + g[v].self_size;
        assert(reached(h, root, w));
        assert(h[w].distance == dist[w] && h[w].retain_size == ret[w]);
    }
    assert forall|u: int, i: int|
        #![trigger reached(h, root, u), adj[u][i]]
        0 <= u < n && reached(h, root, u) && 0 <= i < adj[u].len() implies reached(
        h,
        root,
        adj[u][i] as int,
    ) && h[adj[u][i] as int].distance <= h[u].distance + 1 by {
        assert(vis[u]);
        assert(vis[adj[u][i] as int]);
    }
    assert forall|v: int|
        0 <= v < n && #[trigger] reached(h, root, v) implies h[v].retain_size >= h[v].self_size by {
        assert(vis[v]);
        if v != root {
            let w = choose|w: int|
                0 <= w < n && vis[w] && adj[w].contains(v as usize) && dist[v] == dist[w] + 1
                    && ret[v] == ret[w] + g[v].self_size;
        }
    }
    let qd = choose|q: Seq<usize>|
        #[trigger] discovery_wf(adj, (root as usize), selfs_of(g), vis, dist, ret, q);
    assert(reach_flags(h, root) =~= vis);
    assert forall|k: int| 0 <= k < n implies dists_of(h)[k] == dist[k] && rets_of(h)[k]
        == ret[k] by {}
    assert(dists_of(h) =~= dist);
    assert(rets_of(h) =~= ret);
    assert(discovery_wf(
        adj,
        (root as usize),
        selfs_of(g),
        reach_flags(h, root),
        dists_of(h),
        rets_of(h),
        qd,
    ));
}

/// The breadth-first walk from the root (id 1): assigns each reachable
/// record its distance from the root and a retain size accumulated along
/// the discovery path, processing the frontier in insertion order. Cycles
/// are safe: a record is visited at most once, and the root, visited before
/// the walk starts, is never re-seeded through a back edge.
#[verifier::loop_isolation(false)]
pub fn calculate_distance(recs: &mut Vec<NodeRecord>)
    requires
        graph_wf(old(recs)@),
        forall|k: int|
            0 <= k < old(recs)@.len() ==> (#[trigger] old(recs)@[k]).distance == 0 && old(
                recs,
            )@[k].retain_size == old(recs)@[k].self_size,
        sum_rec_self(old(recs)@, old(recs)@.len() as int) <= u64::MAX,
    ensures
        bfs_post(old(recs)@, final(recs)@),
{
    let ghost g = recs@;
    let n = recs.len();
    let root = match find_root_idx(recs) {
        Some(i) => i,
        None => {
            assert(bfs_post(recs@, recs@));
            return ;
        },
    };
    let (vis, dist, ret) = bfs_core(recs, root);
    let ghost dist_s = dist@;
    let ghost ret_s = ret@;
    let ghost vis_s = vis@;
    let mut out: Vec<NodeRecord> = Vec::new();
    let mut k2: usize = 0;
    while k2 < n
        invariant
            out@.len() == k2,
            0 <= k2 <= n,
            recs@.len() == n - k2,
            forall|i: int| 0 <= i < n - k2 ==> recs@[i] == g[k2 + i],
            forall|i: int|
                0 <= i < k2 ==> same_frame(g[i], #[trigger] out@[i]) && out@[i].distance
                    == dist_s[i] && out@[i].retain_size == ret_s[i],
        decreases n - k2,
    {
        let r = recs.remove(0);
        let dv = dist[k2];
        let rv = ret[k2];
        let NodeRecord {
            id,
            name,
            kind,
            self_size,
            edge_count,
            distance: _,
            retain_size: _,
            successors,
        } = r;
        out.push(
            NodeRecord {
                id,
                name,
                kind,
                self_size,
                edge_count,
                distance: dv,
                retain_size: rv,
                successors,
            },
        );
        k2 += 1;
    }
    *recs = out;
    proof {
        assert(g.len() <= usize::MAX);
        lemma_bfs_finish(g, root as int, vis_s, dist_s, ret_s, recs@);
    }
}

} // verus!
