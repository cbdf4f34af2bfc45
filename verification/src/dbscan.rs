use vstd::prelude::*;

use crate::ualf::UalfData;

verus! {

/// One discovered cluster: its member strikes in discovery order and the
/// cluster identifier assigned in discovery order (stable only within one
/// invocation).
#[derive(Debug)]
pub struct DbscanCluster {
    pub points: Vec<UalfData>,
    pub cluster_id: usize,
}

/// Clustering parameters: the neighbor radius in whole meters and the density
/// threshold.
pub struct DbscanParams {
    pub eps_m: i64,
    pub min_points: usize,
}

impl Default for DbscanParams {
    /// Reference defaults: a 10 km neighbor radius and at least 3 neighbors.
    fn default() -> (d: Self)
        ensures
            d.eps_m == 10000,
            d.min_points == 3,
    {
        DbscanParams { eps_m: 10000, min_points: 3 }
    }
}

/// A cluster's boundary polygon: (latitude, longitude) microdegree pairs in
/// counter-clockwise winding starting from the anchor.
#[derive(Debug)]
pub struct ConvexHull {
    pub points: Vec<(i64, i64)>,
}

/// The working state of one clustering run: which point indices have been
/// visited, which are already assigned to a cluster, and the clusters formed
/// so far, each as its member indices in insertion order.
pub struct DbscanState {
    pub visited: Set<int>,
    pub assigned: Map<int, int>,
    pub clusters: Seq<Seq<int>>,
}

/// The distance table rows as mathematical sequences.
pub open spec fn rows_view(d: Seq<Vec<i64>>) -> Seq<Seq<i64>> {
    d.map_values(|r: Vec<i64>| r@)
}

/// Point `q` lies within the neighbor radius of point `p`, per the given
/// table of pairwise distances in meters.
pub open spec fn within_eps(dists: Seq<Seq<i64>>, eps: i64, p: int, q: int) -> bool {
    dists[p][q] <= eps
}

/// The neighbor indices of `p` among `0 .. j`, ascending: the not-yet-visited
/// points within the neighbor radius. Visited points are excluded, so a
/// point's neighbor count depends on traversal order; that is inherited
/// behavior of this variant and is preserved deliberately.
pub open spec fn neighbors_upto(
    dists: Seq<Seq<i64>>,
    eps: i64,
    visited: Set<int>,
    p: int,
    j: int,
) -> Seq<int>
    decreases j,
{
    if j <= 0 {
        Seq::empty()
    } else {
        let pre = neighbors_upto(dists, eps, visited, p, j - 1);
        if !visited.contains(j - 1) && within_eps(dists, eps, p, j - 1) {
            pre.push(j - 1)
        } else {
            pre
        }
    }
}

/// The full neighbor set of `p` among all `n` points.
pub open spec fn neighbors_of(
    dists: Seq<Seq<i64>>,
    eps: i64,
    visited: Set<int>,
    p: int,
    n: int,
) -> Seq<int> {
    neighbors_upto(dists, eps, visited, p, n)
}

/// The visited set holds only point indices and is finite.
pub open spec fn st_wf(st: DbscanState, n: int) -> bool {
    &&& st.visited.finite()
    &&& forall|p: int| st.visited.contains(p) ==> 0 <= p < n
}

/// Every queued index is a point index.
pub open spec fn queue_wf(queue: Seq<int>, n: int) -> bool {
    forall|i: int| 0 <= i < queue.len() ==> 0 <= #[trigger] queue[i] < n
}

/// If point `q` has no cluster yet, append it to cluster `cid` and record the
/// assignment; otherwise leave the state unchanged.
pub open spec fn assign_point(st: DbscanState, q: int, cid: int) -> DbscanState {
    if st.assigned.dom().contains(q) {
        st
    } else {
        DbscanState {
            visited: st.visited,
            assigned: st.assigned.insert(q, cid),
            clusters: st.clusters.update(cid, st.clusters[cid].push(q)),
        }
    }
}

/// One growth run of cluster `cid`: pop indices from the end of the queue
/// (stack discipline); a not-yet-visited index is visited and, when its own
/// neighbor set among the still-unvisited points reaches the density
/// threshold, those neighbors are appended to the queue; every popped index
/// without a cluster joins cluster `cid`.
pub open spec fn grow_queue(
    dists: Seq<Seq<i64>>,
    eps: i64,
    min_points: int,
    n: int,
    st: DbscanState,
    queue: Seq<int>,
    cid: int,
) -> DbscanState
    decreases n - st.visited.len(), queue.len(),
        when 0 <= n && st_wf(st, n) && queue_wf(queue, n)
        via grow_queue_decreases
{
    if queue.len() == 0 {
        st
    } else {
        let q = queue.last();
        let rest = queue.drop_last();
        if !st.visited.contains(q) {
            let v2 = st.visited.insert(q);
            let nb = neighbors_of(dists, eps, v2, q, n);
            let st2 = DbscanState { visited: v2, assigned: st.assigned, clusters: st.clusters };
            let queue2 = if nb.len() >= min_points {
                rest + nb
            } else {
                rest
            };
            grow_queue(dists, eps, min_points, n, assign_point(st2, q, cid), queue2, cid)
        } else {
            grow_queue(dists, eps, min_points, n, assign_point(st, q, cid), rest, cid)
        }
    }
}

/// All neighbor indices lie in `0 .. n`, so a neighbor set is a well-formed
/// queue.
proof fn lemma_neighbors_wf(dists: Seq<Seq<i64>>, eps: i64, visited: Set<int>, p: int, j: int, n: int)
    requires
        j <= n,
    ensures
        queue_wf(neighbors_upto(dists, eps, visited, p, j), n),
    decreases j,
{
    if j > 0 {
        lemma_neighbors_wf(dists, eps, visited, p, j - 1, n);
    }
}

#[via_fn]
proof fn grow_queue_decreases(
    dists: Seq<Seq<i64>>,
    eps: i64,
    min_points: int,
    n: int,
    st: DbscanState,
    queue: Seq<int>,
    cid: int,
) {
    if queue.len() > 0 {
        let q = queue.last();
        vstd::set_lib::lemma_int_range(0, n);
        assert(st.visited.subset_of(vstd::set_lib::set_int_range(0, n)));
        vstd::set_lib::lemma_len_subset(st.visited, vstd::set_lib::set_int_range(0, n));
        if !st.visited.contains(q) {
            let v2 = st.visited.insert(q);
            assert(v2.subset_of(vstd::set_lib::set_int_range(0, n)));
            vstd::set_lib::lemma_len_subset(v2, vstd::set_lib::set_int_range(0, n));
        }
    }
}

/// The main sweep: each not-yet-visited point is visited; when its neighbor
/// set among the still-unvisited points reaches the density threshold it
/// opens a new cluster, seeds it, and the cluster grows from its neighbor
/// queue; otherwise it stays visited but unclustered (noise).
pub open spec fn dbscan_from(
    dists: Seq<Seq<i64>>,
    eps: i64,
    min_points: int,
    n: int,
    i: int,
    st: DbscanState,
    next_cid: int,
) -> DbscanState
    decreases n - i,
        when 0 <= n && st_wf(st, n)
        via dbscan_from_decreases
{
    if i < 0 || i >= n {
        st
    } else if st.visited.contains(i) {
        dbscan_from(dists, eps, min_points, n, i + 1, st, next_cid)
    } else {
        let v2 = st.visited.insert(i);
        let nb = neighbors_of(dists, eps, v2, i, n);
        if nb.len() >= min_points {
            let st2 = DbscanState {
                visited: v2,
                assigned: st.assigned.insert(i, next_cid),
                clusters: st.clusters.push(seq![i]),
            };
            let st3 = grow_queue(dists, eps, min_points, n, st2, nb, next_cid);
            dbscan_from(dists, eps, min_points, n, i + 1, st3, next_cid + 1)
        } else {
            let st2 = DbscanState { visited: v2, assigned: st.assigned, clusters: st.clusters };
            dbscan_from(dists, eps, min_points, n, i + 1, st2, next_cid)
        }
    }
}

/// Growth keeps the state well formed.
proof fn lemma_grow_queue_wf(
    dists: Seq<Seq<i64>>,
    eps: i64,
    min_points: int,
    n: int,
    st: DbscanState,
    queue: Seq<int>,
    cid: int,
)
    requires
        0 <= n,
        st_wf(st, n),
        queue_wf(queue, n),
    ensures
        st_wf(grow_queue(dists, eps, min_points, n, st, queue, cid), n),
    decreases n - st.visited.len(), queue.len(),
{
    vstd::set_lib::lemma_int_range(0, n);
    assert(st.visited.subset_of(vstd::set_lib::set_int_range(0, n)));
    vstd::set_lib::lemma_len_subset(st.visited, vstd::set_lib::set_int_range(0, n));
    if queue.len() > 0 {
        let q = queue.last();
        let rest = queue.drop_last();
        assert(forall|i: int| 0 <= i < rest.len() ==> 0 <= #[trigger] rest[i] < n);
        if !st.visited.contains(q) {
            let v2 = st.visited.insert(q);
            assert(v2.subset_of(vstd::set_lib::set_int_range(0, n)));
            vstd::set_lib::lemma_len_subset(v2, vstd::set_lib::set_int_range(0, n));
            let nb = neighbors_of(dists, eps, v2, q, n);
            lemma_neighbors_wf(dists, eps, v2, q, n, n);
            let st2 = DbscanState { visited: v2, assigned: st.assigned, clusters: st.clusters };
            let queue2 = if nb.len() >= min_points {
                rest + nb
            } else {
                rest
            };
            assert(queue_wf(queue2, n));
            lemma_grow_queue_wf(dists, eps, min_points, n, assign_point(st2, q, cid), queue2, cid);
        } else {
            lemma_grow_queue_wf(dists, eps, min_points, n, assign_point(st, q, cid), rest, cid);
        }
    }
}

#[via_fn]
proof fn dbscan_from_decreases(
    dists: Seq<Seq<i64>>,
    eps: i64,
    min_points: int,
    n: int,
    i: int,
    st: DbscanState,
    next_cid: int,
) {
}

/// The clusters produced by one full run over `n` points, each cluster as its
/// member indices in insertion order; cluster identifiers are the sequence
/// positions.
pub open spec fn dbscan_clusters(dists: Seq<Seq<i64>>, eps: i64, min_points: int, n: int) -> Seq<
    Seq<int>,
> {
    dbscan_from(
        dists,
        eps,
        min_points,
        n,
        0,
        DbscanState { visited: Set::empty(), assigned: Map::empty(), clusters: Seq::empty() },
        0,
    ).clusters
}


/// Queue contents as mathematical integers.
pub open spec fn q_view(q: Seq<usize>) -> Seq<int> {
    q.map_values(|x: usize| x as int)
}

/// The set of point indices whose flag is set.
pub open spec fn marked(v: Seq<bool>) -> Set<int> {
    Set::new(|i: int| 0 <= i < v.len() && v[i])
}

/// The produced clusters carry consecutive identifiers and hold, in order,
/// the strikes named by the corresponding index clusters.
pub open spec fn clusters_model(
    clusters: Seq<DbscanCluster>,
    spec_clusters: Seq<Seq<int>>,
    data: Seq<UalfData>,
) -> bool {
    &&& clusters.len() == spec_clusters.len()
    &&& forall|c: int|
        0 <= c < clusters.len() ==> (#[trigger] clusters[c].cluster_id) as int == c
            && clusters[c].points@ == spec_clusters[c].map_values(|idx: int| data[idx])
}

/// Neighbor scan: the not-yet-visited points within `eps_m` meters of
/// `data[point_idx]`, per the distance table row of `point_idx`.
fn get_neighbors(
    point_idx: usize,
    data_len: usize,
    dists: &Vec<Vec<i64>>,
    eps_m: i64,
    visited: &Vec<bool>,
) -> (nb: Vec<usize>)
    requires
        dists@.len() == data_len,
        forall|i: int| 0 <= i < dists@.len() ==> #[trigger] dists@[i]@.len() == data_len,
        visited@.len() == data_len,
        point_idx < data_len,
    ensures
        q_view(nb@) == neighbors_of(
            rows_view(dists@),
            eps_m,
            marked(visited@),
            point_idx as int,
            data_len as int,
        ),
        forall|i: int| 0 <= i < nb@.len() ==> #[trigger] nb@[i] < data_len,
{
    let mut neighbors: Vec<usize> = Vec::new();
    let mut j: usize = 0;
    while j < data_len
        invariant
            j <= data_len,
            dists@.len() == data_len,
            forall|i: int| 0 <= i < dists@.len() ==> #[trigger] dists@[i]@.len() == data_len,
            visited@.len() == data_len,
            point_idx < data_len,
            forall|i: int| 0 <= i < neighbors@.len() ==> #[trigger] neighbors@[i] < data_len,
            q_view(neighbors@) == neighbors_upto(
                rows_view(dists@),
                eps_m,
                marked(visited@),
                point_idx as int,
                j as int,
            ),
        decreases data_len - j,
    {
        let ghost pre = q_view(neighbors@);
        if !visited[j] && dists[point_idx][j] <= eps_m {
            neighbors.push(j);
            proof {
                assert(q_view(neighbors@) =~= pre.push(j as int));
            }
        }
        proof {
            assert(rows_view(dists@)[point_idx as int] == dists@[point_idx as int]@);
        }
        j = j + 1;
    }
    neighbors
}

/// Density-based clustering over a batch of strikes. `dists` gives the
/// pairwise great-circle distances in whole meters: `dists[i][j]` is the
/// distance from `data[i]` to `data[j]`. Unclustered (noise) points are
/// dropped, not reported. The result is exactly the run of the clustering
/// rules over the inputs, so a second run on the same inputs produces the
/// same clusters.
#[verifier::rlimit(100)]
pub fn cluster_lightning(data: &[UalfData], dists: &Vec<Vec<i64>>, params: &DbscanParams) -> (clusters:
    Vec<DbscanCluster>)
    requires
        dists@.len() == data@.len(),
        forall|i: int| 0 <= i < dists@.len() ==> #[trigger] dists@[i]@.len() == data@.len(),
    ensures
        clusters_model(
            clusters@,
            dbscan_clusters(
                rows_view(dists@),
                params.eps_m,
                params.min_points as int,
                data@.len() as int,
            ),
            data@,
        ),
{
    let n = data.len();
    let ghost dv = rows_view(dists@);
    let ghost eps = params.eps_m;
    let ghost mp = params.min_points as int;
    let ghost init = DbscanState {
        visited: Set::empty(),
        assigned: Map::empty(),
        clusters: Seq::empty(),
    };
    let ghost fin = dbscan_from(dv, eps, mp, n as int, 0, init, 0);

    let mut clusters: Vec<DbscanCluster> = Vec::new();
    let mut visited: Vec<bool> = vec![false; n];
    let mut assigned: Vec<bool> = vec![false; n];
    let mut current_cluster_id: usize = 0;
    let ghost mut st = init;
    proof {
        assert(marked(visited@) =~= st.visited);
    }

    let mut point_idx: usize = 0;
    while point_idx < n
        invariant
            n == data@.len(),
            dists@.len() == n,
            forall|i: int| 0 <= i < dists@.len() ==> #[trigger] dists@[i]@.len() == n,
            dv == rows_view(dists@),
            eps == params.eps_m,
            mp == params.min_points as int,
            point_idx <= n,
            visited@.len() == n,
            assigned@.len() == n,
            st.visited == marked(visited@),
            forall|i: int| 0 <= i < n ==> (st.assigned.dom().contains(i) <==> assigned@[i]),
            st_wf(st, n as int),
            clusters@.len() == st.clusters.len(),
            clusters@.len() == current_cluster_id,
            current_cluster_id <= point_idx,
            clusters_model(clusters@, st.clusters, data@),
            dbscan_from(dv, eps, mp, n as int, point_idx as int, st, current_cluster_id as int)
                == fin,
        decreases n - point_idx,
    {
        if !visited[point_idx] {
            let ghost st0 = st;
            visited[point_idx] = true;
            proof {
                st = DbscanState {
                    visited: st.visited.insert(point_idx as int),
                    assigned: st.assigned,
                    clusters: st.clusters,
                };
                assert(marked(visited@) =~= st.visited);
            }
            let neighbors = get_neighbors(point_idx, n, dists, params.eps_m, &visited);
            let ghost nb = q_view(neighbors@);
            if neighbors.len() >= params.min_points {
                let mut cluster_points: Vec<UalfData> = Vec::new();
                cluster_points.push(data[point_idx]);
                assigned[point_idx] = true;
                let ghost cid = current_cluster_id as int;
                proof {
                    st = DbscanState {
                        visited: st.visited,
                        assigned: st.assigned.insert(point_idx as int, cid),
                        clusters: st.clusters.push(seq![point_idx as int]),
                    };
                    assert(cluster_points@ =~= st.clusters[cid].map_values(
                        |idx: int| data@[idx],
                    ));
                    lemma_neighbors_wf(dv, eps, st.visited, point_idx as int, n as int, n as int);
                }
                let ghost gq = grow_queue(dv, eps, mp, n as int, st, nb, cid);
                let mut neighbor_queue: Vec<usize> = neighbors;

                while neighbor_queue.len() > 0
                    invariant
                        n == data@.len(),
                        dists@.len() == n,
                        forall|i: int| 0 <= i < dists@.len() ==> #[trigger] dists@[i]@.len() == n,
                        dv == rows_view(dists@),
                        eps == params.eps_m,
                        mp == params.min_points as int,
                        visited@.len() == n,
                        assigned@.len() == n,
                        st.visited == marked(visited@),
                        forall|i: int|
                            0 <= i < n ==> (st.assigned.dom().contains(i) <==> assigned@[i]),
                        st_wf(st, n as int),
                        forall|i: int|
                            0 <= i < neighbor_queue@.len() ==> #[trigger] neighbor_queue@[i] < n,
                        0 <= cid < st.clusters.len(),
                        st.clusters.len() == cid + 1,
                        clusters@.len() == cid,
                        clusters_model(clusters@, st.clusters.take(cid), data@),
                        cluster_points@ == st.clusters[cid].map_values(|idx: int| data@[idx]),
                        grow_queue(dv, eps, mp, n as int, st, q_view(neighbor_queue@), cid) == gq,
                    decreases n as int - st.visited.len(), neighbor_queue@.len(),
                {
                    let ghost qv0 = q_view(neighbor_queue@);
                    let ghost stq0 = st;
                    let neighbor_idx = neighbor_queue.pop().unwrap();
                    let ghost q = neighbor_idx as int;
                    proof {
                        assert(qv0.last() == q);
                        assert(q_view(neighbor_queue@) =~= qv0.drop_last());
                    }
                    let ghost rest = q_view(neighbor_queue@);
                    if !visited[neighbor_idx] {
                        visited[neighbor_idx] = true;
                        proof {
                            st = DbscanState {
                                visited: st.visited.insert(q),
                                assigned: st.assigned,
                                clusters: st.clusters,
                            };
                            assert(marked(visited@) =~= st.visited);
                            vstd::set_lib::lemma_int_range(0, n as int);
                            assert(st.visited.subset_of(vstd::set_lib::set_int_range(0, n as int)));
                            vstd::set_lib::lemma_len_subset(
                                st.visited,
                                vstd::set_lib::set_int_range(0, n as int),
                            );
                        }
                        let new_neighbors = get_neighbors(
                            neighbor_idx,
                            n,
                            dists,
                            params.eps_m,
                            &visited,
                        );
                        proof {
                            lemma_neighbors_wf(dv, eps, st.visited, q, n as int, n as int);
                        }
                        if new_neighbors.len() >= params.min_points {
                            let mut nn = new_neighbors;
                            let ghost nnv = q_view(nn@);
                            neighbor_queue.append(&mut nn);
                            proof {
                                assert(q_view(neighbor_queue@) =~= rest + nnv);
                            }
                        }
                    }
                    if !assigned[neighbor_idx] {
                        cluster_points.push(data[neighbor_idx]);
                        assigned[neighbor_idx] = true;
                        proof {
                            st = DbscanState {
                                visited: st.visited,
                                assigned: st.assigned.insert(q, cid),
                                clusters: st.clusters.update(cid, st.clusters[cid].push(q)),
                            };
                            assert(cluster_points@ =~= st.clusters[cid].map_values(
                                |idx: int| data@[idx],
                            ));
                            assert(clusters_model(clusters@, st.clusters.take(cid), data@)) by {
                                assert(st.clusters.take(cid) =~= stq0.clusters.take(cid));
                            }
                        }
                    }
                    proof {
                        // One unfolding of the growth run matches this iteration.
                        if !stq0.visited.contains(q) {
                            let v2 = stq0.visited.insert(q);
                            let nbq = neighbors_of(dv, eps, v2, q, n as int);
                            let st2 = DbscanState {
                                visited: v2,
                                assigned: stq0.assigned,
                                clusters: stq0.clusters,
                            };
                            assert(st == assign_point(st2, q, cid));
                            assert(q_view(neighbor_queue@) == if nbq.len() >= mp {
                                rest + nbq
                            } else {
                                rest
                            });
                        } else {
                            assert(st == assign_point(stq0, q, cid));
                            assert(q_view(neighbor_queue@) == rest);
                        }
                        assert(grow_queue(dv, eps, mp, n as int, stq0, qv0, cid) == grow_queue(
                            dv,
                            eps,
                            mp,
                            n as int,
                            st,
                            q_view(neighbor_queue@),
                            cid,
                        ));
                    }
                }
                proof {
                    assert(q_view(neighbor_queue@) =~= Seq::<int>::empty());
                    assert(grow_queue(dv, eps, mp, n as int, st, q_view(neighbor_queue@), cid)
                        == st);
                    assert(st == gq);
                }
                let ghost closed = clusters@;
                clusters.push(
                    DbscanCluster { points: cluster_points, cluster_id: current_cluster_id },
                );
                current_cluster_id = current_cluster_id + 1;
                proof {
                    assert forall|c: int| 0 <= c < clusters@.len() implies (#[trigger] clusters@[c].cluster_id)
                        as int == c && clusters@[c].points@ == st.clusters[c].map_values(
                        |idx: int| data@[idx],
                    ) by {
                        if c < cid {
                            assert(clusters@[c] == closed[c]);
                            assert(st.clusters.take(cid)[c] == st.clusters[c]);
                        } else {
                            assert(clusters@[c] == clusters@[cid]);
                        }
                    }
                    assert(st.clusters.take(cid + 1) =~= st.clusters);
                    assert(dbscan_from(
                        dv,
                        eps,
                        mp,
                        n as int,
                        point_idx as int,
                        st0,
                        cid,
                    ) == dbscan_from(dv, eps, mp, n as int, point_idx + 1, st, cid + 1));
                }
            } else {
                proof {
                    assert(dbscan_from(
                        dv,
                        eps,
                        mp,
                        n as int,
                        point_idx as int,
                        st0,
                        current_cluster_id as int,
                    ) == dbscan_from(
                        dv,
                        eps,
                        mp,
                        n as int,
                        point_idx + 1,
                        st,
                        current_cluster_id as int,
                    ));
                }
            }
        }
        point_idx = point_idx + 1;
    }
    proof {
        assert(dbscan_from(dv, eps, mp, n as int, n as int, st, current_cluster_id as int) == st);
        assert(st == fin);
    }
    clusters
}


/// Integer division rounding toward zero, as the machine division does.
pub open spec fn div_trunc(a: int, b: int) -> int {
    if a >= 0 {
        a / b
    } else {
        -((-a) / b)
    }
}

/// Sum of the member latitudes, in microdegrees.
pub open spec fn sum_lat(s: Seq<UalfData>) -> int
    decreases s.len(),
{
    if s.len() == 0 {
        0
    } else {
        sum_lat(s.drop_last()) + s.last().latitude
    }
}

/// Sum of the member longitudes, in microdegrees.
pub open spec fn sum_lon(s: Seq<UalfData>) -> int
    decreases s.len(),
{
    if s.len() == 0 {
        0
    } else {
        sum_lon(s.drop_last()) + s.last().longitude
    }
}

/// Sum of the member peak currents, in amperes.
pub open spec fn sum_current(s: Seq<UalfData>) -> int
    decreases s.len(),
{
    if s.len() == 0 {
        0
    } else {
        sum_current(s.drop_last()) + s.last().peak_current
    }
}

/// The largest member timestamp.
pub open spec fn max_epoch(s: Seq<UalfData>) -> int
    recommends
        s.len() > 0,
    decreases s.len(),
{
    if s.len() <= 1 {
        s[0].epoch_ns as int
    } else {
        let m = max_epoch(s.drop_last());
        if s.last().epoch_ns > m {
            s.last().epoch_ns as int
        } else {
            m
        }
    }
}

/// The smallest member timestamp.
pub open spec fn min_epoch(s: Seq<UalfData>) -> int
    recommends
        s.len() > 0,
    decreases s.len(),
{
    if s.len() <= 1 {
        s[0].epoch_ns as int
    } else {
        let m = min_epoch(s.drop_last());
        if s.last().epoch_ns < m {
            s.last().epoch_ns as int
        } else {
            m
        }
    }
}

impl DbscanCluster {
    /// Every member coordinate is a geographic coordinate in microdegrees.
    pub open spec fn coords_valid(self) -> bool {
        forall|i: int|
            0 <= i < self.points@.len() ==> -90_000_000 <= (#[trigger] self.points@[i]).latitude
                <= 90_000_000 && -180_000_000 <= self.points@[i].longitude <= 180_000_000
    }

    /// The centroid: the mean member latitude and longitude in microdegrees,
    /// each rounded toward zero.
    pub fn center(&self) -> (c: (i64, i64))
        requires
            self.points@.len() > 0,
            self.coords_valid(),
        ensures
            c.0 == div_trunc(sum_lat(self.points@), self.points@.len() as int),
            c.1 == div_trunc(sum_lon(self.points@), self.points@.len() as int),
    {
        let mut lat_sum: i128 = 0;
        let mut lon_sum: i128 = 0;
        let mut i: usize = 0;
        while i < self.points.len()
            invariant
                i <= self.points@.len(),
                self.coords_valid(),
                lat_sum == sum_lat(self.points@.take(i as int)),
                lon_sum == sum_lon(self.points@.take(i as int)),
                -90_000_000 * (i as int) <= lat_sum <= 90_000_000 * (i as int),
                -180_000_000 * (i as int) <= lon_sum <= 180_000_000 * (i as int),
            decreases self.points@.len() - i,
        {
            proof {
                assert(self.points@.take(i + 1).drop_last() =~= self.points@.take(i as int));
            }
            lat_sum = lat_sum + self.points[i].latitude as i128;
            lon_sum = lon_sum + self.points[i].longitude as i128;
            i = i + 1;
        }
        proof {
            assert(self.points@.take(self.points@.len() as int) =~= self.points@);
        }
        let count = self.points.len() as i128;
        let lat_mean = lat_sum / count;
        let lon_mean = lon_sum / count;
        proof {
            lemma_div_trunc_bound(lat_sum as int, count as int, 90_000_000);
            lemma_div_trunc_bound(lon_sum as int, count as int, 180_000_000);
        }
        (lat_mean as i64, lon_mean as i64)
    }

    /// The mean member peak current in amperes, rounded toward zero.
    pub fn average_current(&self) -> (a: i64)
        requires
            self.points@.len() > 0,
        ensures
            a == div_trunc(sum_current(self.points@), self.points@.len() as int),
    {
        let mut sum: i128 = 0;
        let mut i: usize = 0;
        while i < self.points.len()
            invariant
                i <= self.points@.len(),
                sum == sum_current(self.points@.take(i as int)),
                -32768 * (i as int) <= sum <= 32767 * (i as int),
            decreases self.points@.len() - i,
        {
            proof {
                assert(self.points@.take(i + 1).drop_last() =~= self.points@.take(i as int));
            }
            sum = sum + self.points[i].peak_current as i128;
            i = i + 1;
        }
        proof {
            assert(self.points@.take(self.points@.len() as int) =~= self.points@);
        }
        let count = self.points.len() as i128;
        let mean = sum / count;
        proof {
            lemma_div_trunc_bound(sum as int, count as int, 32768);
        }
        mean as i64
    }

    /// The cluster's time span: largest minus smallest member timestamp, or 0
    /// for an empty cluster. The member timestamps must not lie further apart
    /// than the timestamp type can express.
    pub fn time_span_ns(&self) -> (span: i64)
        requires
            self.points@.len() > 0 ==> max_epoch(self.points@) - min_epoch(self.points@)
                <= i64::MAX,
        ensures
            span == if self.points@.len() == 0 {
                0int
            } else {
                max_epoch(self.points@) - min_epoch(self.points@)
            },
    {
        if self.points.len() == 0 {
            return 0;
        }
        let mut mn: i64 = self.points[0].epoch_ns;
        let mut mx: i64 = self.points[0].epoch_ns;
        let mut i: usize = 1;
        while i < self.points.len()
            invariant
                1 <= i <= self.points@.len(),
                mn == min_epoch(self.points@.take(i as int)),
                mx == max_epoch(self.points@.take(i as int)),
            decreases self.points@.len() - i,
        {
            proof {
                assert(self.points@.take(i + 1).drop_last() =~= self.points@.take(i as int));
            }
            let e = self.points[i].epoch_ns;
            if e < mn {
                mn = e;
            }
            if e > mx {
                mx = e;
            }
            i = i + 1;
        }
        proof {
            assert(self.points@.take(self.points@.len() as int) =~= self.points@);
            lemma_min_le_max(self.points@);
        }
        mx - mn
    }
}

impl DbscanCluster {
    /// The cluster's extent as a polygon: the convex hull of its member
    /// coordinates.
    pub fn convex_hull(&self) -> (h: ConvexHull)
        requires
            self.coords_valid(),
        ensures
            h.points@ == crate::convex_hull::hull_points_of(
                self.points@.map_values(|p: UalfData| (p.latitude, p.longitude)),
            ),
    {
        let mut coords: Vec<(i64, i64)> = Vec::new();
        let mut i: usize = 0;
        while i < self.points.len()
            invariant
                i <= self.points@.len(),
                self.coords_valid(),
                coords@ == self.points@.take(i as int).map_values(
                    |p: UalfData| (p.latitude, p.longitude),
                ),
                crate::convex_hull::pts_ok(coords@),
            decreases self.points@.len() - i,
        {
            coords.push((self.points[i].latitude, self.points[i].longitude));
            proof {
                assert(self.points@.take(i + 1).map_values(|p: UalfData| (p.latitude, p.longitude))
                    =~= self.points@.take(i as int).map_values(
                    |p: UalfData| (p.latitude, p.longitude),
                ).push((self.points@[i as int].latitude, self.points@[i as int].longitude)));
            }
            i = i + 1;
        }
        proof {
            assert(self.points@.take(self.points@.len() as int) =~= self.points@);
        }
        ConvexHull { points: crate::convex_hull::hull_of_coords(&coords) }
    }
}

/// The minimum member timestamp never exceeds the maximum.
proof fn lemma_min_le_max(s: Seq<UalfData>)
    requires
        s.len() > 0,
    ensures
        min_epoch(s) <= max_epoch(s),
    decreases s.len(),
{
    if s.len() > 1 {
        lemma_min_le_max(s.drop_last());
    }
}

/// A quotient is bounded by a bound on the elements that summed to the
/// dividend.
proof fn lemma_div_trunc_bound(a: int, c: int, m: int)
    requires
        c > 0,
        m > 0,
        -(m * c) <= a <= m * c,
    ensures
        -m <= div_trunc(a, c) <= m,
{
    if a >= 0 {
        assert(0 <= a / c <= m) by (nonlinear_arith)
            requires
                c > 0,
                m > 0,
                0 <= a <= m * c,
        ;
    } else {
        assert(0 <= (-a) / c <= m) by (nonlinear_arith)
            requires
                c > 0,
                m > 0,
                0 <= -a <= m * c,
        ;
    }
}


/// Everything queued gets visited and assigned by the growth run, and the
/// run never shrinks what was already visited or assigned.
proof fn lemma_grow_covers(
    dists: Seq<Seq<i64>>,
    eps: i64,
    min_points: int,
    n: int,
    st: DbscanState,
    queue: Seq<int>,
    cid: int,
)
    requires
        0 <= n,
        st_wf(st, n),
        queue_wf(queue, n),
    ensures
        ({
            let r = grow_queue(dists, eps, min_points, n, st, queue, cid);
            &&& forall|x: int| st.visited.contains(x) ==> r.visited.contains(x)
            &&& forall|x: int|
                st.assigned.dom().contains(x) ==> #[trigger] r.assigned.dom().contains(x)
            &&& forall|k: int|
                0 <= k < queue.len() ==> r.visited.contains(#[trigger] queue[k])
                    && r.assigned.dom().contains(queue[k])
        }),
    decreases n - st.visited.len(), queue.len(),
{
    vstd::set_lib::lemma_int_range(0, n);
    assert(st.visited.subset_of(vstd::set_lib::set_int_range(0, n)));
    vstd::set_lib::lemma_len_subset(st.visited, vstd::set_lib::set_int_range(0, n));
    if queue.len() > 0 {
        let q = queue.last();
        let rest = queue.drop_last();
        assert(queue_wf(rest, n));
        if !st.visited.contains(q) {
            let v2 = st.visited.insert(q);
            assert(v2.subset_of(vstd::set_lib::set_int_range(0, n)));
            vstd::set_lib::lemma_len_subset(v2, vstd::set_lib::set_int_range(0, n));
            let nb = neighbors_of(dists, eps, v2, q, n);
            lemma_neighbors_wf(dists, eps, v2, q, n, n);
            let st2 = DbscanState { visited: v2, assigned: st.assigned, clusters: st.clusters };
            let st3 = assign_point(st2, q, cid);
            let queue2 = if nb.len() >= min_points {
                rest + nb
            } else {
                rest
            };
            assert(queue_wf(queue2, n));
            lemma_grow_covers(dists, eps, min_points, n, st3, queue2, cid);
            let r = grow_queue(dists, eps, min_points, n, st, queue, cid);
            assert(r == grow_queue(dists, eps, min_points, n, st3, queue2, cid));
            assert(st3.assigned.dom().contains(q));
            assert forall|k: int| 0 <= k < queue.len() implies r.visited.contains(
                #[trigger] queue[k],
            ) && r.assigned.dom().contains(queue[k]) by {
                if k < queue.len() - 1 {
                    assert(rest[k] == queue[k]);
                    if nb.len() >= min_points {
                        assert(queue2[k] == queue[k]);
                    }
                } else {
                    assert(queue[k] == q);
                    assert(st3.visited.contains(q));
                }
            }
        } else {
            let st3 = assign_point(st, q, cid);
            lemma_grow_covers(dists, eps, min_points, n, st3, rest, cid);
            let r = grow_queue(dists, eps, min_points, n, st, queue, cid);
            assert(r == grow_queue(dists, eps, min_points, n, st3, rest, cid));
            assert(st3.assigned.dom().contains(q));
            assert forall|k: int| 0 <= k < queue.len() implies r.visited.contains(
                #[trigger] queue[k],
            ) && r.assigned.dom().contains(queue[k]) by {
                if k < queue.len() - 1 {
                    assert(rest[k] == queue[k]);
                } else {
                    assert(queue[k] == q);
                }
            }
        }
    }
}

/// What the growth run does to cluster `cid`: it keeps the cluster free of
/// duplicates, only ever adds members, adds exactly the points it newly
/// assigns, and assigns only queued points.
proof fn lemma_grow_cluster_members(
    dists: Seq<Seq<i64>>,
    eps: i64,
    min_points: int,
    n: int,
    st: DbscanState,
    queue: Seq<int>,
    cid: int,
)
    requires
        0 <= n,
        st_wf(st, n),
        queue_wf(queue, n),
        0 <= cid < st.clusters.len(),
        st.clusters[cid].no_duplicates(),
        forall|x: int|
            st.clusters[cid].contains(x) ==> #[trigger] st.assigned.dom().contains(x),
    ensures
        ({
            let r = grow_queue(dists, eps, min_points, n, st, queue, cid);
            &&& r.clusters.len() == st.clusters.len()
            &&& r.clusters[cid].no_duplicates()
            &&& forall|x: int| st.clusters[cid].contains(x) ==> r.clusters[cid].contains(x)
            &&& forall|x: int|
                #[trigger] r.assigned.dom().contains(x) ==> st.assigned.dom().contains(x)
                    || r.clusters[cid].contains(x)
            &&& forall|x: int|
                r.clusters[cid].contains(x) ==> #[trigger] r.assigned.dom().contains(x)
            &&& forall|x: int|
                #[trigger] r.assigned.dom().contains(x) ==> st.assigned.dom().contains(x) || 0 <= x
                    < n
        }),
    decreases n - st.visited.len(), queue.len(),
{
    vstd::set_lib::lemma_int_range(0, n);
    assert(st.visited.subset_of(vstd::set_lib::set_int_range(0, n)));
    vstd::set_lib::lemma_len_subset(st.visited, vstd::set_lib::set_int_range(0, n));
    if queue.len() > 0 {
        let q = queue.last();
        let rest = queue.drop_last();
        assert(queue_wf(rest, n));
        assert(0 <= q < n);
        if !st.visited.contains(q) {
            let v2 = st.visited.insert(q);
            assert(v2.subset_of(vstd::set_lib::set_int_range(0, n)));
            vstd::set_lib::lemma_len_subset(v2, vstd::set_lib::set_int_range(0, n));
            let nb = neighbors_of(dists, eps, v2, q, n);
            lemma_neighbors_wf(dists, eps, v2, q, n, n);
            let st2 = DbscanState { visited: v2, assigned: st.assigned, clusters: st.clusters };
            let st3 = assign_point(st2, q, cid);
            lemma_assign_point_members(st2, q, cid);
            let queue2 = if nb.len() >= min_points {
                rest + nb
            } else {
                rest
            };
            assert(queue_wf(queue2, n));
            lemma_grow_cluster_members(dists, eps, min_points, n, st3, queue2, cid);
        } else {
            let st3 = assign_point(st, q, cid);
            lemma_assign_point_members(st, q, cid);
            lemma_grow_cluster_members(dists, eps, min_points, n, st3, rest, cid);
        }
    }
}

/// One assignment keeps the cluster duplicate-free and in step with the
/// assignment map.
proof fn lemma_assign_point_members(st: DbscanState, q: int, cid: int)
    requires
        0 <= cid < st.clusters.len(),
        st.clusters[cid].no_duplicates(),
        forall|x: int|
            st.clusters[cid].contains(x) ==> #[trigger] st.assigned.dom().contains(x),
    ensures
        ({
            let r = assign_point(st, q, cid);
            &&& r.visited == st.visited
            &&& r.clusters.len() == st.clusters.len()
            &&& r.clusters[cid].no_duplicates()
            &&& r.assigned.dom().contains(q)
            &&& r.clusters[cid].contains(q) || st.assigned.dom().contains(q)
            &&& forall|x: int| st.clusters[cid].contains(x) ==> r.clusters[cid].contains(x)
            &&& forall|x: int|
                #[trigger] r.assigned.dom().contains(x) ==> st.assigned.dom().contains(x) || x
                    == q
            &&& forall|x: int|
                r.clusters[cid].contains(x) ==> #[trigger] r.assigned.dom().contains(x)
        }),
{
    let r = assign_point(st, q, cid);
    if !st.assigned.dom().contains(q) {
        let c0 = st.clusters[cid];
        let c1 = c0.push(q);
        assert(r.clusters[cid] == c1);
        assert(!c0.contains(q));
        assert(c1.no_duplicates()) by {
            assert forall|i: int, j: int|
                0 <= i < c1.len() && 0 <= j < c1.len() && i != j implies c1[i] != c1[j] by {
                if i < c0.len() && j < c0.len() {
                    assert(c0[i] == c1[i] && c0[j] == c1[j]);
                } else if i < c0.len() {
                    assert(c1[j] == q && c1[i] == c0[i]);
                    assert(c0.contains(c0[i]));
                } else {
                    assert(c1[i] == q && c1[j] == c0[j]);
                    assert(c0.contains(c0[j]));
                }
            }
        }
        assert(c1.contains(q)) by {
            assert(c1[c0.len() as int] == q);
        }
        assert forall|x: int| st.clusters[cid].contains(x) implies r.clusters[cid].contains(
            x,
        ) by {
            let i = choose|i: int| 0 <= i < c0.len() && c0[i] == x;
            assert(c1[i] == x);
        }
        assert forall|x: int| r.clusters[cid].contains(x) implies #[trigger] r.assigned.dom()
            .contains(x) by {
            let i = choose|i: int| 0 <= i < c1.len() && c1[i] == x;
            if i < c0.len() {
                assert(c0.contains(x));
            }
        }
    }
}

/// Membership in a neighbor set: exactly the unvisited points in range that
/// lie within the radius.
proof fn lemma_neighbors_mem(
    dists: Seq<Seq<i64>>,
    eps: i64,
    visited: Set<int>,
    p: int,
    j: int,
    x: int,
)
    ensures
        neighbors_upto(dists, eps, visited, p, j).contains(x) <==> (0 <= x < j
            && !visited.contains(x) && within_eps(dists, eps, p, x)),
    decreases j,
{
    if j > 0 {
        lemma_neighbors_mem(dists, eps, visited, p, j - 1, x);
        let pre = neighbors_upto(dists, eps, visited, p, j - 1);
        let cur = neighbors_upto(dists, eps, visited, p, j);
        if !visited.contains(j - 1) && within_eps(dists, eps, p, j - 1) {
            assert(cur == pre.push(j - 1));
            if x == j - 1 {
                assert(cur[cur.len() - 1] == x);
                assert(cur.contains(x));
            }
            if cur.contains(x) && x != j - 1 {
                let i = choose|i: int| 0 <= i < cur.len() && cur[i] == x;
                assert(pre[i] == x);
                assert(pre.contains(x));
            }
            if pre.contains(x) {
                let i = choose|i: int| 0 <= i < pre.len() && pre[i] == x;
                assert(cur[i] == x);
            }
        }
    }
}

/// When every point is within the radius of `p` and only point 0 is visited,
/// the neighbor set of `p` holds everything else: `j - 1` points.
proof fn lemma_neighbors_len_full(dists: Seq<Seq<i64>>, eps: i64, p: int, j: int)
    requires
        forall|q: int| 0 <= q < j ==> within_eps(dists, eps, p, q),
    ensures
        neighbors_upto(dists, eps, Set::<int>::empty().insert(0), p, j).len() == if j >= 1 {
            j - 1
        } else {
            0
        },
    decreases j,
{
    if j > 0 {
        lemma_neighbors_len_full(dists, eps, p, j - 1);
    }
}

/// A neighbor set never counts a visited point, so with `v` visited and in
/// range it has at most `j - 1` members.
proof fn lemma_neighbors_len_excl(
    dists: Seq<Seq<i64>>,
    eps: i64,
    visited: Set<int>,
    p: int,
    j: int,
    v: int,
)
    requires
        0 <= j,
        0 <= v,
        visited.contains(v),
    ensures
        neighbors_upto(dists, eps, visited, p, j).len() <= j,
        v < j ==> neighbors_upto(dists, eps, visited, p, j).len() <= j - 1,
    decreases j,
{
    if j > 0 {
        lemma_neighbors_len_excl(dists, eps, visited, p, j - 1, v);
    }
}

/// Once every remaining point is visited, the sweep changes nothing.
proof fn lemma_dbscan_from_all_visited(
    dists: Seq<Seq<i64>>,
    eps: i64,
    min_points: int,
    n: int,
    i: int,
    st: DbscanState,
    next_cid: int,
)
    requires
        0 <= n,
        0 <= i,
        st_wf(st, n),
        forall|j: int| i <= j < n ==> st.visited.contains(j),
    ensures
        dbscan_from(dists, eps, min_points, n, i, st, next_cid) == st,
    decreases n - i,
{
    if i < n {
        lemma_dbscan_from_all_visited(dists, eps, min_points, n, i + 1, st, next_cid);
    }
}

/// A density threshold that no point can reach (every neighbor set excludes
/// the seed itself, so holds at most `n - 1` points) yields no clusters at
/// all, whatever the distances.
proof fn lemma_dbscan_from_sparse(
    dists: Seq<Seq<i64>>,
    eps: i64,
    min_points: int,
    n: int,
    i: int,
    st: DbscanState,
    next_cid: int,
)
    requires
        0 <= n,
        0 <= i,
        st_wf(st, n),
        min_points > n - 1,
    ensures
        dbscan_from(dists, eps, min_points, n, i, st, next_cid).clusters == st.clusters,
    decreases n - i,
{
    if i < n {
        if st.visited.contains(i) {
            lemma_dbscan_from_sparse(dists, eps, min_points, n, i + 1, st, next_cid);
        } else {
            let v2 = st.visited.insert(i);
            let nb = neighbors_of(dists, eps, v2, i, n);
            lemma_neighbors_len_excl(dists, eps, v2, i, n, i);
            assert(nb.len() <= n - 1);
            let st2 = DbscanState { visited: v2, assigned: st.assigned, clusters: st.clusters };
            lemma_dbscan_from_sparse(dists, eps, min_points, n, i + 1, st2, next_cid);
        }
    }
}

/// Density threshold, unreachable side: with fewer points than the seed's
/// neighbor set would need (a neighbor set never includes the seed itself,
/// so a group of `min_points` mutually close points has only
/// `min_points - 1` neighbors per seed), no cluster forms.
pub proof fn lemma_sparse_no_clusters(dists: Seq<Seq<i64>>, eps: i64, min_points: int, n: int)
    requires
        0 <= n,
        min_points > n - 1,
    ensures
        dbscan_clusters(dists, eps, min_points, n) == Seq::<Seq<int>>::empty(),
{
    let init = DbscanState {
        visited: Set::empty(),
        assigned: Map::empty(),
        clusters: Seq::empty(),
    };
    lemma_dbscan_from_sparse(dists, eps, min_points, n, 0, init, 0);
}

/// Density threshold, reachable side: a batch of pairwise-close points whose
/// count exceeds the threshold (strictly: the first seed sees the other
/// `n - 1` points as neighbors, and `n - 1 >= min_points`) forms exactly one
/// cluster holding every point exactly once.
pub proof fn lemma_dense_one_cluster(dists: Seq<Seq<i64>>, eps: i64, min_points: int, n: int)
    requires
        1 <= n,
        0 <= min_points <= n - 1,
        forall|p: int, q: int|
            0 <= p < n && 0 <= q < n ==> within_eps(dists, eps, p, q),
    ensures
        ({
            let cs = dbscan_clusters(dists, eps, min_points, n);
            &&& cs.len() == 1
            &&& cs[0].no_duplicates()
            &&& cs[0].len() == n
            &&& forall|x: int| cs[0].contains(x) <==> 0 <= x < n
        }),
{
    let init = DbscanState {
        visited: Set::empty(),
        assigned: Map::empty(),
        clusters: Seq::empty(),
    };
    let v2 = Set::<int>::empty().insert(0);
    let nb = neighbors_of(dists, eps, v2, 0, n);
    lemma_neighbors_len_full(dists, eps, 0, n);
    assert(nb.len() == n - 1);
    lemma_neighbors_wf(dists, eps, v2, 0, n, n);
    let st2 = DbscanState {
        visited: v2,
        assigned: Map::<int, int>::empty().insert(0, 0),
        clusters: Seq::<Seq<int>>::empty().push(seq![0int]),
    };
    assert(st_wf(st2, n));
    assert(st2.clusters[0] == seq![0int]);
    assert(st2.clusters[0].no_duplicates());
    assert forall|x: int| st2.clusters[0].contains(x) implies #[trigger] st2.assigned.dom()
        .contains(x) by {
        assert(seq![0int][0] == 0);
        assert(x == 0);
    }
    let st3 = grow_queue(dists, eps, min_points, n, st2, nb, 0);
    lemma_grow_queue_wf(dists, eps, min_points, n, st2, nb, 0);
    lemma_grow_covers(dists, eps, min_points, n, st2, nb, 0);
    lemma_grow_cluster_members(dists, eps, min_points, n, st2, nb, 0);

    // The sweep's first step is exactly the cluster opening above.
    assert(dbscan_from(dists, eps, min_points, n, 0, init, 0) == dbscan_from(
        dists,
        eps,
        min_points,
        n,
        1,
        st3,
        1,
    )) by {
        assert(init.visited.insert(0) =~= v2);
        assert(Map::<int, int>::empty().insert(0, 0) == init.assigned.insert(0, 0));
        assert(Seq::<Seq<int>>::empty().push(seq![0int]) =~= init.clusters.push(seq![0int]));
    }

    // Every point is visited after the growth run, so the sweep then stops.
    assert forall|j: int| 1 <= j < n implies st3.visited.contains(j) by {
        lemma_neighbors_mem(dists, eps, v2, 0, n, j);
        assert(nb.contains(j));
        let k = choose|k: int| 0 <= k < nb.len() && nb[k] == j;
    }
    assert(st3.visited.contains(0));
    lemma_dbscan_from_all_visited(dists, eps, min_points, n, 1, st3, 1);

    let cs = dbscan_clusters(dists, eps, min_points, n);
    assert(cs == st3.clusters);
    assert(cs.len() == 1);
    assert forall|x: int| cs[0].contains(x) implies 0 <= x < n by {
        assert(st3.assigned.dom().contains(x));
        if !st2.assigned.dom().contains(x) {
        } else {
            assert(x == 0);
        }
    }
    assert forall|x: int| 0 <= x < n implies cs[0].contains(x) by {
        if x == 0 {
            assert(st2.clusters[0].contains(0)) by {
                assert(seq![0int][0] == 0);
            }
        } else {
            lemma_neighbors_mem(dists, eps, v2, 0, n, x);
            assert(nb.contains(x));
            let k = choose|k: int| 0 <= k < nb.len() && nb[k] == x;
            assert(st3.assigned.dom().contains(nb[k]));
            assert(!st2.assigned.dom().contains(x));
        }
    }
    assert(cs[0].len() == n) by {
        cs[0].unique_seq_to_set();
        assert(cs[0].to_set() =~= vstd::set_lib::set_int_range(0, n));
        vstd::set_lib::lemma_int_range(0, n);
    }
}


/// The character for one decimal digit.
pub open spec fn digit_char(d: int) -> char {
    if d == 0 {
        '0'
    } else if d == 1 {
        '1'
    } else if d == 2 {
        '2'
    } else if d == 3 {
        '3'
    } else if d == 4 {
        '4'
    } else if d == 5 {
        '5'
    } else if d == 6 {
        '6'
    } else if d == 7 {
        '7'
    } else if d == 8 {
        '8'
    } else {
        '9'
    }
}

/// The decimal digits of a number, most significant first.
pub open spec fn dec_digits(n: int) -> Seq<char>
    recommends
        n >= 0,
    decreases n,
{
    if n < 10 {
        seq![digit_char(n)]
    } else {
        dec_digits(n / 10).push(digit_char(n % 10))
    }
}

/// `width` digits of `f`, zero-padded on the left.
pub open spec fn pad_digits(f: int, width: int) -> Seq<char>
    decreases width,
{
    if width <= 0 {
        Seq::empty()
    } else {
        pad_digits(f / 10, width - 1).push(digit_char(f % 10))
    }
}

/// The written fractional digits: six places with trailing zeros dropped.
pub open spec fn frac_digit_chars(f: int, width: int) -> Seq<char>
    decreases width,
{
    if width <= 0 {
        Seq::empty()
    } else if f % 10 == 0 {
        frac_digit_chars(f / 10, width - 1)
    } else {
        pad_digits(f, width)
    }
}

/// A microdegree value written as decimal degrees: sign, integer degrees,
/// and the fractional degrees when there are any, shortest form.
pub open spec fn micro_chars(v: int) -> Seq<char> {
    let sign: Seq<char> = if v < 0 {
        seq!['-']
    } else {
        Seq::empty()
    };
    let m = if v < 0 {
        -v
    } else {
        v
    };
    let ip = m / 1_000_000;
    let fr = m % 1_000_000;
    if fr > 0 {
        sign + dec_digits(ip) + seq!['.'] + frac_digit_chars(fr, 6)
    } else {
        sign + dec_digits(ip)
    }
}

/// One hull vertex on the wire: `[latitude,longitude]`.
pub open spec fn point_chars(p: (i64, i64)) -> Seq<char> {
    seq!['['] + micro_chars(p.0 as int) + seq![','] + micro_chars(p.1 as int) + seq![']']
}

/// The comma-separated vertices.
pub open spec fn points_chars(s: Seq<(i64, i64)>) -> Seq<char>
    decreases s.len(),
{
    if s.len() == 0 {
        Seq::empty()
    } else if s.len() == 1 {
        point_chars(s[0])
    } else {
        points_chars(s.drop_last()) + seq![','] + point_chars(s.last())
    }
}

/// The hull polygon's wire representation: an ordered array of
/// `[latitude,longitude]` pairs, the empty array for no points.
pub open spec fn geo_json_of(s: Seq<(i64, i64)>) -> Seq<char> {
    seq!['['] + points_chars(s) + seq![']']
}

/// Append one digit character.
fn push_digit(out: &mut String, d: u64)
    requires
        d < 10,
    ensures
        final(out)@ == old(out)@ + seq![digit_char(d as int)],
{
    proof {
        reveal_strlit("0");
        reveal_strlit("1");
        reveal_strlit("2");
        reveal_strlit("3");
        reveal_strlit("4");
        reveal_strlit("5");
        reveal_strlit("6");
        reveal_strlit("7");
        reveal_strlit("8");
        reveal_strlit("9");
    }
    match d {
        0 => out.append("0"),
        1 => out.append("1"),
        2 => out.append("2"),
        3 => out.append("3"),
        4 => out.append("4"),
        5 => out.append("5"),
        6 => out.append("6"),
        7 => out.append("7"),
        8 => out.append("8"),
        _ => out.append("9"),
    }
}

/// Append a number's decimal digits.
fn push_uint(out: &mut String, n: u64)
    ensures
        final(out)@ == old(out)@ + dec_digits(n as int),
    decreases n,
{
    if n < 10 {
        push_digit(out, n);
    } else {
        push_uint(out, n / 10);
        push_digit(out, n % 10);
        proof {
            assert(old(out)@ + dec_digits(n as int / 10) + seq![digit_char(n as int % 10)]
                =~= old(out)@ + dec_digits(n as int));
        }
    }
}

/// Append `width` digits of `f`, zero-padded.
fn push_padded(out: &mut String, f: u64, width: u64)
    ensures
        final(out)@ == old(out)@ + pad_digits(f as int, width as int),
    decreases width,
{
    if width > 0 {
        push_padded(out, f / 10, width - 1);
        push_digit(out, f % 10);
        proof {
            assert(old(out)@ + pad_digits(f as int / 10, width - 1) + seq![digit_char(
                f as int % 10,
            )] =~= old(out)@ + pad_digits(f as int, width as int));
        }
    } else {
        proof {
            assert(old(out)@ + pad_digits(f as int, 0) =~= old(out)@);
        }
    }
}

/// Append a microdegree value as decimal degrees.
fn push_micro(out: &mut String, v: i64)
    ensures
        final(out)@ == old(out)@ + micro_chars(v as int),
{
    proof {
        reveal_strlit("-");
        reveal_strlit(".");
    }
    let m: i128 = if v < 0 {
        out.append("-");
        -(v as i128)
    } else {
        v as i128
    };
    let ip: u64 = (m / 1_000_000) as u64;
    let fr: u64 = (m % 1_000_000) as u64;
    push_uint(out, ip);
    if fr > 0 {
        out.append(".");
        let mut f: u64 = fr;
        let mut width: u64 = 6;
        proof {
            reveal_with_fuel(crate::ualf::pow10s, 8);
        }
        while f % 10 == 0
            invariant
                0 < f <= 999_999,
                0 < width <= 6,
                f < crate::ualf::pow10s(width as int),
                frac_digit_chars(fr as int, 6) == frac_digit_chars(f as int, width as int),
            decreases f,
        {
            proof {
                reveal_with_fuel(crate::ualf::pow10s, 8);
                assert(crate::ualf::pow10s(width as int) == 10 * crate::ualf::pow10s(
                    width as int - 1,
                ));
                if width == 1 {
                    assert(f < 10);
                    assert(f / 10 == 0);
                    assert(false) by {
                        assert(f % 10 == 0 && f > 0 && f < 10);
                    }
                }
            }
            f = f / 10;
            width = width - 1;
        }
        push_padded(out, f, width);
        proof {
            assert(frac_digit_chars(f as int, width as int) == pad_digits(f as int, width as int));
        }
    }
    proof {
        assert(final(out)@ =~= old(out)@ + micro_chars(v as int));
    }
}


impl DbscanCluster {
    /// The hull polygon serialized as a coordinate array: `[[lat,lon],...]`,
    /// coordinates in decimal degrees, `[]` for an empty cluster.
    pub fn convex_hull_geo_json(&self) -> (json: String)
        requires
            self.coords_valid(),
        ensures
            json@ == geo_json_of(
                crate::convex_hull::hull_points_of(
                    self.points@.map_values(|p: UalfData| (p.latitude, p.longitude)),
                ),
            ),
    {
        proof {
            reveal_strlit("[");
            reveal_strlit("]");
            reveal_strlit(",");
        }
        let hull = self.convex_hull();
        let n = hull.points.len();
        let mut json = String::new();
        json.append("[");
        proof {
            assert(hull.points@.take(0) =~= Seq::<(i64, i64)>::empty());
            assert(json@ =~= seq!['['] + points_chars(hull.points@.take(0)));
        }
        let mut i: usize = 0;
        while i < n
            invariant
                i <= n,
                n == hull.points@.len(),
                hull.points@ == crate::convex_hull::hull_points_of(
                    self.points@.map_values(|p: UalfData| (p.latitude, p.longitude)),
                ),
                json@ == seq!['['] + points_chars(hull.points@.take(i as int)),
            decreases n - i,
        {
            proof {
                reveal_strlit("[");
                reveal_strlit("]");
                reveal_strlit(",");
            }
            if i > 0 {
                json.append(",");
            }
            json.append("[");
            push_micro(&mut json, hull.points[i].0);
            json.append(",");
            push_micro(&mut json, hull.points[i].1);
            json.append("]");
            proof {
                assert(hull.points@.take(i + 1).drop_last() =~= hull.points@.take(i as int));
                assert(hull.points@.take(i + 1).last() == hull.points@[i as int]);
                assert(json@ =~= seq!['['] + points_chars(hull.points@.take(i + 1)));
            }
            i = i + 1;
        }
        json.append("]");
        proof {
            assert(hull.points@.take(n as int) =~= hull.points@);
            assert(json@ =~= geo_json_of(hull.points@));
        }
        json
    }
}


/// A neighbor set lists indices below its bound, in strictly ascending
/// order, so it never repeats one.
proof fn lemma_neighbors_nodup(dists: Seq<Seq<i64>>, eps: i64, visited: Set<int>, p: int, j: int)
    ensures
        neighbors_upto(dists, eps, visited, p, j).no_duplicates(),
        forall|k: int|
            0 <= k < neighbors_upto(dists, eps, visited, p, j).len()
                ==> #[trigger] neighbors_upto(dists, eps, visited, p, j)[k] < j,
    decreases j,
{
    if j > 0 {
        lemma_neighbors_nodup(dists, eps, visited, p, j - 1);
        let pre = neighbors_upto(dists, eps, visited, p, j - 1);
        let cur = neighbors_upto(dists, eps, visited, p, j);
        if !visited.contains(j - 1) && within_eps(dists, eps, p, j - 1) {
            assert forall|a: int, b: int|
                0 <= a < cur.len() && 0 <= b < cur.len() && a != b implies cur[a] != cur[b] by {
                if a < pre.len() && b < pre.len() {
                    assert(pre[a] == cur[a] && pre[b] == cur[b]);
                } else if a < pre.len() {
                    assert(cur[b] == j - 1 && cur[a] == pre[a]);
                } else {
                    assert(cur[a] == j - 1 && cur[b] == pre[b]);
                }
            }
        }
    }
}

/// No state the group's members reach: none is assigned, and every cluster
/// member is assigned.
spec fn group_untouched(st: DbscanState, g: Set<int>) -> bool {
    &&& forall|x: int| g.contains(x) ==> !(#[trigger] st.assigned.dom().contains(x))
    &&& forall|c: int, x: int|
        0 <= c < st.clusters.len() && #[trigger] st.clusters[c].contains(x)
            ==> st.assigned.dom().contains(x)
}

/// The isolation hypothesis: no point of the group and no point outside it
/// lie within the neighbor radius of one another, in either direction.
pub open spec fn group_isolated(dists: Seq<Seq<i64>>, eps: i64, n: int, g: Set<int>) -> bool {
    forall|p: int, q: int|
        #![trigger within_eps(dists, eps, p, q)]
        #![trigger within_eps(dists, eps, q, p)]
        0 <= p < n && 0 <= q < n && g.contains(p) && !g.contains(q) ==> !within_eps(
            dists,
            eps,
            p,
            q,
        ) && !within_eps(dists, eps, q, p)
}

/// Growth seeded away from an isolated group never reaches it.
proof fn lemma_grow_avoids_group(
    dists: Seq<Seq<i64>>,
    eps: i64,
    min_points: int,
    n: int,
    st: DbscanState,
    queue: Seq<int>,
    cid: int,
    g: Set<int>,
)
    requires
        0 <= n,
        st_wf(st, n),
        queue_wf(queue, n),
        0 <= cid < st.clusters.len(),
        group_isolated(dists, eps, n, g),
        forall|x: int| g.contains(x) ==> 0 <= x < n,
        group_untouched(st, g),
        forall|k: int| 0 <= k < queue.len() ==> !g.contains(#[trigger] queue[k]),
    ensures
        ({
            let r = grow_queue(dists, eps, min_points, n, st, queue, cid);
            &&& group_untouched(r, g)
            &&& r.clusters.len() == st.clusters.len()
        }),
    decreases n - st.visited.len(), queue.len(),
{
    vstd::set_lib::lemma_int_range(0, n);
    assert(st.visited.subset_of(vstd::set_lib::set_int_range(0, n)));
    vstd::set_lib::lemma_len_subset(st.visited, vstd::set_lib::set_int_range(0, n));
    if queue.len() > 0 {
        let q = queue.last();
        let rest = queue.drop_last();
        assert(queue_wf(rest, n));
        assert(!g.contains(q));
        if !st.visited.contains(q) {
            let v2 = st.visited.insert(q);
            assert(v2.subset_of(vstd::set_lib::set_int_range(0, n)));
            vstd::set_lib::lemma_len_subset(v2, vstd::set_lib::set_int_range(0, n));
            let nb = neighbors_of(dists, eps, v2, q, n);
            lemma_neighbors_wf(dists, eps, v2, q, n, n);
            assert forall|k: int| 0 <= k < nb.len() implies !g.contains(#[trigger] nb[k]) by {
                lemma_neighbors_mem(dists, eps, v2, q, n, nb[k]);
                assert(nb.contains(nb[k]));
                assert(within_eps(dists, eps, q, nb[k]));
            }
            let st2 = DbscanState { visited: v2, assigned: st.assigned, clusters: st.clusters };
            let st3 = assign_point(st2, q, cid);
            lemma_assign_keeps_group(st2, q, cid, g);
            let queue2 = if nb.len() >= min_points {
                rest + nb
            } else {
                rest
            };
            assert(queue_wf(queue2, n));
            assert forall|k: int| 0 <= k < queue2.len() implies !g.contains(
                #[trigger] queue2[k],
            ) by {
                if nb.len() >= min_points && k >= rest.len() {
                    assert(queue2[k] == nb[k - rest.len()]);
                } else {
                    assert(queue2[k] == rest[k]);
                    assert(rest[k] == queue[k]);
                }
            }
            lemma_grow_avoids_group(dists, eps, min_points, n, st3, queue2, cid, g);
        } else {
            let st3 = assign_point(st, q, cid);
            lemma_assign_keeps_group(st, q, cid, g);
            lemma_grow_avoids_group(dists, eps, min_points, n, st3, rest, cid, g);
        }
    }
}

/// Assigning a point from outside the group keeps the group untouched.
proof fn lemma_assign_keeps_group(st: DbscanState, q: int, cid: int, g: Set<int>)
    requires
        0 <= cid < st.clusters.len(),
        group_untouched(st, g),
        !g.contains(q),
    ensures
        ({
            let r = assign_point(st, q, cid);
            &&& group_untouched(r, g)
            &&& r.clusters.len() == st.clusters.len()
            &&& r.visited == st.visited
        }),
{
    let r = assign_point(st, q, cid);
    if !st.assigned.dom().contains(q) {
        assert forall|c: int, x: int|
            0 <= c < r.clusters.len() && #[trigger] r.clusters[c].contains(x)
                implies r.assigned.dom().contains(x) by {
            if c == cid {
                let c1 = st.clusters[cid].push(q);
                let i = choose|i: int| 0 <= i < c1.len() && c1[i] == x;
                if i < st.clusters[cid].len() {
                    assert(st.clusters[cid].contains(x));
                } else {
                    assert(x == q);
                }
            } else {
                assert(st.clusters[c].contains(x));
            }
        }
    }
}

/// The sweep never clusters a member of an isolated group smaller than the
/// density threshold.
proof fn lemma_dbscan_from_avoids_group(
    dists: Seq<Seq<i64>>,
    eps: i64,
    min_points: int,
    n: int,
    i: int,
    st: DbscanState,
    next_cid: int,
    g: Set<int>,
)
    requires
        0 <= n,
        0 <= i,
        st_wf(st, n),
        next_cid == st.clusters.len(),
        g.finite(),
        g.len() < min_points,
        group_isolated(dists, eps, n, g),
        forall|x: int| g.contains(x) ==> 0 <= x < n,
        group_untouched(st, g),
    ensures
        group_untouched(dbscan_from(dists, eps, min_points, n, i, st, next_cid), g),
    decreases n - i,
{
    if i < n {
        if st.visited.contains(i) {
            lemma_dbscan_from_avoids_group(dists, eps, min_points, n, i + 1, st, next_cid, g);
        } else {
            let v2 = st.visited.insert(i);
            let nb = neighbors_of(dists, eps, v2, i, n);
            if g.contains(i) {
                // An isolated seed sees only the rest of its group, which is
                // too small to reach the threshold.
                assert(nb.len() < min_points) by {
                    lemma_neighbors_nodup(dists, eps, v2, i, n);
                    assert forall|k: int| 0 <= k < nb.len() implies g.remove(i).contains(
                        #[trigger] nb[k],
                    ) by {
                        lemma_neighbors_mem(dists, eps, v2, i, n, nb[k]);
                        assert(nb.contains(nb[k]));
                        assert(within_eps(dists, eps, i, nb[k]));
                        if !g.contains(nb[k]) {
                            assert(!within_eps(dists, eps, i, nb[k]));
                        }
                        assert(nb[k] != i) by {
                            assert(!v2.contains(nb[k]));
                        }
                    }
                    nb.unique_seq_to_set();
                    assert(nb.to_set().subset_of(g.remove(i)));
                    vstd::set_lib::lemma_len_subset(nb.to_set(), g.remove(i));
                }
                let st2 = DbscanState { visited: v2, assigned: st.assigned, clusters: st.clusters };
                lemma_dbscan_from_avoids_group(dists, eps, min_points, n, i + 1, st2, next_cid, g);
            } else if nb.len() >= min_points {
                let st2 = DbscanState {
                    visited: v2,
                    assigned: st.assigned.insert(i, next_cid),
                    clusters: st.clusters.push(seq![i]),
                };
                assert(group_untouched(st2, g)) by {
                    assert forall|c: int, x: int|
                        0 <= c < st2.clusters.len() && #[trigger] st2.clusters[c].contains(x)
                            implies st2.assigned.dom().contains(x) by {
                        if c < st.clusters.len() {
                            assert(st.clusters[c].contains(x));
                        } else {
                            assert(st2.clusters[c] == seq![i]);
                            let j = choose|j: int|
                                0 <= j < st2.clusters[c].len() && st2.clusters[c][j] == x;
                            assert(x == i);
                        }
                    }
                }
                assert forall|k: int| 0 <= k < nb.len() implies !g.contains(#[trigger] nb[k]) by {
                    lemma_neighbors_mem(dists, eps, v2, i, n, nb[k]);
                    assert(nb.contains(nb[k]));
                    assert(within_eps(dists, eps, i, nb[k]));
                }
                lemma_neighbors_wf(dists, eps, v2, i, n, n);
                lemma_grow_avoids_group(dists, eps, min_points, n, st2, nb, next_cid, g);
                let st3 = grow_queue(dists, eps, min_points, n, st2, nb, next_cid);
                lemma_grow_queue_wf(dists, eps, min_points, n, st2, nb, next_cid);
                lemma_dbscan_from_avoids_group(
                    dists,
                    eps,
                    min_points,
                    n,
                    i + 1,
                    st3,
                    next_cid + 1,
                    g,
                );
            } else {
                let st2 = DbscanState { visited: v2, assigned: st.assigned, clusters: st.clusters };
                lemma_dbscan_from_avoids_group(dists, eps, min_points, n, i + 1, st2, next_cid, g);
            }
        }
    }
}

/// Density threshold, isolated-group law: a group of fewer than `min_points`
/// points, each within the radius only of other group members, never joins
/// any cluster, whatever else the batch holds.
pub proof fn lemma_isolated_small_group_stays_noise(
    dists: Seq<Seq<i64>>,
    eps: i64,
    min_points: int,
    n: int,
    g: Set<int>,
)
    requires
        0 <= n,
        g.finite(),
        g.len() < min_points,
        forall|x: int| g.contains(x) ==> 0 <= x < n,
        group_isolated(dists, eps, n, g),
    ensures
        ({
            let cs = dbscan_clusters(dists, eps, min_points, n);
            forall|c: int, x: int|
                0 <= c < cs.len() && g.contains(x) ==> !(#[trigger] cs[c].contains(x))
        }),
{
    let init = DbscanState {
        visited: Set::empty(),
        assigned: Map::empty(),
        clusters: Seq::empty(),
    };
    lemma_dbscan_from_avoids_group(dists, eps, min_points, n, 0, init, 0, g);
    let fin = dbscan_from(dists, eps, min_points, n, 0, init, 0);
    let cs = dbscan_clusters(dists, eps, min_points, n);
    assert forall|c: int, x: int|
        0 <= c < cs.len() && g.contains(x) implies !(#[trigger] cs[c].contains(x)) by {
        if cs[c].contains(x) {
            assert(fin.assigned.dom().contains(x));
        }
    }
}

} // verus!
