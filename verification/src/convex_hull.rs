use vstd::prelude::*;

use crate::ualf::UalfData;

verus! {

/// A geographic coordinate pair in microdegrees: latitude and longitude both
/// within the +/-180 degree band.
pub open spec fn pt_ok(p: (i64, i64)) -> bool {
    &&& -180_000_000 <= p.0 <= 180_000_000
    &&& -180_000_000 <= p.1 <= 180_000_000
}

/// Every point of the sequence is a geographic coordinate pair.
pub open spec fn pts_ok(s: Seq<(i64, i64)>) -> bool {
    forall|i: int| 0 <= i < s.len() ==> pt_ok(#[trigger] s[i])
}

/// Product of two coordinate differences, with the overflow argument made
/// once: both factors fit in a billion, so the product fits comfortably.
fn mul_bounded(a: i128, b: i128) -> (r: i128)
    requires
        -1_000_000_000 <= a <= 1_000_000_000,
        -1_000_000_000 <= b <= 1_000_000_000,
    ensures
        r == a * b,
        -1_000_000_000_000_000_000 <= r <= 1_000_000_000_000_000_000,
{
    proof {
        assert(-1_000_000_000_000_000_000 <= a * b <= 1_000_000_000_000_000_000)
            by (nonlinear_arith)
            requires
                -1_000_000_000 <= a <= 1_000_000_000,
                -1_000_000_000 <= b <= 1_000_000_000,
        ;
    }
    a * b
}

/// Signed cross product of the turn `o -> a` then `a -> b`, in the plane with
/// longitude as x and latitude as y: positive for a left (counter-clockwise)
/// turn, negative for a right turn, zero for collinear points.
pub open spec fn cross3(o: (i64, i64), a: (i64, i64), b: (i64, i64)) -> int {
    (a.1 - o.1) * (b.0 - o.0) - (b.1 - o.1) * (a.0 - o.0)
}

/// Squared Euclidean distance from `a` to `b`.
pub open spec fn sq_dist(a: (i64, i64), b: (i64, i64)) -> int {
    (b.0 - a.0) * (b.0 - a.0) + (b.1 - a.1) * (b.1 - a.1)
}

/// Which arc of the circle around `b` the point `p` lies on. All points seen
/// here have latitude at least the anchor's, so the polar angle
/// `atan2(dlat, dlon)` lies in `[0, pi]`: class 0 is angle 0 (due east, or
/// the anchor itself), class 1 the open upper half-plane, class 2 angle pi
/// (due west). Points below the anchor (never produced by the anchor choice)
/// sort last.
pub open spec fn angle_class(b: (i64, i64), p: (i64, i64)) -> int {
    let dlat = p.0 - b.0;
    let dlon = p.1 - b.1;
    if dlat > 0 {
        1
    } else if dlat == 0 {
        if dlon >= 0 {
            0
        } else {
            2
        }
    } else {
        3
    }
}

/// Three-way comparison of `p` and `q` by polar angle around the anchor `b`,
/// ties broken by ascending distance from the anchor: -1 when `p` sorts
/// first, 1 when `q` does, 0 when neither.
pub open spec fn polar_cmp(b: (i64, i64), p: (i64, i64), q: (i64, i64)) -> int {
    let cp = angle_class(b, p);
    let cq = angle_class(b, q);
    if cp != cq {
        if cp < cq {
            -1
        } else {
            1
        }
    } else {
        let cr = cross3(b, p, q);
        if cr > 0 {
            -1
        } else if cr < 0 {
            1
        } else {
            let sp = sq_dist(b, p);
            let sq = sq_dist(b, q);
            if sp < sq {
                -1
            } else if sp > sq {
                1
            } else {
                0
            }
        }
    }
}

/// Index of the point with the lowest latitude among `points[0 .. j]`, the
/// lowest longitude and then the earliest index breaking ties.
pub open spec fn bottom_idx_upto(points: Seq<(i64, i64)>, j: int) -> int
    decreases j,
{
    if j <= 1 {
        0
    } else {
        let b = bottom_idx_upto(points, j - 1);
        if points[j - 1].0 < points[b].0 || (points[j - 1].0 == points[b].0 && points[j - 1].1
            < points[b].1) {
            j - 1
        } else {
            b
        }
    }
}

/// Insert `x` into `s` directly before the longest run of trailing elements
/// that compare after `x`: exactly where a stable insertion sort by
/// `polar_cmp` puts it.
pub open spec fn insert_sorted(b: (i64, i64), x: (i64, i64), s: Seq<(i64, i64)>) -> Seq<(i64, i64)>
    decreases s.len(),
{
    if s.len() == 0 {
        seq![x]
    } else if polar_cmp(b, s.last(), x) == 1 {
        insert_sorted(b, x, s.drop_last()).push(s.last())
    } else {
        s.push(x)
    }
}

/// Stable sort of `s` by polar angle (and distance) around the anchor `b`:
/// each element in turn is inserted into the sorted prefix.
pub open spec fn sort_points(b: (i64, i64), s: Seq<(i64, i64)>) -> Seq<(i64, i64)>
    decreases s.len(),
{
    if s.len() == 0 {
        s
    } else {
        insert_sorted(b, s.last(), sort_points(b, s.drop_last()))
    }
}

/// One Graham-scan step: pop while the last hull edge together with the
/// candidate makes a right turn or is exactly collinear, then push the
/// candidate.
pub open spec fn scan_step(hull: Seq<(i64, i64)>, p: (i64, i64)) -> Seq<(i64, i64)>
    decreases hull.len(),
{
    if hull.len() >= 2 && cross3(hull[hull.len() - 2], hull[hull.len() - 1], p) <= 0 {
        scan_step(hull.drop_last(), p)
    } else {
        hull.push(p)
    }
}

/// The Graham scan over the remaining sorted candidates.
pub open spec fn graham_fold(hull: Seq<(i64, i64)>, rest: Seq<(i64, i64)>) -> Seq<(i64, i64)>
    decreases rest.len(),
{
    if rest.len() == 0 {
        hull
    } else {
        graham_fold(scan_step(hull, rest.first()), rest.drop_first())
    }
}

/// The convex hull boundary of a point sequence: fewer than 3 points come
/// back unchanged; otherwise the anchor (lowest latitude, then lowest
/// longitude) is brought to the front, the rest are sorted by polar angle
/// around it, and a Graham scan keeps only counter-clockwise turns.
pub open spec fn hull_points_of(points: Seq<(i64, i64)>) -> Seq<(i64, i64)> {
    if points.len() < 3 {
        points
    } else {
        let bi = bottom_idx_upto(points, points.len() as int);
        let swapped = points.update(0, points[bi]).update(bi, points[0]);
        let sorted = seq![swapped[0]] + sort_points(swapped[0], swapped.skip(1));
        graham_fold(seq![sorted[0]], sorted.skip(1))
    }
}

/// Inserting at the position the trailing scan found is the stable insertion.
proof fn lemma_insert_at(b: (i64, i64), x: (i64, i64), s: Seq<(i64, i64)>, pos: int)
    requires
        0 <= pos <= s.len(),
        forall|k: int| pos <= k < s.len() ==> polar_cmp(b, #[trigger] s[k], x) == 1,
        pos > 0 ==> polar_cmp(b, s[pos - 1], x) != 1,
    ensures
        insert_sorted(b, x, s) == s.insert(pos, x),
    decreases s.len(),
{
    if pos == s.len() {
        if s.len() == 0 {
            assert(insert_sorted(b, x, s) =~= s.insert(pos, x));
        } else {
            assert(polar_cmp(b, s.last(), x) != 1);
            assert(s.push(x) =~= s.insert(pos, x));
        }
    } else {
        assert(polar_cmp(b, s[s.len() - 1], x) == 1);
        lemma_insert_at(b, x, s.drop_last(), pos);
        assert(s.drop_last().insert(pos, x).push(s.last()) =~= s.insert(pos, x));
    }
}

/// Exact comparison used while sorting: the sign of `polar_cmp`, computed
/// in wide integers so no coordinate magnitude can overflow.
fn polar_cmp_exec(b: (i64, i64), p: (i64, i64), q: (i64, i64)) -> (c: i32)
    requires
        pt_ok(b),
        pt_ok(p),
        pt_ok(q),
    ensures
        c as int == polar_cmp(b, p, q),
{
    let bp_lat: i128 = p.0 as i128 - b.0 as i128;
    let bp_lon: i128 = p.1 as i128 - b.1 as i128;
    let bq_lat: i128 = q.0 as i128 - b.0 as i128;
    let bq_lon: i128 = q.1 as i128 - b.1 as i128;
    let class_p: i32 = if bp_lat > 0 {
        1
    } else if bp_lat == 0 {
        if bp_lon >= 0 {
            0
        } else {
            2
        }
    } else {
        3
    };
    let class_q: i32 = if bq_lat > 0 {
        1
    } else if bq_lat == 0 {
        if bq_lon >= 0 {
            0
        } else {
            2
        }
    } else {
        3
    };
    if class_p != class_q {
        if class_p < class_q {
            return -1;
        } else {
            return 1;
        }
    }
    let cr: i128 = mul_bounded(bp_lon, bq_lat) - mul_bounded(bq_lon, bp_lat);
    if cr > 0 {
        return -1;
    }
    if cr < 0 {
        return 1;
    }
    let sp: i128 = mul_bounded(bp_lat, bp_lat) + mul_bounded(bp_lon, bp_lon);
    let sq: i128 = mul_bounded(bq_lat, bq_lat) + mul_bounded(bq_lon, bq_lon);
    if sp < sq {
        -1
    } else if sp > sq {
        1
    } else {
        0
    }
}

/// Graham scan over coordinate pairs.
pub fn hull_of_coords(points: &Vec<(i64, i64)>) -> (hull: Vec<(i64, i64)>)
    requires
        pts_ok(points@),
    ensures
        hull@ == hull_points_of(points@),
{
    let n = points.len();
    if n < 3 {
        let mut copy: Vec<(i64, i64)> = Vec::new();
        let mut i: usize = 0;
        while i < n
            invariant
                i <= n,
                n == points@.len(),
                copy@ == points@.take(i as int),
            decreases n - i,
        {
            copy.push(points[i]);
            proof {
                assert(points@.take(i + 1) =~= points@.take(i as int).push(points@[i as int]));
            }
            i = i + 1;
        }
        proof {
            assert(points@.take(n as int) =~= points@);
        }
        return copy;
    }

    // Lowest latitude, leftmost on ties, earliest index on exact ties.
    let mut bottom_idx: usize = 0;
    let mut i: usize = 1;
    while i < n
        invariant
            1 <= i <= n,
            n == points@.len(),
            bottom_idx < i,
            bottom_idx as int == bottom_idx_upto(points@, i as int),
        decreases n - i,
    {
        if points[i].0 < points[bottom_idx].0 || (points[i].0 == points[bottom_idx].0
            && points[i].1 < points[bottom_idx].1) {
            bottom_idx = i;
        }
        i = i + 1;
    }

    // Bring the anchor to the front.
    let mut pts: Vec<(i64, i64)> = Vec::new();
    let mut i2: usize = 0;
    while i2 < n
        invariant
            i2 <= n,
            n == points@.len(),
            pts@ == points@.take(i2 as int),
        decreases n - i2,
    {
        pts.push(points[i2]);
        proof {
            assert(points@.take(i2 + 1) =~= points@.take(i2 as int).push(points@[i2 as int]));
        }
        i2 = i2 + 1;
    }
    proof {
        assert(points@.take(n as int) =~= points@);
    }
    let p0 = pts[0];
    let pb = pts[bottom_idx];
    pts[0] = pb;
    pts[bottom_idx] = p0;
    proof {
        assert(pts@ =~= points@.update(0, points@[bottom_idx as int]).update(
            bottom_idx as int,
            points@[0],
        ));
    }
    let bottom = pts[0];
    let ghost swapped = pts@;
    proof {
        assert(pts_ok(swapped));
    }

    // Stable insertion sort of everything after the anchor, by polar angle.
    let mut sorted: Vec<(i64, i64)> = Vec::new();
    sorted.push(bottom);
    let mut i3: usize = 1;
    proof {
        assert(swapped.skip(1).take(0) =~= Seq::<(i64, i64)>::empty());
        assert(sorted@ =~= seq![bottom] + sort_points(bottom, swapped.skip(1).take(0)));
    }
    while i3 < n
        invariant
            1 <= i3 <= n,
            n == pts@.len(),
            pts@ == swapped,
            pts_ok(swapped),
            pt_ok(bottom),
            bottom == swapped[0],
            sorted@.len() == i3,
            pts_ok(sorted@),
            sorted@ == seq![bottom] + sort_points(bottom, swapped.skip(1).take(i3 - 1)),
        decreases n - i3,
    {
        let x = pts[i3];
        let ghost prefix = sort_points(bottom, swapped.skip(1).take(i3 - 1));
        // Find the insertion position, scanning the sorted tail from the end.
        let mut pos: usize = sorted.len();
        let mut found: bool = false;
        while !found && pos > 1
            invariant
                1 <= pos <= sorted@.len(),
                sorted@ == seq![bottom] + prefix,
                pt_ok(bottom),
                pt_ok(x),
                pts_ok(sorted@),
                found ==> (pos < sorted@.len() + 1 && polar_cmp(bottom, sorted@[pos - 1], x) != 1),
                forall|k: int|
                    pos <= k < sorted@.len() ==> polar_cmp(bottom, #[trigger] sorted@[k], x) == 1,
            decreases pos + (if found { 0int } else { 1int }),
        {
            let c = polar_cmp_exec(bottom, sorted[pos - 1], x);
            if c != 1 {
                found = true;
            } else {
                pos = pos - 1;
            }
        }
        proof {
            assert forall|k: int| pos - 1 <= k < prefix.len() implies polar_cmp(
                bottom,
                #[trigger] prefix[k],
                x,
            ) == 1 by {
                assert(prefix[k] == sorted@[k + 1]);
            }
            if pos > 1 {
                assert(polar_cmp(bottom, prefix[pos - 2], x) != 1);
            }
            lemma_insert_at(bottom, x, prefix, pos - 1);
            assert(swapped.skip(1).take(i3 as int).drop_last() =~= swapped.skip(1).take(i3 - 1));
            assert(swapped.skip(1).take(i3 as int).last() == swapped[i3 as int]);
        }
        sorted.insert(pos, x);
        proof {
            assert(sorted@ =~= seq![bottom] + prefix.insert(pos - 1, x));
        }
        i3 = i3 + 1;
    }
    proof {
        assert(swapped.skip(1).take(n - 1) =~= swapped.skip(1));
    }
    let ghost sorted_full = seq![swapped[0]] + sort_points(swapped[0], swapped.skip(1));
    proof {
        assert(sorted@ == sorted_full);
        assert(pts_ok(sorted@));
    }

    // Graham scan.
    let mut hull: Vec<(i64, i64)> = Vec::new();
    hull.push(sorted[0]);
    let ghost target = graham_fold(seq![sorted_full[0]], sorted_full.skip(1));
    let mut i4: usize = 1;
    proof {
        assert(hull@ =~= seq![sorted_full[0]]);
        assert(sorted_full.skip(1) =~= sorted@.skip(1));
    }
    while i4 < n
        invariant
            1 <= i4 <= n,
            n == sorted@.len(),
            sorted@ == sorted_full,
            pts_ok(sorted@),
            hull@.len() >= 1,
            pts_ok(hull@),
            graham_fold(hull@, sorted_full.skip(i4 as int)) == target,
        decreases n - i4,
    {
        let point = sorted[i4];
        proof {
            assert(sorted_full.skip(i4 as int).first() == sorted_full[i4 as int]);
            assert(sorted_full.skip(i4 as int).drop_first() =~= sorted_full.skip(i4 + 1));
        }
        let ghost rest_after = sorted_full.skip(i4 + 1);
        let mut flat: bool = false;
        while !flat && hull.len() >= 2
            invariant
                hull@.len() >= 1,
                pts_ok(hull@),
                pt_ok(point),
                graham_fold(scan_step(hull@, point), rest_after) == target,
                flat ==> (hull@.len() >= 2 && cross3(
                    hull@[hull@.len() - 2],
                    hull@[hull@.len() - 1],
                    point,
                ) > 0),
            decreases hull@.len() + (if flat { 0int } else { 1int }),
        {
            let h = hull.len();
            let p1 = hull[h - 2];
            let p2 = hull[h - 1];
            let e_lon: i128 = p2.1 as i128 - p1.1 as i128;
            let c_lat: i128 = point.0 as i128 - p1.0 as i128;
            let c_lon: i128 = point.1 as i128 - p1.1 as i128;
            let e_lat: i128 = p2.0 as i128 - p1.0 as i128;
            let cross_product: i128 = mul_bounded(e_lon, c_lat) - mul_bounded(c_lon, e_lat);
            proof {
                assert(cross_product == cross3(p1, p2, point));
            }
            if cross_product <= 0 {
                let ghost before = hull@;
                hull.pop();
                proof {
                    assert(hull@ =~= before.drop_last());
                }
            } else {
                flat = true;
            }
        }
        hull.push(point);
        proof {
            assert(hull@ =~= scan_step(hull@.drop_last(), point));
        }
        i4 = i4 + 1;
    }
    proof {
        assert(sorted_full.skip(n as int) =~= Seq::<(i64, i64)>::empty());
    }
    hull
}

/// The convex hull of a batch of strikes, as (latitude, longitude)
/// microdegree pairs: all four vertices of a rectangle survive, interior
/// points are dropped, and fewer than 3 points come back unchanged.
pub fn compute_convex_hull(points: Vec<UalfData>) -> (hull: Vec<(i64, i64)>)
    requires
        forall|i: int|
            0 <= i < points@.len() ==> -90_000_000 <= (#[trigger] points@[i]).latitude
                <= 90_000_000 && -180_000_000 <= points@[i].longitude <= 180_000_000,
    ensures
        hull@ == hull_points_of(points@.map_values(|p: UalfData| (p.latitude, p.longitude))),
{
    let mut coords: Vec<(i64, i64)> = Vec::new();
    let mut i: usize = 0;
    while i < points.len()
        invariant
            i <= points@.len(),
            forall|j: int|
                0 <= j < points@.len() ==> -90_000_000 <= (#[trigger] points@[j]).latitude
                    <= 90_000_000 && -180_000_000 <= points@[j].longitude <= 180_000_000,
            coords@ == points@.take(i as int).map_values(|p: UalfData| (p.latitude, p.longitude)),
            pts_ok(coords@),
        decreases points@.len() - i,
    {
        coords.push((points[i].latitude, points[i].longitude));
        proof {
            assert(points@.take(i + 1).map_values(|p: UalfData| (p.latitude, p.longitude))
                =~= points@.take(i as int).map_values(|p: UalfData| (p.latitude, p.longitude)).push(
                (points@[i as int].latitude, points@[i as int].longitude),
            ));
        }
        i = i + 1;
    }
    proof {
        assert(points@.take(points@.len() as int) =~= points@);
    }
    hull_of_coords(&coords)
}


/// Every three consecutive vertices make a strictly counter-clockwise turn.
pub open spec fn ccw_triples(s: Seq<(i64, i64)>) -> bool {
    forall|i: int| 0 <= i < s.len() - 2 ==> cross3(#[trigger] s[i], s[i + 1], s[i + 2]) > 0
}

/// A scan step keeps the chain nonempty, keeps its first vertex, and keeps
/// every consecutive turn strictly counter-clockwise.
#[verifier::rlimit(100)]
proof fn lemma_scan_step_shape(hull: Seq<(i64, i64)>, p: (i64, i64))
    requires
        hull.len() >= 1,
        ccw_triples(hull),
    ensures
        scan_step(hull, p).len() >= 1,
        scan_step(hull, p)[0] == hull[0],
        ccw_triples(scan_step(hull, p)),
    decreases hull.len(),
{
    if hull.len() >= 2 && cross3(hull[hull.len() - 2], hull[hull.len() - 1], p) <= 0 {
        assert(ccw_triples(hull.drop_last())) by {
            assert forall|i: int| 0 <= i < hull.drop_last().len() - 2 implies cross3(
                #[trigger] hull.drop_last()[i],
                hull.drop_last()[i + 1],
                hull.drop_last()[i + 2],
            ) > 0 by {
                assert(cross3(hull[i], hull[i + 1], hull[i + 2]) > 0);
            }
        }
        lemma_scan_step_shape(hull.drop_last(), p);
    } else {
        let r = hull.push(p);
        assert forall|i: int| 0 <= i < r.len() - 2 implies cross3(
            #[trigger] r[i],
            r[i + 1],
            r[i + 2],
        ) > 0 by {
            if i < hull.len() - 2 {
                assert(cross3(hull[i], hull[i + 1], hull[i + 2]) > 0);
            }
        }
    }
}

/// The whole scan keeps the anchor first and the winding counter-clockwise.
proof fn lemma_graham_fold_shape(hull: Seq<(i64, i64)>, rest: Seq<(i64, i64)>)
    requires
        hull.len() >= 1,
        ccw_triples(hull),
    ensures
        graham_fold(hull, rest).len() >= 1,
        graham_fold(hull, rest)[0] == hull[0],
        ccw_triples(graham_fold(hull, rest)),
    decreases rest.len(),
{
    if rest.len() > 0 {
        lemma_scan_step_shape(hull, rest.first());
        lemma_graham_fold_shape(scan_step(hull, rest.first()), rest.drop_first());
    }
}

/// The anchor choice: the earliest point with the lowest latitude, lowest
/// longitude on ties, is a lexicographic minimum of the prefix.
pub proof fn lemma_bottom_min(points: Seq<(i64, i64)>, j: int)
    requires
        1 <= j <= points.len(),
    ensures
        0 <= bottom_idx_upto(points, j) < j,
        forall|k: int|
            0 <= k < j ==> {
                let b = points[bottom_idx_upto(points, j)];
                b.0 < (#[trigger] points[k]).0 || (b.0 == points[k].0 && b.1 <= points[k].1)
            },
    decreases j,
{
    if j > 1 {
        lemma_bottom_min(points, j - 1);
    }
}

/// Hull winding law: with three or more input points, the hull is not empty,
/// it starts at the anchor (the point `lemma_bottom_min` shows to have the
/// lowest latitude, lowest longitude on ties), and every three consecutive
/// hull vertices turn strictly counter-clockwise, so collinear points never
/// survive on the boundary.
#[verifier::rlimit(100)]
pub proof fn lemma_hull_shape(points: Seq<(i64, i64)>)
    requires
        points.len() >= 3,
    ensures
        hull_points_of(points).len() >= 1,
        hull_points_of(points)[0] == points[bottom_idx_upto(points, points.len() as int)],
        ccw_triples(hull_points_of(points)),
{
    let n = points.len() as int;
    let bi = bottom_idx_upto(points, n);
    lemma_bottom_min(points, n);
    let swapped = points.update(0, points[bi]).update(bi, points[0]);
    let sorted = seq![swapped[0]] + sort_points(swapped[0], swapped.skip(1));
    lemma_graham_fold_shape(seq![sorted[0]], sorted.skip(1));
    assert(hull_points_of(points) == graham_fold(seq![sorted[0]], sorted.skip(1)));
    assert(sorted[0] == swapped[0]);
    assert(swapped[0] == points[bi]);
}


/// Insertion adds only the inserted point.
proof fn lemma_insert_sorted_elems(b: (i64, i64), x0: (i64, i64), s: Seq<(i64, i64)>, x: (i64, i64))
    requires
        insert_sorted(b, x0, s).contains(x),
    ensures
        s.contains(x) || x == x0,
    decreases s.len(),
{
    let r = insert_sorted(b, x0, s);
    if s.len() == 0 {
        let i = choose|i: int| 0 <= i < r.len() && r[i] == x;
        assert(x == x0);
    } else if polar_cmp(b, s.last(), x0) == 1 {
        let inner = insert_sorted(b, x0, s.drop_last());
        assert(r == inner.push(s.last()));
        let i = choose|i: int| 0 <= i < r.len() && r[i] == x;
        if i < inner.len() {
            assert(inner[i] == x);
            assert(inner.contains(x));
            lemma_insert_sorted_elems(b, x0, s.drop_last(), x);
            if s.drop_last().contains(x) {
                let j = choose|j: int| 0 <= j < s.drop_last().len() && s.drop_last()[j] == x;
                assert(s[j] == x);
            }
        } else {
            assert(x == s.last());
            assert(s[s.len() - 1] == x);
        }
    } else {
        assert(r == s.push(x0));
        let i = choose|i: int| 0 <= i < r.len() && r[i] == x;
        if i < s.len() {
            assert(s[i] == x);
        } else {
            assert(x == x0);
        }
    }
}

/// Sorting only rearranges.
proof fn lemma_sort_points_elems(b: (i64, i64), s: Seq<(i64, i64)>, x: (i64, i64))
    requires
        sort_points(b, s).contains(x),
    ensures
        s.contains(x),
    decreases s.len(),
{
    if s.len() > 0 {
        lemma_insert_sorted_elems(b, s.last(), sort_points(b, s.drop_last()), x);
        if x == s.last() {
            assert(s[s.len() - 1] == x);
        } else {
            lemma_sort_points_elems(b, s.drop_last(), x);
            let j = choose|j: int| 0 <= j < s.drop_last().len() && s.drop_last()[j] == x;
            assert(s[j] == x);
        }
    }
}

/// A scan step adds only the candidate.
proof fn lemma_scan_step_elems(hull: Seq<(i64, i64)>, p: (i64, i64), x: (i64, i64))
    requires
        scan_step(hull, p).contains(x),
    ensures
        hull.contains(x) || x == p,
    decreases hull.len(),
{
    if hull.len() >= 2 && cross3(hull[hull.len() - 2], hull[hull.len() - 1], p) <= 0 {
        lemma_scan_step_elems(hull.drop_last(), p, x);
        if hull.drop_last().contains(x) {
            let j = choose|j: int| 0 <= j < hull.drop_last().len() && hull.drop_last()[j] == x;
            assert(hull[j] == x);
        }
    } else {
        let r = hull.push(p);
        let i = choose|i: int| 0 <= i < r.len() && r[i] == x;
        if i < hull.len() {
            assert(hull[i] == x);
        }
    }
}

/// The scan emits only chain or candidate points.
proof fn lemma_graham_fold_elems(hull: Seq<(i64, i64)>, rest: Seq<(i64, i64)>, x: (i64, i64))
    requires
        graham_fold(hull, rest).contains(x),
    ensures
        hull.contains(x) || rest.contains(x),
    decreases rest.len(),
{
    if rest.len() > 0 {
        lemma_graham_fold_elems(scan_step(hull, rest.first()), rest.drop_first(), x);
        if scan_step(hull, rest.first()).contains(x) {
            lemma_scan_step_elems(hull, rest.first(), x);
            if x == rest.first() {
                assert(rest[0] == x);
            }
        } else {
            let j = choose|j: int|
                0 <= j < rest.drop_first().len() && rest.drop_first()[j] == x;
            assert(rest[j + 1] == x);
        }
    }
}

/// Hull membership law: every vertex of the hull is one of the input points;
/// the boundary is never invented.
pub proof fn lemma_hull_vertices_from_input(points: Seq<(i64, i64)>, x: (i64, i64))
    requires
        hull_points_of(points).contains(x),
    ensures
        points.contains(x),
{
    if points.len() < 3 {
    } else {
        let n = points.len() as int;
        let bi = bottom_idx_upto(points, n);
        lemma_bottom_min(points, n);
        let swapped = points.update(0, points[bi]).update(bi, points[0]);
        let sorted = seq![swapped[0]] + sort_points(swapped[0], swapped.skip(1));
        lemma_graham_fold_elems(seq![sorted[0]], sorted.skip(1), x);
        assert(swapped.len() == points.len());
        assert forall|y: (i64, i64)| swapped.contains(y) implies points.contains(y) by {
            let j = choose|j: int| 0 <= j < swapped.len() && swapped[j] == y;
            if j == 0 {
                assert(points[bi] == y);
            } else if j == bi {
                assert(points[0] == y);
            } else {
                assert(points[j] == y);
            }
        }
        if seq![sorted[0]].contains(x) {
            assert(x == sorted[0]);
            assert(swapped[0] == x);
            assert(swapped.contains(x));
        } else {
            assert(sorted.skip(1).contains(x));
            let j = choose|j: int| 0 <= j < sorted.skip(1).len() && sorted.skip(1)[j] == x;
            assert(sorted[j + 1] == x);
            assert(sort_points(swapped[0], swapped.skip(1))[j] == x);
            assert(sort_points(swapped[0], swapped.skip(1)).contains(x));
            lemma_sort_points_elems(swapped[0], swapped.skip(1), x);
            let k = choose|k: int| 0 <= k < swapped.skip(1).len() && swapped.skip(1)[k] == x;
            assert(swapped[k + 1] == x);
            assert(swapped.contains(x));
        }
    }
}


} // verus!
