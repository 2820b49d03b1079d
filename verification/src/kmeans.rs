//! Lloyd's k-means clustering over 2D points with exact arithmetic.
//!
//! The driver picks k starting centroids at random from the dataset, then
//! repeats: assign every point to its nearest centroid (lowest index wins
//! ties), recompute each centroid as the exact mean of its cluster, and
//! stop as soon as every new centroid value already occurs among the
//! current ones. The reported centroid set is the current one, not the
//! freshly computed candidate: convergence is detected with the old set
//! still authoritative.

use vstd::prelude::*;
use crate::centroid::{Centroid, eq_val, strictly_closer};
use crate::point::{Point, COORD_LIMIT, MAX_POINTS};
use rand::Rng;

verus! {

/// How a run can fail: `InvalidClusterCount` when k is zero or larger than
/// the dataset, `EmptyCluster` when some cluster receives no members during
/// aggregation (an explicit error instead of an undefined mean), and
/// `NonTerminating` when the loop reaches its safety bound without the
/// centroid set ever repeating.
#[derive(Clone, Copy, Debug, PartialEq, Eq, Structural)]
pub enum KmeansError {
    InvalidClusterCount,
    EmptyCluster,
    NonTerminating,
}

/// Safety bound on the number of refinement iterations.
pub const ITER_LIMIT: u32 = 0xffff_ffff;

/// Every point of the sequence is coordinate-bounded.
pub open spec fn all_bounded(ps: Seq<Point>) -> bool {
    forall|i: int| 0 <= i < ps.len() ==> ps[i].bounded()
}

/// Every centroid of the sequence is well formed.
pub open spec fn all_wf(cs: Seq<Centroid>) -> bool {
    forall|i: int| 0 <= i < cs.len() ==> cs[i].wf()
}

/// Index of the centroid among `cs[0..n]` nearest to `p`, the lowest index
/// winning ties: a later index displaces the running minimum only when it
/// is strictly closer.
pub open spec fn nearest_upto(cs: Seq<Centroid>, p: Point, n: int) -> int
    decreases n,
{
    if n <= 1 {
        0
    } else {
        let m = nearest_upto(cs, p, n - 1);
        if strictly_closer(p, cs[n - 1], cs[m]) {
            n - 1
        } else {
            m
        }
    }
}

/// Index of the centroid of `cs` nearest to `p`, the lowest index winning
/// ties.
pub open spec fn nearest(cs: Seq<Centroid>, p: Point) -> int {
    nearest_upto(cs, p, cs.len() as int)
}

/// The assignment vector that one assignment pass over `ps` produces.
pub open spec fn assignment_of(cs: Seq<Centroid>, ps: Seq<Point>) -> Seq<usize> {
    Seq::new(ps.len(), |i: int| nearest(cs, ps[i]) as usize)
}

/// Sum of the x coordinates of the points assigned to cluster `c`.
pub open spec fn cluster_sum_x(ps: Seq<Point>, asn: Seq<usize>, c: int) -> int
    decreases ps.len(),
{
    if ps.len() == 0 {
        0
    } else {
        cluster_sum_x(ps.drop_last(), asn.drop_last(), c)
            + if asn.last() as int == c { ps.last().x as int } else { 0 }
    }
}

/// Sum of the y coordinates of the points assigned to cluster `c`.
pub open spec fn cluster_sum_y(ps: Seq<Point>, asn: Seq<usize>, c: int) -> int
    decreases ps.len(),
{
    if ps.len() == 0 {
        0
    } else {
        cluster_sum_y(ps.drop_last(), asn.drop_last(), c)
            + if asn.last() as int == c { ps.last().y as int } else { 0 }
    }
}

/// How many points are assigned to cluster `c`.
pub open spec fn cluster_count(ps: Seq<Point>, asn: Seq<usize>, c: int) -> int
    decreases ps.len(),
{
    if ps.len() == 0 {
        0
    } else {
        cluster_count(ps.drop_last(), asn.drop_last(), c)
            + if asn.last() as int == c { 1int } else { 0int }
    }
}

/// The centroid set that one aggregation pass produces: for each cluster,
/// the exact mean of its members, kept as sums and a member count.
pub open spec fn next_centroids(k: int, ps: Seq<Point>, asn: Seq<usize>) -> Seq<Centroid> {
    Seq::new(
        k as nat,
        |c: int| (Centroid {
            sum_x: cluster_sum_x(ps, asn, c) as i64,
            sum_y: cluster_sum_y(ps, asn, c) as i64,
            count: cluster_count(ps, asn, c) as usize,
        }),
    )
}

/// Some centroid of `sup` has the same value as `c`.
pub open spec fn has_match(c: Centroid, sup: Seq<Centroid>) -> bool {
    exists|i: int| 0 <= i < sup.len() && eq_val(c, sup[i])
}

/// Every centroid value of `sub` occurs somewhere in `sup`; the
/// order-independent containment test that decides convergence.
pub open spec fn contained_in(sub: Seq<Centroid>, sup: Seq<Centroid>) -> bool {
    forall|j: int| 0 <= j < sub.len() ==> has_match(sub[j], sup)
}

/// `r` was drawn from `ps` at the pairwise-distinct positions `sel`, each
/// drawn point becoming a one-member centroid.
pub open spec fn selection_of(r: Seq<Centroid>, ps: Seq<Point>, sel: Seq<usize>) -> bool {
    &&& sel.len() == r.len()
    &&& forall|i: int| 0 <= i < sel.len() ==> sel[i] < ps.len()
    &&& forall|i: int, j: int| 0 <= i < j < sel.len() ==> sel[i] != sel[j]
    &&& forall|i: int|
        0 <= i < r.len() ==> r[i] == (Centroid {
            sum_x: ps[sel[i] as int].x,
            sum_y: ps[sel[i] as int].y,
            count: 1,
        })
}

/// Relies on rand::thread_rng and rand::Rng::gen_range: a uniformly random
/// value drawn from the non-empty range `0..n` is strictly below `n`.
#[verifier::external_body]
fn random_below(n: usize) -> (r: usize)
    requires
        n >= 1,
    ensures
        r < n,
{
    rand::thread_rng().gen_range(0..n)
}

/// `k` pairwise-distinct positions below `n`, drawn uniformly at random
/// without replacement (a partial Fisher-Yates shuffle of `0..n`).
pub fn select_k_distinct_indices(n: usize, k: usize) -> (r: Vec<usize>)
    requires
        1 <= k <= n,
    ensures
        r@.len() == k,
        forall|i: int| 0 <= i < k ==> r@[i] < n,
        forall|i: int, j: int| 0 <= i < j < k ==> r@[i] != r@[j],
{
    let mut idx: Vec<usize> = Vec::new();
    let mut t: usize = 0;
    while t < n
        invariant
            t <= n,
            idx@.len() == t,
            forall|a: int| 0 <= a < t ==> idx@[a] == a,
        decreases n - t,
    {
        idx.push(t);
        t = t + 1;
    }
    let mut i: usize = 0;
    while i < k
        invariant
            i <= k,
            k <= n,
            idx@.len() == n,
            forall|a: int| 0 <= a < n ==> idx@[a] < n,
            forall|a: int, b: int| 0 <= a < b < n ==> idx@[a] != idx@[b],
        decreases k - i,
    {
        let j = i + random_below(n - i);
        let vi = idx[i];
        let vj = idx[j];
        idx[i] = vj;
        idx[j] = vi;
        i = i + 1;
    }
    idx.truncate(k);
    idx
}

/// The starting centroid set: `k` points of the dataset, drawn at random
/// at pairwise-distinct positions, each as a one-member centroid. Two
/// distinct positions may hold equal coordinates, so two starting
/// centroids may carry the same value.
pub fn get_k_random_points(points: &Vec<Point>, k: usize) -> (r: Vec<Centroid>)
    requires
        1 <= k <= points@.len(),
        all_bounded(points@),
    ensures
        r@.len() == k,
        all_wf(r@),
        exists|sel: Seq<usize>| selection_of(r@, points@, sel),
{
    let sel = select_k_distinct_indices(points.len(), k);
    let mut r: Vec<Centroid> = Vec::new();
    let mut i: usize = 0;
    while i < k
        invariant
            i <= k,
            k <= points@.len(),
            all_bounded(points@),
            sel@.len() == k,
            forall|a: int| 0 <= a < k ==> sel@[a] < points@.len(),
            forall|a: int, b: int| 0 <= a < b < k ==> sel@[a] != sel@[b],
            r@.len() == i,
            forall|a: int|
                0 <= a < i ==> r@[a] == (Centroid {
                    sum_x: points@[sel@[a] as int].x,
                    sum_y: points@[sel@[a] as int].y,
                    count: 1,
                }),
        decreases k - i,
    {
        let p = points[sel[i]];
        r.push(Centroid::from_point(&p));
        i = i + 1;
    }
    proof {
        assert(selection_of(r@, points@, sel@));
        assert forall|a: int| 0 <= a < r@.len() implies r@[a].wf() by {
            assert(points@[sel@[a] as int].bounded());
        }
    }
    r
}

/// Index of the centroid nearest to `point`, by exact Euclidean distance;
/// the lowest index wins ties.
pub fn get_k_close_centroid(point: &Point, centroids: &Vec<Centroid>) -> (r: usize)
    requires
        point.bounded(),
        centroids@.len() >= 1,
        all_wf(centroids@),
    ensures
        r < centroids@.len(),
        r as int == nearest(centroids@, *point),
{
    let mut min: usize = 0;
    let mut i: usize = 1;
    while i < centroids.len()
        invariant
            point.bounded(),
            all_wf(centroids@),
            1 <= i <= centroids@.len(),
            min < i,
            min as int == nearest_upto(centroids@, *point, i as int),
        decreases centroids@.len() - i,
    {
        if crate::centroid::is_strictly_closer(point, &centroids[i], &centroids[min]) {
            min = i;
        }
        i = i + 1;
    }
    min
}

/// Overwrites the assignment vector: entry `i` becomes the index of the
/// centroid nearest to point `i`, the lowest index winning ties.
pub fn assign_clusters(
    centroids: &Vec<Centroid>,
    points: &Vec<Point>,
    assigned_cluster: &mut Vec<usize>,
)
    requires
        centroids@.len() >= 1,
        all_wf(centroids@),
        all_bounded(points@),
        old(assigned_cluster)@.len() == points@.len(),
    ensures
        final(assigned_cluster)@ == assignment_of(centroids@, points@),
        forall|i: int|
            0 <= i < points@.len() ==> final(assigned_cluster)@[i] < centroids@.len(),
{
    let n = points.len();
    let mut i: usize = 0;
    while i < n
        invariant
            n == points@.len(),
            i <= n,
            centroids@.len() >= 1,
            all_wf(centroids@),
            all_bounded(points@),
            assigned_cluster@.len() == n,
            forall|j: int| 0 <= j < i ==> assigned_cluster@[j] as int == nearest(centroids@, points@[j]),
            forall|j: int| 0 <= j < i ==> assigned_cluster@[j] < centroids@.len(),
        decreases n - i,
    {
        let c = get_k_close_centroid(&points[i], centroids);
        assigned_cluster[i] = c;
        i = i + 1;
    }
    proof {
        assert(assigned_cluster@ =~= assignment_of(centroids@, points@));
    }
}

/// True iff every value of `new_centroids` already occurs (by exact value
/// equality) somewhere in `current_centroids`; the containment is
/// order-independent and ignores indices.
pub fn converged(current_centroids: &Vec<Centroid>, new_centroids: &Vec<Centroid>) -> (r: bool)
    ensures
        r == contained_in(new_centroids@, current_centroids@),
{
    let n = new_centroids.len();
    let mut j: usize = 0;
    while j < n
        invariant
            n == new_centroids@.len(),
            j <= n,
            forall|j2: int| 0 <= j2 < j ==> has_match(new_centroids@[j2], current_centroids@),
        decreases n - j,
    {
        let mut found = false;
        let mut i: usize = 0;
        while i < current_centroids.len()
            invariant
                i <= current_centroids@.len(),
                j < new_centroids@.len(),
                found ==> has_match(new_centroids@[j as int], current_centroids@),
                !found ==> forall|i2: int|
                    0 <= i2 < i ==> !eq_val(new_centroids@[j as int], current_centroids@[i2]),
            decreases current_centroids@.len() - i,
        {
            if new_centroids[j].same_value(&current_centroids[i]) {
                found = true;
            }
            i = i + 1;
        }
        if !found {
            assert(!has_match(new_centroids@[j as int], current_centroids@));
            return false;
        }
        j = j + 1;
    }
    true
}

/// The new centroid set: for each cluster index below `k`, the exact mean
/// of the points assigned to it, kept as coordinate sums and a member
/// count. A cluster that received no members has no mean: the whole pass
/// reports `EmptyCluster` instead of producing an undefined value.
pub fn compute_new_centroids(
    k: usize,
    points: &Vec<Point>,
    assigned_cluster: &Vec<usize>,
) -> (r: Result<Vec<Centroid>, KmeansError>)
    requires
        1 <= k,
        points@.len() <= MAX_POINTS,
        all_bounded(points@),
        assigned_cluster@.len() == points@.len(),
        forall|i: int| 0 <= i < points@.len() ==> assigned_cluster@[i] < k,
    ensures
        (r is Ok) <==> (forall|c: int|
            0 <= c < k ==> cluster_count(points@, assigned_cluster@, c) >= 1),
        r matches Ok(ncs) ==> ncs@ == next_centroids(k as int, points@, assigned_cluster@),
        r matches Ok(ncs) ==> ncs@.len() == k && all_wf(ncs@),
        r matches Err(e) ==> e == KmeansError::EmptyCluster,
{
    let n = points.len();
    let ghost ps = points@;
    let ghost asn = assigned_cluster@;
    let mut sx: Vec<i64> = Vec::new();
    let mut sy: Vec<i64> = Vec::new();
    let mut cnt: Vec<usize> = Vec::new();
    let mut t: usize = 0;
    while t < k
        invariant
            t <= k,
            sx@.len() == t,
            sy@.len() == t,
            cnt@.len() == t,
            forall|c: int| 0 <= c < t ==> sx@[c] == 0 && sy@[c] == 0 && cnt@[c] == 0,
        decreases k - t,
    {
        sx.push(0);
        sy.push(0);
        cnt.push(0);
        t = t + 1;
    }
    let mut i: usize = 0;
    proof {
        assert(ps.take(0) =~= Seq::<Point>::empty());
        assert(asn.take(0) =~= Seq::<usize>::empty());
    }
    while i < n
        invariant
            i <= n,
            n == ps.len(),
            points@ == ps,
            assigned_cluster@ == asn,
            n <= MAX_POINTS,
            all_bounded(ps),
            asn.len() == n,
            forall|j: int| 0 <= j < n ==> asn[j] < k,
            sx@.len() == k,
            sy@.len() == k,
            cnt@.len() == k,
            forall|c: int| 0 <= c < k ==> cnt@[c] as int == cluster_count(ps.take(i as int), asn.take(i as int), c),
            forall|c: int| 0 <= c < k ==> sx@[c] as int == cluster_sum_x(ps.take(i as int), asn.take(i as int), c),
            forall|c: int| 0 <= c < k ==> sy@[c] as int == cluster_sum_y(ps.take(i as int), asn.take(i as int), c),
            forall|c: int| 0 <= c < k ==> cnt@[c] <= i,
            forall|c: int|
                0 <= c < k ==> -(cnt@[c] * COORD_LIMIT) <= #[trigger] sx@[c] <= cnt@[c] * COORD_LIMIT,
            forall|c: int|
                0 <= c < k ==> -(cnt@[c] * COORD_LIMIT) <= #[trigger] sy@[c] <= cnt@[c] * COORD_LIMIT,
        decreases n - i,
    {
        let c = assigned_cluster[i];
        let p = points[i];
        proof {
            assert(ps[i as int].bounded());
            assert(ps.take(i + 1).drop_last() =~= ps.take(i as int));
            assert(asn.take(i + 1).drop_last() =~= asn.take(i as int));
        }
        sx[c] = sx[c] + p.x;
        sy[c] = sy[c] + p.y;
        cnt[c] = cnt[c] + 1;
        i = i + 1;
    }
    proof {
        assert(ps.take(n as int) =~= ps);
        assert(asn.take(n as int) =~= asn);
    }
    let mut out: Vec<Centroid> = Vec::new();
    let mut c: usize = 0;
    while c < k
        invariant
            c <= k,
            ps == points@,
            asn == assigned_cluster@,
            ps.len() <= MAX_POINTS,
            sx@.len() == k,
            sy@.len() == k,
            cnt@.len() == k,
            forall|d: int| 0 <= d < k ==> cnt@[d] as int == cluster_count(ps, asn, d),
            forall|d: int| 0 <= d < k ==> sx@[d] as int == cluster_sum_x(ps, asn, d),
            forall|d: int| 0 <= d < k ==> sy@[d] as int == cluster_sum_y(ps, asn, d),
            forall|d: int| 0 <= d < k ==> cnt@[d] <= ps.len(),
            forall|d: int|
                0 <= d < k ==> -(cnt@[d] * COORD_LIMIT) <= #[trigger] sx@[d] <= cnt@[d] * COORD_LIMIT,
            forall|d: int|
                0 <= d < k ==> -(cnt@[d] * COORD_LIMIT) <= #[trigger] sy@[d] <= cnt@[d] * COORD_LIMIT,
            out@.len() == c,
            forall|d: int| 0 <= d < c ==> out@[d] == next_centroids(k as int, ps, asn)[d],
            forall|d: int| 0 <= d < c ==> cluster_count(ps, asn, d) >= 1,
            forall|d: int| 0 <= d < c ==> out@[d].wf(),
        decreases k - c,
    {
        if cnt[c] == 0 {
            assert(cluster_count(ps, asn, c as int) == 0);
            return Err(KmeansError::EmptyCluster);
        }
        out.push(Centroid { sum_x: sx[c], sum_y: sy[c], count: cnt[c] });
        c = c + 1;
    }
    proof {
        assert(out@ =~= next_centroids(k as int, ps, asn));
    }
    Ok(out)
}

/// With a single centroid, every point is assigned to cluster 0, whatever
/// value that centroid carries — so any two singleton centroid sets
/// produce the same assignment vector.
proof fn lemma_singleton_assignment(cs1: Seq<Centroid>, cs2: Seq<Centroid>, ps: Seq<Point>)
    requires
        cs1.len() == 1,
        cs2.len() == 1,
    ensures
        assignment_of(cs1, ps) == assignment_of(cs2, ps),
        forall|i: int| 0 <= i < ps.len() ==> assignment_of(cs1, ps)[i] == 0,
{
    assert forall|i: int|
        0 <= i < ps.len() implies #[trigger] assignment_of(cs1, ps)[i] == 0 && assignment_of(
        cs2,
        ps,
    )[i] == 0 by {
        assert(nearest(cs1, ps[i]) == 0);
        assert(nearest(cs2, ps[i]) == 0);
    }
    assert(assignment_of(cs1, ps) =~= assignment_of(cs2, ps));
}

/// When every point is assigned to cluster 0, that cluster holds them all.
proof fn lemma_cluster_count_all_zero(ps: Seq<Point>, asn: Seq<usize>)
    requires
        asn.len() == ps.len(),
        forall|i: int| 0 <= i < asn.len() ==> asn[i] == 0,
    ensures
        cluster_count(ps, asn, 0) == ps.len(),
    decreases ps.len(),
{
    if ps.len() > 0 {
        lemma_cluster_count_all_zero(ps.drop_last(), asn.drop_last());
    }
}

/// Runs Lloyd's algorithm: draws `k` random starting centroids, then
/// repeats assignment and aggregation until the candidate centroid set is
/// contained in the current one, and returns the iteration count together
/// with the current (pre-candidate) centroid set. Fails with
/// `InvalidClusterCount` exactly when `k` is zero or exceeds the dataset,
/// with `EmptyCluster` when some cluster receives no members, and with
/// `NonTerminating` when `ITER_LIMIT` refinement steps never repeat a
/// centroid set. With `k == 1` neither failure can happen, whatever point
/// the initializer draws: the single cluster holds every point, and the
/// mean of all points reproduces itself on the next pass.
pub fn kmeans(points: Vec<Point>, k: usize) -> (r: Result<(u32, Vec<Centroid>), KmeansError>)
    requires
        points@.len() <= MAX_POINTS,
        all_bounded(points@),
    ensures
        (r matches Err(KmeansError::InvalidClusterCount)) <==> (k == 0 || k > points@.len()),
        k == 1 && points@.len() >= 1 ==> r is Ok,
        r matches Ok(res) ==> res.1@.len() == k && all_wf(res.1@),
        r matches Ok(res) ==> forall|c: int|
            0 <= c < k ==> cluster_count(points@, assignment_of(res.1@, points@), c) >= 1,
        r matches Ok(res) ==> contained_in(
            next_centroids(k as int, points@, assignment_of(res.1@, points@)),
            res.1@,
        ),
{
    if k == 0 || k > points.len() {
        return Err(KmeansError::InvalidClusterCount);
    }
    let mut current_centroids: Vec<Centroid> = get_k_random_points(&points, k);
    let mut assigned_cluster: Vec<usize> = vec![0usize; points.len()];
    let mut iterations: u32 = 0;
    loop
        invariant
            1 <= k <= points@.len(),
            points@.len() <= MAX_POINTS,
            all_bounded(points@),
            current_centroids@.len() == k,
            all_wf(current_centroids@),
            assigned_cluster@.len() == points@.len(),
            iterations <= ITER_LIMIT,
            k == 1 && iterations >= 1 ==> current_centroids@ == next_centroids(
                k as int,
                points@,
                assignment_of(current_centroids@, points@),
            ),
        decreases ITER_LIMIT - iterations,
    {
        assign_clusters(&current_centroids, &points, &mut assigned_cluster);
        proof {
            if k == 1 {
                lemma_singleton_assignment(current_centroids@, current_centroids@, points@);
                lemma_cluster_count_all_zero(points@, assigned_cluster@);
            }
        }
        let new_centroids = match compute_new_centroids(k, &points, &assigned_cluster) {
            Ok(v) => v,
            Err(e) => {
                assert(k != 1);
                return Err(e);
            },
        };
        if converged(&current_centroids, &new_centroids) {
            return Ok((iterations, current_centroids));
        }
        proof {
            if k == 1 && iterations >= 1 {
                assert(new_centroids@ == current_centroids@);
                assert forall|j: int| 0 <= j < new_centroids@.len() implies has_match(
                    new_centroids@[j],
                    current_centroids@,
                ) by {
                    assert(eq_val(new_centroids@[j], current_centroids@[j]));
                }
                assert(contained_in(new_centroids@, current_centroids@));
                assert(false);
            }
        }
        if iterations == ITER_LIMIT {
            assert(k != 1);
            return Err(KmeansError::NonTerminating);
        }
        let ghost previous = current_centroids@;
        current_centroids = new_centroids;
        iterations = iterations + 1;
        proof {
            if k == 1 {
                lemma_singleton_assignment(current_centroids@, previous, points@);
            }
        }
    }
}

/// Every centroid of the sequence has at least one member.
pub open spec fn all_positive(cs: Seq<Centroid>) -> bool {
    forall|i: int| 0 <= i < cs.len() ==> cs[i].count > 0
}

proof fn lemma_nearest_upto_props(cs: Seq<Centroid>, p: Point, n: int)
    requires
        1 <= n <= cs.len(),
        all_positive(cs),
    ensures
        0 <= nearest_upto(cs, p, n) < n,
        forall|j: int| 0 <= j < n ==> !strictly_closer(p, cs[j], cs[nearest_upto(cs, p, n)]),
        forall|j: int|
            0 <= j < nearest_upto(cs, p, n) ==> strictly_closer(p, cs[nearest_upto(cs, p, n)], cs[j]),
    decreases n,
{
    if n == 1 {
    } else {
        lemma_nearest_upto_props(cs, p, n - 1);
        let m = nearest_upto(cs, p, n - 1);
        if strictly_closer(p, cs[n - 1], cs[m]) {
            assert forall|j: int| 0 <= j < n - 1 implies #[trigger] strictly_closer(
                p,
                cs[n - 1],
                cs[j],
            ) by {
                crate::centroid::lemma_closer_trans(p, cs[j], cs[m], cs[n - 1]);
            }
            assert forall|j: int| 0 <= j < n implies !(#[trigger] strictly_closer(
                p,
                cs[j],
                cs[n - 1],
            )) by {
                if j < n - 1 {
                    assert(strictly_closer(p, cs[n - 1], cs[j]));
                }
            }
        }
    }
}

/// The tie-break of the assignment step: the nearest index is a true
/// argmin (no centroid is strictly closer), and every centroid at a lower
/// index is strictly farther, so among equally near centroids the lowest
/// index wins.
pub proof fn lemma_nearest_tie_break(cs: Seq<Centroid>, p: Point)
    requires
        cs.len() >= 1,
        all_positive(cs),
    ensures
        0 <= nearest(cs, p) < cs.len(),
        forall|j: int| 0 <= j < cs.len() ==> !strictly_closer(p, cs[j], cs[nearest(cs, p)]),
        forall|j: int| 0 <= j < nearest(cs, p) ==> strictly_closer(p, cs[nearest(cs, p)], cs[j]),
{
    lemma_nearest_upto_props(cs, p, cs.len() as int);
}

/// Containment of centroid values composes across an intermediate
/// sequence of non-empty centroids.
pub proof fn lemma_contained_in_trans(a: Seq<Centroid>, b: Seq<Centroid>, c: Seq<Centroid>)
    requires
        all_positive(b),
        contained_in(a, b),
        contained_in(b, c),
    ensures
        contained_in(a, c),
{
    assert forall|j: int| 0 <= j < a.len() implies has_match(a[j], c) by {
        let i = choose|i: int| 0 <= i < b.len() && eq_val(a[j], b[i]);
        let i2 = choose|i2: int| 0 <= i2 < c.len() && eq_val(b[i], c[i2]);
        crate::centroid::lemma_eq_val_equivalence(a[j], b[i], c[i2]);
        assert(eq_val(a[j], c[i2]));
    }
}

/// The convergence test is order-independent: it looks only at which
/// centroid values occur on each side, so replacing either side by any
/// sequence with the same values (in any order, under value equality)
/// leaves its verdict unchanged.
pub proof fn lemma_converged_order_independent(
    cur1: Seq<Centroid>,
    cur2: Seq<Centroid>,
    new1: Seq<Centroid>,
    new2: Seq<Centroid>,
)
    requires
        all_positive(cur1),
        all_positive(cur2),
        all_positive(new1),
        all_positive(new2),
        contained_in(cur1, cur2),
        contained_in(cur2, cur1),
        contained_in(new1, new2),
        contained_in(new2, new1),
    ensures
        contained_in(new1, cur1) == contained_in(new2, cur2),
{
    if contained_in(new1, cur1) {
        lemma_contained_in_trans(new2, new1, cur1);
        lemma_contained_in_trans(new2, cur1, cur2);
    }
    if contained_in(new2, cur2) {
        lemma_contained_in_trans(new1, new2, cur2);
        lemma_contained_in_trans(new1, cur2, cur1);
    }
}

proof fn lemma_cluster_count_bounds(ps: Seq<Point>, asn: Seq<usize>, c: int)
    ensures
        0 <= cluster_count(ps, asn, c) <= ps.len(),
    decreases ps.len(),
{
    if ps.len() > 0 {
        lemma_cluster_count_bounds(ps.drop_last(), asn.drop_last(), c);
    }
}

/// The index of the nearest centroid depends only on the centroid values,
/// not on how the means are represented.
pub proof fn lemma_nearest_respects_values(cs1: Seq<Centroid>, cs2: Seq<Centroid>, p: Point)
    requires
        cs1.len() == cs2.len(),
        cs1.len() >= 1,
        all_positive(cs1),
        all_positive(cs2),
        forall|i: int| 0 <= i < cs1.len() ==> eq_val(cs1[i], cs2[i]),
    ensures
        nearest(cs1, p) == nearest(cs2, p),
{
    lemma_nearest_upto_respects_values(cs1, cs2, p, cs1.len() as int);
}

proof fn lemma_nearest_upto_respects_values(
    cs1: Seq<Centroid>,
    cs2: Seq<Centroid>,
    p: Point,
    n: int,
)
    requires
        cs1.len() == cs2.len(),
        1 <= n <= cs1.len(),
        all_positive(cs1),
        all_positive(cs2),
        forall|i: int| 0 <= i < cs1.len() ==> eq_val(cs1[i], cs2[i]),
    ensures
        nearest_upto(cs1, p, n) == nearest_upto(cs2, p, n),
    decreases n,
{
    if n == 1 {
    } else {
        lemma_nearest_upto_respects_values(cs1, cs2, p, n - 1);
        lemma_nearest_upto_props(cs1, p, n - 1);
        let m = nearest_upto(cs1, p, n - 1);
        crate::centroid::lemma_closer_respects_values(p, cs1[n - 1], cs2[n - 1], cs1[m], cs2[m]);
    }
}

/// Idempotence at a converged configuration: when every freshly computed
/// centroid has, index for index, the same value as the current one,
/// re-running the assignment and aggregation passes reproduces the same
/// candidate centroid set exactly. (The convergence test itself only
/// checks order-independent containment; when it holds merely because the
/// values permuted between indices, one more pass need not reproduce the
/// candidate.)
pub proof fn lemma_converged_fixed_point(k: int, ps: Seq<Point>, cs: Seq<Centroid>)
    requires
        1 <= k,
        ps.len() >= 1,
        ps.len() <= MAX_POINTS,
        cs.len() == k,
        all_positive(cs),
        forall|c: int| 0 <= c < k ==> cluster_count(ps, assignment_of(cs, ps), c) >= 1,
        forall|i: int|
            0 <= i < k ==> eq_val(cs[i], next_centroids(k, ps, assignment_of(cs, ps))[i]),
    ensures
        next_centroids(
            k,
            ps,
            assignment_of(next_centroids(k, ps, assignment_of(cs, ps)), ps),
        ) == next_centroids(k, ps, assignment_of(cs, ps)),
{
    let asn = assignment_of(cs, ps);
    let ncs = next_centroids(k, ps, asn);
    assert forall|i: int| 0 <= i < k implies ncs[i].count > 0 by {
        lemma_cluster_count_bounds(ps, asn, i);
    }
    assert forall|i: int| 0 <= i < ps.len() implies assignment_of(ncs, ps)[i] == asn[i] by {
        lemma_nearest_respects_values(cs, ncs, ps[i]);
    }
    assert(assignment_of(ncs, ps) =~= asn);
}

} // verus!
