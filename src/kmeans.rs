use vstd::prelude::*;

use vstd::arithmetic::div_mod::{lemma_div_is_ordered, lemma_div_multiples_vanish};

use crate::distance::{sq_dist, squared_distance};
use crate::error::{CoreError, Invalid};
use crate::sampling::{sample_indices, seeded_indices};
use crate::vectors::{copy_embedding, Point};

verus! {

/// The embeddings of a sequence of points.
pub open spec fn embeddings(points: Seq<Point>) -> Seq<Seq<i32>> {
    points.map_values(|p: Point| p.embedding@)
}

/// The contents of a sequence of vectors.
pub open spec fn vectors_view(v: Seq<Vec<i32>>) -> Seq<Seq<i32>> {
    v.map_values(|x: Vec<i32>| x@)
}

/// Cluster ids as integers.
pub open spec fn as_ints(s: Seq<usize>) -> Seq<int> {
    s.map_values(|x: usize| x as int)
}

/// Every vector has `dim` coordinates.
pub open spec fn same_dim(vs: Seq<Seq<i32>>, dim: nat) -> bool {
    forall|i: int| 0 <= i < vs.len() ==> (#[trigger] vs[i]).len() == dim
}

/// The centroid nearest to `p` among the first `m`; the lowest index wins a tie.
pub open spec fn nearest_upto(p: Seq<i32>, cents: Seq<Seq<i32>>, m: nat) -> nat
    decreases m,
{
    if m <= 1 {
        0
    } else {
        let b = nearest_upto(p, cents, (m - 1) as nat);
        if sq_dist(p, cents[m - 1]) < sq_dist(p, cents[b as int]) {
            (m - 1) as nat
        } else {
            b
        }
    }
}

pub open spec fn nearest_centroid(p: Seq<i32>, cents: Seq<Seq<i32>>) -> nat {
    nearest_upto(p, cents, cents.len())
}

/// Each point assigned to its nearest centroid.
pub open spec fn assign_all(pts: Seq<Seq<i32>>, cents: Seq<Seq<i32>>) -> Seq<int> {
    Seq::new(pts.len(), |i: int| nearest_centroid(pts[i], cents) as int)
}

/// How many of the first `m` points are assigned to cluster `c`.
pub open spec fn member_count(assign: Seq<int>, c: int, m: nat) -> nat
    decreases m,
{
    if m == 0 {
        0
    } else {
        member_count(assign, c, (m - 1) as nat) + if assign[m - 1] == c {
            1nat
        } else {
            0nat
        }
    }
}

/// Sum of coordinate `d` over the first `m` points that are assigned to `c`.
pub open spec fn member_sum(pts: Seq<Seq<i32>>, assign: Seq<int>, c: int, d: int, m: nat) -> int
    decreases m,
{
    if m == 0 {
        0
    } else {
        member_sum(pts, assign, c, d, (m - 1) as nat) + if assign[m - 1] == c {
            pts[m - 1][d] as int
        } else {
            0
        }
    }
}

/// The componentwise mean, rounded down, of the points assigned to `c`.
pub open spec fn mean_of(pts: Seq<Seq<i32>>, assign: Seq<int>, c: int, dim: nat) -> Seq<i32> {
    Seq::new(
        dim,
        |d: int|
            (member_sum(pts, assign, c, d, pts.len()) / (member_count(
                assign,
                c,
                pts.len(),
            ) as int)) as i32,
    )
}

/// The centroids after one update: the mean of each cluster's points, or the
/// old centroid where a cluster has none.
pub open spec fn updated(pts: Seq<Seq<i32>>, assign: Seq<int>, cents: Seq<Seq<i32>>) -> Seq<Seq<i32>> {
    Seq::new(
        cents.len(),
        |c: int|
            if member_count(assign, c, pts.len()) == 0 {
                cents[c]
            } else {
                mean_of(pts, assign, c, cents[c].len())
            },
    )
}

/// The outcome of a run: assignments, centroids, iterations performed, and
/// whether the centroids stopped moving.
pub type RunView = (Seq<int>, Seq<Seq<i32>>, nat, bool);

/// At most `fuel` more iterations from the given assignments and centroids.
/// An iteration assigns every point to its nearest centroid, then moves the
/// centroids; the run stops early once a move changes no centroid.
pub open spec fn run_from(pts: Seq<Seq<i32>>, assign: Seq<int>, cents: Seq<Seq<i32>>, fuel: nat) -> RunView
    decreases fuel,
{
    if fuel == 0 {
        (assign, cents, 0, false)
    } else {
        let a = assign_all(pts, cents);
        let next = updated(pts, a, cents);
        if next == cents {
            (a, cents, 1, true)
        } else {
            let r = run_from(pts, a, next, (fuel - 1) as nat);
            (r.0, r.1, r.2 + 1, r.3)
        }
    }
}

/// The starting centroids: the points at the seed indices.
pub open spec fn initial_centroids(pts: Seq<Seq<i32>>, seeds: Seq<usize>) -> Seq<Seq<i32>> {
    Seq::new(seeds.len(), |c: int| pts[seeds[c] as int])
}

/// k-means from the given seeds, for at most `max_iterations` iterations.
pub open spec fn k_means_run(pts: Seq<Seq<i32>>, seeds: Seq<usize>, max_iterations: nat) -> RunView {
    run_from(pts, Seq::new(pts.len(), |i: int| 0int), initial_centroids(pts, seeds), max_iterations)
}

/// The inputs that a run from seeds admits: at least one point, all of one
/// dimension, and at least one seed, each the index of a point.
pub open spec fn run_inputs_valid(pts: Seq<Seq<i32>>, seeds: Seq<usize>) -> bool {
    &&& pts.len() >= 1
    &&& same_dim(pts, pts[0].len())
    &&& seeds.len() >= 1
    &&& forall|c: int| 0 <= c < seeds.len() ==> (#[trigger] seeds[c]) < pts.len()
}

/// The first of the first `m` vectors whose length is not `dim`.
pub open spec fn first_off_dim(vs: Seq<Seq<i32>>, dim: nat, m: nat) -> Option<nat>
    decreases m,
{
    if m == 0 {
        None
    } else {
        match first_off_dim(vs, dim, (m - 1) as nat) {
            Some(i) => Some(i),
            None => if vs[m - 1].len() != dim {
                Some((m - 1) as nat)
            } else {
                None
            },
        }
    }
}

/// What is wrong with a clustering request, if anything: a zero cluster
/// count, zero iterations, no points or fewer points than clusters, or a
/// point whose dimension differs from the first point's.
pub open spec fn cluster_precheck(pts: Seq<Seq<i32>>, k: usize, max_iterations: usize) -> Option<CoreError> {
    if k == 0 {
        Some(CoreError::Validation(Invalid::ZeroK))
    } else if max_iterations == 0 {
        Some(CoreError::Validation(Invalid::ZeroIterations))
    } else if pts.len() == 0 || k > pts.len() {
        Some(CoreError::ClusteringPrecondition { k, point_count: pts.len() as usize })
    } else {
        match first_off_dim(pts, pts[0].len(), pts.len()) {
            Some(i) => Some(
                CoreError::Validation(
                    Invalid::Dimension {
                        expected: pts[0].len() as usize,
                        found: pts[i as int].len() as usize,
                    },
                ),
            ),
            None => None,
        }
    }
}

/// `k` distinct indices of points among `n`.
pub open spec fn valid_seeds(seeds: Seq<usize>, n: nat, k: nat) -> bool {
    &&& seeds.len() == k
    &&& forall|c: int| 0 <= c < seeds.len() ==> (#[trigger] seeds[c]) < n
    &&& forall|c: int, d: int| 0 <= c < d < seeds.len() ==> seeds[c] != seeds[d]
}

/// The result of a clustering run.
pub struct Clustering {
    /// For each point, in input order, the index of its cluster.
    pub assignments: Vec<usize>,
    pub centroids: Vec<Vec<i32>>,
    pub iterations: usize,
    /// Whether the run stopped because the centroids stopped moving.
    pub converged: bool,
}

impl Clustering {
    pub open spec fn matches(&self, run: RunView) -> bool {
        &&& as_ints(self.assignments@) == run.0
        &&& vectors_view(self.centroids@) == run.1
        &&& self.iterations == run.2
        &&& self.converged == run.3
    }
}

/// Index of the centroid nearest to `p`.
fn nearest_index(p: &Vec<i32>, cents: &Vec<Vec<i32>>) -> (r: usize)
    requires
        cents.len() >= 1,
        same_dim(vectors_view(cents@), p@.len()),
    ensures
        r == nearest_centroid(p@, vectors_view(cents@)),
        r < cents.len(),
{
    let ghost cv = vectors_view(cents@);
    assert(cv[0] == cents@[0]@);
    let mut best: usize = 0;
    let mut best_d = squared_distance(p, &cents[0]);
    let mut c: usize = 1;
    while c < cents.len()
        invariant
            cv == vectors_view(cents@),
            same_dim(cv, p@.len()),
            1 <= c <= cents.len(),
            best < c,
            best == nearest_upto(p@, cv, c as nat),
            best_d == sq_dist(p@, cv[best as int]),
        decreases cents.len() - c,
    {
        assert(cv[c as int] == cents@[c as int]@);
        assert(cv[c as int].len() == p@.len());
        let d = squared_distance(p, &cents[c]);
        if d < best_d {
            best = c;
            best_d = d;
        }
        c = c + 1;
    }
    best
}

/// Assigns every point to its nearest centroid.
fn assign_points(points: &[Point], cents: &Vec<Vec<i32>>, dim: usize) -> (r: Vec<usize>)
    requires
        cents.len() >= 1,
        same_dim(vectors_view(cents@), dim as nat),
        same_dim(embeddings(points@), dim as nat),
    ensures
        as_ints(r@) == assign_all(embeddings(points@), vectors_view(cents@)),
        r.len() == points.len(),
        forall|i: int| 0 <= i < r.len() ==> #[trigger] r@[i] < cents.len(),
{
    let ghost pts = embeddings(points@);
    let ghost cv = vectors_view(cents@);
    let mut r: Vec<usize> = Vec::with_capacity(points.len());
    let mut i: usize = 0;
    while i < points.len()
        invariant
            pts == embeddings(points@),
            cv == vectors_view(cents@),
            cents.len() >= 1,
            same_dim(cv, dim as nat),
            same_dim(pts, dim as nat),
            i <= points.len(),
            r.len() == i,
            forall|j: int| 0 <= j < i ==> #[trigger] r@[j] == nearest_centroid(pts[j], cv),
            forall|j: int| 0 <= j < i ==> #[trigger] r@[j] < cents.len(),
        decreases points.len() - i,
    {
        assert(pts[i as int] == points@[i as int].embedding@);
        assert(pts[i as int].len() == dim);
        let a = nearest_index(&points[i].embedding, cents);
        r.push(a);
        i = i + 1;
    }
    assert(as_ints(r@) =~= assign_all(pts, cv));
    r
}

/// How many points are assigned to cluster `c`.
fn count_members(assign: &Vec<usize>, c: usize) -> (r: usize)
    ensures
        r == member_count(as_ints(assign@), c as int, assign.len() as nat),
        r <= assign.len(),
{
    let ghost a = as_ints(assign@);
    let mut n: usize = 0;
    let mut i: usize = 0;
    while i < assign.len()
        invariant
            a == as_ints(assign@),
            i <= assign.len(),
            n == member_count(a, c as int, i as nat),
            n <= i,
        decreases assign.len() - i,
    {
        if assign[i] == c {
            n = n + 1;
        }
        i = i + 1;
    }
    n
}

/// Sum of coordinate `d` over the points assigned to cluster `c`.
fn sum_members(points: &[Point], assign: &Vec<usize>, c: usize, d: usize, dim: usize) -> (r: i128)
    requires
        assign.len() == points.len(),
        d < dim,
        same_dim(embeddings(points@), dim as nat),
    ensures
        r == member_sum(embeddings(points@), as_ints(assign@), c as int, d as int, points.len() as nat),
        member_count(as_ints(assign@), c as int, points.len() as nat) * i32::MIN <= r
            <= member_count(as_ints(assign@), c as int, points.len() as nat) * i32::MAX,
{
    let ghost pts = embeddings(points@);
    let ghost a = as_ints(assign@);
    let mut sum: i128 = 0;
    let mut i: usize = 0;
    while i < points.len()
        invariant
            pts == embeddings(points@),
            a == as_ints(assign@),
            assign.len() == points.len(),
            d < dim,
            same_dim(pts, dim as nat),
            i <= points.len(),
            sum == member_sum(pts, a, c as int, d as int, i as nat),
            member_count(a, c as int, i as nat) <= i,
            member_count(a, c as int, i as nat) * i32::MIN <= sum <= member_count(
                a,
                c as int,
                i as nat,
            ) * i32::MAX,
        decreases points.len() - i,
    {
        if assign[i] == c {
            assert(pts[i as int] == points@[i as int].embedding@);
            assert(pts[i as int].len() == dim);
            let x = points[i].embedding[d];
            sum = sum + x as i128;
        }
        i = i + 1;
    }
    sum
}

/// The mean, rounded down, of the points assigned to cluster `c`, which has `count > 0` of them.
fn cluster_mean(points: &[Point], assign: &Vec<usize>, c: usize, count: usize, dim: usize) -> (r: Vec<i32>)
    requires
        assign.len() == points.len(),
        same_dim(embeddings(points@), dim as nat),
        count > 0,
        count == member_count(as_ints(assign@), c as int, points.len() as nat),
    ensures
        r@ == mean_of(embeddings(points@), as_ints(assign@), c as int, dim as nat),
{
    let ghost pts = embeddings(points@);
    let ghost a = as_ints(assign@);
    let mut r: Vec<i32> = Vec::with_capacity(dim);
    let mut d: usize = 0;
    while d < dim
        invariant
            pts == embeddings(points@),
            a == as_ints(assign@),
            assign.len() == points.len(),
            same_dim(pts, dim as nat),
            count > 0,
            count == member_count(a, c as int, points.len() as nat),
            d <= dim,
            r@ == mean_of(pts, a, c as int, dim as nat).subrange(0, d as int),
        decreases dim - d,
    {
        let s = sum_members(points, assign, c, d, dim);
        proof {
            let n = count as int;
            lemma_div_is_ordered(n * i32::MIN, s as int, n);
            lemma_div_is_ordered(s as int, n * i32::MAX, n);
            lemma_div_multiples_vanish(i32::MIN as int, n);
            lemma_div_multiples_vanish(i32::MAX as int, n);
        }
        let q = match s.checked_div_euclid(count as i128) {
            Some(q) => q,
            None => 0,
        };
        assert(q == (s as int) / (count as int));
        let m = q as i32;
        r.push(m);
        assert(r@ =~= mean_of(pts, a, c as int, dim as nat).subrange(0, d + 1));
        d = d + 1;
    }
    assert(r@ =~= mean_of(pts, a, c as int, dim as nat));
    r
}

/// One update: each centroid moves to the mean of its cluster; a centroid
/// whose cluster is empty stays where it was.
fn update_centroids(points: &[Point], assign: &Vec<usize>, cents: &Vec<Vec<i32>>, dim: usize) -> (r: Vec<Vec<i32>>)
    requires
        assign.len() == points.len(),
        same_dim(embeddings(points@), dim as nat),
        same_dim(vectors_view(cents@), dim as nat),
    ensures
        vectors_view(r@) == updated(embeddings(points@), as_ints(assign@), vectors_view(cents@)),
        r.len() == cents.len(),
        same_dim(vectors_view(r@), dim as nat),
{
    let ghost pts = embeddings(points@);
    let ghost a = as_ints(assign@);
    let ghost cv = vectors_view(cents@);
    let ghost target = updated(pts, a, cv);
    let mut r: Vec<Vec<i32>> = Vec::with_capacity(cents.len());
    let mut c: usize = 0;
    while c < cents.len()
        invariant
            pts == embeddings(points@),
            a == as_ints(assign@),
            cv == vectors_view(cents@),
            target == updated(pts, a, cv),
            assign.len() == points.len(),
            same_dim(pts, dim as nat),
            same_dim(cv, dim as nat),
            c <= cents.len(),
            vectors_view(r@) =~= target.subrange(0, c as int),
            same_dim(vectors_view(r@), dim as nat),
        decreases cents.len() - c,
    {
        assert(cv[c as int] == cents@[c as int]@);
        let count = count_members(assign, c);
        let v = if count == 0 {
            copy_embedding(&cents[c])
        } else {
            cluster_mean(points, assign, c, count, dim)
        };
        assert(v@ == target[c as int]);
        let ghost before = r@;
        r.push(v);
        assert(vectors_view(r@) =~= vectors_view(before).push(v@));
        assert(target.subrange(0, c + 1) =~= target.subrange(0, c as int).push(target[c as int]));
        c = c + 1;
    }
    assert(target.subrange(0, cents.len() as int) =~= target);
    r
}

/// Whether two lists of vectors are equal.
fn same_vectors(a: &Vec<Vec<i32>>, b: &Vec<Vec<i32>>) -> (r: bool)
    ensures
        r == (vectors_view(a@) == vectors_view(b@)),
{
    if a.len() != b.len() {
        assert(vectors_view(a@).len() != vectors_view(b@).len());
        return false;
    }
    let mut i: usize = 0;
    while i < a.len()
        invariant
            a.len() == b.len(),
            i <= a.len(),
            forall|j: int| 0 <= j < i ==> (#[trigger] a@[j])@ == b@[j]@,
        decreases a.len() - i,
    {
        let x = &a[i];
        let y = &b[i];
        if x.len() != y.len() {
            assert(vectors_view(a@)[i as int] != vectors_view(b@)[i as int]);
            return false;
        }
        let mut d: usize = 0;
        while d < x.len()
            invariant
                x.len() == y.len(),
                i < a.len(),
                a.len() == b.len(),
                *x == a@[i as int],
                *y == b@[i as int],
                d <= x.len(),
                forall|e: int| 0 <= e < d ==> x@[e] == y@[e],
            decreases x.len() - d,
        {
            if x[d] != y[d] {
                assert(vectors_view(a@)[i as int][d as int] != vectors_view(b@)[i as int][d as int]);
                return false;
            }
            d = d + 1;
        }
        assert(x@ =~= y@);
        i = i + 1;
    }
    assert(vectors_view(a@) =~= vectors_view(b@));
    true
}

/// k-means from the given seed indices: the centroids start at the seeded
/// points; each iteration assigns every point to its nearest centroid (lowest
/// index on ties) and moves each centroid to the mean of its points, keeping
/// it where it was when its cluster is empty; the run stops when the centroids
/// no longer move, or after `max_iterations` iterations.
pub fn k_means_from(points: &[Point], max_iterations: usize, seeds: &[usize]) -> (r: Clustering)
    requires
        run_inputs_valid(embeddings(points@), seeds@),
    ensures
        r.matches(k_means_run(embeddings(points@), seeds@, max_iterations as nat)),
{
    let ghost pts = embeddings(points@);
    assert(pts[0] == points@[0].embedding@);
    let dim = points[0].embedding.len();
    let n = points.len();
    let k = seeds.len();
    let mut cents: Vec<Vec<i32>> = Vec::with_capacity(k);
    let mut c: usize = 0;
    while c < k
        invariant
            pts == embeddings(points@),
            run_inputs_valid(pts, seeds@),
            dim == pts[0].len(),
            k == seeds.len(),
            n == points.len(),
            c <= k,
            vectors_view(cents@) =~= initial_centroids(pts, seeds@).subrange(0, c as int),
        decreases k - c,
    {
        let s = seeds[c];
        assert(s < n);
        assert(pts[s as int] == points@[s as int].embedding@);
        let v = copy_embedding(&points[s].embedding);
        let ghost before = cents@;
        cents.push(v);
        assert(vectors_view(cents@) =~= vectors_view(before).push(v@));
        c = c + 1;
    }
    let mut assign: Vec<usize> = Vec::with_capacity(n);
    let mut i: usize = 0;
    while i < n
        invariant
            n == points.len(),
            i <= n,
            assign.len() == i,
            forall|j: int| 0 <= j < i ==> #[trigger] assign@[j] == 0,
        decreases n - i,
    {
        assign.push(0);
        i = i + 1;
    }
    assert(as_ints(assign@) =~= Seq::new(pts.len(), |i: int| 0int));
    assert(vectors_view(cents@) =~= initial_centroids(pts, seeds@));
    let ghost target = k_means_run(pts, seeds@, max_iterations as nat);
    let mut it: usize = 0;
    let mut converged = false;
    while it < max_iterations && !converged
        invariant
            pts == embeddings(points@),
            run_inputs_valid(pts, seeds@),
            target == k_means_run(pts, seeds@, max_iterations as nat),
            dim == pts[0].len(),
            n == points.len(),
            assign.len() == n,
            cents.len() == k,
            k >= 1,
            same_dim(vectors_view(cents@), dim as nat),
            it <= max_iterations,
            !converged ==> target == ({
                let rest = run_from(pts, as_ints(assign@), vectors_view(cents@), (max_iterations - it) as nat);
                (rest.0, rest.1, (rest.2 + it) as nat, rest.3)
            }),
            converged ==> target == (as_ints(assign@), vectors_view(cents@), it as nat, true),
        decreases max_iterations - it + (if converged { 0int } else { 1int }),
    {
        let a = assign_points(points, &cents, dim);
        let next = update_centroids(points, &a, &cents, dim);
        assign = a;
        it = it + 1;
        if same_vectors(&next, &cents) {
            converged = true;
        } else {
            cents = next;
        }
    }
    Clustering { assignments: assign, centroids: cents, iterations: it, converged }
}

proof fn lemma_first_off_dim(vs: Seq<Seq<i32>>, dim: nat, m: nat)
    requires
        m <= vs.len(),
    ensures
        first_off_dim(vs, dim, m) is None <==> forall|i: int| 0 <= i < m ==> (#[trigger] vs[i]).len() == dim,
        first_off_dim(vs, dim, m) is Some ==> first_off_dim(vs, dim, m)->Some_0 < m,
    decreases m,
{
    if m > 0 {
        lemma_first_off_dim(vs, dim, (m - 1) as nat);
    }
}

proof fn lemma_first_off_dim_stable(vs: Seq<Seq<i32>>, dim: nat, m0: nat, m: nat)
    requires
        first_off_dim(vs, dim, m0) is Some,
        m0 <= m,
    ensures
        first_off_dim(vs, dim, m) == first_off_dim(vs, dim, m0),
    decreases m - m0,
{
    if m > m0 {
        lemma_first_off_dim_stable(vs, dim, m0, (m - 1) as nat);
    }
}

/// Checks a clustering request; `None` when it can run.
pub fn check_cluster_request(points: &[Point], k: usize, max_iterations: usize) -> (r: Option<CoreError>)
    ensures
        r == cluster_precheck(embeddings(points@), k, max_iterations),
{
    let ghost pts = embeddings(points@);
    if k == 0 {
        return Some(CoreError::Validation(Invalid::ZeroK));
    }
    if max_iterations == 0 {
        return Some(CoreError::Validation(Invalid::ZeroIterations));
    }
    if points.len() == 0 || k > points.len() {
        return Some(CoreError::ClusteringPrecondition { k, point_count: points.len() });
    }
    assert(pts[0] == points@[0].embedding@);
    let dim = points[0].embedding.len();
    let mut i: usize = 0;
    while i < points.len()
        invariant
            pts == embeddings(points@),
            pts.len() >= 1,
            k != 0,
            max_iterations != 0,
            k <= pts.len(),
            dim == pts[0].len(),
            i <= points.len(),
            first_off_dim(pts, dim as nat, i as nat) is None,
        decreases points.len() - i,
    {
        assert(pts[i as int] == points@[i as int].embedding@);
        if points[i].embedding.len() != dim {
            proof {
                assert(first_off_dim(pts, dim as nat, (i + 1) as nat) == Some(i as nat));
                lemma_first_off_dim_stable(pts, dim as nat, (i + 1) as nat, pts.len());
            }
            return Some(
                CoreError::Validation(
                    Invalid::Dimension { expected: dim, found: points[i].embedding.len() },
                ),
            );
        }
        i = i + 1;
    }
    None
}

proof fn lemma_nearest_upto_bound(p: Seq<i32>, cents: Seq<Seq<i32>>, m: nat)
    requires
        m >= 1,
    ensures
        nearest_upto(p, cents, m) < m,
    decreases m,
{
    if m > 1 {
        lemma_nearest_upto_bound(p, cents, (m - 1) as nat);
    }
}

/// A run's assignments hold one cluster index in `0..k` for each point, `k`
/// being the number of centroids.
pub proof fn lemma_assignments_in_range(pts: Seq<Seq<i32>>, assign: Seq<int>, cents: Seq<Seq<i32>>, fuel: nat)
    requires
        cents.len() >= 1,
        assign.len() == pts.len(),
        forall|i: int| 0 <= i < assign.len() ==> 0 <= #[trigger] assign[i] < cents.len(),
    ensures
        run_from(pts, assign, cents, fuel).0.len() == pts.len(),
        run_from(pts, assign, cents, fuel).1.len() == cents.len(),
        forall|i: int|
            0 <= i < pts.len() ==> 0 <= #[trigger] run_from(pts, assign, cents, fuel).0[i]
                < cents.len(),
    decreases fuel,
{
    if fuel > 0 {
        let a = assign_all(pts, cents);
        assert forall|i: int| 0 <= i < a.len() implies 0 <= #[trigger] a[i] < cents.len() by {
            lemma_nearest_upto_bound(pts[i], cents, cents.len());
        }
        let next = updated(pts, a, cents);
        if next != cents {
            lemma_assignments_in_range(pts, a, next, (fuel - 1) as nat);
        }
    }
}

/// k-means from a seed: the starting centroids are the points at `k`
/// distinct indices that rand's seeded sampler draws, so that one seed and
/// one input always give one result.
pub fn k_means_seeded(points: &[Point], k: usize, max_iterations: usize, seed: u64) -> (r: Result<Clustering, CoreError>)
    ensures
        cluster_precheck(embeddings(points@), k, max_iterations) is Some ==> r == Err::<Clustering, CoreError>(
            cluster_precheck(embeddings(points@), k, max_iterations)->Some_0,
        ),
        cluster_precheck(embeddings(points@), k, max_iterations) is None ==> r is Ok
            && r->Ok_0.matches(
            k_means_run(embeddings(points@), seeded_indices(seed, points.len(), k), max_iterations as nat),
        ),
        cluster_precheck(embeddings(points@), k, max_iterations) is None ==> valid_seeds(
            seeded_indices(seed, points.len(), k),
            points.len() as nat,
            k as nat,
        ),
        r is Ok ==> r->Ok_0.assignments.len() == points.len(),
        r is Ok ==> forall|i: int| 0 <= i < points.len() ==> #[trigger] r->Ok_0.assignments@[i] < k,
{
    match check_cluster_request(points, k, max_iterations) {
        Some(e) => Err(e),
        None => {
            let ghost pts = embeddings(points@);
            proof {
                lemma_first_off_dim(pts, pts[0].len(), pts.len());
            }
            let seeds = sample_indices(seed, points.len(), k);
            let c = k_means_from(points, max_iterations, &seeds);
            proof {
                let init = initial_centroids(pts, seeds@);
                lemma_assignments_in_range(pts, Seq::new(pts.len(), |i: int| 0int), init, max_iterations as nat);
                assert forall|i: int| 0 <= i < points.len() implies #[trigger] c.assignments@[i] < k by {
                    assert(as_ints(c.assignments@)[i] == c.assignments@[i] as int);
                }
            }
            Ok(c)
        },
    }
}

/// k-means with centroids seeded at random.
pub fn k_means(points: &[Point], k: usize, max_iterations: usize) -> (r: Result<Vec<usize>, CoreError>)
    ensures
        cluster_precheck(embeddings(points@), k, max_iterations) is Some ==> r == Err::<Vec<usize>, CoreError>(
            cluster_precheck(embeddings(points@), k, max_iterations)->Some_0,
        ),
        cluster_precheck(embeddings(points@), k, max_iterations) is None ==> r is Ok && exists|seed: u64|
            valid_seeds(seeded_indices(seed, points.len(), k), points.len() as nat, k as nat)
                && as_ints(r->Ok_0@) == (#[trigger] k_means_run(
                embeddings(points@),
                seeded_indices(seed, points.len(), k),
                max_iterations as nat,
            )).0,
        r is Ok ==> r->Ok_0.len() == points.len(),
        r is Ok ==> forall|i: int| 0 <= i < points.len() ==> #[trigger] r->Ok_0@[i] < k,
{
    let seed: u64 = rand::random::<u64>();
    match k_means_seeded(points, k, max_iterations, seed) {
        Ok(c) => Ok(c.assignments),
        Err(e) => Err(e),
    }
}

/// Sum of coordinate `d` over the first `m` vectors.
pub open spec fn column_sum(pts: Seq<Seq<i32>>, d: int, m: nat) -> int
    decreases m,
{
    if m == 0 {
        0
    } else {
        column_sum(pts, d, (m - 1) as nat) + pts[m - 1][d] as int
    }
}

/// The componentwise mean of all points, rounded down.
pub open spec fn mean_point(pts: Seq<Seq<i32>>) -> Seq<i32> {
    Seq::new(pts[0].len(), |d: int| (column_sum(pts, d, pts.len()) / (pts.len() as int)) as i32)
}

proof fn lemma_one_cluster_sums(pts: Seq<Seq<i32>>, a: Seq<int>, d: int, m: nat)
    requires
        m <= pts.len(),
        a.len() == pts.len(),
        forall|i: int| 0 <= i < a.len() ==> #[trigger] a[i] == 0,
    ensures
        member_count(a, 0, m) == m,
        member_sum(pts, a, 0, d, m) == column_sum(pts, d, m),
    decreases m,
{
    if m > 0 {
        lemma_one_cluster_sums(pts, a, d, (m - 1) as nat);
    }
}

/// With a single centroid `c`, every point joins it and one update moves it
/// to the mean of all points.
proof fn lemma_one_cluster_step(pts: Seq<Seq<i32>>, c: Seq<i32>)
    requires
        pts.len() >= 1,
        same_dim(pts, pts[0].len()),
        c.len() == pts[0].len(),
    ensures
        assign_all(pts, seq![c]) =~= Seq::new(pts.len(), |i: int| 0int),
        updated(pts, assign_all(pts, seq![c]), seq![c]) =~= seq![mean_point(pts)],
{
    let a = assign_all(pts, seq![c]);
    assert(a =~= Seq::new(pts.len(), |i: int| 0int));
    lemma_one_cluster_sums(pts, a, 0, pts.len());
    assert forall|d: int| 0 <= d < c.len() implies #[trigger] mean_of(pts, a, 0, c.len())[d]
        == mean_point(pts)[d] by {
        lemma_one_cluster_sums(pts, a, d, pts.len());
    }
    assert(mean_of(pts, a, 0, c.len()) =~= mean_point(pts));
}

/// With one cluster, the centroid is the mean of all points after the first
/// iteration, whatever the iteration limit; given a second iteration the run
/// stops there, converged.
pub proof fn lemma_single_cluster_converges(pts: Seq<Seq<i32>>, seeds: Seq<usize>, max_iterations: nat)
    requires
        run_inputs_valid(pts, seeds),
        seeds.len() == 1,
        max_iterations >= 1,
    ensures
        k_means_run(pts, seeds, max_iterations).1 == seq![mean_point(pts)],
        k_means_run(pts, seeds, max_iterations).2 <= 2,
        max_iterations >= 2 ==> k_means_run(pts, seeds, max_iterations).3,
{
    let init = initial_centroids(pts, seeds);
    let s = seeds[0] as int;
    assert(seeds[0] < pts.len());
    assert(init =~= seq![pts[s]]);
    let m = mean_point(pts);
    lemma_one_cluster_step(pts, pts[s]);
    assert(m.len() == pts[0].len());
    lemma_one_cluster_step(pts, m);
    let z = Seq::new(pts.len(), |i: int| 0int);
    let a = assign_all(pts, init);
    assert(updated(pts, a, init) == seq![m]);
    let r = k_means_run(pts, seeds, max_iterations);
    assert(r == run_from(pts, z, init, max_iterations));
    if seq![m] == init {
        assert(r == (a, init, 1nat, true));
    } else {
        let fuel = (max_iterations - 1) as nat;
        let rest = run_from(pts, a, seq![m], fuel);
        assert(r == (rest.0, rest.1, rest.2 + 1, rest.3));
        if fuel == 0 {
            assert(rest == (a, seq![m], 0nat, false));
        } else {
            assert(rest == (assign_all(pts, seq![m]), seq![m], 1nat, true));
        }
    }
}

/// Two runs from one seed on one input give one result.
pub proof fn lemma_same_seed_same_result(
    pts: Seq<Seq<i32>>,
    k: usize,
    max_iterations: nat,
    seed: u64,
    c1: Clustering,
    c2: Clustering,
)
    requires
        c1.matches(k_means_run(pts, seeded_indices(seed, pts.len() as usize, k), max_iterations)),
        c2.matches(k_means_run(pts, seeded_indices(seed, pts.len() as usize, k), max_iterations)),
    ensures
        c1.assignments@ == c2.assignments@,
        vectors_view(c1.centroids@) == vectors_view(c2.centroids@),
        c1.iterations == c2.iterations,
        c1.converged == c2.converged,
{
    assert(as_ints(c1.assignments@).len() == c1.assignments@.len());
    assert(as_ints(c2.assignments@).len() == c2.assignments@.len());
    assert forall|i: int| 0 <= i < c1.assignments@.len() implies c1.assignments@[i]
        == c2.assignments@[i] by {
        assert(as_ints(c1.assignments@)[i] == c1.assignments@[i] as int);
        assert(as_ints(c2.assignments@)[i] == c2.assignments@[i] as int);
    }
    assert(c1.assignments@ =~= c2.assignments@);
}

/// The single-cluster law for a seeded run: when a request with `k == 1`
/// passes its checks, the run from the drawn seed ends with the mean of all
/// points as its centroid after at most two iterations, converged when a
/// second iteration was allowed.
pub proof fn lemma_single_cluster_seeded(pts: Seq<Seq<i32>>, max_iterations: usize, seed: u64)
    requires
        cluster_precheck(pts, 1, max_iterations) is None,
        valid_seeds(seeded_indices(seed, pts.len() as usize, 1), pts.len(), 1),
    ensures
        k_means_run(pts, seeded_indices(seed, pts.len() as usize, 1), max_iterations as nat).1
            == seq![mean_point(pts)],
        k_means_run(pts, seeded_indices(seed, pts.len() as usize, 1), max_iterations as nat).2 <= 2,
        max_iterations >= 2 ==> k_means_run(
            pts,
            seeded_indices(seed, pts.len() as usize, 1),
            max_iterations as nat,
        ).3,
{
    lemma_first_off_dim(pts, pts[0].len(), pts.len());
    lemma_single_cluster_converges(
        pts,
        seeded_indices(seed, pts.len() as usize, 1),
        max_iterations as nat,
    );
}

} // verus!
