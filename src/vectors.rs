use vstd::prelude::*;

use crate::distance::{lemma_sq_dist_self, sq_dist, squared_distance};
use crate::error::{CoreError, Invalid};

verus! {

/// A stored row as the contracts see it: row identifier and embedding.
pub type RowView = (i64, Seq<i32>);

/// A row identifier with its embedding, as handed to clustering.
#[derive(Debug)]
pub struct Point {
    pub rowid: i64,
    pub embedding: Vec<i32>,
}

impl View for Point {
    type V = RowView;

    open spec fn view(&self) -> RowView {
        (self.rowid, self.embedding@)
    }
}

/// One result of a nearest-neighbor query.
#[derive(Debug, Clone, Copy, PartialEq, Eq)]
pub struct Neighbor {
    pub rowid: i64,
    /// Squared Euclidean distance from the query; it orders results as the
    /// Euclidean distance does.
    pub sq_distance: u128,
}

/// Copies a vector element by element.
pub fn copy_embedding(v: &[i32]) -> (r: Vec<i32>)
    ensures
        r@ == v@,
{
    let mut r: Vec<i32> = Vec::with_capacity(v.len());
    let mut i: usize = 0;
    while i < v.len()
        invariant
            i <= v.len(),
            r@ == v@.subrange(0, i as int),
        decreases v.len() - i,
    {
        r.push(v[i]);
        i = i + 1;
    }
    assert(r@ =~= v@);
    r
}

/// Row identifiers are unique and every vector has the given dimension.
pub open spec fn rows_valid(rows: Seq<RowView>, dim: nat) -> bool {
    &&& forall|i: int| 0 <= i < rows.len() ==> (#[trigger] rows[i]).1.len() == dim
    &&& forall|i: int, j: int|
        0 <= i < rows.len() && 0 <= j < rows.len() && i != j ==> (#[trigger] rows[i]).0
            != (#[trigger] rows[j]).0
}

/// The rows after storing `v` under `id`: replaced in place where `id` is
/// present, appended otherwise.
pub open spec fn put_rows(rows: Seq<RowView>, id: i64, v: Seq<i32>) -> Seq<RowView> {
    if exists|i: int| 0 <= i < rows.len() && (#[trigger] rows[i]).0 == id {
        let i = choose|i: int| 0 <= i < rows.len() && (#[trigger] rows[i]).0 == id;
        rows.update(i, (id, v))
    } else {
        rows.push((id, v))
    }
}

proof fn lemma_put_rows_at(rows: Seq<RowView>, id: i64, v: Seq<i32>, i: int, dim: nat)
    requires
        rows_valid(rows, dim),
        0 <= i < rows.len(),
        rows[i].0 == id,
    ensures
        put_rows(rows, id, v) == rows.update(i, (id, v)),
{
    assert(0 <= i < rows.len() && rows[i].0 == id);
    let c = choose|c: int| 0 <= c < rows.len() && (#[trigger] rows[c]).0 == id;
    assert(c == i);
}

/// Strict order on (distance, row identifier) pairs.
pub open spec fn key_lt(d1: int, id1: int, d2: int, id2: int) -> bool {
    d1 < d2 || (d1 == d2 && id1 < id2)
}

/// Whether the result lists row `id`.
pub open spec fn lists_row(r: Seq<Neighbor>, id: i64) -> bool {
    exists|i: int| 0 <= i < r.len() && (#[trigger] r[i]).rowid == id
}

/// `n` reports a stored row and its squared distance from `q`.
pub open spec fn reports_row(rows: Seq<RowView>, q: Seq<i32>, n: Neighbor) -> bool {
    exists|j: int|
        0 <= j < rows.len() && (#[trigger] rows[j]).0 == n.rowid && n.sq_distance == sq_dist(
            rows[j].1,
            q,
        )
}

/// `r` holds the `k` stored rows nearest to `q` (all rows, if fewer), ordered
/// by distance and then by row identifier.
pub open spec fn is_nearest(rows: Seq<RowView>, q: Seq<i32>, k: nat, r: Seq<Neighbor>) -> bool {
    &&& r.len() <= k
    &&& forall|i: int| 0 <= i < r.len() ==> reports_row(rows, q, #[trigger] r[i])
    &&& forall|i: int, j: int|
        0 <= i < j < r.len() ==> key_lt(
            (#[trigger] r[i]).sq_distance as int,
            r[i].rowid as int,
            (#[trigger] r[j]).sq_distance as int,
            r[j].rowid as int,
        )
    &&& r.len() < k ==> forall|j: int| 0 <= j < rows.len() ==> lists_row(r, (#[trigger] rows[j]).0)
    &&& r.len() > 0 ==> forall|j: int|
        0 <= j < rows.len() ==> lists_row(r, (#[trigger] rows[j]).0) || key_lt(
            r.last().sq_distance as int,
            r.last().rowid as int,
            sq_dist(rows[j].1, q),
            rows[j].0 as int,
        )
}

/// Embeddings of one fixed dimension, each under a unique row identifier.
pub struct VectorStore {
    dimension: usize,
    rows: Vec<Point>,
}

impl View for VectorStore {
    type V = Seq<RowView>;

    closed spec fn view(&self) -> Seq<RowView> {
        self.rows@.map_values(|p: Point| p@)
    }
}

impl VectorStore {
    /// The dimension that every stored vector has.
    pub closed spec fn dim(&self) -> nat {
        self.dimension as nat
    }

    pub open spec fn wf(&self) -> bool {
        rows_valid(self@, self.dim())
    }

    /// An empty store for vectors of `dimension` coordinates.
    pub fn new(dimension: usize) -> (r: VectorStore)
        ensures
            r.wf(),
            r@ == Seq::<RowView>::empty(),
            r.dim() == dimension,
    {
        let r = VectorStore { dimension, rows: Vec::new() };
        assert(r@ =~= Seq::<RowView>::empty());
        r
    }

    pub fn dimension(&self) -> (r: usize)
        ensures
            r == self.dim(),
    {
        self.dimension
    }

    pub fn len(&self) -> (r: usize)
        ensures
            r == self@.len(),
    {
        self.rows.len()
    }

    /// Stores `vector` under `rowid`, replacing what was there. A vector of
    /// the wrong length is refused and the store is left as it was.
    pub fn put(&mut self, rowid: i64, vector: Vec<i32>) -> (r: Result<(), CoreError>)
        requires
            old(self).wf(),
        ensures
            final(self).wf(),
            final(self).dim() == old(self).dim(),
            vector@.len() != old(self).dim() ==> r == Err::<(), CoreError>(
                CoreError::Validation(
                    Invalid::Dimension { expected: old(self).dim() as usize, found: vector.len() },
                ),
            ) && final(self)@ == old(self)@,
            vector@.len() == old(self).dim() ==> r is Ok && final(self)@ == put_rows(
                old(self)@,
                rowid,
                vector@,
            ),
    {
        if vector.len() != self.dimension {
            return Err(
                CoreError::Validation(
                    Invalid::Dimension { expected: self.dimension, found: vector.len() },
                ),
            );
        }
        let ghost rows0 = self@;
        let ghost v = vector@;
        let n = self.rows.len();
        let mut i: usize = 0;
        while i < n
            invariant
                n == self.rows.len(),
                i <= n,
                self@ == rows0,
                rows0 == old(self)@,
                self.dimension == old(self).dimension,
                self.wf(),
                vector@.len() == self.dim(),
                v == vector@,
                forall|j: int| 0 <= j < i ==> (#[trigger] rows0[j]).0 != rowid,
            decreases n - i,
        {
            assert(rows0[i as int] == self.rows@[i as int]@);
            if self.rows[i].rowid == rowid {
                proof {
                    lemma_put_rows_at(rows0, rowid, v, i as int, self.dim());
                }
                self.rows.set(i, Point { rowid, embedding: vector });
                assert(self@ =~= rows0.update(i as int, (rowid, v)));
                return Ok(());
            }
            i = i + 1;
        }
        self.rows.push(Point { rowid, embedding: vector });
        assert(self@ =~= rows0.push((rowid, vector@)));
        Ok(())
    }

    /// Every stored (row identifier, vector) pair, in storage order.
    pub fn all(&self) -> (r: Vec<Point>)
        ensures
            r@.map_values(|p: Point| p@) == self@,
    {
        let mut out: Vec<Point> = Vec::with_capacity(self.rows.len());
        let mut i: usize = 0;
        while i < self.rows.len()
            invariant
                i <= self.rows.len(),
                out@.map_values(|p: Point| p@) =~= self@.subrange(0, i as int),
            decreases self.rows.len() - i,
        {
            let p = &self.rows[i];
            let q = Point { rowid: p.rowid, embedding: copy_embedding(&p.embedding) };
            assert(q@ == self@[i as int]);
            let ghost before = out@;
            out.push(q);
            assert(out@.map_values(|p: Point| p@) =~= before.map_values(|p: Point| p@).push(q@));
            assert(self@.subrange(0, i + 1) =~= self@.subrange(0, i as int).push(self@[i as int]));
            i = i + 1;
        }
        assert(self@.subrange(0, self@.len() as int) =~= self@);
        out
    }
}


impl VectorStore {
    /// Squared distances from `q` to every stored vector, in storage order.
    fn distances_to(&self, q: &[i32]) -> (r: Vec<u128>)
        requires
            self.wf(),
            q@.len() == self.dim(),
        ensures
            r.len() == self@.len(),
            forall|j: int| 0 <= j < r.len() ==> r[j] == sq_dist(#[trigger] self@[j].1, q@),
    {
        let mut r: Vec<u128> = Vec::with_capacity(self.rows.len());
        let mut j: usize = 0;
        while j < self.rows.len()
            invariant
                self.wf(),
                q@.len() == self.dim(),
                j <= self.rows.len(),
                r.len() == j,
                forall|i: int| 0 <= i < j ==> r[i] == sq_dist(#[trigger] self@[i].1, q@),
            decreases self.rows.len() - j,
        {
            assert(self@[j as int] == self.rows@[j as int]@);
            assert(self.rows@[j as int].embedding@.len() == self.dimension);
            let d = squared_distance(&self.rows[j].embedding, q);
            r.push(d);
            j = j + 1;
        }
        r
    }

    /// The stored row with the smallest (distance, row identifier) key above
    /// `(last_d, last_id)`, or above nothing when `has_last` is false.
    fn next_above(&self, dists: &Vec<u128>, has_last: bool, last_d: u128, last_id: i64) -> (r: Option<usize>)
        requires
            dists.len() == self@.len(),
        ensures
            r is Some ==> r->Some_0 < self@.len() && (!has_last || key_lt(
                last_d as int,
                last_id as int,
                dists[r->Some_0 as int] as int,
                self@[r->Some_0 as int].0 as int,
            )),
            r is Some ==> forall|i: int|
                0 <= i < self@.len() && (!has_last || key_lt(
                    last_d as int,
                    last_id as int,
                    dists[i] as int,
                    self@[i].0 as int,
                )) ==> !key_lt(
                    dists[i] as int,
                    (#[trigger] self@[i]).0 as int,
                    dists[r->Some_0 as int] as int,
                    self@[r->Some_0 as int].0 as int,
                ),
            r is None ==> self@.len() == 0 || has_last,
            r is None ==> forall|i: int|
                0 <= i < self@.len() ==> !key_lt(
                    last_d as int,
                    last_id as int,
                    dists[i] as int,
                    (#[trigger] self@[i]).0 as int,
                ),
    {
        let n = self.rows.len();
        let mut best: Option<usize> = None;
        let mut j: usize = 0;
        while j < n
            invariant
                n == self@.len(),
                dists.len() == n,
                j <= n,
                best is Some ==> best->Some_0 < j && (!has_last || key_lt(
                    last_d as int,
                    last_id as int,
                    dists[best->Some_0 as int] as int,
                    self@[best->Some_0 as int].0 as int,
                )),
                best is Some ==> forall|i: int|
                    0 <= i < j && (!has_last || key_lt(
                        last_d as int,
                        last_id as int,
                        dists[i] as int,
                        self@[i].0 as int,
                    )) ==> !key_lt(
                        dists[i] as int,
                        (#[trigger] self@[i]).0 as int,
                        dists[best->Some_0 as int] as int,
                        self@[best->Some_0 as int].0 as int,
                    ),
                best is None ==> j == 0 || has_last,
                best is None ==> forall|i: int|
                    0 <= i < j ==> !key_lt(
                        last_d as int,
                        last_id as int,
                        dists[i] as int,
                        (#[trigger] self@[i]).0 as int,
                    ),
            decreases n - j,
        {
            assert(self@[j as int] == self.rows@[j as int]@);
            let d = dists[j];
            let id = self.rows[j].rowid;
            let above = !has_last || d > last_d || (d == last_d && id > last_id);
            if above {
                match best {
                    None => {
                        best = Some(j);
                    },
                    Some(b) => {
                        assert(self@[b as int] == self.rows@[b as int]@);
                        let bd = dists[b];
                        let bid = self.rows[b].rowid;
                        if d < bd || (d == bd && id < bid) {
                            best = Some(j);
                        }
                    },
                }
            }
            j = j + 1;
        }
        best
    }

    /// The `k` stored rows nearest to `query` (all rows, if fewer), ordered by
    /// distance, ties by ascending row identifier.
    pub fn nearest_neighbors(&self, query: &[i32], k: usize) -> (r: Result<Vec<Neighbor>, CoreError>)
        requires
            self.wf(),
        ensures
            k == 0 ==> r == Err::<Vec<Neighbor>, CoreError>(CoreError::Validation(Invalid::ZeroK)),
            k > 0 && query@.len() != self.dim() ==> r == Err::<Vec<Neighbor>, CoreError>(
                CoreError::Validation(
                    Invalid::Dimension { expected: self.dim() as usize, found: query.len() },
                ),
            ),
            k > 0 && query@.len() == self.dim() ==> r is Ok && is_nearest(
                self@,
                query@,
                k as nat,
                r->Ok_0@,
            ),
    {
        if k == 0 {
            return Err(CoreError::Validation(Invalid::ZeroK));
        }
        if query.len() != self.dimension {
            return Err(
                CoreError::Validation(
                    Invalid::Dimension { expected: self.dimension, found: query.len() },
                ),
            );
        }
        let dists = self.distances_to(query);
        let ghost rows = self@;
        let n = self.rows.len();
        let mut out: Vec<Neighbor> = Vec::new();
        let mut exhausted = false;
        while out.len() < k && !exhausted
            invariant
                exhausted ==> forall|j: int| 0 <= j < n ==> lists_row(out@, (#[trigger] rows[j]).0),
                self.wf(),
                rows == self@,
                n == rows.len(),
                dists.len() == n,
                forall|j: int| 0 <= j < n ==> dists[j] == sq_dist(#[trigger] rows[j].1, query@),
                out.len() <= k,
                forall|i: int| 0 <= i < out.len() ==> reports_row(rows, query@, #[trigger] out@[i]),
                forall|i: int, j: int|
                    0 <= i < j < out.len() ==> key_lt(
                        (#[trigger] out@[i]).sq_distance as int,
                        out@[i].rowid as int,
                        (#[trigger] out@[j]).sq_distance as int,
                        out@[j].rowid as int,
                    ),
                out.len() > 0 ==> forall|j: int|
                    0 <= j < n && !key_lt(
                        out@.last().sq_distance as int,
                        out@.last().rowid as int,
                        sq_dist(rows[j].1, query@),
                        rows[j].0 as int,
                    ) ==> lists_row(out@, (#[trigger] rows[j]).0),
            decreases k - out.len() + (if exhausted { 0int } else { 1int }),
        {
            let has_last = out.len() > 0;
            let mut last_d: u128 = 0;
            let mut last_id: i64 = 0;
            if has_last {
                last_d = out[out.len() - 1].sq_distance;
                last_id = out[out.len() - 1].rowid;
            }
            let best = self.next_above(&dists, has_last, last_d, last_id);
            match best {
                None => {
                    proof {
                        assert forall|j: int| 0 <= j < n implies lists_row(out@, (#[trigger] rows[j]).0) by {
                            assert(!key_lt(last_d as int, last_id as int, dists[j] as int, rows[j].0 as int));
                        }
                    }
                    exhausted = true;
                },
                Some(b) => {
                    assert(rows[b as int] == self.rows@[b as int]@);
                    let nb = Neighbor { rowid: self.rows[b].rowid, sq_distance: dists[b] };
                    let ghost before = out@;
                    out.push(nb);
                    proof {
                        assert(out@[out@.len() - 1] == nb);
                        assert forall|i: int| 0 <= i < out.len() implies reports_row(rows, query@, #[trigger] out@[i]) by {
                            if i < before.len() {
                                assert(out@[i] == before[i]);
                            } else {
                                assert(rows[b as int].0 == out@[i].rowid);
                            }
                        }
                        assert forall|j: int|
                            0 <= j < n && !key_lt(
                                out@.last().sq_distance as int,
                                out@.last().rowid as int,
                                sq_dist(rows[j].1, query@),
                                rows[j].0 as int,
                            ) implies lists_row(out@, (#[trigger] rows[j]).0) by {
                            if has_last && !key_lt(last_d as int, last_id as int, dists[j] as int, rows[j].0 as int) {
                                let i = choose|i: int| 0 <= i < before.len() && (#[trigger] before[i]).rowid == rows[j].0;
                                assert(out@[i] == before[i]);
                            } else {
                                assert(rows[j].0 == rows[b as int].0);
                                assert(out@[before.len() as int].rowid == rows[j].0);
                            }
                        }
                    }
                },
            }
        }
        Ok(out)
    }
}

/// A nearest-neighbor result holds at most `k` rows in non-decreasing order of
/// distance, and where the query itself is stored, the first result lies at
/// distance zero.
pub proof fn lemma_nearest_results(rows: Seq<RowView>, q: Seq<i32>, k: nat, r: Seq<Neighbor>)
    requires
        rows_valid(rows, q.len()),
        k > 0,
        is_nearest(rows, q, k, r),
    ensures
        r.len() <= k,
        forall|i: int, j: int|
            0 <= i <= j < r.len() ==> (#[trigger] r[i]).sq_distance <= (#[trigger] r[j]).sq_distance,
        (exists|j: int| 0 <= j < rows.len() && (#[trigger] rows[j]).1 == q) ==> r.len() > 0
            && r[0].sq_distance == 0,
{
    assert forall|i: int, j: int|
        0 <= i <= j < r.len() implies (#[trigger] r[i]).sq_distance <= (
        #[trigger] r[j]).sq_distance by {
        if i < j {
            assert(key_lt(
                r[i].sq_distance as int,
                r[i].rowid as int,
                r[j].sq_distance as int,
                r[j].rowid as int,
            ));
        }
    }
    if exists|j: int| 0 <= j < rows.len() && (#[trigger] rows[j]).1 == q {
        let j = choose|j: int| 0 <= j < rows.len() && (#[trigger] rows[j]).1 == q;
        lemma_sq_dist_self(q, q.len());
        assert(sq_dist(rows[j].1, q) == 0);
        if r.len() == 0 {
            assert(lists_row(r, rows[j].0));
        }
        assert(r.len() > 0);
        if lists_row(r, rows[j].0) {
            let i = choose|i: int| 0 <= i < r.len() && (#[trigger] r[i]).rowid == rows[j].0;
            assert(reports_row(rows, q, r[i]));
            let j2 = choose|j2: int|
                0 <= j2 < rows.len() && (#[trigger] rows[j2]).0 == r[i].rowid && r[i].sq_distance
                    == sq_dist(rows[j2].1, q);
            assert(j2 == j);
            assert(r[0].sq_distance <= r[i].sq_distance);
        } else {
            assert(r[0].sq_distance <= r[r.len() - 1].sq_distance);
        }
    }
}

/// After `put`, the vector is stored under its row identifier, so that a
/// query for it finds it at distance zero (see `lemma_nearest_results`).
pub proof fn lemma_put_stores(rows: Seq<RowView>, id: i64, v: Seq<i32>, dim: nat)
    requires
        rows_valid(rows, dim),
        v.len() == dim,
    ensures
        rows_valid(put_rows(rows, id, v), dim),
        exists|j: int|
            0 <= j < put_rows(rows, id, v).len() && #[trigger] put_rows(rows, id, v)[j] == (id, v),
{
    let r = put_rows(rows, id, v);
    if exists|i: int| 0 <= i < rows.len() && (#[trigger] rows[i]).0 == id {
        let i = choose|i: int| 0 <= i < rows.len() && (#[trigger] rows[i]).0 == id;
        assert(r[i] == (id, v));
    } else {
        assert(r[rows.len() as int] == (id, v));
    }
}

} // verus!
