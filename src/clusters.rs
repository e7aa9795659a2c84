use vstd::prelude::*;

use crate::error::CoreError;
use crate::kmeans::{
    cluster_precheck, embeddings, k_means_run, k_means_seeded, valid_seeds, Clustering,
};
use crate::sampling::seeded_indices;
use crate::vectors::{Point, RowView, VectorStore};

verus! {

/// One cluster assignment of one row, under the generation of the run that
/// made it.
#[derive(Debug, Clone, Copy, PartialEq, Eq)]
pub struct ClusterAssignment {
    pub rowid: i64,
    pub cluster_id: usize,
    pub generation: u64,
    pub created_at: i64,
}

/// The largest generation id in the log; 0 when it is empty.
pub open spec fn max_generation(s: Seq<ClusterAssignment>) -> nat
    decreases s.len(),
{
    if s.len() == 0 {
        0
    } else {
        let m = max_generation(s.drop_last());
        if s.last().generation > m {
            s.last().generation as nat
        } else {
            m
        }
    }
}

/// The generation id that the next run receives.
pub open spec fn next_generation(s: Seq<ClusterAssignment>) -> nat {
    max_generation(s) + 1
}

/// The rows of generation `g`, in log order.
pub open spec fn rows_of_generation(s: Seq<ClusterAssignment>, g: nat) -> Seq<ClusterAssignment>
    decreases s.len(),
{
    if s.len() == 0 {
        Seq::empty()
    } else {
        let rest = rows_of_generation(s.drop_last(), g);
        if s.last().generation == g {
            rest.push(s.last())
        } else {
            rest
        }
    }
}

/// The current assignments: those of the latest generation.
pub open spec fn current_rows(s: Seq<ClusterAssignment>) -> Seq<ClusterAssignment> {
    rows_of_generation(s, max_generation(s))
}

/// The rows that one run writes: row `i` puts `rowids[i]` in `clusters[i]`.
pub open spec fn tagged(rowids: Seq<i64>, clusters: Seq<int>, g: nat, created_at: i64) -> Seq<ClusterAssignment> {
    Seq::new(
        rowids.len(),
        |i: int|
            ClusterAssignment {
                rowid: rowids[i],
                cluster_id: clusters[i] as usize,
                generation: g as u64,
                created_at,
            },
    )
}

/// The row identifiers of a sequence of points.
pub open spec fn point_rowids(points: Seq<Point>) -> Seq<i64> {
    points.map_values(|p: Point| p.rowid)
}

/// The row identifiers of stored rows.
pub open spec fn store_rowids(rows: Seq<RowView>) -> Seq<i64> {
    rows.map_values(|r: RowView| r.0)
}

/// The embeddings of stored rows.
pub open spec fn store_embeddings(rows: Seq<RowView>) -> Seq<Seq<i32>> {
    rows.map_values(|r: RowView| r.1)
}

/// Cluster assignments, appended one whole generation at a time and never
/// changed afterwards.
pub struct AssignmentLog {
    rows: Vec<ClusterAssignment>,
}

impl View for AssignmentLog {
    type V = Seq<ClusterAssignment>;

    closed spec fn view(&self) -> Seq<ClusterAssignment> {
        self.rows@
    }
}

impl AssignmentLog {
    pub fn new() -> (r: AssignmentLog)
        ensures
            r@ == Seq::<ClusterAssignment>::empty(),
    {
        AssignmentLog { rows: Vec::new() }
    }

    /// A log holding rows read back from storage.
    pub fn from_rows(rows: Vec<ClusterAssignment>) -> (r: AssignmentLog)
        ensures
            r@ == rows@,
    {
        AssignmentLog { rows }
    }

    /// Every row, in the order written.
    pub fn rows(&self) -> (r: &Vec<ClusterAssignment>)
        ensures
            r@ == self@,
    {
        &self.rows
    }

    /// The largest generation id written so far; 0 when there is none.
    pub fn max_generation(&self) -> (r: u64)
        ensures
            r == max_generation(self@),
    {
        let mut m: u64 = 0;
        let mut i: usize = 0;
        while i < self.rows.len()
            invariant
                i <= self.rows.len(),
                m == max_generation(self@.subrange(0, i as int)),
            decreases self.rows.len() - i,
        {
            assert(self@.subrange(0, i + 1).drop_last() =~= self@.subrange(0, i as int));
            let g = self.rows[i].generation;
            if g > m {
                m = g;
            }
            i = i + 1;
        }
        assert(self@.subrange(0, self@.len() as int) =~= self@);
        m
    }

    /// The assignments of the latest generation.
    pub fn current(&self) -> (r: Vec<ClusterAssignment>)
        ensures
            r@ == current_rows(self@),
    {
        let g = self.max_generation();
        let mut out: Vec<ClusterAssignment> = Vec::new();
        let mut i: usize = 0;
        while i < self.rows.len()
            invariant
                i <= self.rows.len(),
                g == max_generation(self@),
                out@ == rows_of_generation(self@.subrange(0, i as int), g as nat),
            decreases self.rows.len() - i,
        {
            assert(self@.subrange(0, i + 1).drop_last() =~= self@.subrange(0, i as int));
            let a = self.rows[i];
            if a.generation == g {
                out.push(a);
            }
            i = i + 1;
        }
        assert(self@.subrange(0, self@.len() as int) =~= self@);
        out
    }
}

/// Writes one generation: row `i` assigns `points[i]` to `assignments[i]`,
/// all under the next generation id, which is returned. Nothing is written
/// when the counts differ, when there are no points, or when generation ids
/// are exhausted.
pub fn insert_cluster_assignments(
    log: &mut AssignmentLog,
    assignments: &[usize],
    points: &[Point],
    created_at: i64,
) -> (r: Result<u64, CoreError>)
    ensures
        assignments.len() != points.len() ==> r == Err::<u64, CoreError>(
            CoreError::Validation(
                crate::error::Invalid::AssignmentCount {
                    assignments: assignments.len(),
                    points: points.len(),
                },
            ),
        ),
        assignments.len() == points.len() && points.len() == 0 ==> r == Err::<u64, CoreError>(
            CoreError::ClusteringPrecondition { k: 0, point_count: 0 },
        ),
        assignments.len() == points.len() && points.len() > 0 && max_generation(old(log)@)
            >= u64::MAX ==> r is Err && r->Err_0 is Store,
        r is Err ==> final(log)@ == old(log)@,
        assignments.len() == points.len() && points.len() > 0 && max_generation(old(log)@)
            < u64::MAX ==> r == Ok::<u64, CoreError>(next_generation(old(log)@) as u64)
            && final(log)@ == old(log)@ + tagged(
            point_rowids(points@),
            assignments@.map_values(|x: usize| x as int),
            next_generation(old(log)@),
            created_at,
        ),
{
    if assignments.len() != points.len() {
        return Err(
            CoreError::Validation(
                crate::error::Invalid::AssignmentCount {
                    assignments: assignments.len(),
                    points: points.len(),
                },
            ),
        );
    }
    if points.len() == 0 {
        return Err(CoreError::ClusteringPrecondition { k: 0, point_count: 0 });
    }
    let m = log.max_generation();
    if m == u64::MAX {
        return Err(CoreError::Store { message: "generation ids are exhausted".to_string() });
    }
    let g = m + 1;
    let ghost before = log@;
    let ghost batch = tagged(
        point_rowids(points@),
        assignments@.map_values(|x: usize| x as int),
        g as nat,
        created_at,
    );
    let mut i: usize = 0;
    while i < points.len()
        invariant
            assignments.len() == points.len(),
            i <= points.len(),
            batch == tagged(
                point_rowids(points@),
                assignments@.map_values(|x: usize| x as int),
                g as nat,
                created_at,
            ),
            log@ == before + batch.subrange(0, i as int),
        decreases points.len() - i,
    {
        let a = ClusterAssignment {
            rowid: points[i].rowid,
            cluster_id: assignments[i],
            generation: g,
            created_at,
        };
        assert(a == batch[i as int]);
        log.rows.push(a);
        assert(batch.subrange(0, i + 1) =~= batch.subrange(0, i as int).push(a));
        assert(log@ =~= before + batch.subrange(0, i + 1));
        i = i + 1;
    }
    assert(batch.subrange(0, points.len() as int) =~= batch);
    Ok(g)
}

/// Clusters every stored vector and writes the assignments as a new
/// generation, whose id is returned: seeded k-means over the store's rows in
/// storage order, then one row per point under the next generation id.
/// Nothing is written when the request is refused.
pub fn cluster(
    store: &VectorStore,
    log: &mut AssignmentLog,
    k: usize,
    max_iterations: usize,
    seed: u64,
    created_at: i64,
) -> (r: Result<u64, CoreError>)
    requires
        store.wf(),
    ensures
        cluster_precheck(store_embeddings(store@), k, max_iterations) is Some ==> r == Err::<
            u64,
            CoreError,
        >(cluster_precheck(store_embeddings(store@), k, max_iterations)->Some_0),
        r is Err ==> final(log)@ == old(log)@,
        cluster_precheck(store_embeddings(store@), k, max_iterations) is None ==> valid_seeds(
            seeded_indices(seed, store@.len() as usize, k),
            store@.len(),
            k as nat,
        ),
        cluster_precheck(store_embeddings(store@), k, max_iterations) is None && max_generation(
            old(log)@,
        ) >= u64::MAX ==> r is Err && r->Err_0 is Store,
        cluster_precheck(store_embeddings(store@), k, max_iterations) is None && max_generation(
            old(log)@,
        ) < u64::MAX ==> r == Ok::<u64, CoreError>(next_generation(old(log)@) as u64)
            && final(log)@ == old(log)@ + tagged(
            store_rowids(store@),
            k_means_run(
                store_embeddings(store@),
                seeded_indices(seed, store@.len() as usize, k),
                max_iterations as nat,
            ).0,
            next_generation(old(log)@),
            created_at,
        ),
{
    let points = store.all();
    proof {
        assert(points@.len() == store@.len()) by {
            assert(points@.map_values(|p: Point| p@).len() == points@.len());
        }
        assert forall|i: int| 0 <= i < points@.len() implies #[trigger] points@[i]@ == store@[i] by {
            assert(points@.map_values(|p: Point| p@)[i] == points@[i]@);
        }
        assert(embeddings(points@) =~= store_embeddings(store@));
        assert(point_rowids(points@) =~= store_rowids(store@));
    }
    let c: Clustering = match k_means_seeded(&points, k, max_iterations, seed) {
        Ok(c) => c,
        Err(e) => {
            return Err(e);
        },
    };
    let ghost a = c.assignments@;
    let r = insert_cluster_assignments(log, &c.assignments, &points, created_at);
    proof {
        assert(a.map_values(|x: usize| x as int) =~= crate::kmeans::as_ints(a));
    }
    r
}

proof fn lemma_generation_bound(s: Seq<ClusterAssignment>, i: int)
    requires
        0 <= i < s.len(),
    ensures
        s[i].generation <= max_generation(s),
    decreases s.len(),
{
    if i < s.len() - 1 {
        lemma_generation_bound(s.drop_last(), i);
    }
}

proof fn lemma_no_rows_above_max(s: Seq<ClusterAssignment>, g: nat)
    requires
        max_generation(s) < g,
    ensures
        rows_of_generation(s, g) == Seq::<ClusterAssignment>::empty(),
    decreases s.len(),
{
    if s.len() > 0 {
        lemma_generation_bound(s, s.len() - 1);
        if s.drop_last().len() > 0 {
            assert(max_generation(s.drop_last()) <= max_generation(s));
        }
        lemma_no_rows_above_max(s.drop_last(), g);
    }
}

/// Appending rows that all carry generation `g`, above every earlier one,
/// makes `g` the maximum and those rows the current ones.
proof fn lemma_append_generation(s: Seq<ClusterAssignment>, t: Seq<ClusterAssignment>, g: nat)
    requires
        t.len() > 0,
        max_generation(s) < g,
        forall|i: int| 0 <= i < t.len() ==> (#[trigger] t[i]).generation == g,
    ensures
        max_generation(s + t) == g,
        rows_of_generation(s + t, g) == t,
    decreases t.len(),
{
    assert((s + t).drop_last() =~= s + t.drop_last());
    assert((s + t).last() == t.last());
    if t.len() == 1 {
        assert(s + t.drop_last() =~= s);
        lemma_no_rows_above_max(s, g);
        assert(Seq::<ClusterAssignment>::empty().push(t.last()) =~= t);
    } else {
        lemma_append_generation(s, t.drop_last(), g);
        assert(t.drop_last().push(t.last()) =~= t);
    }
}

/// Successive runs get strictly increasing generation ids, and after two
/// runs the current assignments are exactly the rows of the second.
pub proof fn lemma_successive_runs(
    log: Seq<ClusterAssignment>,
    rowids1: Seq<i64>,
    clusters1: Seq<int>,
    created1: i64,
    rowids2: Seq<i64>,
    clusters2: Seq<int>,
    created2: i64,
)
    requires
        rowids1.len() > 0,
        rowids2.len() > 0,
        max_generation(log) + 2 <= u64::MAX,
    ensures
        ({
            let g1 = next_generation(log);
            let log1 = log + tagged(rowids1, clusters1, g1, created1);
            let g2 = next_generation(log1);
            let log2 = log1 + tagged(rowids2, clusters2, g2, created2);
            &&& g1 < g2
            &&& current_rows(log2) == tagged(rowids2, clusters2, g2, created2)
        }),
{
    let g1 = next_generation(log);
    let t1 = tagged(rowids1, clusters1, g1, created1);
    lemma_append_generation(log, t1, g1);
    let log1 = log + t1;
    let g2 = next_generation(log1);
    let t2 = tagged(rowids2, clusters2, g2, created2);
    lemma_append_generation(log1, t2, g2);
}

} // verus!
