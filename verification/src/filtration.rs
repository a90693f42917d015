//! The filtration engine: per-dimension grade storage kept in lockstep with a
//! simplicial complex, with the filtration monotonicity invariant enforced on
//! every insertion.

use vstd::prelude::*;
use vstd::pervasive::unreached;

use crate::simplicial_complex::{
    all_facets_present, cells_wf, facet_vertices, is_sorted, simplex_present, strictly_sorted,
    Dimension, SimplicialComplex, Vertex,
};
use crate::CriticalGrade;

verus! {

/// A rejected insertion, always caused by the data handed in: the engine's own
/// bookkeeping is kept intact by every outcome.
#[derive(Debug)]
pub enum FiltrationError<G> {
    /// The vertex sequence handed to the insertion was not strictly ascending.
    UnsortedVertices,
    /// The dimension of the simplex exceeds the bound the complex was built
    /// with.
    DimensionTooLarge { dimension: Dimension, max_dimension: Dimension },
    /// A facet of the simplex has not been inserted yet, so no grade is on
    /// record to validate against.
    MissingFace { dimension: Dimension, face: Vec<Vertex> },
    /// The grade supplied for the simplex does not dominate the grade of one
    /// of its facets: the data arrived out of filtration order.
    MonotonicityViolation {
        dimension: Dimension,
        face_index: usize,
        face_grade: G,
        grade: G,
    },
}

/// Structural synchronization of grade storage with cell storage: one grade
/// sequence per dimension, each exactly as long as the cell count there.
pub open spec fn grades_synced<G>(cells: Seq<Seq<Seq<Vertex>>>, grades: Seq<Seq<G>>) -> bool {
    &&& grades.len() == cells.len()
    &&& (forall|d: int|
        0 <= d < grades.len() ==> (#[trigger] grades[d]).len() == cells[d].len())
}

/// Filtration monotonicity: whenever the cell at `(d - 1, k)` is a facet of
/// the cell at `(d, i)`, its grade precedes (or equals) that cell's grade.
pub open spec fn grades_monotone<G: CriticalGrade>(
    cells: Seq<Seq<Seq<Vertex>>>,
    grades: Seq<Seq<G>>,
) -> bool {
    forall|d: int, i: int, j: int, k: int|
        #![trigger cells[d][i].remove(j), cells[d - 1][k]]
        1 <= d < cells.len() && 0 <= i < cells[d].len() && 0 <= j < cells[d][i].len() && 0 <= k
            < cells[d - 1].len() && cells[d - 1][k] == cells[d][i].remove(j) ==> grades[d - 1][k].lte_spec(
            grades[d][i],
        )
}

/// Whether every facet of the candidate simplex `s` that is on record in
/// dimension `dim - 1` carries a grade that `g` dominates.
pub open spec fn facets_dominated<G: CriticalGrade>(
    cells: Seq<Seq<Seq<Vertex>>>,
    grades: Seq<Seq<G>>,
    dim: int,
    s: Seq<Vertex>,
    g: G,
) -> bool {
    forall|j: int, k: int|
        #![trigger s.remove(j), cells[dim - 1][k]]
        0 <= j < s.len() && 0 <= k < cells[dim - 1].len() && cells[dim - 1][k] == s.remove(j)
            ==> grades[dim - 1][k].lte_spec(g)
}

/// Appending a new simplex with a grade that dominates the grades of all of
/// its facets preserves filtration monotonicity.
proof fn lemma_monotone_append<G: CriticalGrade>(
    cells: Seq<Seq<Seq<Vertex>>>,
    grades: Seq<Seq<G>>,
    dim: int,
    s: Seq<Vertex>,
    g: G,
)
    requires
        cells_wf(cells),
        0 <= dim < cells.len(),
        grades_synced(cells, grades),
        grades_monotone(cells, grades),
        s.len() == dim + 1,
        !simplex_present(cells, dim, s),
        dim > 0 ==> facets_dominated(cells, grades, dim, s, g),
    ensures
        grades_monotone(
            cells.update(dim, cells[dim].push(s)),
            grades.update(dim, grades[dim].push(g)),
        ),
{
    let newc = cells.update(dim, cells[dim].push(s));
    let newg = grades.update(dim, grades[dim].push(g));
    let newlen = cells[dim].len() as int;
    assert forall|d: int, i: int, j: int, k: int|
        #![trigger newc[d][i].remove(j), newc[d - 1][k]]
        1 <= d < newc.len() && 0 <= i < newc[d].len() && 0 <= j < newc[d][i].len() && 0 <= k
            < newc[d - 1].len() && newc[d - 1][k] == newc[d][i].remove(j) implies newg[d - 1][k].lte_spec(
        newg[d][i],
    ) by {
        if d == dim && i == newlen {
            assert(newc[d][i] == s);
            assert(newc[d - 1] == cells[d - 1]);
            assert(cells[dim - 1][k] == s.remove(j));
            assert(grades[dim - 1][k].lte_spec(g));
            assert(newg[d - 1][k] == grades[dim - 1][k]);
            assert(newg[d][i] == g);
        } else if d == dim + 1 && k == newlen {
            assert(newc[d][i] == cells[d][i]);
            assert(newc[d - 1][k] == s);
            assert(all_facets_present(cells, d, cells[d][i]));
            assert(simplex_present(cells, dim, cells[d][i].remove(j)));
            assert(s == cells[d][i].remove(j));
            assert(simplex_present(cells, dim, s));
            assert(false);
        } else {
            assert(newc[d][i] == cells[d][i]);
            assert(newc[d - 1][k] == cells[d - 1][k]);
            assert(newg[d][i] == grades[d][i]);
            assert(newg[d - 1][k] == grades[d - 1][k]);
            assert(cells[d - 1][k] == cells[d][i].remove(j));
        }
    }
}

/// An assignment of critical grades to the cells of a simplicial complex,
/// one grade sequence per dimension, index-aligned with the complex's own
/// indexing, such that every cell's grade dominates the grades of its facets.
#[derive(Debug)]
pub struct Filtration<G, S> {
    /// Critical grade for each cell in each dimension: first the dimensions
    /// are indexed, then the cells.
    grades: Vec<Vec<G>>,
    /// The underlying simplicial complex being filtered.
    complex: S,
}

impl<G: CriticalGrade, S: SimplicialComplex> Filtration<G, S> {
    /// The underlying complex, as a spec-level value.
    pub closed spec fn spec_complex(&self) -> S {
        self.complex
    }

    /// The grades, dimension by dimension, as mathematical sequences.
    pub closed spec fn grades_view(&self) -> Seq<Seq<G>> {
        self.grades@.map_values(|row: Vec<G>| row@)
    }

    /// The abstract contents of the underlying complex.
    pub open spec fn cells(&self) -> Seq<Seq<Seq<Vertex>>> {
        self.spec_complex().cells()
    }

    /// The dimension bound of the underlying complex.
    pub open spec fn spec_max_dimension(&self) -> int {
        self.spec_complex().spec_max_dimension()
    }

    /// Structural synchronization with the underlying complex.
    pub open spec fn sync_ok(&self) -> bool {
        grades_synced(self.cells(), self.grades_view())
    }

    /// Filtration monotonicity of the recorded grades.
    pub open spec fn monotone_ok(&self) -> bool {
        grades_monotone(self.cells(), self.grades_view())
    }

    /// The engine's invariant, established by construction and preserved by
    /// every insertion.
    pub open spec fn wf(&self) -> bool {
        &&& self.spec_complex().wf()
        &&& self.sync_ok()
        &&& self.monotone_ok()
    }

    /// Whether an insertion is bound to be accepted: the vertex sequence is
    /// strictly ascending and of the right length, the dimension is within
    /// the bound, the simplex is new, and — above dimension 0 — every facet is
    /// on record with a grade that `g` dominates.
    pub open spec fn can_insert(&self, g: G, dim: int, s: Seq<Vertex>) -> bool {
        &&& strictly_sorted(s)
        &&& s.len() == dim + 1
        &&& dim <= self.spec_max_dimension()
        &&& !simplex_present(self.cells(), dim, s)
        &&& (dim > 0 ==> all_facets_present(self.cells(), dim, s))
        &&& (dim > 0 ==> facets_dominated(self.cells(), self.grades_view(), dim, s, g))
    }

    /// The contract of an insertion of grade `g` for the simplex `s` at
    /// dimension `dim`, relating the engine before (`self`) and after
    /// (`post`) to the outcome `r`:
    /// - `Ok(Some((dim, idx)))` exactly when the insertion is admissible; the
    ///   simplex receives the next index of its dimension and `g` is appended
    ///   to that dimension's grades;
    /// - `Ok(None)` exactly when a well-formed insertion meets a simplex that
    ///   is already present: nothing changes, the first grade is permanent;
    /// - `Err(..)` otherwise, with the error naming what the data got wrong;
    ///   nothing changes.
    pub open spec fn insert_outcome(
        self,
        post: Self,
        g: G,
        dim: int,
        s: Seq<Vertex>,
        r: Result<Option<(Dimension, usize)>, FiltrationError<G>>,
    ) -> bool {
        &&& post.wf()
        &&& post.spec_max_dimension() == self.spec_max_dimension()
        &&& ((r matches Ok(Some(_))) <==> self.can_insert(g, dim, s))
        &&& ((r matches Ok(None)) <==> (strictly_sorted(s) && dim <= self.spec_max_dimension()
            && simplex_present(self.cells(), dim, s)))
        &&& match r {
            Ok(o) => match o {
                Some((d, idx)) => {
                    &&& d == dim
                    &&& idx as int == self.cells()[dim].len()
                    &&& post.cells() == self.cells().update(dim, self.cells()[dim].push(s))
                    &&& post.grades_view() == self.grades_view().update(
                        dim,
                        self.grades_view()[dim].push(g),
                    )
                    &&& post.grades_view()[dim][idx as int] == g
                },
                None => post == self,
            },
            Err(e) => {
                &&& post == self
                &&& match e {
                    FiltrationError::UnsortedVertices => !strictly_sorted(s),
                    FiltrationError::DimensionTooLarge { dimension, max_dimension } => {
                        &&& strictly_sorted(s)
                        &&& dimension == dim
                        &&& max_dimension as int == self.spec_max_dimension()
                        &&& dim > self.spec_max_dimension()
                    },
                    FiltrationError::MissingFace { dimension, face } => {
                        &&& strictly_sorted(s)
                        &&& dimension == dim
                        &&& dim > 0
                        &&& !simplex_present(self.cells(), dim, s)
                        &&& (exists|j: int| 0 <= j < s.len() && face@ == #[trigger] s.remove(j))
                        &&& !simplex_present(self.cells(), dim - 1, face@)
                    },
                    FiltrationError::MonotonicityViolation {
                        dimension,
                        face_index,
                        face_grade,
                        grade,
                    } => {
                        &&& strictly_sorted(s)
                        &&& dimension == dim
                        &&& dim > 0
                        &&& !simplex_present(self.cells(), dim, s)
                        &&& grade == g
                        &&& face_index < self.cells()[dim - 1].len()
                        &&& (exists|j: int|
                            0 <= j < s.len() && self.cells()[dim - 1][face_index as int]
                                == #[trigger] s.remove(j))
                        &&& face_grade == self.grades_view()[dim - 1][face_index as int]
                        &&& !face_grade.lte_spec(g)
                    },
                }
            },
        }
    }

    /// Wraps an existing complex, seeding the grade of every cell already
    /// present to the bottom element of the grade domain.
    pub fn new(complex: S) -> (r: Self)
        requires
            complex.wf(),
        ensures
            r.wf(),
            r.spec_complex() == complex,
            r.grades_view().len() == complex.cells().len(),
            forall|d: int, i: int|
                0 <= d < r.grades_view().len() && 0 <= i < r.grades_view()[d].len()
                    ==> #[trigger] r.grades_view()[d][i] == G::min_spec(),
    {
        proof {
            complex.lemma_wf();
        }
        let max_dim = complex.max_dimension();
        let mut grades: Vec<Vec<G>> = Vec::new();
        let mut d: usize = 0;
        while d <= max_dim
            invariant
                complex.wf(),
                max_dim as int == complex.spec_max_dimension(),
                max_dim < usize::MAX,
                complex.cells().len() == max_dim as int + 1,
                d <= max_dim + 1,
                grades@.len() == d,
                forall|dd: int|
                    0 <= dd < d ==> (#[trigger] grades@[dd])@.len() == complex.cells()[dd].len(),
                forall|dd: int, i: int|
                    0 <= dd < d && 0 <= i < grades@[dd]@.len() ==> (#[trigger] grades@[dd]@[i])
                        == G::min_spec(),
            decreases max_dim + 1 - d,
        {
            let n = complex.n_cells(d);
            let mut row: Vec<G> = Vec::new();
            let mut i: usize = 0;
            while i < n
                invariant
                    i <= n,
                    row@.len() == i,
                    forall|p: int| 0 <= p < i ==> (#[trigger] row@[p]) == G::min_spec(),
                decreases n - i,
            {
                row.push(G::min_value());
                i += 1;
            }
            grades.push(row);
            d += 1;
        }
        let r = Filtration { grades, complex };
        proof {
            assert forall|dd: int, i: int, j: int, k: int|
                #![trigger r.cells()[dd][i].remove(j), r.cells()[dd - 1][k]]
                1 <= dd < r.cells().len() && 0 <= i < r.cells()[dd].len() && 0 <= j
                    < r.cells()[dd][i].len() && 0 <= k < r.cells()[dd - 1].len() && r.cells()[dd
                    - 1][k] == r.cells()[dd][i].remove(j) implies r.grades_view()[dd - 1][k].lte_spec(
                r.grades_view()[dd][i],
            ) by {
                G::lemma_min_value_lte(G::min_spec());
            }
        }
        r
    }

    /// Builds a fresh empty complex bounded by `(max_vertices, max_dim)` and
    /// wraps it into an empty filtration.
    pub fn new_empty(max_vertices: Vertex, max_dim: Dimension) -> (r: Self)
        requires
            max_dim < usize::MAX,
        ensures
            r.wf(),
            r.spec_max_dimension() == max_dim as int,
            forall|d: int| 0 <= d < r.cells().len() ==> (#[trigger] r.cells()[d]).len() == 0,
    {
        let s = S::new(max_vertices, max_dim);
        Self::new(s)
    }

    /// Inserts the simplex with the given strictly ascending vertex sequence,
    /// computing its dimension from the sequence length.  The grade first
    /// supplied for a simplex is permanent; see [`Self::insert_outcome`] for
    /// the full contract.
    pub fn add(&mut self, g: G, s: &[Vertex]) -> (r: Result<
        Option<(Dimension, usize)>,
        FiltrationError<G>,
    >)
        requires
            old(self).wf(),
            s@.len() >= 1,
        ensures
            old(self).insert_outcome(*final(self), g, s@.len() - 1, s@, r),
    {
        let dim = s.len() - 1;
        self.add_iter(g, dim, s)
    }

    /// Inserts the simplex with the given dimension and strictly ascending
    /// vertex sequence, recording `g` as its permanent grade when it is new.
    /// See [`Self::insert_outcome`] for the full contract.
    #[verifier::loop_isolation(false)]
    pub fn add_iter(&mut self, g: G, dim: Dimension, s: &[Vertex]) -> (r: Result<
        Option<(Dimension, usize)>,
        FiltrationError<G>,
    >)
        requires
            old(self).wf(),
            s@.len() == dim as int + 1,
        ensures
            old(self).insert_outcome(*final(self), g, dim as int, s@, r),
    {
        if !is_sorted(s) {
            return Err(FiltrationError::UnsortedVertices);
        }
        let max_dim = self.complex.max_dimension();
        if dim > max_dim {
            return Err(FiltrationError::DimensionTooLarge { dimension: dim, max_dimension: max_dim });
        }
        proof {
            self.complex.lemma_wf();
        }
        if let Some(_) = self.complex.index_of(dim, s) {
            return Ok(None);
        }
        if dim > 0 {
            let mut j: usize = 0;
            while j < s.len()
                invariant
                    j <= s@.len(),
                    forall|jj: int|
                        0 <= jj < j ==> simplex_present(
                            self.cells(),
                            dim as int - 1,
                            #[trigger] s@.remove(jj),
                        ),
                    forall|jj: int, k: int|
                        #![trigger s@.remove(jj), self.cells()[dim as int - 1][k]]
                        0 <= jj < j && 0 <= k < self.cells()[dim as int - 1].len()
                            && self.cells()[dim as int - 1][k] == s@.remove(jj)
                            ==> self.grades_view()[dim as int - 1][k].lte_spec(g),
                decreases s@.len() - j,
            {
                let f = facet_vertices(s, j);
                match self.complex.index_of(dim - 1, f.as_slice()) {
                    None => {
                        return Err(FiltrationError::MissingFace { dimension: dim, face: f });
                    },
                    Some(fi) => {
                        let face_grade = *self.value_of(dim - 1, fi);
                        if !face_grade.lte(&g) {
                            return Err(FiltrationError::MonotonicityViolation {
                                dimension: dim,
                                face_index: fi,
                                face_grade,
                                grade: g,
                            });
                        }
                        proof {
                            assert forall|k: int|
                                #![trigger self.cells()[dim as int - 1][k]]
                                0 <= k < self.cells()[dim as int - 1].len()
                                    && self.cells()[dim as int - 1][k] == s@.remove(j as int)
                                    implies self.grades_view()[dim as int - 1][k].lte_spec(g) by {
                                if k != fi as int {
                                    if k < fi as int {
                                        assert(self.cells()[dim as int - 1][k] != self.cells()[dim as int
                                            - 1][fi as int]);
                                    } else {
                                        assert(self.cells()[dim as int - 1][fi as int]
                                            != self.cells()[dim as int - 1][k]);
                                    }
                                    assert(false);
                                }
                            }
                        }
                    },
                }
                j += 1;
            }
        }
        let ghost pre = *self;
        let added = self.complex.add(dim, s);
        match added {
            None => {
                proof {
                    assert(false);
                }
                unreached()
            },
            Some(idx) => {
                proof {
                    assert(self.grades@.len() == self.grades_view().len());
                    assert(self.grades@[dim as int]@ == self.grades_view()[dim as int]);
                    assert(idx as int == self.grades_view()[dim as int].len());
                }
                self.grades[dim].push(g);
                proof {
                    let oldc = pre.cells();
                    let oldg = pre.grades_view();
                    assert(self.cells() == oldc.update(dim as int, oldc[dim as int].push(s@)));
                    assert(self.grades_view() =~~= oldg.update(
                        dim as int,
                        oldg[dim as int].push(g),
                    ));
                    lemma_monotone_append(oldc, oldg, dim as int, s@, g);
                    assert forall|dd: int|
                        0 <= dd < self.grades_view().len() implies (
                    #[trigger] self.grades_view()[dd]).len() == self.cells()[dd].len() by {
                        if dd != dim as int {
                            assert(self.grades_view()[dd] == oldg[dd]);
                            assert(self.cells()[dd] == oldc[dd]);
                        }
                    }
                    assert(self.wf());
                }
                Ok(Some((dim, idx)))
            },
        }
    }

    /// The grade previously stored for the accepted simplex at `(dim, idx)`.
    pub fn value_of(&self, dim: Dimension, idx: usize) -> (r: &G)
        requires
            self.wf(),
            (dim as int) < self.cells().len(),
            (idx as int) < self.cells()[dim as int].len(),
        ensures
            *r == self.grades_view()[dim as int][idx as int],
    {
        proof {
            assert(self.grades@.len() == self.grades_view().len());
            assert(self.grades@[dim as int]@ == self.grades_view()[dim as int]);
        }
        &self.grades[dim][idx]
    }

    /// Read access to the underlying complex, for downstream algorithms that
    /// traverse the structure rather than the grades.
    pub fn simplicial_complex(&self) -> (r: &S)
        ensures
            *r == self.spec_complex(),
    {
        &self.complex
    }

    /// The synchronization law: in a well-formed filtration — as every
    /// construction and every insertion outcome leaves it — each dimension
    /// holds exactly as many grades as the complex holds cells.
    pub proof fn lemma_sync_invariant(&self, d: int)
        requires
            self.wf(),
            0 <= d < self.cells().len(),
        ensures
            self.grades_view().len() == self.cells().len(),
            self.grades_view()[d].len() == self.cells()[d].len(),
    {
    }

    /// The idempotence law: once an insertion has accepted a simplex, a second
    /// insertion of the same vertex sequence — whatever grade it supplies —
    /// reports "already present" and leaves the filtration unchanged, so the
    /// grade first supplied is permanent.
    pub proof fn lemma_insert_idempotent(
        pre: Self,
        mid: Self,
        post: Self,
        g1: G,
        g2: G,
        dim: int,
        s: Seq<Vertex>,
        r1: Result<Option<(Dimension, usize)>, FiltrationError<G>>,
        r2: Result<Option<(Dimension, usize)>, FiltrationError<G>>,
    )
        requires
            0 <= dim,
            pre.wf(),
            pre.insert_outcome(mid, g1, dim, s, r1),
            r1 matches Ok(Some(_)),
            mid.insert_outcome(post, g2, dim, s, r2),
        ensures
            r2 matches Ok(None),
            post == mid,
    {
        let k = pre.cells()[dim].len() as int;
        pre.spec_complex().lemma_wf();
        assert(0 <= dim < pre.cells().len());
        assert(mid.cells()[dim] == pre.cells()[dim].push(s));
        assert(mid.cells()[dim][k] == s);
        assert(simplex_present(mid.cells(), dim, s));
    }

    /// The round-trip law: the grade recorded by an accepted insertion is
    /// exactly the grade stored at the assigned `(dimension, index)`, which is
    /// what `value_of` reads back there.
    pub proof fn lemma_round_trip(
        pre: Self,
        post: Self,
        g: G,
        dim: int,
        s: Seq<Vertex>,
        r: Result<Option<(Dimension, usize)>, FiltrationError<G>>,
    )
        requires
            0 <= dim,
            pre.wf(),
            pre.insert_outcome(post, g, dim, s, r),
            r matches Ok(Some(_)),
        ensures
            r matches Ok(Some((d, idx))) ==> d == dim && (idx as int)
                < post.cells()[dim].len() && post.grades_view()[dim][idx as int] == g,
    {
        pre.spec_complex().lemma_wf();
        assert(0 <= dim < pre.cells().len());
        assert(post.cells()[dim] == pre.cells()[dim].push(s));
    }

    /// The monotonicity law: in a well-formed filtration, whenever the cell at
    /// `(d - 1, k)` is a facet of the cell at `(d, i)`, its grade precedes (or
    /// equals) the grade of that cell.
    pub proof fn lemma_monotonicity_invariant(&self, d: int, i: int, j: int, k: int)
        requires
            self.wf(),
            1 <= d < self.cells().len(),
            0 <= i < self.cells()[d].len(),
            0 <= j < self.cells()[d][i].len(),
            0 <= k < self.cells()[d - 1].len(),
            self.cells()[d - 1][k] == self.cells()[d][i].remove(j),
        ensures
            self.grades_view()[d - 1][k].lte_spec(self.grades_view()[d][i]),
    {
    }
}

} // verus!
