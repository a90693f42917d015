//! The combinatorial side of a filtration: vertex sequences, the capability
//! contract of an append-only store of simplices, and a Vec-backed store
//! implementing that contract.

use vstd::prelude::*;
use vstd::pervasive::unreached;

verus! {

/// A vertex identifier, unique within a complex and totally ordered.
pub type Vertex = usize;

/// The dimension of a simplex: one less than the length of its vertex sequence.
pub type Dimension = usize;

/// A vertex sequence is strictly ascending: sorted with no duplicates.
pub open spec fn strictly_sorted(s: Seq<Vertex>) -> bool {
    forall|p: int, q: int| 0 <= p < q < s.len() ==> s[p] < s[q]
}

/// Whether a simplex with vertex sequence `s` occurs among the cells of
/// dimension `dim`.
pub open spec fn simplex_present(cells: Seq<Seq<Seq<Vertex>>>, dim: int, s: Seq<Vertex>) -> bool {
    exists|k: int| 0 <= k < cells[dim].len() && (#[trigger] cells[dim][k]) == s
}

/// Whether every facet of `s` (each sequence obtained by dropping one vertex)
/// occurs among the cells of dimension `dim - 1`.
pub open spec fn all_facets_present(cells: Seq<Seq<Seq<Vertex>>>, dim: int, s: Seq<Vertex>) -> bool {
    forall|j: int| 0 <= j < s.len() ==> simplex_present(cells, dim - 1, #[trigger] s.remove(j))
}

/// Shape invariant of the abstract contents of a complex: every cell of
/// dimension `d` is a strictly ascending sequence of `d + 1` vertices, no two
/// cells of one dimension share a vertex sequence, and the cells are closed
/// under taking facets.
pub open spec fn cells_wf(cells: Seq<Seq<Seq<Vertex>>>) -> bool {
    &&& (forall|d: int, i: int|
        0 <= d < cells.len() && 0 <= i < cells[d].len() ==> (#[trigger] cells[d][i]).len() == d + 1
            && strictly_sorted(cells[d][i]))
    &&& (forall|d: int, i1: int, i2: int|
        0 <= d < cells.len() && 0 <= i1 < i2 < cells[d].len() ==> #[trigger] cells[d][i1]
            != #[trigger] cells[d][i2])
    &&& (forall|d: int, i: int|
        1 <= d < cells.len() && 0 <= i < cells[d].len() ==> all_facets_present(
            cells,
            d,
            #[trigger] cells[d][i],
        ))
}

/// Checks that a vertex sequence is strictly ascending (sorted, no duplicates).
pub fn is_sorted(s: &[Vertex]) -> (r: bool)
    ensures
        r == strictly_sorted(s@),
{
    let mut i: usize = 1;
    while i < s.len()
        invariant
            1 <= i,
            i <= s@.len() || s@.len() == 0,
            forall|p: int, q: int| 0 <= p < q < i ==> s@[p] < s@[q],
        decreases s@.len() - i,
    {
        if s[i - 1] >= s[i] {
            return false;
        }
        assert(forall|p: int| 0 <= p < i ==> #[trigger] s@[p] <= s@[i - 1]);
        i += 1;
    }
    true
}

/// Copies a vertex sequence into an owned vector.
fn copy_vertices(s: &[Vertex]) -> (r: Vec<Vertex>)
    ensures
        r@ == s@,
{
    let mut r: Vec<Vertex> = Vec::new();
    let mut i: usize = 0;
    while i < s.len()
        invariant
            i <= s@.len(),
            r@.len() == i,
            forall|p: int| 0 <= p < i ==> r@[p] == s@[p],
        decreases s@.len() - i,
    {
        r.push(s[i]);
        i += 1;
    }
    proof {
        assert(r@ =~= s@);
    }
    r
}

/// Compares two vertex sequences element by element.
fn slices_equal(a: &[Vertex], b: &[Vertex]) -> (r: bool)
    ensures
        r <==> a@ == b@,
{
    if a.len() != b.len() {
        return false;
    }
    let mut i: usize = 0;
    while i < a.len()
        invariant
            i <= a@.len(),
            a@.len() == b@.len(),
            forall|p: int| 0 <= p < i ==> a@[p] == b@[p],
        decreases a@.len() - i,
    {
        if a[i] != b[i] {
            return false;
        }
        i += 1;
    }
    proof {
        assert(a@ =~= b@);
    }
    true
}

/// Builds the `j`-th facet of a simplex: its vertex sequence with the `j`-th
/// vertex dropped.
pub(crate) fn facet_vertices(s: &[Vertex], j: usize) -> (r: Vec<Vertex>)
    requires
        (j as int) < s@.len(),
    ensures
        r@ == s@.remove(j as int),
{
    let mut r: Vec<Vertex> = Vec::new();
    let mut i: usize = 0;
    while i < s.len()
        invariant
            i <= s@.len(),
            (j as int) < s@.len(),
            r@.len() == (if i <= j {
                i as int
            } else {
                i as int - 1
            }),
            forall|p: int|
                0 <= p < r@.len() ==> r@[p] == (if p < j {
                    s@[p]
                } else {
                    s@[p + 1]
                }),
        decreases s@.len() - i,
    {
        if i != j {
            r.push(s[i]);
        }
        i += 1;
    }
    proof {
        s@.remove_ensures(j as int);
        assert(r@ =~= s@.remove(j as int));
    }
    r
}

/// Two different facets of a strictly ascending sequence differ: they disagree
/// at the position of the first dropped vertex.
proof fn lemma_facets_distinct(s: Seq<Vertex>, p: int, q: int)
    requires
        strictly_sorted(s),
        0 <= p < q < s.len(),
    ensures
        s.remove(p) != s.remove(q),
{
    s.remove_ensures(p);
    s.remove_ensures(q);
    assert(s.remove(p)[p] == s[p + 1]);
    assert(s.remove(q)[p] == s[p]);
    if s.remove(p) == s.remove(q) {
        assert(s.remove(p)[p] == s.remove(q)[p]);
        assert(false);
    }
}

/// The capability contract of the combinatorial collaborator: an append-only
/// store of simplices grouped by dimension.  Each newly accepted simplex of
/// dimension `d` receives the next dense, zero-based index of that dimension;
/// nothing is ever removed or reordered.
pub trait SimplicialComplex: Sized {
    /// The abstract contents: for each dimension, the vertex sequences of its
    /// accepted simplices in insertion order.
    spec fn cells(&self) -> Seq<Seq<Seq<Vertex>>>;

    /// The configured upper bound on accepted simplex dimensions.
    spec fn spec_max_dimension(&self) -> int;

    /// Well-formedness of the store.
    spec fn wf(&self) -> bool;

    /// What well-formedness guarantees about the abstract contents: one cell
    /// group per dimension from `0` through the bound, and the shape invariant
    /// of [`cells_wf`].
    proof fn lemma_wf(&self)
        requires
            self.wf(),
        ensures
            0 <= self.spec_max_dimension() < usize::MAX,
            self.cells().len() == self.spec_max_dimension() + 1,
            cells_wf(self.cells()),
    ;

    /// Creates an empty store with capacity reserved for the given bounds.
    /// `max_vertices` is a capacity hint only; `max_dimension` bounds the
    /// dimensions ever accepted.
    fn new(max_vertices: Vertex, max_dimension: Dimension) -> (r: Self)
        requires
            max_dimension < usize::MAX,
        ensures
            r.wf(),
            r.spec_max_dimension() == max_dimension as int,
            forall|d: int| 0 <= d < r.cells().len() ==> (#[trigger] r.cells()[d]).len() == 0,
    ;

    /// The configured upper bound on accepted simplex dimensions.
    fn max_dimension(&self) -> (r: Dimension)
        ensures
            r as int == self.spec_max_dimension(),
    ;

    /// The current count of accepted simplices of dimension `dim`.
    fn n_cells(&self, dim: Dimension) -> (r: usize)
        requires
            self.wf(),
            dim as int <= self.spec_max_dimension(),
        ensures
            r as int == self.cells()[dim as int].len(),
    ;

    /// Looks up the index assigned to the simplex with vertex sequence `s`
    /// in dimension `dim`, if it has been accepted.
    fn index_of(&self, dim: Dimension, s: &[Vertex]) -> (r: Option<usize>)
        requires
            self.wf(),
            dim as int <= self.spec_max_dimension(),
        ensures
            match r {
                Some(k) => (k as int) < self.cells()[dim as int].len() && self.cells()[dim as int][k as int]
                    == s@,
                None => !simplex_present(self.cells(), dim as int, s@),
            },
    ;

    /// Attempts structural insertion of the simplex with vertex sequence `s`
    /// into dimension `dim`.  A new simplex is appended and assigned the index
    /// `n_cells(dim)` held before the call; a simplex already present leaves
    /// the store unchanged.
    fn add(&mut self, dim: Dimension, s: &[Vertex]) -> (r: Option<usize>)
        requires
            old(self).wf(),
            dim as int <= old(self).spec_max_dimension(),
            s@.len() == dim as int + 1,
            strictly_sorted(s@),
            dim > 0 ==> all_facets_present(old(self).cells(), dim as int, s@),
        ensures
            final(self).wf(),
            final(self).spec_max_dimension() == old(self).spec_max_dimension(),
            match r {
                Some(idx) => !simplex_present(old(self).cells(), dim as int, s@) && idx as int
                    == old(self).cells()[dim as int].len() && final(self).cells() == old(
                    self,
                ).cells().update(
                    dim as int,
                    old(self).cells()[dim as int].push(s@),
                ),
                None => simplex_present(old(self).cells(), dim as int, s@) && *final(self) == *old(
                    self,
                ),
            },
    ;

    /// The indices, within dimension `dim - 1`, of all facets of the simplex
    /// at `(dim, idx)`: the entry at position `p` is the index assigned to the
    /// facet obtained by dropping the `p`-th vertex, so the enumeration is
    /// exhaustive and duplicate-free.
    fn boundary(&self, dim: Dimension, idx: usize) -> (r: Vec<usize>)
        requires
            self.wf(),
            1 <= dim,
            dim as int <= self.spec_max_dimension(),
            (idx as int) < self.cells()[dim as int].len(),
        ensures
            r@.len() == self.cells()[dim as int][idx as int].len(),
            forall|p: int|
                0 <= p < r@.len() ==> (#[trigger] r@[p]) < self.cells()[dim as int - 1].len()
                    && self.cells()[dim as int - 1][r@[p] as int]
                    == self.cells()[dim as int][idx as int].remove(p),
            forall|p: int, q: int| 0 <= p < q < r@.len() ==> r@[p] != r@[q],
    ;
}

/// An append-only, Vec-backed store of simplices: dimension by dimension, the
/// vertex sequences of the accepted simplices in insertion order.
pub struct VecComplex {
    simplices: Vec<Vec<Vec<Vertex>>>,
    max_dim: Dimension,
}

impl SimplicialComplex for VecComplex {
    closed spec fn cells(&self) -> Seq<Seq<Seq<Vertex>>> {
        self.simplices@.map_values(|row: Vec<Vec<Vertex>>| row@.map_values(|sx: Vec<Vertex>| sx@))
    }

    closed spec fn spec_max_dimension(&self) -> int {
        self.max_dim as int
    }

    closed spec fn wf(&self) -> bool {
        &&& self.max_dim < usize::MAX
        &&& self.cells().len() == self.max_dim as int + 1
        &&& cells_wf(self.cells())
    }

    proof fn lemma_wf(&self) {
    }

    fn new(max_vertices: Vertex, max_dimension: Dimension) -> (r: Self) {
        let mut simplices: Vec<Vec<Vec<Vertex>>> = Vec::new();
        let mut d: usize = 0;
        while d <= max_dimension
            invariant
                max_dimension < usize::MAX,
                d <= max_dimension + 1,
                simplices@.len() == d,
                forall|i: int| 0 <= i < d ==> (#[trigger] simplices@[i])@.len() == 0,
            decreases max_dimension + 1 - d,
        {
            if d == 0 {
                // The vertex count bound only reserves room for dimension 0.
                simplices.push(Vec::with_capacity(max_vertices));
            } else {
                simplices.push(Vec::new());
            }
            d += 1;
        }
        let r = VecComplex { simplices, max_dim: max_dimension };
        proof {
            assert(r.cells().len() == max_dimension as int + 1);
            assert forall|dd: int| 0 <= dd < r.cells().len() implies (#[trigger] r.cells()[dd]).len()
                == 0 by {
                assert(r.cells()[dd] == r.simplices@[dd]@.map_values(|sx: Vec<Vertex>| sx@));
            }
        }
        r
    }

    fn max_dimension(&self) -> (r: Dimension) {
        self.max_dim
    }

    fn n_cells(&self, dim: Dimension) -> (r: usize) {
        self.simplices[dim].len()
    }

    fn index_of(&self, dim: Dimension, s: &[Vertex]) -> (r: Option<usize>) {
        let n = self.simplices[dim].len();
        let mut k: usize = 0;
        while k < n
            invariant
                self.wf(),
                (dim as int) < self.cells().len(),
                n as int == self.cells()[dim as int].len(),
                k <= n,
                forall|kk: int| 0 <= kk < k ==> #[trigger] self.cells()[dim as int][kk] != s@,
            decreases n - k,
        {
            proof {
                assert(self.cells()[dim as int][k as int] == self.simplices@[dim as int]@[k as int]@);
            }
            if slices_equal(self.simplices[dim][k].as_slice(), s) {
                return Some(k);
            }
            k += 1;
        }
        None
    }

    fn add(&mut self, dim: Dimension, s: &[Vertex]) -> (r: Option<usize>) {
        match self.index_of(dim, s) {
            Some(_) => None,
            None => {
                let idx = self.simplices[dim].len();
                let owned = copy_vertices(s);
                self.simplices[dim].push(owned);
                proof {
                    let oldc = old(self).cells();
                    let newc = self.cells();
                    assert(newc =~~= oldc.update(dim as int, oldc[dim as int].push(s@)));
                    lemma_cells_wf_append(oldc, dim as int, s@);
                }
                Some(idx)
            },
        }
    }

    fn boundary(&self, dim: Dimension, idx: usize) -> (r: Vec<usize>) {
        let simplex_len = self.simplices[dim][idx].len();
        let mut out: Vec<usize> = Vec::new();
        let mut j: usize = 0;
        proof {
            assert(self.cells()[dim as int][idx as int] == self.simplices@[dim as int]@[idx as int]@);
        }
        while j < simplex_len
            invariant
                self.wf(),
                1 <= dim,
                (dim as int) < self.cells().len(),
                (idx as int) < self.cells()[dim as int].len(),
                simplex_len as int == self.cells()[dim as int][idx as int].len(),
                self.cells()[dim as int][idx as int] == self.simplices@[dim as int]@[idx as int]@,
                j <= simplex_len,
                out@.len() == j,
                forall|p: int|
                    0 <= p < j ==> (#[trigger] out@[p]) < self.cells()[dim as int - 1].len()
                        && self.cells()[dim as int - 1][out@[p] as int] == self.cells()[dim as int][idx as int].remove(
                        p,
                    ),
            decreases simplex_len - j,
        {
            let f = facet_vertices(self.simplices[dim][idx].as_slice(), j);
            match self.index_of(dim - 1, f.as_slice()) {
                Some(k) => {
                    out.push(k);
                },
                None => {
                    proof {
                        self.lemma_wf();
                        assert(all_facets_present(
                            self.cells(),
                            dim as int,
                            self.cells()[dim as int][idx as int],
                        ));
                        assert(simplex_present(
                            self.cells(),
                            dim as int - 1,
                            self.cells()[dim as int][idx as int].remove(j as int),
                        ));
                        assert(false);
                    }
                    return unreached();
                },
            }
            j += 1;
        }
        proof {
            self.lemma_wf();
            let cell = self.cells()[dim as int][idx as int];
            assert forall|p: int, q: int| 0 <= p < q < out@.len() implies out@[p] != out@[q] by {
                lemma_facets_distinct(cell, p, q);
                assert(self.cells()[dim as int - 1][out@[p] as int] == cell.remove(p));
                assert(self.cells()[dim as int - 1][out@[q] as int] == cell.remove(q));
            }
        }
        out
    }
}

/// Appending to one dimension a new simplex — strictly ascending, of the right
/// length, absent so far, with all of its facets present — preserves the shape
/// invariant of the contents.
proof fn lemma_cells_wf_append(cells: Seq<Seq<Seq<Vertex>>>, dim: int, s: Seq<Vertex>)
    requires
        cells_wf(cells),
        0 <= dim < cells.len(),
        s.len() == dim + 1,
        strictly_sorted(s),
        dim > 0 ==> all_facets_present(cells, dim, s),
        !simplex_present(cells, dim, s),
    ensures
        cells_wf(cells.update(dim, cells[dim].push(s))),
{
    let newc = cells.update(dim, cells[dim].push(s));
    let newlen = cells[dim].len() as int;
    assert forall|d: int, i: int| 0 <= d < newc.len() && 0 <= i < newc[d].len() implies (
    #[trigger] newc[d][i]).len() == d + 1 && strictly_sorted(newc[d][i]) by {
        if d == dim && i == newlen {
            assert(newc[d][i] == s);
        } else {
            assert(newc[d][i] == cells[d][i]);
        }
    }
    assert forall|d: int, i1: int, i2: int|
        0 <= d < newc.len() && 0 <= i1 < i2 < newc[d].len() implies #[trigger] newc[d][i1]
        != #[trigger] newc[d][i2] by {
        if d == dim && i2 == newlen {
            assert(newc[d][i1] == cells[d][i1]);
            assert(newc[d][i2] == s);
            if cells[d][i1] == s {
                assert(simplex_present(cells, dim, s));
            }
        } else {
            assert(newc[d][i1] == cells[d][i1]);
            assert(newc[d][i2] == cells[d][i2]);
        }
    }
    assert forall|d: int, i: int| 1 <= d < newc.len() && 0 <= i < newc[d].len() implies
    all_facets_present(newc, d, #[trigger] newc[d][i]) by {
        if d == dim && i == newlen {
            assert(newc[d][i] == s);
            if dim > 0 {
                lemma_all_facets_still_present(cells, dim, s, dim, s);
            }
        } else {
            assert(newc[d][i] == cells[d][i]);
            lemma_all_facets_still_present(cells, dim, s, d, cells[d][i]);
        }
    }
}

/// A simplex present among the cells stays present after a new simplex is
/// appended to any dimension.
proof fn lemma_still_present(
    cells: Seq<Seq<Seq<Vertex>>>,
    dim: int,
    s: Seq<Vertex>,
    d: int,
    x: Seq<Vertex>,
)
    requires
        0 <= dim < cells.len(),
        0 <= d < cells.len(),
        simplex_present(cells, d, x),
    ensures
        simplex_present(cells.update(dim, cells[dim].push(s)), d, x),
{
    let newc = cells.update(dim, cells[dim].push(s));
    let k = choose|k: int| 0 <= k < cells[d].len() && (#[trigger] cells[d][k]) == x;
    assert(newc[d][k] == x);
}

/// All facets of a simplex stay present after a new simplex is appended to
/// any dimension.
proof fn lemma_all_facets_still_present(
    cells: Seq<Seq<Seq<Vertex>>>,
    dim: int,
    s: Seq<Vertex>,
    d: int,
    x: Seq<Vertex>,
)
    requires
        0 <= dim < cells.len(),
        1 <= d <= cells.len(),
        all_facets_present(cells, d, x),
    ensures
        all_facets_present(cells.update(dim, cells[dim].push(s)), d, x),
{
    let newc = cells.update(dim, cells[dim].push(s));
    assert forall|j: int| 0 <= j < x.len() implies simplex_present(
        newc,
        d - 1,
        #[trigger] x.remove(j),
    ) by {
        lemma_still_present(cells, dim, s, d - 1, x.remove(j));
    }
}

} // verus!
