use vstd::prelude::*;
use crate::sparse_matrix::{ElementType, SparseMatrix, Semiring, product, seq_map, lemma_map_at};

verus! {

/// Default number of pending changes on one side of a delta matrix
/// above which a non-forced flush commits that side.
pub const DELTA_MAX_PENDING_CHANGES: u64 = 10000;

/// The logical value presented by a delta triple: `M` without the
/// coordinates of `dm`, overridden by `dp`.
pub open spec fn logical(
    m: Map<(u64, u64), u64>,
    dp: Map<(u64, u64), u64>,
    dm: Map<(u64, u64), u64>,
) -> Map<(u64, u64), u64> {
    m.remove_keys(dm.dom()).union_prefer_right(dp)
}

/// The coordinates of `m` with rows and columns swapped.
pub open spec fn swapped_dom(m: Map<(u64, u64), u64>) -> Set<(u64, u64)> {
    Set::new(|key: (u64, u64)| m.contains_key((key.1, key.0)))
}

/// A sparse matrix that buffers point writes: a stable matrix `M`, pending
/// additions `dp` and pending deletions `dm`, with an optional mirror that
/// holds the same coordinates transposed.
pub struct DeltaMatrix {
    dirty: bool,
    max_pending: u64,
    matrix: SparseMatrix,
    delta_plus: SparseMatrix,
    delta_minus: SparseMatrix,
    transposed: Option<Box<DeltaMatrix>>,
}

impl View for DeltaMatrix {
    type V = Map<(u64, u64), u64>;

    closed spec fn view(&self) -> Map<(u64, u64), u64> {
        logical(self.matrix@, self.delta_plus@, self.delta_minus@)
    }
}

impl DeltaMatrix {
    /// The triple alone is consistent.
    pub closed spec fn wf_local(&self) -> bool {
        &&& self.matrix.wf()
        &&& self.delta_plus.wf()
        &&& self.delta_minus.wf()
        &&& self.delta_plus.rows() == self.matrix.rows()
        &&& self.delta_plus.cols() == self.matrix.cols()
        &&& self.delta_minus.rows() == self.matrix.rows()
        &&& self.delta_minus.cols() == self.matrix.cols()
        &&& self.delta_plus.elem_type() == self.matrix.elem_type()
        &&& self.delta_minus.elem_type() == ElementType::Bool
        &&& self.delta_minus@.dom().subset_of(self.matrix@.dom())
        &&& self.delta_plus@.dom().disjoint(self.matrix@.dom())
        &&& self.matrix.elem_type() == ElementType::Bool ==> (forall|k: (u64, u64)|
            #[trigger] self.matrix@.contains_key(k) ==> self.matrix@[k] == 1)
        &&& self.matrix.elem_type() == ElementType::Bool ==> (forall|k: (u64, u64)|
            #[trigger] self.delta_plus@.contains_key(k) ==> self.delta_plus@[k] == 1)
    }

    /// Well-formed: the triple is consistent, and so is the mirror, which has
    /// no mirror of its own and holds exactly the swapped coordinates.
    pub closed spec fn wf(&self) -> bool {
        &&& self.wf_local()
        &&& match self.transposed {
            None => true,
            Some(t) => {
                &&& t.wf_local()
                &&& t.transposed is None
                &&& t.matrix.elem_type() == ElementType::Bool
                &&& t.matrix.rows() == self.matrix.cols()
                &&& t.matrix.cols() == self.matrix.rows()
                &&& t@.dom() == swapped_dom(self@)
            },
        }
    }

    pub closed spec fn rows(&self) -> u64 {
        self.matrix.rows()
    }

    pub closed spec fn cols(&self) -> u64 {
        self.matrix.cols()
    }

    pub closed spec fn elem_type(&self) -> ElementType {
        self.matrix.elem_type()
    }

    pub closed spec fn dirty_flag(&self) -> bool {
        self.dirty
    }

    pub closed spec fn threshold(&self) -> u64 {
        self.max_pending
    }

    pub closed spec fn mirror(&self) -> Option<Box<DeltaMatrix>> {
        self.transposed
    }

    pub closed spec fn m_part(&self) -> SparseMatrix {
        self.matrix
    }

    pub closed spec fn dp_part(&self) -> SparseMatrix {
        self.delta_plus
    }

    pub closed spec fn dm_part(&self) -> SparseMatrix {
        self.delta_minus
    }

    /// What `wf` gives to callers.
    pub proof fn lemma_wf(&self)
        requires
            self.wf(),
        ensures
            self.m_part().wf(),
            self.dp_part().wf(),
            self.dm_part().wf(),
            self@ == logical(self.m_part()@, self.dp_part()@, self.dm_part()@),
            self.dm_part()@.dom().subset_of(self.m_part()@.dom()),
            self.dp_part()@.dom().disjoint(self.m_part()@.dom()),
            self.m_part().rows() == self.rows(),
            self.m_part().cols() == self.cols(),
            self.dp_part().rows() == self.rows(),
            self.dp_part().cols() == self.cols(),
            Self::part_dims(*self),
            self.mirror() is Some ==> Self::part_dims(*self.mirror().unwrap()),
            self.mirror() is Some ==> {
                let t = self.mirror().unwrap();
                &&& t.wf()
                &&& t.mirror() is None
                &&& t.elem_type() == ElementType::Bool
                &&& t.rows() == self.cols()
                &&& t.cols() == self.rows()
                &&& t@.dom() == swapped_dom(self@)
            },
            self@.dom().finite(),
            self@.dom().len() + self.dm_part()@.dom().len() == self.m_part()@.dom().len()
                + self.dp_part()@.dom().len(),
            forall|key: (u64, u64)| #[trigger]
                self@.contains_key(key) ==> key.0 < self.rows() && key.1 < self.cols(),
    {
        self.lemma_len();
    }

    /// Transpose mirroring: in a matrix with a mirror, `(i, j)` is set
    /// exactly when the mirror has `(j, i)`.
    pub proof fn lemma_transpose_mirror(&self, i: u64, j: u64)
        requires
            self.wf(),
            self.mirror() is Some,
        ensures
            self@.contains_key((i, j)) <==> self.mirror().unwrap()@.contains_key((j, i)),
    {
        let t = self.transposed.unwrap();
        assert(t@.dom().contains((j, i)) == swapped_dom(self@).contains((j, i)));
    }

    /// A boolean matrix holds the value 1 at each of its coordinates.
    pub proof fn lemma_bool_values(&self)
        requires
            self.wf(),
            self.elem_type() == ElementType::Bool,
        ensures
            forall|k: (u64, u64)| #[trigger] self@.contains_key(k) ==> self@[k] == 1,
    {
    }

    proof fn lemma_len(&self)
        requires
            self.wf_local(),
        ensures
            self@.dom().finite(),
            self@.dom().len() + self.delta_minus@.dom().len() == self.matrix@.dom().len()
                + self.delta_plus@.dom().len(),
            self.delta_minus@.dom().len() <= self.matrix@.dom().len(),
            forall|key: (u64, u64)| #[trigger]
                self@.contains_key(key) ==> key.0 < self.rows() && key.1 < self.cols(),
    {
        self.matrix.lemma_wf();
        vstd::set_lib::lemma_len_subset(self.delta_minus@.dom(), self.matrix@.dom());
        self.delta_plus.lemma_wf();
        self.delta_minus.lemma_wf();
        let md = self.matrix@.dom();
        let pd = self.delta_plus@.dom();
        let dd = self.delta_minus@.dom();
        let rest = md.difference(dd);
        assert(self@.dom() =~= rest + pd);
        vstd::set_lib::lemma_set_difference_len(md, dd);
        assert(md.intersect(dd) =~= dd);
        vstd::set_lib::lemma_len_subset(rest, md);
        assert(rest.disjoint(pd));
        vstd::set_lib::lemma_set_disjoint_lens(rest, pd);
        assert forall|key: (u64, u64)| #[trigger]
            self@.contains_key(key) implies key.0 < self.rows() && key.1 < self.cols() by {
            if pd.contains(key) {
            } else {
                assert(md.contains(key));
            }
        }
    }

    spec fn new_local_post(r: DeltaMatrix, ty: ElementType, nrows: u64, ncols: u64) -> bool {
        &&& r.wf_local()
        &&& r@ == Map::<(u64, u64), u64>::empty()
        &&& r.matrix.rows() == nrows
        &&& r.matrix.cols() == ncols
        &&& r.matrix.elem_type() == ty
        &&& !r.dirty
        &&& r.max_pending == DELTA_MAX_PENDING_CHANGES
        &&& r.transposed is None
        &&& r.matrix@ == Map::<(u64, u64), u64>::empty()
        &&& r.delta_plus@ == Map::<(u64, u64), u64>::empty()
        &&& r.delta_minus@ == Map::<(u64, u64), u64>::empty()
    }

    fn new_local(ty: ElementType, nrows: u64, ncols: u64) -> (r: DeltaMatrix)
        ensures
            Self::new_local_post(r, ty, nrows, ncols),
    {
        let r = DeltaMatrix {
            dirty: false,
            max_pending: DELTA_MAX_PENDING_CHANGES,
            matrix: SparseMatrix::new(ty, nrows, ncols),
            delta_plus: SparseMatrix::new(ty, nrows, ncols),
            delta_minus: SparseMatrix::new(ElementType::Bool, nrows, ncols),
            transposed: None,
        };
        assert(r@ =~= Map::<(u64, u64), u64>::empty());
        r
    }

    /// An empty `nrows` x `ncols` matrix, with a boolean mirror when `transpose` is set.
    pub fn new(ty: ElementType, nrows: u64, ncols: u64, transpose: bool) -> (r: DeltaMatrix)
        ensures
            r.wf(),
            r@ == Map::<(u64, u64), u64>::empty(),
            r.rows() == nrows,
            r.cols() == ncols,
            r.elem_type() == ty,
            !r.dirty_flag(),
            r.threshold() == DELTA_MAX_PENDING_CHANGES,
            r.mirror() is Some <==> transpose,
            Self::empty_parts(r),
            r.mirror() is Some ==> Self::empty_parts(*r.mirror().unwrap()) && !r.mirror().unwrap().dirty_flag()
                && r.mirror().unwrap().rows() == ncols && r.mirror().unwrap().cols() == nrows,
    {
        let mut r = DeltaMatrix::new_local(ty, nrows, ncols);
        if transpose {
            let t = DeltaMatrix::new_local(ElementType::Bool, ncols, nrows);
            r.transposed = Some(Box::new(t));
            assert(t@.dom() =~= swapped_dom(r@));
        }
        r
    }

    /// Sets the number of pending changes on one side above which a
    /// non-forced flush commits that side, here and in the mirror.
    pub fn set_max_pending_changes(&mut self, n: u64)
        requires
            old(self).wf(),
        ensures
            final(self).wf(),
            final(self).threshold() == n,
            final(self)@ == old(self)@,
            final(self).m_part() == old(self).m_part(),
            final(self).dp_part() == old(self).dp_part(),
            final(self).dm_part() == old(self).dm_part(),
            final(self).dirty_flag() == old(self).dirty_flag(),
            final(self).mirror() is Some <==> old(self).mirror() is Some,
            final(self).mirror() is Some ==> final(self).mirror().unwrap().threshold() == n,
    {
        self.max_pending = n;
        if let Some(t) = self.transposed.as_mut() {
            t.max_pending = n;
        }
    }

    /// The number of pending changes on one side above which a non-forced
    /// flush commits that side.
    pub fn max_pending_changes(&self) -> (r: u64)
        ensures
            r == self.threshold(),
    {
        self.max_pending
    }

    /// The mirror, if this matrix has one.
    pub fn transposed(&self) -> (r: Option<&Box<DeltaMatrix>>)
        ensures
            r is Some <==> self.mirror() is Some,
            r is Some ==> *r.unwrap() == self.mirror().unwrap(),
    {
        self.transposed.as_ref()
    }

    pub fn is_dirty(&self) -> (r: bool)
        ensures
            r == self.dirty_flag(),
    {
        self.dirty
    }

    /// The stable part `M`.
    pub fn m(&self) -> (r: &SparseMatrix)
        ensures
            *r == self.m_part(),
    {
        &self.matrix
    }

    /// The pending additions.
    pub fn dp(&self) -> (r: &SparseMatrix)
        ensures
            *r == self.dp_part(),
    {
        &self.delta_plus
    }

    /// The pending deletions.
    pub fn dm(&self) -> (r: &SparseMatrix)
        ensures
            *r == self.dm_part(),
    {
        &self.delta_minus
    }

    pub fn nrows(&self) -> (r: u64)
        ensures
            r == self.rows(),
    {
        self.matrix.nrows()
    }

    pub fn ncols(&self) -> (r: u64)
        ensures
            r == self.cols(),
    {
        self.matrix.ncols()
    }

    /// Number of logical entries, `nvals(M) + nvals(dp) - nvals(dm)`
    /// (saturated at `u64::MAX`).
    pub fn nvals(&self) -> (r: u64)
        requires
            self.wf(),
        ensures
            r == (if self@.dom().len() <= u64::MAX {
                self@.dom().len() as u64
            } else {
                u64::MAX
            }),
            r as int == self.m_part()@.dom().len() + self.dp_part()@.dom().len()
                - self.dm_part()@.dom().len() || r == u64::MAX,
    {
        proof {
            self.lemma_len();
        }
        let a = self.matrix.nvals() - self.delta_minus.nvals();
        let b = self.delta_plus.nvals();
        if a > u64::MAX - b {
            u64::MAX
        } else {
            a + b
        }
    }

    spec fn same_shape(a: DeltaMatrix, b: DeltaMatrix) -> bool {
        &&& a.matrix.rows() == b.matrix.rows()
        &&& a.matrix.cols() == b.matrix.cols()
        &&& a.matrix.elem_type() == b.matrix.elem_type()
        &&& a.max_pending == b.max_pending
        &&& a.transposed is None == b.transposed is None
    }

    /// How setting `k` in a boolean matrix changes the parts: a pending
    /// deletion is dropped; else a key missing from `M` goes to `dp`; else
    /// nothing changes.
    pub open spec fn bool_set_parts(a: DeltaMatrix, b: DeltaMatrix, k: (u64, u64)) -> bool {
        if a.dm_part()@.contains_key(k) {
            b.dm_part()@ == a.dm_part()@.remove(k) && b.m_part()@ == a.m_part()@ && b.dp_part()@ == a.dp_part()@
        } else if !a.m_part()@.contains_key(k) {
            b.dp_part()@ == a.dp_part()@.insert(k, 1) && b.m_part()@ == a.m_part()@ && b.dm_part()@ == a.dm_part()@
        } else {
            b.dp_part()@ == a.dp_part()@ && b.m_part()@ == a.m_part()@ && b.dm_part()@ == a.dm_part()@
        }
    }

    /// How storing `x` at `k` changes the parts: a pending deletion is
    /// dropped and `x` written into `M`; else a key missing from `M` goes to
    /// `dp`; else `x` overwrites `M`, `dp` untouched.
    pub open spec fn u64_set_parts(a: DeltaMatrix, b: DeltaMatrix, k: (u64, u64), x: u64) -> bool {
        if a.dm_part()@.contains_key(k) {
            b.dm_part()@ == a.dm_part()@.remove(k) && b.m_part()@ == a.m_part()@.insert(k, x) && b.dp_part()@ == a.dp_part()@
        } else if !a.m_part()@.contains_key(k) {
            b.dp_part()@ == a.dp_part()@.insert(k, x) && b.m_part()@ == a.m_part()@ && b.dm_part()@ == a.dm_part()@
        } else {
            b.m_part()@ == a.m_part()@.insert(k, x) && b.dp_part()@ == a.dp_part()@ && b.dm_part()@ == a.dm_part()@
        }
    }

    /// How removing `k` changes the parts: a key of `M` is marked in `dm`;
    /// else it leaves `dp`.
    pub open spec fn remove_parts(a: DeltaMatrix, b: DeltaMatrix, k: (u64, u64)) -> bool {
        if a.m_part()@.contains_key(k) {
            b.dm_part()@ == a.dm_part()@.insert(k, 1) && b.m_part()@ == a.m_part()@ && b.dp_part()@ == a.dp_part()@
        } else {
            b.dp_part()@ == a.dp_part()@.remove(k) && b.m_part()@ == a.m_part()@ && b.dm_part()@ == a.dm_part()@
        }
    }

    /// All three parts are empty.
    pub open spec fn empty_parts(a: DeltaMatrix) -> bool {
        &&& a.m_part()@ == Map::<(u64, u64), u64>::empty()
        &&& a.dp_part()@ == Map::<(u64, u64), u64>::empty()
        &&& a.dm_part()@ == Map::<(u64, u64), u64>::empty()
    }

    /// The three parts have the matrix's dimensions.
    pub open spec fn part_dims(a: DeltaMatrix) -> bool {
        &&& a.m_part().rows() == a.rows() && a.m_part().cols() == a.cols()
        &&& a.dp_part().rows() == a.rows() && a.dp_part().cols() == a.cols()
        &&& a.dm_part().rows() == a.rows() && a.dm_part().cols() == a.cols()
    }

    fn set_local_bool(&mut self, i: u64, j: u64)
        requires
            old(self).wf_local(),
            old(self).matrix.elem_type() == ElementType::Bool,
            i < old(self).matrix.rows(),
            j < old(self).matrix.cols(),
        ensures
            final(self).wf_local(),
            final(self)@ == old(self)@.insert((i, j), 1),
            Self::same_shape(*final(self), *old(self)),
            final(self).transposed == old(self).transposed,
            Self::bool_set_parts(*old(self), *final(self), (i, j)),
            final(self).dirty == (old(self).dirty || old(self).delta_minus@.contains_key((i, j))
                || !old(self).matrix@.contains_key((i, j))),
    {
        if self.delta_minus.extract_element_bool(i, j).is_some() {
            self.delta_minus.remove_element(i, j);
            self.dirty = true;
        } else if self.matrix.extract_element_bool(i, j).is_none() {
            self.delta_plus.set_element_bool(true, i, j);
            self.dirty = true;
        }
        assert(self@ =~= old(self)@.insert((i, j), 1));
    }

    fn set_local_u64(&mut self, x: u64, i: u64, j: u64)
        requires
            old(self).wf_local(),
            old(self).matrix.elem_type() == ElementType::U64,
            i < old(self).matrix.rows(),
            j < old(self).matrix.cols(),
        ensures
            final(self).wf_local(),
            final(self)@ == old(self)@.insert((i, j), x),
            Self::same_shape(*final(self), *old(self)),
            final(self).transposed == old(self).transposed,
            Self::u64_set_parts(*old(self), *final(self), (i, j), x),
            final(self).dirty == (old(self).dirty || old(self).delta_minus@.contains_key((i, j))
                || !old(self).matrix@.contains_key((i, j))),
    {
        if self.delta_minus.extract_element_bool(i, j).is_some() {
            self.delta_minus.remove_element(i, j);
            self.matrix.set_element_u64(x, i, j);
            self.dirty = true;
        } else if self.matrix.extract_element_u64(i, j).is_none() {
            self.delta_plus.set_element_u64(x, i, j);
            self.dirty = true;
        } else {
            self.matrix.set_element_u64(x, i, j);
        }
        assert(self@ =~= old(self)@.insert((i, j), x));
    }

    fn remove_local(&mut self, i: u64, j: u64)
        requires
            old(self).wf_local(),
            i < old(self).matrix.rows(),
            j < old(self).matrix.cols(),
        ensures
            final(self).wf_local(),
            final(self)@ == old(self)@.remove((i, j)),
            Self::same_shape(*final(self), *old(self)),
            final(self).transposed == old(self).transposed,
            final(self).dirty,
            Self::remove_parts(*old(self), *final(self), (i, j)),
    {
        if self.matrix.extract_element_bool(i, j).is_some() {
            self.delta_minus.set_element_bool(true, i, j);
        } else {
            self.delta_plus.remove_element(i, j);
        }
        self.dirty = true;
        assert(self@ =~= old(self)@.remove((i, j)));
    }

    /// Sets `(i, j)` in a boolean matrix, and `(j, i)` in its mirror.
    pub fn set_element_bool(&mut self, i: u64, j: u64)
        requires
            old(self).wf(),
            old(self).elem_type() == ElementType::Bool,
            i < old(self).rows(),
            j < old(self).cols(),
        ensures
            final(self).wf(),
            final(self)@ == old(self)@.insert((i, j), 1),
            Self::bool_set_parts(*old(self), *final(self), (i, j)),
            final(self).dirty_flag() == (old(self).dirty_flag() || old(self).dm_part()@.contains_key((i, j))
                || !old(self).m_part()@.contains_key((i, j))),
            final(self).rows() == old(self).rows(),
            final(self).cols() == old(self).cols(),
            final(self).elem_type() == old(self).elem_type(),
            final(self).threshold() == old(self).threshold(),
            final(self).mirror() is Some <==> old(self).mirror() is Some,
    {
        if let Some(t) = self.transposed.as_mut() {
            t.set_local_bool(j, i);
        }
        self.set_local_bool(i, j);
        proof {
            if self.transposed is Some {
                assert(self.transposed.unwrap()@.dom() =~= swapped_dom(self@));
            }
        }
    }

    /// Stores `x` at `(i, j)` of a u64 matrix, and sets `(j, i)` in its mirror.
    pub fn set_element_u64(&mut self, x: u64, i: u64, j: u64)
        requires
            old(self).wf(),
            old(self).elem_type() == ElementType::U64,
            i < old(self).rows(),
            j < old(self).cols(),
        ensures
            final(self).wf(),
            final(self)@ == old(self)@.insert((i, j), x),
            Self::u64_set_parts(*old(self), *final(self), (i, j), x),
            final(self).dirty_flag() == (old(self).dirty_flag() || old(self).dm_part()@.contains_key((i, j))
                || !old(self).m_part()@.contains_key((i, j))),
            final(self).rows() == old(self).rows(),
            final(self).cols() == old(self).cols(),
            final(self).elem_type() == old(self).elem_type(),
            final(self).threshold() == old(self).threshold(),
            final(self).mirror() is Some <==> old(self).mirror() is Some,
    {
        if let Some(t) = self.transposed.as_mut() {
            t.set_local_bool(j, i);
        }
        self.set_local_u64(x, i, j);
        proof {
            if self.transposed is Some {
                assert(self.transposed.unwrap()@.dom() =~= swapped_dom(self@));
            }
        }
    }

    /// Removes `(i, j)`, and `(j, i)` from the mirror.
    pub fn remove_element(&mut self, i: u64, j: u64)
        requires
            old(self).wf(),
            i < old(self).rows(),
            j < old(self).cols(),
        ensures
            final(self).wf(),
            final(self)@ == old(self)@.remove((i, j)),
            Self::remove_parts(*old(self), *final(self), (i, j)),
            final(self).rows() == old(self).rows(),
            final(self).cols() == old(self).cols(),
            final(self).elem_type() == old(self).elem_type(),
            final(self).threshold() == old(self).threshold(),
            final(self).mirror() is Some <==> old(self).mirror() is Some,
            final(self).dirty_flag(),
    {
        if let Some(t) = self.transposed.as_mut() {
            t.remove_local(j, i);
        }
        self.remove_local(i, j);
        proof {
            if self.transposed is Some {
                assert(self.transposed.unwrap()@.dom() =~= swapped_dom(self@));
            }
        }
    }

    /// The value at `(i, j)` read as a boolean.
    pub fn extract_element_bool(&self, i: u64, j: u64) -> (r: Option<bool>)
        requires
            self.wf(),
        ensures
            r == (if self@.contains_key((i, j)) {
                Some(self@[(i, j)] != 0)
            } else {
                None::<bool>
            }),
    {
        if let Some(v) = self.delta_plus.extract_element_u64(i, j) {
            Some(v != 0)
        } else if self.delta_minus.extract_element_bool(i, j).is_some() {
            None
        } else {
            self.matrix.extract_element_bool(i, j)
        }
    }

    /// The value at `(i, j)`.
    pub fn extract_element_u64(&self, i: u64, j: u64) -> (r: Option<u64>)
        requires
            self.wf(),
        ensures
            r == (if self@.contains_key((i, j)) {
                Some(self@[(i, j)])
            } else {
                None::<u64>
            }),
    {
        if let Some(v) = self.delta_plus.extract_element_u64(i, j) {
            Some(v)
        } else if self.delta_minus.extract_element_bool(i, j).is_some() {
            None
        } else {
            self.matrix.extract_element_u64(i, j)
        }
    }
    fn sync_deletions(&mut self)
        requires
            old(self).wf_local(),
        ensures
            final(self).wf_local(),
            final(self)@ == old(self)@,
            Self::same_shape(*final(self), *old(self)),
            final(self).transposed == old(self).transposed,
            final(self).dirty == old(self).dirty,
            final(self).delta_minus@ == Map::<(u64, u64), u64>::empty(),
            final(self).delta_plus == old(self).delta_plus,
    {
        self.matrix.remove_masked(&self.delta_minus);
        self.delta_minus.clear();
        assert(self@ =~= old(self)@);
    }

    fn sync_additions(&mut self)
        requires
            old(self).wf_local(),
        ensures
            final(self).wf_local(),
            final(self)@ == old(self)@,
            Self::same_shape(*final(self), *old(self)),
            final(self).transposed == old(self).transposed,
            final(self).dirty == old(self).dirty,
            final(self).delta_plus@ == Map::<(u64, u64), u64>::empty(),
            final(self).delta_minus == old(self).delta_minus,
    {
        self.matrix.element_wise_add(None, Some(&self.delta_plus));
        self.delta_plus.clear();
        assert(self@ =~= old(self)@);
    }

    /// Commits both deltas when `force_sync`, otherwise each side whose size
    /// exceeds the threshold.
    fn sync(&mut self, force_sync: bool)
        requires
            old(self).wf_local(),
        ensures
            final(self).wf_local(),
            final(self)@ == old(self)@,
            Self::same_shape(*final(self), *old(self)),
            final(self).transposed == old(self).transposed,
            force_sync ==> final(self).delta_plus@ == Map::<(u64, u64), u64>::empty()
                && final(self).delta_minus@ == Map::<(u64, u64), u64>::empty(),
            !force_sync ==> (old(self).delta_minus@.dom().len() > old(self).max_pending ==> final(self).delta_minus@
                == Map::<(u64, u64), u64>::empty()) && (old(self).delta_minus@.dom().len() <= old(self).max_pending
                ==> final(self).delta_minus@ == old(self).delta_minus@),
            !force_sync ==> (old(self).delta_plus@.dom().len() > old(self).max_pending ==> final(self).delta_plus@
                == Map::<(u64, u64), u64>::empty()) && (old(self).delta_plus@.dom().len() <= old(self).max_pending
                ==> final(self).delta_plus@ == old(self).delta_plus@),
    {
        if force_sync {
            self.sync_deletions();
            self.sync_additions();
        } else {
            if self.delta_minus.nvals() > self.max_pending {
                self.sync_deletions();
            }
            if self.delta_plus.nvals() > self.max_pending {
                self.sync_additions();
            }
        }
        self.matrix.wait();
        self.delta_plus.wait();
        self.delta_minus.wait();
    }

    /// Flushes pending changes (see `sync`) here and in the mirror, and clears
    /// the dirty flag. The logical value does not change.
    pub fn wait(&mut self, force_sync: bool)
        requires
            old(self).wf(),
        ensures
            final(self).wf(),
            final(self)@ == old(self)@,
            final(self).rows() == old(self).rows(),
            final(self).cols() == old(self).cols(),
            final(self).elem_type() == old(self).elem_type(),
            final(self).threshold() == old(self).threshold(),
            final(self).mirror() is Some <==> old(self).mirror() is Some,
            final(self).mirror() is Some ==> final(self).mirror().unwrap()@ == old(
                self,
            ).mirror().unwrap()@,
            !final(self).dirty_flag(),
            final(self).mirror() is Some ==> !final(self).mirror().unwrap().dirty_flag(),
            !force_sync ==> (old(self).dm_part()@.dom().len() > old(self).threshold() ==> final(self).dm_part()@
                == Map::<(u64, u64), u64>::empty()) && (old(self).dm_part()@.dom().len() <= old(self).threshold()
                ==> final(self).dm_part()@ == old(self).dm_part()@),
            !force_sync ==> (old(self).dp_part()@.dom().len() > old(self).threshold() ==> final(self).dp_part()@
                == Map::<(u64, u64), u64>::empty()) && (old(self).dp_part()@.dom().len() <= old(self).threshold()
                ==> final(self).dp_part()@ == old(self).dp_part()@),
            force_sync ==> final(self).dp_part()@ == Map::<(u64, u64), u64>::empty()
                && final(self).dm_part()@ == Map::<(u64, u64), u64>::empty()
                && final(self).m_part()@ == old(self)@,
            force_sync && final(self).mirror() is Some ==> final(self).mirror().unwrap().dp_part()@
                == Map::<(u64, u64), u64>::empty() && final(self).mirror().unwrap().dm_part()@ == Map::<
                (u64, u64),
                u64,
            >::empty(),
    {
        if let Some(t) = self.transposed.as_mut() {
            t.sync(force_sync);
            t.dirty = false;
        }
        self.sync(force_sync);
        self.dirty = false;
        proof {
            if force_sync {
                assert(self.matrix@ =~= old(self)@);
            }
        }
    }

    /// Changes the dimensions (the mirror's swapped); entries outside are dropped.
    pub fn resize(&mut self, nrows_new: u64, ncols_new: u64)
        requires
            old(self).wf(),
        ensures
            final(self).wf(),
            final(self)@ == old(self)@.restrict(
                Set::new(|key: (u64, u64)| key.0 < nrows_new && key.1 < ncols_new),
            ),
            final(self).rows() == nrows_new,
            final(self).cols() == ncols_new,
            Self::part_dims(*final(self)),
            final(self).mirror() is Some ==> final(self).mirror().unwrap().rows() == ncols_new
                && final(self).mirror().unwrap().cols() == nrows_new && Self::part_dims(*final(self).mirror().unwrap()),
            final(self).elem_type() == old(self).elem_type(),
            final(self).threshold() == old(self).threshold(),
            final(self).dirty_flag() == old(self).dirty_flag(),
            final(self).mirror() is Some <==> old(self).mirror() is Some,
    {
        if let Some(t) = self.transposed.as_mut() {
            t.resize_local(ncols_new, nrows_new);
        }
        self.resize_local(nrows_new, ncols_new);
        proof {
            if self.transposed is Some {
                assert(self.transposed.unwrap()@.dom() =~= swapped_dom(self@));
            }
        }
    }

    fn resize_local(&mut self, nrows_new: u64, ncols_new: u64)
        requires
            old(self).wf_local(),
        ensures
            final(self).wf_local(),
            final(self)@ == old(self)@.restrict(
                Set::new(|key: (u64, u64)| key.0 < nrows_new && key.1 < ncols_new),
            ),
            final(self).matrix.rows() == nrows_new,
            final(self).matrix.cols() == ncols_new,
            final(self).matrix.elem_type() == old(self).matrix.elem_type(),
            final(self).max_pending == old(self).max_pending,
            final(self).dirty == old(self).dirty,
            final(self).transposed == old(self).transposed,
    {
        self.matrix.resize(nrows_new, ncols_new);
        self.delta_plus.resize(nrows_new, ncols_new);
        self.delta_minus.resize(nrows_new, ncols_new);
        assert(self@ =~= old(self)@.restrict(
            Set::new(|key: (u64, u64)| key.0 < nrows_new && key.1 < ncols_new),
        ));
    }

    /// Grows each dimension to at least the one asked for, then flushes
    /// without force when dirty. The logical value does not change.
    pub fn synchronize(&mut self, nrows: u64, ncols: u64)
        requires
            old(self).wf(),
        ensures
            final(self).wf(),
            final(self)@ == old(self)@,
            final(self).rows() == if old(self).rows() < nrows { nrows } else { old(self).rows() },
            final(self).cols() == if old(self).cols() < ncols { ncols } else { old(self).cols() },
            !final(self).dirty_flag(),
            !(old(self).rows() < nrows || old(self).cols() < ncols || old(self).dirty_flag()) ==> *final(self) == *old(self),
            final(self).elem_type() == old(self).elem_type(),
            final(self).threshold() == old(self).threshold(),
            final(self).mirror() is Some <==> old(self).mirror() is Some,
    {
        if !(self.nrows() < nrows || self.ncols() < ncols || self.dirty) {
            return ;
        }
        let r = if self.nrows() < nrows { nrows } else { self.nrows() };
        let c = if self.ncols() < ncols { ncols } else { self.ncols() };
        if self.nrows() < nrows || self.ncols() < ncols {
            proof {
                self.lemma_len();
            }
            self.resize(r, c);
            assert(self@ =~= old(self)@);
        }
        self.wait(false);
    }

    /// Removes every entry, here and in the mirror.
    pub fn clear(&mut self)
        requires
            old(self).wf(),
        ensures
            final(self).wf(),
            final(self)@ == Map::<(u64, u64), u64>::empty(),
            final(self).rows() == old(self).rows(),
            final(self).cols() == old(self).cols(),
            final(self).elem_type() == old(self).elem_type(),
            final(self).threshold() == old(self).threshold(),
            final(self).mirror() is Some <==> old(self).mirror() is Some,
            final(self).dirty_flag(),
    {
        if let Some(t) = self.transposed.as_mut() {
            t.clear_local();
        }
        self.clear_local();
        proof {
            if self.transposed is Some {
                assert(self.transposed.unwrap()@.dom() =~= swapped_dom(self@));
            }
        }
    }

    fn clear_local(&mut self)
        requires
            old(self).wf_local(),
        ensures
            final(self).wf_local(),
            final(self)@ == Map::<(u64, u64), u64>::empty(),
            Self::same_shape(*final(self), *old(self)),
            final(self).transposed == old(self).transposed,
            final(self).dirty,
    {
        self.matrix.clear();
        self.delta_plus.clear();
        self.delta_minus.clear();
        self.dirty = true;
        assert(self@ =~= Map::<(u64, u64), u64>::empty());
    }

    /// Makes this mirror-less matrix a copy of `a`'s triple, dimensions included.
    pub fn copy(&mut self, a: &DeltaMatrix)
        requires
            old(self).wf(),
            old(self).mirror() is None,
            a.wf(),
            a.elem_type() == old(self).elem_type(),
        ensures
            final(self).wf(),
            final(self)@ == a@,
            final(self).rows() == a.rows(),
            final(self).cols() == a.cols(),
            final(self).elem_type() == old(self).elem_type(),
            final(self).threshold() == old(self).threshold(),
            final(self).mirror() is None,
    {
        self.matrix.copy(&a.matrix);
        self.delta_plus.copy(&a.delta_plus);
        self.delta_minus.copy(&a.delta_minus);
    }

    /// The logical value as a fresh matrix: `M` without `dm`, plus `dp`.
    pub fn export(&self) -> (r: SparseMatrix)
        requires
            self.wf(),
        ensures
            r.wf(),
            r@ == self@,
            r.rows() == self.rows(),
            r.cols() == self.cols(),
            r.elem_type() == self.elem_type(),
    {
        let mut m = SparseMatrix::new(self.matrix.elem_ty(), self.nrows(), self.ncols());
        m.copy(&self.matrix);
        if self.delta_minus.nvals() > 0 {
            m.remove_masked(&self.delta_minus);
        }
        if self.delta_plus.nvals() > 0 {
            m.element_wise_add(None, Some(&self.delta_plus));
        }
        proof {
            self.delta_minus.lemma_wf();
            self.delta_plus.lemma_wf();
            if self.delta_minus@.dom().len() == 0 {
                assert(self.delta_minus@.dom() =~= Set::<(u64, u64)>::empty());
            }
            if self.delta_plus@.dom().len() == 0 {
                assert(self.delta_plus@.dom() =~= Set::<(u64, u64)>::empty());
            }
            assert(m@ =~= self@);
        }
        m
    }

    /// Removes every coordinate that `mask` holds.
    pub fn remove_elements(&mut self, mask: &SparseMatrix)
        requires
            old(self).wf(),
            mask.wf(),
            mask.rows() <= old(self).rows(),
            mask.cols() <= old(self).cols(),
        ensures
            final(self).wf(),
            final(self)@ == old(self)@.remove_keys(mask@.dom()),
            final(self).rows() == old(self).rows(),
            final(self).cols() == old(self).cols(),
            final(self).elem_type() == old(self).elem_type(),
            final(self).threshold() == old(self).threshold(),
            final(self).mirror() is Some <==> old(self).mirror() is Some,
    {
        let n = mask.nentries();
        let mut k: usize = 0;
        proof {
            mask.lemma_wf();
            assert(old(self)@ =~= old(self)@.remove_keys(seq_map(mask.entry_seq().take(0)).dom()));
        }
        while k < n
            invariant
                self.wf(),
                mask.wf(),
                mask.rows() <= self.rows(),
                mask.cols() <= self.cols(),
                n == mask.entry_seq().len(),
                k <= n,
                self@ == old(self)@.remove_keys(seq_map(mask.entry_seq().take(k as int)).dom()),
                self.rows() == old(self).rows(),
                self.cols() == old(self).cols(),
                self.elem_type() == old(self).elem_type(),
                self.threshold() == old(self).threshold(),
                self.mirror() is Some <==> old(self).mirror() is Some,
            decreases n - k,
        {
            let e = mask.entry_at(k);
            proof {
                mask.lemma_wf();
                crate::sparse_matrix::lemma_take_step(mask.entry_seq(), k as int);
                lemma_map_at(mask.entry_seq(), k as int);
            }
            self.remove_element(e.row, e.col);
            k = k + 1;
            assert(self@ =~= old(self)@.remove_keys(seq_map(mask.entry_seq().take(k as int)).dom()));
        }
        proof {
            mask.lemma_wf();
            assert(mask.entry_seq().take(n as int) == mask.entry_seq());
        }
    }

    /// Whether deferred work is outstanding in any part or in the mirror.
    pub fn pending(&self) -> (r: bool)
        ensures
            !r,
    {
        if let Some(t) = &self.transposed {
            if t.matrix.pending() || t.delta_plus.pending() || t.delta_minus.pending() {
                return true;
            }
        }
        self.matrix.pending() || self.delta_plus.pending() || self.delta_minus.pending()
    }

    /// This mirror-less matrix becomes the boolean product of the logical
    /// values of `m` and `n`, with no pending changes.
    pub fn mxm(&mut self, semiring: Semiring, m: &DeltaMatrix, n: &DeltaMatrix)
        requires
            old(self).wf(),
            old(self).mirror() is None,
            m.wf(),
            n.wf(),
            m.rows() == old(self).rows(),
            n.cols() == old(self).cols(),
        ensures
            final(self).wf(),
            final(self)@ == product(m@, n@),
            final(self).m_part()@ == product(m@, n@),
            final(self).dp_part()@ == Map::<(u64, u64), u64>::empty(),
            final(self).dm_part()@ == Map::<(u64, u64), u64>::empty(),
            final(self).rows() == old(self).rows(),
            final(self).cols() == old(self).cols(),
            final(self).elem_type() == old(self).elem_type(),
            final(self).threshold() == old(self).threshold(),
            final(self).mirror() is None,
    {
        let a = m.export();
        let b = n.export();
        match semiring {
            Semiring::AnyPair => self.matrix.mxm(&a, &b),
        }
        self.delta_plus.clear();
        self.delta_minus.clear();
        self.dirty = true;
        assert(self@ =~= product(m@, n@));
    }

    /// This mirror-less matrix becomes the union of the logical values of `m`
    /// and `n` (where both hold a key, `m`'s value), with no pending changes.
    pub fn element_wise_add(&mut self, semiring: Semiring, m: &DeltaMatrix, n: &DeltaMatrix)
        requires
            old(self).wf(),
            old(self).mirror() is None,
            m.wf(),
            n.wf(),
            m.elem_type() == old(self).elem_type(),
            n.elem_type() == old(self).elem_type(),
            m.rows() <= old(self).rows(),
            m.cols() <= old(self).cols(),
            n.rows() <= old(self).rows(),
            n.cols() <= old(self).cols(),
        ensures
            final(self).wf(),
            final(self)@ == n@.union_prefer_right(m@),
            final(self).rows() == old(self).rows(),
            final(self).cols() == old(self).cols(),
            final(self).elem_type() == old(self).elem_type(),
            final(self).threshold() == old(self).threshold(),
            final(self).mirror() is None,
    {
        let a = m.export();
        let b = n.export();
        match semiring {
            Semiring::AnyPair => self.matrix.element_wise_add(Some(&a), Some(&b)),
        }
        self.delta_plus.clear();
        self.delta_minus.clear();
        self.dirty = true;
        proof {
            m.lemma_wf();
            n.lemma_wf();
        }
        assert(self@ =~= n@.union_prefer_right(m@));
    }
}

} // verus!
