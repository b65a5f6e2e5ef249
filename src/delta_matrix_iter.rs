use vstd::prelude::*;
use crate::delta_matrix::DeltaMatrix;
use crate::sparse_matrix::{Entry, seq_map, sorted};

verus! {

/// Iterates the logical entries of a delta matrix whose row lies in a range,
/// in row-major order. The entries are taken when the iterator is attached.
pub struct DeltaMatrixIter<'a> {
    matrix: Option<&'a DeltaMatrix>,
    items: Vec<Entry>,
    pos: usize,
    min_row: u64,
    max_row: u64,
}

/// The logical entries of `m` whose row lies in `min_row..=max_row`.
pub open spec fn rows_of(m: Map<(u64, u64), u64>, min_row: u64, max_row: u64) -> Map<(u64, u64), u64> {
    m.restrict(Set::new(|key: (u64, u64)| min_row <= key.0 <= max_row))
}

impl<'a> DeltaMatrixIter<'a> {
    /// The entries still to come.
    pub closed spec fn remaining(&self) -> Seq<Entry> {
        self.items@.skip(self.pos as int)
    }

    pub closed spec fn attached(&self) -> bool {
        self.matrix is Some
    }

    pub closed spec fn wf(&self) -> bool {
        &&& self.pos <= self.items@.len()
        &&& sorted(self.items@)
        &&& self.matrix is Some ==> self.matrix.unwrap().wf()
    }

    /// The attached matrix.
    pub closed spec fn source(&self) -> &'a DeltaMatrix {
        self.matrix.unwrap()
    }

    /// The row range.
    pub closed spec fn range(&self) -> (u64, u64) {
        (self.min_row, self.max_row)
    }

    /// An iterator over every row of `m`.
    pub fn new(m: &'a DeltaMatrix) -> (r: Self)
        requires
            m.wf(),
        ensures
            r.wf(),
            r.attached(),
            sorted(r.remaining()),
            seq_map(r.remaining()) == m@,
    {
        let r = DeltaMatrixIter::new_range(m, 0, u64::MAX);
        proof {
            m.lemma_wf();
            assert(rows_of(m@, 0, u64::MAX) =~= m@);
        }
        r
    }

    /// An iterator over the rows `min_row..=max_row` of `m`.
    pub fn new_range(m: &'a DeltaMatrix, min_row: u64, max_row: u64) -> (r: Self)
        requires
            m.wf(),
        ensures
            r.wf(),
            r.attached(),
            sorted(r.remaining()),
            seq_map(r.remaining()) == rows_of(m@, min_row, max_row),
            r.source() == m,
            r.range() == (min_row, max_row),
    {
        let e = m.export();
        let items = e.row_range(min_row, max_row);
        let r = DeltaMatrixIter { matrix: Some(m), items, pos: 0, min_row, max_row };
        assert(r.remaining() =~= items@);
        r
    }

    /// Re-attaches to every row of `m`.
    pub fn attach(&mut self, m: &'a DeltaMatrix)
        requires
            m.wf(),
        ensures
            final(self).wf(),
            final(self).attached(),
            sorted(final(self).remaining()),
            seq_map(final(self).remaining()) == m@,
    {
        *self = DeltaMatrixIter::new(m);
    }

    /// Re-attaches to the rows `min_row..=max_row` of `m`.
    pub fn attach_range(&mut self, m: &'a DeltaMatrix, min_row: u64, max_row: u64)
        requires
            m.wf(),
        ensures
            final(self).wf(),
            final(self).attached(),
            sorted(final(self).remaining()),
            seq_map(final(self).remaining()) == rows_of(m@, min_row, max_row),
    {
        *self = DeltaMatrixIter::new_range(m, min_row, max_row);
    }

    /// Restricts the iteration to row `row_idx` of the attached matrix, from its start.
    pub fn iterate_row(&mut self, row_idx: u64)
        requires
            old(self).wf(),
            old(self).attached(),
        ensures
            final(self).wf(),
            final(self).attached(),
            final(self).source() == old(self).source(),
            seq_map(final(self).remaining()) == rows_of(old(self).source()@, row_idx, row_idx),
    {
        let m = self.matrix.unwrap();
        *self = DeltaMatrixIter::new_range(m, row_idx, row_idx);
    }

    /// Restricts the iteration to rows `start_row_idx..=end_row_idx` of the attached matrix.
    pub fn iterate_range(&mut self, start_row_idx: u64, end_row_idx: u64)
        requires
            old(self).wf(),
            old(self).attached(),
        ensures
            final(self).wf(),
            final(self).attached(),
            final(self).source() == old(self).source(),
            seq_map(final(self).remaining()) == rows_of(old(self).source()@, start_row_idx, end_row_idx),
    {
        let m = self.matrix.unwrap();
        *self = DeltaMatrixIter::new_range(m, start_row_idx, end_row_idx);
    }

    /// Starts over on the same matrix and row range.
    pub fn reset(&mut self)
        requires
            old(self).wf(),
            old(self).attached(),
        ensures
            final(self).wf(),
            final(self).attached(),
            final(self).source() == old(self).source(),
            final(self).range() == old(self).range(),
            seq_map(final(self).remaining()) == rows_of(old(self).source()@, old(self).range().0, old(self).range().1),
    {
        let m = self.matrix.unwrap();
        let lo = self.min_row;
        let hi = self.max_row;
        *self = DeltaMatrixIter::new_range(m, lo, hi);
    }

    /// Detaches from the matrix; further steps report an error.
    pub fn detach(&mut self)
        requires
            old(self).wf(),
        ensures
            final(self).wf(),
            !final(self).attached(),
    {
        self.matrix = None;
    }

    /// Whether a matrix is attached.
    pub fn is_attached(&self) -> (r: bool)
        ensures
            r == self.attached(),
    {
        self.matrix.is_some()
    }

    /// The next coordinates; `Ok(None)` when done, `Err(())` when detached.
    pub fn next_bool(&mut self) -> (r: Result<Option<(u64, u64)>, ()>)
        requires
            old(self).wf(),
        ensures
            final(self).wf(),
            final(self).attached() == old(self).attached(),
            !old(self).attached() ==> r is Err && final(self).remaining() == old(self).remaining(),
            old(self).attached() && old(self).remaining().len() == 0 ==> r == Ok::<
                Option<(u64, u64)>,
                (),
            >(None) && final(self).remaining() == old(self).remaining(),
            old(self).attached() && old(self).remaining().len() > 0 ==> r == Ok::<
                Option<(u64, u64)>,
                (),
            >(Some((old(self).remaining()[0].row, old(self).remaining()[0].col)))
                && final(self).remaining() == old(self).remaining().drop_first(),
    {
        match self.next_u64() {
            Err(()) => Err(()),
            Ok(None) => Ok(None),
            Ok(Some((i, j, _))) => Ok(Some((i, j))),
        }
    }

    /// The next coordinates with their value; `Ok(None)` when done,
    /// `Err(())` when detached.
    pub fn next_u64(&mut self) -> (r: Result<Option<(u64, u64, u64)>, ()>)
        requires
            old(self).wf(),
        ensures
            final(self).wf(),
            final(self).attached() == old(self).attached(),
            !old(self).attached() ==> r is Err && final(self).remaining() == old(self).remaining(),
            old(self).attached() && old(self).remaining().len() == 0 ==> r == Ok::<
                Option<(u64, u64, u64)>,
                (),
            >(None) && final(self).remaining() == old(self).remaining(),
            old(self).attached() && old(self).remaining().len() > 0 ==> r == Ok::<
                Option<(u64, u64, u64)>,
                (),
            >(
                Some(
                    (
                        old(self).remaining()[0].row,
                        old(self).remaining()[0].col,
                        old(self).remaining()[0].val,
                    ),
                ),
            ) && final(self).remaining() == old(self).remaining().drop_first(),
    {
        if self.matrix.is_none() {
            return Err(());
        }
        if self.pos < self.items.len() {
            let e = self.items[self.pos];
            self.pos = self.pos + 1;
            assert(self.remaining() =~= old(self).remaining().drop_first());
            Ok(Some((e.row, e.col, e.val)))
        } else {
            Ok(None)
        }
    }
}

} // verus!
