//! One resolution of the matrix: its sizes and, once built, its query engine.
use vstd::prelude::*;

use crate::errors::{MatrixIndexError, QueryError, SelectorUninitError};
use crate::selector::{has_column, rect, zip3, Selector2D};

verus! {

/// One resolution: bin width, bin and pixel counts, and the query engine once
/// it has been built by `init_selector`.
#[derive(Debug)]
pub struct ResGroup {
    resolution: u32,
    n_bins: usize,
    n_pixels: usize,
    selector: Option<Selector2D>,
}

impl ResGroup {
    pub closed spec fn resolution(&self) -> u32 {
        self.resolution
    }

    pub closed spec fn n_bins(&self) -> usize {
        self.n_bins
    }

    pub closed spec fn n_pixels(&self) -> usize {
        self.n_pixels
    }

    /// The query engine, if built.
    pub closed spec fn engine(&self) -> Option<Selector2D> {
        self.selector
    }

    /// A built engine is well formed and has the group's number of bins.
    pub open spec fn wf(&self) -> bool {
        self.engine().is_some() ==> self.engine().unwrap().wf() && self.engine().unwrap().n_bins()
            == self.n_bins()
    }

    /// A resolution without its query engine.
    pub fn new(resolution: u32, n_bins: usize, n_pixels: usize) -> (r: ResGroup)
        ensures
            r.wf(),
            r.resolution() == resolution,
            r.n_bins() == n_bins,
            r.n_pixels() == n_pixels,
            r.engine().is_none(),
    {
        ResGroup { resolution, n_bins, n_pixels, selector: None }
    }

    /// Makes the group query-ready with `selector`, unless it already is.
    pub fn init_selector(&mut self, selector: Selector2D)
        requires
            old(self).wf(),
            selector.wf(),
            selector.n_bins() == old(self).n_bins(),
        ensures
            final(self).wf(),
            final(self).resolution() == old(self).resolution(),
            final(self).n_bins() == old(self).n_bins(),
            final(self).n_pixels() == old(self).n_pixels(),
            final(self).engine() == if old(self).engine().is_none() {
                Some(selector)
            } else {
                old(self).engine()
            },
    {
        if self.selector.is_none() {
            self.selector = Some(selector);
        }
    }

    /// Whether the query engine has been built.
    pub fn is_query_ready(&self) -> (r: bool)
        ensures
            r == self.engine().is_some(),
    {
        self.selector.is_some()
    }

    pub fn get_resolution(&self) -> (r: u32)
        ensures
            r == self.resolution(),
    {
        self.resolution
    }

    pub fn get_n_bins(&self) -> (r: usize)
        ensures
            r == self.n_bins(),
    {
        self.n_bins
    }

    pub fn get_n_pixels(&self) -> (r: usize)
        ensures
            r == self.n_pixels(),
    {
        self.n_pixels
    }

    /// The window is empty or leaves the matrix.
    pub open spec fn bad_window(&self, i0: usize, i1: usize, j0: usize, j1: usize) -> bool {
        i0 >= i1 || j0 >= j1 || i1 > self.n_bins() || j1 > self.n_bins()
    }

    /// Raw counts of the window `[i0, i1) x [j0, j1)` as parallel row, column
    /// and count arrays: every nonzero cell of the symmetric matrix inside the
    /// window once. A bad window is an index error, checked first; a group
    /// without its engine is an uninitialised-engine error.
    pub fn get_raw_submatrix(&self, i0: usize, i1: usize, j0: usize, j1: usize) -> (r: Result<
        (Vec<u32>, Vec<u32>, Vec<u32>),
        QueryError,
    >)
        requires
            self.wf(),
        ensures
            self.bad_window(i0, i1, j0, j1) <==> r == Err::<(Vec<u32>, Vec<u32>, Vec<u32>), QueryError>(
                QueryError::Index(MatrixIndexError),
            ),
            !self.bad_window(i0, i1, j0, j1) && self.engine().is_none() <==> r == Err::<
                (Vec<u32>, Vec<u32>, Vec<u32>),
                QueryError,
            >(QueryError::SelectorUninit(SelectorUninitError)),
            r is Ok ==> {
                let t = r->Ok_0;
                &&& t.0@.len() == t.1@.len() == t.2@.len()
                &&& self.engine().unwrap().answers(
                    zip3(t.0@, t.1@, t.2@),
                    rect(i0 as int, i1 as int, j0 as int, j1 as int),
                )
            },
    {
        if i0 >= i1 || j0 >= j1 || i1 > self.n_bins || j1 > self.n_bins {
            return Err(QueryError::Index(MatrixIndexError));
        }
        match &self.selector {
            None => Err(QueryError::SelectorUninit(SelectorUninitError)),
            Some(sel) => Ok(sel.get_raw_submatrix(i0, i1, j0, j1)),
        }
    }
}

impl ResGroup {
    /// The nonzero cells `(column, count)` of row `row`, by increasing
    /// column. A row outside the matrix is an index error, checked first; a
    /// group without its engine is an uninitialised-engine error.
    pub fn get_raw_row_as_nnz_elems(&self, row: usize) -> (r: Result<Vec<(u32, u32)>, QueryError>)
        requires
            self.wf(),
        ensures
            row >= self.n_bins() <==> r == Err::<Vec<(u32, u32)>, QueryError>(
                QueryError::Index(MatrixIndexError),
            ),
            row < self.n_bins() && self.engine().is_none() <==> r == Err::<Vec<(u32, u32)>, QueryError>(
                QueryError::SelectorUninit(SelectorUninitError),
            ),
            r is Ok ==> {
                let v = r->Ok_0@;
                let sel = self.engine().unwrap();
                &&& forall|p: int, q: int| 0 <= p < q < v.len() ==> v[p].0 < v[q].0
                &&& forall|k: int|
                    0 <= k < v.len() ==> sel.cell_holds(row as int, (#[trigger] v[k]).0 as int, v[k].1)
                &&& forall|c: int| #[trigger] sel.cell_present(row as int, c) ==> has_column(v, c)
            },
    {
        if row >= self.n_bins {
            return Err(QueryError::Index(MatrixIndexError));
        }
        match &self.selector {
            None => Err(QueryError::SelectorUninit(SelectorUninitError)),
            Some(sel) => Ok(sel.get_row(row)),
        }
    }
}

/// Walk over the pixel positions `[start, end)` of a resolution in chunks of
/// at most `chunksize`: each step hands out the next range to read, until
/// the end is reached.
#[derive(Debug, Clone, Copy, PartialEq, Eq, Structural)]
pub struct RawPixelIterator {
    current: usize,
    end: usize,
    chunksize: usize,
}

impl RawPixelIterator {
    pub closed spec fn current(&self) -> int {
        self.current as int
    }

    pub closed spec fn end(&self) -> int {
        self.end as int
    }

    pub closed spec fn chunksize(&self) -> int {
        self.chunksize as int
    }

    /// A walk from `start` to `end` by chunks of `chunksize`.
    pub fn new(start: usize, end: usize, chunksize: usize) -> (r: RawPixelIterator)
        requires
            start <= end,
            chunksize > 0,
        ensures
            r.current() == start && r.end() == end && r.chunksize() == chunksize,
    {
        RawPixelIterator { current: start, end, chunksize }
    }

    /// The next range `[from, to)` to read: at most `chunksize` positions
    /// from where the last one stopped; `None` once the end is reached.
    pub fn next(&mut self) -> (r: Option<(usize, usize)>)
        requires
            old(self).current() <= old(self).end(),
            old(self).chunksize() > 0,
        ensures
            final(self).end() == old(self).end() && final(self).chunksize() == old(self).chunksize(),
            final(self).current() <= final(self).end(),
            old(self).current() < old(self).end() ==> {
                let to = if old(self).current() + old(self).chunksize() < old(self).end() {
                    old(self).current() + old(self).chunksize()
                } else {
                    old(self).end()
                };
                &&& r == Some((old(self).current() as usize, to as usize))
                &&& final(self).current() == to
            },
            old(self).current() >= old(self).end() ==> r.is_none() && final(self).current()
                == old(self).current(),
    {
        if self.current < self.end {
            let start = self.current;
            let to = if self.end - self.current > self.chunksize {
                self.current + self.chunksize
            } else {
                self.end
            };
            self.current = to;
            Some((start, to))
        } else {
            None
        }
    }
}

} // verus!
