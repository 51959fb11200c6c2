//! Range queries over the upper-triangular pixel store of one resolution.
use vstd::prelude::*;

use crate::bins::{
    build_bin_offsets_from_pixels, count_below, lemma_count_below_bounds, lemma_count_below_index,
    rows_sorted,
};
use crate::pixels::{count_at, has_cell, key_lt, lemma_count_at_entry, strictly_sorted};

verus! {

/// A stored pixel or a query answer: `(row bin, column bin, count)`.
pub type PixelT = (u32, u32, u32);

/// A query region: the set of `(row, column)` cells it contains.
pub type Region = spec_fn(int, int) -> bool;

/// The window `[i0, i1) x [j0, j1)`.
pub open spec fn rect(i0: int, i1: int, j0: int, j1: int) -> Region {
    |r: int, c: int| i0 <= r < i1 && j0 <= c < j1
}

/// The cells of `[i0, i1) x [j0, j1)` on or above the diagonal.
pub open spec fn triu_rect(i0: int, i1: int, j0: int, j1: int) -> Region {
    |r: int, c: int| i0 <= r < i1 && j0 <= c < j1 && r <= c
}

/// `t` holds an entry at cell `(r, c)`.
pub open spec fn covers(t: Seq<PixelT>, r: int, c: int) -> bool {
    exists|k: int| 0 <= k < t.len() && t[k].0 == r && t[k].1 == c
}

/// The entries of `t` sit at pairwise distinct cells.
pub open spec fn distinct_cells(t: Seq<PixelT>) -> bool {
    forall|k1: int, k2: int|
        0 <= k1 < t.len() && 0 <= k2 < t.len() && k1 != k2 ==> (#[trigger] t[k1]).0 != (
        #[trigger] t[k2]).0 || t[k1].1 != t[k2].1
}

/// Entry `x` with rows and columns exchanged.
pub open spec fn swapped(x: PixelT) -> PixelT {
    (x.1, x.0, x.2)
}

/// Every entry of `t` with rows and columns exchanged.
pub open spec fn transposed(t: Seq<PixelT>) -> Seq<PixelT> {
    Seq::new(t.len(), |k: int| swapped(t[k]))
}

/// Seq of triples built from three parallel sequences.
pub open spec fn zip3(a: Seq<u32>, b: Seq<u32>, c: Seq<u32>) -> Seq<PixelT> {
    Seq::new(a.len(), |k: int| (a[k], b[k], c[k]))
}

/// Position `p` of the pixel arrays belongs to row `a` under offsets `off`.
pub open spec fn row_at(off: Seq<u32>, a: int, p: int) -> bool {
    0 <= a < off.len() - 1 && off[a] <= p < off[a + 1]
}

/// The layout invariant of a store: offsets start at zero, never decrease and
/// end at the pixel count; every stored count is nonzero; each row holds
/// columns at or right of the diagonal and below the bin count, in strictly
/// increasing order.
pub open spec fn layout_ok(off: Seq<u32>, b2: Seq<u32>, cnt: Seq<u32>) -> bool {
    &&& 1 <= off.len() <= u32::MAX
    &&& off[0] == 0
    &&& off[off.len() - 1] == b2.len()
    &&& b2.len() == cnt.len()
    &&& forall|p: int| 0 <= p < cnt.len() ==> #[trigger] cnt[p] > 0
    &&& forall|r: int| 0 <= r < off.len() - 1 ==> #[trigger] off[r] <= off[r + 1] <= b2.len()
    &&& forall|a: int, p: int| #[trigger] row_at(off, a, p) ==> a <= b2[p] < off.len() - 1
    &&& forall|a: int, p: int, q: int|
        #[trigger] row_at(off, a, p) && #[trigger] row_at(off, a, q) && p < q ==> b2[p] < b2[q]
}

/// How a row range and a column range lie relative to each other, once the
/// row range starts no later than the column range.
#[derive(PartialEq, Eq, Structural, Clone, Copy, Debug)]
pub enum WindowRelation {
    /// The two ranges are the same.
    Equal,
    /// The ranges neither overlap nor touch.
    Disjoint,
    /// One range lies inside the other.
    Nested,
    /// The row range starts first and the column range ends last.
    Overlapping,
}

/// Query engine over the upper triangle of a symmetric sparse matrix: the
/// pixels of row `k` are `bin2_ids[bin1_offset[k]..bin1_offset[k + 1]]`, with
/// their counts at the same positions.
#[derive(Debug)]
pub struct Selector2D {
    bin_offsets: Vec<u32>,
    bin2_ids: Vec<u32>,
    counts: Vec<u32>,
}

impl Selector2D {
    pub closed spec fn offsets_view(self) -> Seq<u32> {
        self.bin_offsets@
    }

    pub closed spec fn bin2_view(self) -> Seq<u32> {
        self.bin2_ids@
    }

    pub closed spec fn counts_view(self) -> Seq<u32> {
        self.counts@
    }

    /// Number of bins (rows) of the matrix.
    pub open spec fn n_bins(self) -> int {
        self.offsets_view().len() - 1
    }

    /// Position `p` of the pixel arrays belongs to row `a`.
    pub open spec fn at(self, a: int, p: int) -> bool {
        row_at(self.offsets_view(), a, p)
    }

    /// Pixel `(a, b)` is stored (which implies `a <= b`).
    pub open spec fn stored(self, a: int, b: int) -> bool {
        exists|p: int| #[trigger] self.at(a, p) && self.bin2_view()[p] == b
    }

    /// Pixel `(a, b)` is stored with count `v`.
    pub open spec fn stored_with(self, a: int, b: int, v: u32) -> bool {
        exists|p: int| #[trigger] self.at(a, p) && self.bin2_view()[p] == b && self.counts_view()[p] == v
    }

    /// Cell `(r, c)` of the full symmetric matrix is nonzero (stored in the upper triangle).
    pub open spec fn cell_present(self, r: int, c: int) -> bool {
        if r <= c {
            self.stored(r, c)
        } else {
            self.stored(c, r)
        }
    }

    /// Cell `(r, c)` of the full symmetric matrix holds count `v`.
    pub open spec fn cell_holds(self, r: int, c: int, v: u32) -> bool {
        if r <= c {
            self.stored_with(r, c, v)
        } else {
            self.stored_with(c, r, v)
        }
    }

    /// `t` is exactly the set of nonzero cells of the symmetric matrix inside
    /// `region`, each once, with its count.
    pub open spec fn answers(self, t: Seq<PixelT>, region: Region) -> bool {
        &&& forall|k: int|
            0 <= k < t.len() ==> region((#[trigger] t[k]).0 as int, t[k].1 as int)
                && self.cell_holds(t[k].0 as int, t[k].1 as int, t[k].2)
        &&& forall|r: int, c: int|
            region(r, c) && #[trigger] self.cell_present(r, c) ==> covers(t, r, c)
        &&& distinct_cells(t)
    }

    /// The store's invariant (see `layout_ok`).
    pub open spec fn wf(self) -> bool {
        layout_ok(self.offsets_view(), self.bin2_view(), self.counts_view())
    }

    /// The full matrix is symmetric: cell `(r, c)` and cell `(c, r)` agree.
    pub proof fn lemma_cell_symmetric(self, r: int, c: int, v: u32)
        ensures
            self.cell_present(r, c) == self.cell_present(c, r),
            self.cell_holds(r, c, v) == self.cell_holds(c, r, v),
    {
    }

    /// Builds a selector from the offset index and the column and count
    /// arrays; `None` unless they satisfy the store's invariant.
    pub fn new(bin_offsets: Vec<u32>, bin2_ids: Vec<u32>, counts: Vec<u32>) -> (r: Option<
        Selector2D,
    >)
        ensures
            r.is_some() <==> layout_ok(bin_offsets@, bin2_ids@, counts@),
            r.is_some() ==> r.unwrap().offsets_view() == bin_offsets@ && r.unwrap().bin2_view()
                == bin2_ids@ && r.unwrap().counts_view() == counts@,
    {
        let ghost (off0, b20, cnt0) = (bin_offsets@, bin2_ids@, counts@);
        let nb = bin_offsets.len();
        if nb == 0 || nb > u32::MAX as usize || bin_offsets[0] != 0 || bin_offsets[nb - 1] as usize
            != bin2_ids.len() || bin2_ids.len() != counts.len() {
            return None;
        }
        let mut c: usize = 0;
        while c < counts.len()
            invariant
                cnt0 == counts@,
                c <= cnt0.len(),
                forall|q: int| 0 <= q < c ==> #[trigger] cnt0[q] > 0,
            decreases cnt0.len() - c,
        {
            if counts[c] == 0 {
                proof {
                    if layout_ok(off0, b20, cnt0) {
                        assert(cnt0[c as int] > 0);
                    }
                }
                return None;
            }
            c += 1;
        }
        let n = nb - 1;
        let mut r: usize = 0;
        while r < n
            invariant
                forall|q: int| 0 <= q < cnt0.len() ==> #[trigger] cnt0[q] > 0,
                nb == off0.len(),
                n == nb - 1,
                1 <= nb <= u32::MAX,
                0 <= r <= n,
                off0 == bin_offsets@,
                b20 == bin2_ids@,
                cnt0 == counts@,
                off0[0] == 0,
                off0[n as int] == b20.len(),
                b20.len() == cnt0.len(),
                forall|r2: int| 0 <= r2 < r ==> #[trigger] off0[r2] <= off0[r2 + 1] <= b20.len(),
                forall|a: int, p: int| 0 <= a < r && #[trigger] row_at(off0, a, p) ==> a <= b20[p] < n,
                forall|a: int, p: int, q: int|
                    0 <= a < r && #[trigger] row_at(off0, a, p) && #[trigger] row_at(off0, a, q) && p
                        < q ==> b20[p] < b20[q],
            decreases n - r,
        {
            let lo = bin_offsets[r] as usize;
            let hi = bin_offsets[r + 1] as usize;
            if lo > hi || hi > bin2_ids.len() {
                proof {
                    if layout_ok(off0, b20, cnt0) {
                        assert(off0[r as int] <= off0[r + 1] <= b20.len());
                    }
                }
                return None;
            }
            let mut p = lo;
            while p < hi
                invariant
                    n == nb - 1,
                    nb == off0.len(),
                    r < n,
                    off0 == bin_offsets@,
                    b20 == bin2_ids@,
                    cnt0 == counts@,
                    lo == off0[r as int],
                    hi == off0[r + 1],
                    lo <= p <= hi <= b20.len(),
                    forall|q: int| lo <= q < p ==> r <= #[trigger] b20[q] < n,
                    forall|q1: int, q2: int| lo <= q1 < q2 < p ==> #[trigger] b20[q1] < #[trigger] b20[q2],
                decreases hi - p,
            {
                let b = bin2_ids[p];
                if (b as usize) < r || b as usize >= n {
                    proof {
                        if layout_ok(off0, b20, cnt0) {
                            assert(row_at(off0, r as int, p as int));
                        }
                    }
                    return None;
                }
                if p > lo && bin2_ids[p - 1] >= b {
                    proof {
                        if layout_ok(off0, b20, cnt0) {
                            assert(row_at(off0, r as int, p - 1));
                            assert(row_at(off0, r as int, p as int));
                        }
                    }
                    return None;
                }
                p += 1;
            }
            proof {
                assert forall|a: int, p2: int, q: int|
                    0 <= a < r + 1 && #[trigger] row_at(off0, a, p2) && #[trigger] row_at(off0, a, q)
                        && p2 < q implies b20[p2] < b20[q] by {
                    if a == r {
                        assert(lo <= p2 < q < hi);
                    }
                }
            }
            r += 1;
        }
        Some(Selector2D { bin_offsets, bin2_ids, counts })
    }

    /// Number of bins (rows) of the matrix.
    pub fn get_n_bins(&self) -> (r: usize)
        requires
            self.wf(),
        ensures
            r == self.n_bins(),
    {
        self.bin_offsets.len() - 1
    }

    /// All stored pixels with row in `[i0, i1)` and column in `[j0, j1)`.
    /// Only cells on or above the diagonal are stored, so only those come back.
    pub fn fetch_stored_block(&self, i0: usize, i1: usize, j0: usize, j1: usize) -> (t: Vec<
        PixelT,
    >)
        requires
            self.wf(),
            i1 <= self.n_bins(),
        ensures
            self.answers(t@, triu_rect(i0 as int, i1 as int, j0 as int, j1 as int)),
            strictly_sorted(t@),
    {
        let ghost region = triu_rect(i0 as int, i1 as int, j0 as int, j1 as int);
        let mut t: Vec<PixelT> = Vec::new();
        let mut r = i0;
        while r < i1
            invariant
                self.wf(),
                i1 <= self.n_bins(),
                i0 <= r,
                r <= i1 || r == i0,
                forall|k: int|
                    0 <= k < t@.len() ==> i0 <= (#[trigger] t@[k]).0 < r && j0 <= t@[k].1 < j1
                        && t@[k].0 <= t@[k].1 && self.cell_holds(
                        t@[k].0 as int,
                        t@[k].1 as int,
                        t@[k].2,
                    ),
                forall|a: int, c: int|
                    i0 <= a < r && j0 <= c < j1 && a <= c && #[trigger] self.stored(a, c) ==> covers(
                        t@,
                        a,
                        c,
                    ),
                distinct_cells(t@),
                strictly_sorted(t@),
            decreases i1 - r,
        {
            let lo = self.bin_offsets[r] as usize;
            let hi = self.bin_offsets[r + 1] as usize;
            let ghost t0 = t@;
            let mut p = lo;
            while p < hi
                invariant
                    self.wf(),
                    i0 <= r < i1 <= self.n_bins(),
                    lo == self.offsets_view()[r as int],
                    hi == self.offsets_view()[r + 1],
                    lo <= p <= hi <= self.bin2_view().len(),
                    t0.len() <= t@.len(),
                    forall|k: int| 0 <= k < t0.len() ==> t@[k] == t0[k],
                    forall|k: int|
                        0 <= k < t0.len() ==> i0 <= (#[trigger] t0[k]).0 < r && j0 <= t0[k].1 < j1
                            && t0[k].0 <= t0[k].1 && self.cell_holds(
                            t0[k].0 as int,
                            t0[k].1 as int,
                            t0[k].2,
                        ),
                    forall|k: int|
                        t0.len() <= k < t@.len() ==> (#[trigger] t@[k]).0 == r && j0 <= t@[k].1 < j1
                            && t@[k].0 <= t@[k].1 && self.cell_holds(
                            t@[k].0 as int,
                            t@[k].1 as int,
                            t@[k].2,
                        ) && (p < hi ==> t@[k].1 < self.bin2_view()[p as int]),
                    forall|a: int, c: int|
                        i0 <= a < r && j0 <= c < j1 && a <= c && #[trigger] self.stored(a, c)
                            ==> covers(t0, a, c),
                    forall|q: int|
                        lo <= q < p && j0 <= #[trigger] self.bin2_view()[q] < j1 ==> covers(
                            t@,
                            r as int,
                            self.bin2_view()[q] as int,
                        ),
                    distinct_cells(t@),
                    strictly_sorted(t@),
                decreases hi - p,
            {
                let b = self.bin2_ids[p];
                proof {
                    assert(self.at(r as int, p as int));
                }
                if j0 <= b as usize && (b as usize) < j1 {
                    let ghost before = t@;
                    let x = (r as u32, b, self.counts[p]);
                    t.push(x);
                    proof {
                        assert(self.cell_holds(r as int, b as int, self.counts@[p as int]));
                        assert(t@[t@.len() - 1] == x);
                        assert forall|q: int|
                            lo <= q < p + 1 && j0 <= #[trigger] self.bin2_view()[q] < j1 implies covers(
                            t@,
                            r as int,
                            self.bin2_view()[q] as int,
                        ) by {
                            if q < p {
                                let k = choose|k: int|
                                    0 <= k < before.len() && before[k].0 == r && before[k].1
                                        == self.bin2_view()[q];
                                assert(t@[k] == before[k]);
                            } else {
                                assert(t@[before.len() as int] == x);
                            }
                        }
                        assert forall|k1: int, k2: int|
                            0 <= k1 < k2 < t@.len() implies key_lt(#[trigger] t@[k1], #[trigger] t@[k2]) by {
                            if k2 < before.len() {
                                assert(t@[k1] == before[k1] && t@[k2] == before[k2]);
                            } else {
                                assert(t@[k1] == before[k1]);
                                assert(t@[k2] == x);
                                if k1 >= t0.len() {
                                    assert(before[k1].1 < b);
                                } else {
                                    assert(t0[k1] == before[k1]);
                                    assert(before[k1].0 < r);
                                }
                            }
                        }
                        assert forall|k1: int, k2: int|
                            0 <= k1 < t@.len() && 0 <= k2 < t@.len() && k1 != k2 implies (
                            #[trigger] t@[k1]).0 != (#[trigger] t@[k2]).0 || t@[k1].1 != t@[k2].1 by {
                            if k1 < before.len() && k2 < before.len() {
                                assert(t@[k1] == before[k1] && t@[k2] == before[k2]);
                            } else if k1 < before.len() {
                                assert(t@[k1] == before[k1]);
                                assert(t@[k2] == x);
                                if k1 >= t0.len() {
                                    assert(before[k1].1 < b);
                                } else {
                                    assert(t0[k1] == before[k1]);
                                    assert(before[k1].0 < r);
                                }
                            } else if k2 < before.len() {
                                assert(t@[k2] == before[k2]);
                                assert(t@[k1] == x);
                                if k2 >= t0.len() {
                                    assert(before[k2].1 < b);
                                } else {
                                    assert(t0[k2] == before[k2]);
                                    assert(before[k2].0 < r);
                                }
                            }
                        }
                        assert forall|k: int|
                            t0.len() <= k < t@.len() implies (#[trigger] t@[k]).0 == r && j0
                            <= t@[k].1 < j1 && t@[k].0 <= t@[k].1 && self.cell_holds(
                            t@[k].0 as int,
                            t@[k].1 as int,
                            t@[k].2,
                        ) && (p + 1 < hi ==> t@[k].1 < self.bin2_view()[p + 1]) by {
                            if p + 1 < hi {
                                assert(self.at(r as int, p + 1));
                            }
                            if k < before.len() {
                                assert(t@[k] == before[k]);
                            }
                        }
                    }
                } else {
                    proof {
                        assert forall|k: int|
                            t0.len() <= k < t@.len() implies (p + 1 < hi ==> (#[trigger] t@[k]).1
                            < self.bin2_view()[p + 1]) by {
                            if p + 1 < hi {
                                assert(self.at(r as int, p + 1));
                            }
                        }
                    }
                }
                p += 1;
            }
            proof {
                assert forall|a: int, c: int|
                    i0 <= a < r + 1 && j0 <= c < j1 && a <= c && #[trigger] self.stored(a, c)
                        implies covers(t@, a, c) by {
                    if a < r {
                        let k = choose|k: int| 0 <= k < t0.len() && t0[k].0 == a && t0[k].1 == c;
                        assert(t@[k] == t0[k]);
                    } else {
                        let q = choose|q: int| #[trigger] self.at(a, q) && self.bin2_view()[q] == c;
                        assert(lo <= q < hi);
                    }
                }
                assert forall|k: int|
                    0 <= k < t@.len() implies i0 <= (#[trigger] t@[k]).0 < r + 1 && j0 <= t@[k].1
                    < j1 && t@[k].0 <= t@[k].1 && self.cell_holds(
                    t@[k].0 as int,
                    t@[k].1 as int,
                    t@[k].2,
                ) by {
                    if k < t0.len() {
                        assert(t@[k] == t0[k]);
                    }
                }
            }
            r += 1;
        }
        proof {
            assert forall|k: int| 0 <= k < t@.len() implies region((#[trigger] t@[k]).0 as int, t@[k].1 as int)
                && self.cell_holds(t@[k].0 as int, t@[k].1 as int, t@[k].2) by {}
            assert forall|r2: int, c: int|
                region(r2, c) && #[trigger] self.cell_present(r2, c) implies covers(t@, r2, c) by {
                assert(self.stored(r2, c));
            }
        }
        t
    }

    /// Joining answers over two disjoint regions answers their union.
    pub proof fn lemma_answers_concat(self, t1: Seq<PixelT>, t2: Seq<PixelT>, g1: Region, g2: Region)
        requires
            self.answers(t1, g1),
            self.answers(t2, g2),
            forall|r: int, c: int| #[trigger] g1(r, c) ==> !g2(r, c),
        ensures
            self.answers(t1 + t2, |r: int, c: int| g1(r, c) || g2(r, c)),
    {
        let t = t1 + t2;
        let n1 = t1.len() as int;
        assert forall|k: int| 0 <= k < t.len() implies (|r: int, c: int| g1(r, c) || g2(r, c))(
            (#[trigger] t[k]).0 as int,
            t[k].1 as int,
        ) && self.cell_holds(t[k].0 as int, t[k].1 as int, t[k].2) by {
            if k < n1 {
                assert(t[k] == t1[k]);
            } else {
                assert(t[k] == t2[k - n1]);
            }
        }
        assert forall|r: int, c: int|
            (|r: int, c: int| g1(r, c) || g2(r, c))(r, c) && #[trigger] self.cell_present(r, c)
                implies covers(t, r, c) by {
            if g1(r, c) {
                let k = choose|k: int| 0 <= k < t1.len() && t1[k].0 == r && t1[k].1 == c;
                assert(t[k] == t1[k]);
            } else {
                let k = choose|k: int| 0 <= k < t2.len() && t2[k].0 == r && t2[k].1 == c;
                assert(t[k + n1] == t2[k]);
            }
        }
        assert forall|k1: int, k2: int|
            0 <= k1 < t.len() && 0 <= k2 < t.len() && k1 != k2 implies (#[trigger] t[k1]).0 != (
            #[trigger] t[k2]).0 || t[k1].1 != t[k2].1 by {
            if k1 < n1 && k2 < n1 {
                assert(t[k1] == t1[k1] && t[k2] == t1[k2]);
            } else if k1 >= n1 && k2 >= n1 {
                assert(t[k1] == t2[k1 - n1] && t[k2] == t2[k2 - n1]);
            } else if k1 < n1 {
                assert(t[k1] == t1[k1] && t[k2] == t2[k2 - n1]);
                assert(g1(t1[k1].0 as int, t1[k1].1 as int));
                assert(g2(t2[k2 - n1].0 as int, t2[k2 - n1].1 as int));
            } else {
                assert(t[k2] == t1[k2] && t[k1] == t2[k1 - n1]);
                assert(g1(t1[k2].0 as int, t1[k2].1 as int));
                assert(g2(t2[k1 - n1].0 as int, t2[k1 - n1].1 as int));
            }
        }
    }

    /// Exchanging rows and columns of an answer answers the mirrored region.
    pub proof fn lemma_answers_transposed(self, t: Seq<PixelT>, g: Region)
        requires
            self.answers(t, g),
        ensures
            self.answers(transposed(t), |r: int, c: int| g(c, r)),
    {
        let tt = transposed(t);
        assert forall|k: int| 0 <= k < tt.len() implies (|r: int, c: int| g(c, r))(
            (#[trigger] tt[k]).0 as int,
            tt[k].1 as int,
        ) && self.cell_holds(tt[k].0 as int, tt[k].1 as int, tt[k].2) by {
            assert(tt[k] == swapped(t[k]));
            self.lemma_cell_symmetric(t[k].0 as int, t[k].1 as int, t[k].2);
        }
        assert forall|r: int, c: int|
            (|r: int, c: int| g(c, r))(r, c) && #[trigger] self.cell_present(r, c) implies covers(
            tt,
            r,
            c,
        ) by {
            self.lemma_cell_symmetric(r, c, 0);
            assert(self.cell_present(c, r));
            let k = choose|k: int| 0 <= k < t.len() && t[k].0 == c && t[k].1 == r;
            assert(tt[k] == swapped(t[k]));
        }
        assert forall|k1: int, k2: int|
            0 <= k1 < tt.len() && 0 <= k2 < tt.len() && k1 != k2 implies (#[trigger] tt[k1]).0 != (
            #[trigger] tt[k2]).0 || tt[k1].1 != tt[k2].1 by {
            assert(tt[k1] == swapped(t[k1]) && tt[k2] == swapped(t[k2]));
            assert(t[k1].0 != t[k2].0 || t[k1].1 != t[k2].1);
        }
    }

    /// An answer over a region answers every region with the same cells.
    pub proof fn lemma_answers_same_region(self, t: Seq<PixelT>, g: Region, h: Region)
        requires
            self.answers(t, g),
            forall|r: int, c: int| #[trigger] g(r, c) == #[trigger] h(r, c),
        ensures
            self.answers(t, h),
    {
        assert forall|r: int, c: int| h(r, c) && #[trigger] self.cell_present(r, c) implies covers(
            t,
            r,
            c,
        ) by {
            assert(g(r, c));
        }
        assert forall|k: int| 0 <= k < t.len() implies h((#[trigger] t[k]).0 as int, t[k].1 as int)
            by {
            assert(g(t[k].0 as int, t[k].1 as int));
        }
    }
}

/// Every entry of `t` with rows and columns exchanged.
fn transpose(t: Vec<PixelT>) -> (res: Vec<PixelT>)
    ensures
        res@ == transposed(t@),
{
    let mut res: Vec<PixelT> = Vec::new();
    let mut k: usize = 0;
    while k < t.len()
        invariant
            k <= t@.len(),
            res@ == transposed(t@.subrange(0, k as int)),
        decreases t@.len() - k,
    {
        let x = t[k];
        res.push((x.1, x.0, x.2));
        k += 1;
        proof {
            assert(res@ =~= transposed(t@.subrange(0, k as int)));
        }
    }
    assert(t@.subrange(0, t@.len() as int) =~= t@);
    res
}

/// Relation of the row range `[i0, i1)` to the column range `[j0, j1)`.
pub open spec fn relation_of(i0: int, i1: int, j0: int, j1: int) -> WindowRelation {
    if i0 == j0 && i1 == j1 {
        WindowRelation::Equal
    } else if !(i0 <= j1 && j0 <= i1) {
        WindowRelation::Disjoint
    } else if (i0 <= j0 && j1 <= i1) || (j0 <= i0 && i1 <= j1) {
        WindowRelation::Nested
    } else {
        WindowRelation::Overlapping
    }
}

/// Classifies a row range against a column range.
pub fn window_relation(i0: usize, i1: usize, j0: usize, j1: usize) -> (r: WindowRelation)
    ensures
        r == relation_of(i0 as int, i1 as int, j0 as int, j1 as int),
{
    if i0 == j0 && i1 == j1 {
        WindowRelation::Equal
    } else if !(i0 <= j1 && j0 <= i1) {
        WindowRelation::Disjoint
    } else if (i0 <= j0 && j1 <= i1) || (j0 <= i0 && i1 <= j1) {
        WindowRelation::Nested
    } else {
        WindowRelation::Overlapping
    }
}

impl Selector2D {
    /// Cells `(r, c)` of the lower triangle answered by mirroring the upper
    /// triangle entries of `t` that are off the diagonal.
    fn mirror_off_diagonal(&self, t: &Vec<PixelT>, a0: usize, a1: usize) -> (res: Vec<PixelT>)
        requires
            self.wf(),
            self.answers(t@, triu_rect(a0 as int, a1 as int, a0 as int, a1 as int)),
        ensures
            self.answers(res@, |r: int, c: int| a0 <= r < a1 && a0 <= c < a1 && c < r),
    {
        let ghost g = triu_rect(a0 as int, a1 as int, a0 as int, a1 as int);
        let mut res: Vec<PixelT> = Vec::new();
        let ghost mut src: Seq<int> = Seq::empty();
        let mut k: usize = 0;
        while k < t.len()
            invariant
                self.answers(t@, g),
                g == triu_rect(a0 as int, a1 as int, a0 as int, a1 as int),
                k <= t@.len(),
                src.len() == res@.len(),
                forall|m: int|
                    0 <= m < src.len() ==> 0 <= #[trigger] src[m] < k && res@[m] == swapped(t@[src[m]])
                        && t@[src[m]].0 != t@[src[m]].1,
                forall|m1: int, m2: int| 0 <= m1 < m2 < src.len() ==> #[trigger] src[m1] < #[trigger] src[m2],
                forall|k2: int|
                    0 <= k2 < k && (#[trigger] t@[k2]).0 != t@[k2].1 ==> covers(
                        res@,
                        t@[k2].1 as int,
                        t@[k2].0 as int,
                    ),
            decreases t@.len() - k,
        {
            let x = t[k];
            if x.0 != x.1 {
                let ghost before = res@;
                res.push((x.1, x.0, x.2));
                proof {
                    src = src.push(k as int);
                    assert forall|k2: int|
                        0 <= k2 < k + 1 && (#[trigger] t@[k2]).0 != t@[k2].1 implies covers(
                        res@,
                        t@[k2].1 as int,
                        t@[k2].0 as int,
                    ) by {
                        if k2 < k {
                            let m = choose|m: int|
                                0 <= m < before.len() && before[m].0 == t@[k2].1 && before[m].1
                                    == t@[k2].0;
                            assert(res@[m] == before[m]);
                        } else {
                            assert(res@[before.len() as int] == swapped(x));
                        }
                    }
                    assert forall|m: int|
                        0 <= m < src.len() implies 0 <= #[trigger] src[m] < k + 1 && res@[m] == swapped(
                        t@[src[m]],
                    ) && t@[src[m]].0 != t@[src[m]].1 by {
                        if m < before.len() {
                            assert(res@[m] == before[m]);
                        }
                    }
                }
            }
            k += 1;
        }
        proof {
            let h = |r: int, c: int| a0 <= r < a1 && a0 <= c < a1 && c < r;
            assert forall|m: int| 0 <= m < res@.len() implies h(
                (#[trigger] res@[m]).0 as int,
                res@[m].1 as int,
            ) && self.cell_holds(res@[m].0 as int, res@[m].1 as int, res@[m].2) by {
                let j = src[m];
                assert(g(t@[j].0 as int, t@[j].1 as int));
                self.lemma_cell_symmetric(t@[j].0 as int, t@[j].1 as int, t@[j].2);
            }
            assert forall|r: int, c: int| h(r, c) && #[trigger] self.cell_present(r, c) implies covers(
                res@,
                r,
                c,
            ) by {
                assert(g(c, r));
                assert(self.cell_present(c, r));
                let j = choose|j: int| 0 <= j < t@.len() && t@[j].0 == c && t@[j].1 == r;
                assert(t@[j].0 != t@[j].1);
            }
            assert forall|m1: int, m2: int|
                0 <= m1 < res@.len() && 0 <= m2 < res@.len() && m1 != m2 implies (
                #[trigger] res@[m1]).0 != (#[trigger] res@[m2]).0 || res@[m1].1 != res@[m2].1 by {
                assert(src[m1] != src[m2]) by {
                    if m1 < m2 {
                        assert(src[m1] < src[m2]);
                    } else {
                        assert(src[m2] < src[m1]);
                    }
                }
                let j1 = src[m1];
                let j2 = src[m2];
                assert(t@[j1].0 != t@[j2].0 || t@[j1].1 != t@[j2].1);
            }
        }
        res
    }

    /// The full symmetric block `[a0, a1) x [a0, a1)`: the stored upper
    /// triangle, then its off-diagonal entries mirrored below the diagonal.
    fn fetch_symmetric(&self, a0: usize, a1: usize) -> (t: Vec<PixelT>)
        requires
            self.wf(),
            a1 <= self.n_bins(),
        ensures
            self.answers(t@, rect(a0 as int, a1 as int, a0 as int, a1 as int)),
    {
        let mut t = self.fetch_stored_block(a0, a1, a0, a1);
        let mut m = self.mirror_off_diagonal(&t, a0, a1);
        let ghost (t1, m1) = (t@, m@);
        t.append(&mut m);
        proof {
            let g1 = triu_rect(a0 as int, a1 as int, a0 as int, a1 as int);
            let g2 = |r: int, c: int| a0 <= r < a1 && a0 <= c < a1 && c < r;
            self.lemma_answers_concat(t1, m1, g1, g2);
            self.lemma_answers_same_region(
                t@,
                |r: int, c: int| g1(r, c) || g2(r, c),
                rect(a0 as int, a1 as int, a0 as int, a1 as int),
            );
        }
        t
    }

    /// Window `[a0, a1) x [b0, b1)` whose ranges overlap or touch, with the
    /// row range starting first (`a0 <= b0 <= a1`), and `m1` the end of the
    /// overlap `[b0, m1)`. The window splits at `b0` and `m1` into rows before
    /// the overlap, the overlap square, the part of the overlap rows right of
    /// it and, mirrored from the stored triangle, the rows after it.
    fn split_and_mirror(&self, a0: usize, a1: usize, b0: usize, b1: usize, m1: usize) -> (t: Vec<
        PixelT,
    >)
        requires
            self.wf(),
            a1 <= self.n_bins(),
            b1 <= self.n_bins(),
            a0 <= b0 <= m1,
            b0 <= b1,
            m1 == a1 || m1 == b1,
            m1 <= a1 && m1 <= b1,
        ensures
            self.answers(t@, rect(a0 as int, a1 as int, b0 as int, b1 as int)),
    {
        let ghost (ia0, ia1, ib0, ib1, im1) = (a0 as int, a1 as int, b0 as int, b1 as int, m1 as int);
        let mut x = self.fetch_stored_block(a0, b0, b0, b1);
        let mut y = self.fetch_symmetric(b0, m1);
        let mut z = self.fetch_stored_block(b0, m1, m1, b1);
        let w0 = self.fetch_stored_block(b0, m1, m1, a1);
        let ghost w0s = w0@;
        let mut w = transpose(w0);
        let ghost (xs, ys, zs, ws) = (x@, y@, z@, w@);
        x.append(&mut y);
        x.append(&mut z);
        x.append(&mut w);
        proof {
            let gx = triu_rect(ia0, ib0, ib0, ib1);
            let gy = rect(ib0, im1, ib0, im1);
            let gz = triu_rect(ib0, im1, im1, ib1);
            let gw0 = triu_rect(ib0, im1, im1, ia1);
            let gw = |r: int, c: int| gw0(c, r);
            self.lemma_answers_transposed(w0s, gw0);
            self.lemma_answers_concat(xs, ys, gx, gy);
            let gxy = |r: int, c: int| gx(r, c) || gy(r, c);
            self.lemma_answers_concat(xs + ys, zs, gxy, gz);
            let gxyz = |r: int, c: int| gxy(r, c) || gz(r, c);
            self.lemma_answers_concat(xs + ys + zs, ws, gxyz, gw);
            let gall = |r: int, c: int| gxyz(r, c) || gw(r, c);
            assert(x@ == xs + ys + zs + ws);
            self.lemma_answers_same_region(x@, gall, rect(ia0, ia1, ib0, ib1));
        }
        x
    }

    /// All nonzero cells of the symmetric matrix in the window
    /// `[i0, i1) x [j0, j1)`, each once, with its count.
    pub fn get_rectangle(&self, i0: usize, i1: usize, j0: usize, j1: usize) -> (t: Vec<PixelT>)
        requires
            self.wf(),
            i0 < i1 <= self.n_bins(),
            j0 < j1 <= self.n_bins(),
        ensures
            self.answers(t@, rect(i0 as int, i1 as int, j0 as int, j1 as int)),
    {
        if i0 == j0 && i1 == j1 {
            return self.fetch_symmetric(i0, i1);
        }
        let transpose_back = j0 < i0 || (i0 == j0 && i1 < j1);
        let (a0, a1, b0, b1) = if transpose_back {
            (j0, j1, i0, i1)
        } else {
            (i0, i1, j0, j1)
        };
        let t = match window_relation(a0, a1, b0, b1) {
            WindowRelation::Disjoint => {
                let t = self.fetch_stored_block(a0, a1, b0, b1);
                proof {
                    self.lemma_answers_same_region(
                        t@,
                        triu_rect(a0 as int, a1 as int, b0 as int, b1 as int),
                        rect(a0 as int, a1 as int, b0 as int, b1 as int),
                    );
                }
                t
            },
            WindowRelation::Nested => self.split_and_mirror(a0, a1, b0, b1, b1),
            WindowRelation::Overlapping => self.split_and_mirror(a0, a1, b0, b1, a1),
            WindowRelation::Equal => self.fetch_symmetric(a0, a1),
        };
        if transpose_back {
            let ghost ts = t@;
            let res = transpose(t);
            proof {
                let g = rect(a0 as int, a1 as int, b0 as int, b1 as int);
                self.lemma_answers_transposed(ts, g);
                self.lemma_answers_same_region(
                    res@,
                    |r: int, c: int| g(c, r),
                    rect(i0 as int, i1 as int, j0 as int, j1 as int),
                );
            }
            res
        } else {
            t
        }
    }

    /// Raw counts of the window `[i0, i1) x [j0, j1)` as parallel row,
    /// column and count arrays.
    pub fn get_raw_submatrix(&self, i0: usize, i1: usize, j0: usize, j1: usize) -> (res: (
        Vec<u32>,
        Vec<u32>,
        Vec<u32>,
    ))
        requires
            self.wf(),
            i0 < i1 <= self.n_bins(),
            j0 < j1 <= self.n_bins(),
        ensures
            res.0@.len() == res.1@.len() == res.2@.len(),
            self.answers(zip3(res.0@, res.1@, res.2@), rect(i0 as int, i1 as int, j0 as int, j1 as int)),
    {
        let t = self.get_rectangle(i0, i1, j0, j1);
        let (is, js, vs) = unzip3(&t);
        proof {
            assert(zip3(is@, js@, vs@) =~= t@);
        }
        (is, js, vs)
    }
}

/// Splits triples into three parallel arrays.
pub fn unzip3(t: &Vec<PixelT>) -> (res: (Vec<u32>, Vec<u32>, Vec<u32>))
    ensures
        res.0@.len() == t@.len() && res.1@.len() == t@.len() && res.2@.len() == t@.len(),
        zip3(res.0@, res.1@, res.2@) == t@,
{
    let mut is: Vec<u32> = Vec::new();
    let mut js: Vec<u32> = Vec::new();
    let mut vs: Vec<u32> = Vec::new();
    let mut k: usize = 0;
    while k < t.len()
        invariant
            k <= t@.len(),
            is@.len() == k && js@.len() == k && vs@.len() == k,
            forall|m: int| 0 <= m < k ==> (is@[m], js@[m], vs@[m]) == #[trigger] t@[m],
        decreases t@.len() - k,
    {
        is.push(t[k].0);
        js.push(t[k].1);
        vs.push(t[k].2);
        k += 1;
    }
    assert(zip3(is@, js@, vs@) =~= t@);
    (is, js, vs)
}

impl Selector2D {
    /// A stored cell holds one count only.
    pub proof fn lemma_stored_value_unique(self, a: int, b: int, v1: u32, v2: u32)
        requires
            self.wf(),
            self.stored_with(a, b, v1),
            self.stored_with(a, b, v2),
        ensures
            v1 == v2,
    {
        let p = choose|p: int|
            #[trigger] self.at(a, p) && self.bin2_view()[p] == b && self.counts_view()[p] == v1;
        let q = choose|q: int|
            #[trigger] self.at(a, q) && self.bin2_view()[q] == b && self.counts_view()[q] == v2;
        if p < q {
            assert(self.bin2_view()[p] < self.bin2_view()[q]);
        } else if q < p {
            assert(self.bin2_view()[q] < self.bin2_view()[p]);
        }
    }

    /// A symmetric window's answer is symmetric: with every entry `(r, c, v)`
    /// it holds `(c, r, v)`, and no cell comes twice.
    pub proof fn lemma_symmetric_window(self, t: Seq<PixelT>, i0: int, i1: int)
        requires
            self.wf(),
            self.answers(t, rect(i0, i1, i0, i1)),
        ensures
            forall|k: int| 0 <= k < t.len() ==> t.contains(swapped(#[trigger] t[k])),
            distinct_cells(t),
    {
        assert forall|k: int| 0 <= k < t.len() implies t.contains(swapped(#[trigger] t[k])) by {
            let (r, c, v) = (t[k].0 as int, t[k].1 as int, t[k].2);
            self.lemma_cell_symmetric(r, c, v);
            assert(self.cell_present(c, r));
            assert(rect(i0, i1, i0, i1)(c, r));
            let k2 = choose|k2: int| 0 <= k2 < t.len() && t[k2].0 == c && t[k2].1 == r;
            assert(self.cell_holds(c, r, t[k2].2));
            if c <= r {
                self.lemma_stored_value_unique(c, r, v, t[k2].2);
            } else {
                self.lemma_stored_value_unique(r, c, v, t[k2].2);
            }
            assert(t[k2] == swapped(t[k]));
        }
    }
}

/// The offset index and columns of a pixel list strictly ordered by cell
/// form a valid store whose row `a` is exactly the pixels with row `a`.
#[verifier::rlimit(40)]
proof fn lemma_pixels_layout(s: Seq<PixelT>, off: Seq<u32>, b2: Seq<u32>, cnt: Seq<u32>, n: int)
    requires
        0 <= n < u32::MAX,
        strictly_sorted(s),
        off.len() == n + 1,
        forall|k: int| 0 <= k <= n ==> #[trigger] off[k] == count_below(s, k),
        b2.len() == s.len() && cnt.len() == s.len(),
        forall|m: int| 0 <= m < s.len() ==> #[trigger] b2[m] == s[m].1 && cnt[m] == s[m].2,
        forall|p: int| 0 <= p < s.len() ==> (#[trigger] s[p]).0 <= s[p].1 < n,
        forall|p: int| 0 <= p < s.len() ==> (#[trigger] s[p]).2 > 0,
    ensures
        layout_ok(off, b2, cnt),
        forall|a: int, p: int| #[trigger] row_at(off, a, p) <==> 0 <= a < n && 0 <= p < s.len() && s[p].0 == a,
{
    assert(rows_sorted(s)) by {
        assert forall|p: int, q: int| 0 <= p < q < s.len() implies (#[trigger] s[p]).0 <= (
        #[trigger] s[q]).0 by {
            assert(key_lt(s[p], s[q]));
        }
    }
    assert forall|a: int, p: int| #[trigger] row_at(off, a, p) <==> 0 <= a < n && 0 <= p < s.len()
        && s[p].0 == a by {
        if 0 <= a < n {
            lemma_count_below_index(s, a);
            lemma_count_below_index(s, a + 1);
            lemma_count_below_bounds(s, a);
            lemma_count_below_bounds(s, a + 1);
            assert(off[a] == count_below(s, a));
            assert(off[a + 1] == count_below(s, a + 1));
            if 0 <= p < s.len() {
                assert(p < count_below(s, a) <==> s[p].0 < a);
                assert(p < count_below(s, a + 1) <==> s[p].0 < a + 1);
            }
        }
    }
    lemma_count_below_index(s, 0);
    lemma_count_below_bounds(s, 0);
    if count_below(s, 0) > 0 {
        assert(s[0].0 < 0);
    }
    assert(off[0] == count_below(s, 0));
    lemma_count_below_index(s, n);
    lemma_count_below_bounds(s, n);
    if count_below(s, n) < s.len() {
        let q = count_below(s, n);
        assert(s[q].0 < n);
    }
    assert(off[n] == count_below(s, n));
    assert forall|a: int| 0 <= a < off.len() - 1 implies #[trigger] off[a] <= off[a + 1] <= b2.len() by {
        lemma_count_below_index(s, a);
        lemma_count_below_index(s, a + 1);
        lemma_count_below_bounds(s, a);
        lemma_count_below_bounds(s, a + 1);
        assert(off[a] == count_below(s, a));
        assert(off[a + 1] == count_below(s, a + 1));
        if count_below(s, a) > count_below(s, a + 1) {
            let q = count_below(s, a + 1);
            assert(s[q].0 < a);
        }
    }
    assert forall|a: int, p: int| #[trigger] row_at(off, a, p) implies a <= b2[p] < off.len() - 1 by {
        assert(s[p].0 == a);
    }
    assert forall|p: int| 0 <= p < cnt.len() implies #[trigger] cnt[p] > 0 by {
        assert(b2[p] == s[p].1);
        assert(cnt[p] == s[p].2);
    }
    assert forall|a: int, p: int, q: int|
        #[trigger] row_at(off, a, p) && #[trigger] row_at(off, a, q) && p < q implies b2[p] < b2[q] by {
        assert(s[p].0 == a && s[q].0 == a);
        assert(key_lt(s[p], s[q]));
    }
}

/// `px` holds pixel `(a, b)` with count `v`.
pub open spec fn lists_pixel(px: Seq<PixelT>, a: int, b: int, v: u32) -> bool {
    exists|p: int| 0 <= p < px.len() && (#[trigger] px[p]).0 == a && px[p].1 == b && px[p].2 == v
}

impl Selector2D {
    /// The query engine over a pixel list strictly ordered by `(bin1, bin2)`,
    /// upper triangle only, over `n_bins` bins. Its stored pixels are exactly
    /// those of the list, so each cell of the symmetric matrix holds the
    /// count the list gives its upper-triangle twin.
    pub fn from_pixels(n_bins: usize, pixels: &Vec<PixelT>) -> (r: Selector2D)
        requires
            n_bins < u32::MAX,
            pixels@.len() <= u32::MAX,
            strictly_sorted(pixels@),
            forall|p: int| 0 <= p < pixels@.len() ==> (#[trigger] pixels@[p]).0 <= pixels@[p].1 < n_bins,
            forall|p: int| 0 <= p < pixels@.len() ==> (#[trigger] pixels@[p]).2 > 0,
        ensures
            r.wf(),
            r.n_bins() == n_bins,
            forall|a: int, b: int, v: u32| #[trigger] r.stored_with(a, b, v) <==> lists_pixel(pixels@, a, b, v),
            forall|r2: int, c: int, v: u32|
                #[trigger] r.cell_holds(r2, c, v) <==> if r2 <= c {
                    lists_pixel(pixels@, r2, c, v)
                } else {
                    lists_pixel(pixels@, c, r2, v)
                },
    {
        let px = pixels;
        proof {
            assert forall|p: int, q: int| 0 <= p < q < px@.len() implies (#[trigger] px@[p]).0 <= (
            #[trigger] px@[q]).0 by {
                assert(key_lt(px@[p], px@[q]));
            }
        }
        let offsets = build_bin_offsets_from_pixels(n_bins, px);
        let mut bin2: Vec<u32> = Vec::new();
        let mut counts: Vec<u32> = Vec::new();
        let mut k: usize = 0;
        while k < px.len()
            invariant
                k <= px@.len(),
                bin2@.len() == k && counts@.len() == k,
                forall|m: int| 0 <= m < k ==> #[trigger] bin2@[m] == px@[m].1,
                forall|m: int| 0 <= m < k ==> #[trigger] counts@[m] == px@[m].2,
            decreases px@.len() - k,
        {
            bin2.push(px[k].1);
            counts.push(px[k].2);
            k += 1;
        }
        let r = Selector2D { bin_offsets: offsets, bin2_ids: bin2, counts };
        proof {
            let off = r.offsets_view();
            let s = px@;
            lemma_pixels_layout(s, off, r.bin2_view(), r.counts_view(), n_bins as int);
            assert(r.wf());
            assert forall|a: int, b: int, v: u32| #[trigger] r.stored_with(a, b, v) <==> lists_pixel(
                s,
                a,
                b,
                v,
            ) by {
                if r.stored_with(a, b, v) {
                    let p = choose|p: int|
                        #[trigger] r.at(a, p) && r.bin2_view()[p] == b && r.counts_view()[p] == v;
                    assert(0 <= p < s.len());
                    assert(s[p].0 == a);
                }
                if lists_pixel(s, a, b, v) {
                    let p = choose|p: int|
                        0 <= p < s.len() && (#[trigger] s[p]).0 == a && s[p].1 == b && s[p].2 == v;
                    assert(row_at(off, a, p));
                    assert(r.at(a, p));
                }
            }
        }
        r
    }
}

/// Round trip through the triangular store: when the stored pixels of `sel`
/// are exactly a pixel list strictly ordered by cell (as `from_pixels`
/// gives), cell `(r, c)` of the symmetric matrix holds `v` exactly when the
/// list's total count at cell `(min(r, c), max(r, c))` is `v` and the list
/// has that cell.
pub proof fn lemma_round_trip(sel: Selector2D, px: Seq<PixelT>, r: u32, c: u32, v: u32)
    requires
        sel.wf(),
        strictly_sorted(px),
        forall|a: int, b: int, w: u32| #[trigger] sel.stored_with(a, b, w) <==> lists_pixel(px, a, b, w),
    ensures
        sel.cell_holds(r as int, c as int, v) <==> {
            let (a, b) = if r <= c {
                (r, c)
            } else {
                (c, r)
            };
            has_cell(px, a, b) && count_at(px, a, b) == v
        },
{
    let (a, b) = if r <= c {
        (r, c)
    } else {
        (c, r)
    };
    assert(sel.cell_holds(r as int, c as int, v) == sel.stored_with(a as int, b as int, v));
    if lists_pixel(px, a as int, b as int, v) {
        let p = choose|p: int|
            0 <= p < px.len() && (#[trigger] px[p]).0 == a && px[p].1 == b && px[p].2 == v;
        lemma_count_at_entry(px, p);
    }
    if has_cell(px, a, b) && count_at(px, a, b) == v {
        let p = choose|p: int| 0 <= p < px.len() && (#[trigger] px[p]).0 == a && px[p].1 == b;
        lemma_count_at_entry(px, p);
        assert(lists_pixel(px, a as int, b as int, v));
    }
}

/// Cells of the entries of `t`.
pub open spec fn cells_of(t: Seq<PixelT>) -> Seq<(int, int)> {
    t.map_values(|x: PixelT| (x.0 as int, x.1 as int))
}

/// Every cell of the square window of side `n` starting at `i0`, row by row.
pub open spec fn window_cells(i0: int, n: int) -> Seq<(int, int)> {
    Seq::new((n * n) as nat, |k: int| (i0 + k / n, i0 + k % n))
}

proof fn lemma_window_cell_index(i0: int, n: int, r: int, c: int)
    requires
        n > 0,
        i0 <= r < i0 + n,
        i0 <= c < i0 + n,
    ensures
        0 <= (r - i0) * n + (c - i0) < n * n,
        ((r - i0) * n + (c - i0)) / n == r - i0,
        ((r - i0) * n + (c - i0)) % n == c - i0,
{
    let k = (r - i0) * n + (c - i0);
    assert(0 <= k < n * n) by (nonlinear_arith)
        requires
            k == (r - i0) * n + (c - i0),
            0 <= r - i0 < n,
            0 <= c - i0 < n,
    ;
    vstd::arithmetic::div_mod::lemma_fundamental_div_mod_converse(k, n, r - i0, c - i0);
}

proof fn lemma_window_cells_no_duplicates(i0: int, n: int)
    requires
        n > 0,
    ensures
        window_cells(i0, n).no_duplicates(),
{
    let e = window_cells(i0, n);
    assert forall|k1: int, k2: int| 0 <= k1 < e.len() && 0 <= k2 < e.len() && k1 != k2 implies e[k1]
        != e[k2] by {
        vstd::arithmetic::div_mod::lemma_fundamental_div_mod(k1, n);
        vstd::arithmetic::div_mod::lemma_fundamental_div_mod(k2, n);
        if k1 / n == k2 / n && k1 % n == k2 % n {
            assert(k1 == k2);
        }
    }
}

impl Selector2D {
    /// A symmetric window in which every cell is nonzero answers with
    /// exactly `(i1 - i0)^2` entries.
    pub proof fn lemma_dense_window_size(self, t: Seq<PixelT>, i0: int, i1: int)
        requires
            self.wf(),
            i0 < i1,
            self.answers(t, rect(i0, i1, i0, i1)),
            forall|r: int, c: int| i0 <= r < i1 && i0 <= c < i1 ==> #[trigger] self.cell_present(r, c),
        ensures
            t.len() == (i1 - i0) * (i1 - i0),
    {
        let n = i1 - i0;
        let ct = cells_of(t);
        let e = window_cells(i0, n);
        assert(ct.no_duplicates()) by {
            assert forall|k1: int, k2: int| 0 <= k1 < ct.len() && 0 <= k2 < ct.len() && k1 != k2 implies ct[k1]
                != ct[k2] by {
                assert(t[k1].0 != t[k2].0 || t[k1].1 != t[k2].1);
            }
        }
        lemma_window_cells_no_duplicates(i0, n);
        ct.unique_seq_to_set();
        e.unique_seq_to_set();
        assert forall|x: (int, int)| ct.contains(x) <==> e.contains(x) by {
            if ct.contains(x) {
                let k = choose|k: int| 0 <= k < ct.len() && ct[k] == x;
                assert(rect(i0, i1, i0, i1)(t[k].0 as int, t[k].1 as int));
                lemma_window_cell_index(i0, n, x.0, x.1);
                assert(e[(x.0 - i0) * n + (x.1 - i0)] == x);
            }
            if e.contains(x) {
                let m = choose|m: int| 0 <= m < e.len() && e[m] == x;
                vstd::arithmetic::div_mod::lemma_fundamental_div_mod(m, n);
                assert(0 <= m / n < n && 0 <= m % n < n) by (nonlinear_arith)
                    requires
                        0 <= m < n * n,
                        n > 0,
                        m == n * (m / n) + m % n,
                        0 <= m % n < n,
                ;
                assert(self.cell_present(x.0, x.1));
                let k = choose|k: int| 0 <= k < t.len() && t[k].0 == x.0 && t[k].1 == x.1;
                assert(ct[k] == x);
            }
        }
        assert(ct.to_set() =~= e.to_set());
        assert(n * n >= 0) by (nonlinear_arith)
            requires
                n > 0,
        ;
    }
}

/// `out` has an entry for column `c`.
pub open spec fn has_column(out: Seq<(u32, u32)>, c: int) -> bool {
    exists|k: int| 0 <= k < out.len() && (#[trigger] out[k]).0 == c
}

impl Selector2D {
    /// The nonzero cells `(column, count)` of row `row` of the symmetric
    /// matrix, by increasing column: the columns left of the diagonal come
    /// from the earlier rows that store `row`, the others from row `row`
    /// itself.
    pub fn get_row(&self, row: usize) -> (res: Vec<(u32, u32)>)
        requires
            self.wf(),
            row < self.n_bins(),
        ensures
            forall|p: int, q: int| 0 <= p < q < res@.len() ==> res@[p].0 < res@[q].0,
            forall|k: int|
                0 <= k < res@.len() ==> self.cell_holds(row as int, (#[trigger] res@[k]).0 as int, res@[k].1),
            forall|c: int| #[trigger] self.cell_present(row as int, c) ==> has_column(res@, c),
    {
        let mut out: Vec<(u32, u32)> = Vec::new();
        let mut a: usize = 0;
        while a < row
            invariant
                self.wf(),
                row < self.n_bins(),
                a <= row,
                forall|p: int, q: int| 0 <= p < q < out@.len() ==> out@[p].0 < out@[q].0,
                forall|k: int| 0 <= k < out@.len() ==> (#[trigger] out@[k]).0 < a,
                forall|k: int|
                    0 <= k < out@.len() ==> self.cell_holds(row as int, (#[trigger] out@[k]).0 as int, out@[k].1),
                forall|c: int| 0 <= c < a && #[trigger] self.stored(c, row as int) ==> has_column(out@, c),
            decreases row - a,
        {
            let lo = self.bin_offsets[a] as usize;
            let hi = self.bin_offsets[a + 1] as usize;
            let mut p = lo;
            let ghost before = out@;
            while p < hi
                invariant
                    self.wf(),
                    a < row < self.n_bins(),
                    lo == self.offsets_view()[a as int],
                    hi == self.offsets_view()[a + 1],
                    lo <= p <= hi <= self.bin2_view().len(),
                    out@ == before,
                    forall|q: int| lo <= q < p ==> self.bin2_view()[q] != row,
                ensures
                    lo <= p <= hi,
                    forall|q: int| lo <= q < p ==> self.bin2_view()[q] != row,
                    p < hi ==> self.bin2_view()[p as int] == row,
                decreases hi - p,
            {
                if self.bin2_ids[p] as usize == row {
                    break;
                }
                p += 1;
            }
            if p < hi {
                proof {
                    assert(self.at(a as int, p as int));
                    assert(self.bin2_view()[p as int] == row);
                }
                out.push((a as u32, self.counts[p]));
                proof {
                    assert(self.stored_with(a as int, row as int, self.counts_view()[p as int]));
                    assert forall|k: int|
                        0 <= k < out@.len() implies self.cell_holds(row as int, (#[trigger] out@[k]).0 as int, out@[k].1) by {
                        if k < before.len() {
                            assert(out@[k] == before[k]);
                        }
                    }
                    assert forall|c: int| 0 <= c < a + 1 && #[trigger] self.stored(c, row as int) implies has_column(out@, c) by {
                        if c < a {
                            let k = choose|k: int| 0 <= k < before.len() && (#[trigger] before[k]).0 == c;
                            assert(out@[k] == before[k]);
                        } else {
                            assert(out@[before.len() as int].0 == c);
                        }
                    }
                }
            } else {
                proof {
                    assert forall|c: int| 0 <= c < a + 1 && #[trigger] self.stored(c, row as int) implies has_column(out@, c) by {
                        if c == a {
                            let q = choose|q: int| #[trigger] self.at(a as int, q) && self.bin2_view()[q] == row;
                            assert(lo <= q < hi);
                        }
                    }
                }
            }
            a += 1;
        }
        let lo = self.bin_offsets[row] as usize;
        let hi = self.bin_offsets[row + 1] as usize;
        let ghost left = out@;
        let mut p = lo;
        while p < hi
            invariant
                self.wf(),
                row < self.n_bins(),
                lo == self.offsets_view()[row as int],
                hi == self.offsets_view()[row + 1],
                lo <= p <= hi <= self.bin2_view().len(),
                forall|k: int| 0 <= k < left.len() ==> (#[trigger] left[k]).0 < row,
                out@.len() == left.len() + (p - lo),
                forall|k: int| 0 <= k < left.len() ==> out@[k] == left[k],
                forall|k: int|
                    left.len() <= k < out@.len() ==> (#[trigger] out@[k]).0 == self.bin2_view()[lo + (k - left.len())]
                        && out@[k].1 == self.counts_view()[lo + (k - left.len())],
                forall|p2: int, q: int| 0 <= p2 < q < left.len() ==> left[p2].0 < left[q].0,
            decreases hi - p,
        {
            out.push((self.bin2_ids[p], self.counts[p]));
            p += 1;
        }
        proof {
            let o = out@;
            let n0 = left.len() as int;
            assert forall|p2: int, q: int| 0 <= p2 < q < o.len() implies o[p2].0 < o[q].0 by {
                if q >= n0 {
                    let pq = lo + (q - n0);
                    assert(self.at(row as int, pq));
                    if p2 >= n0 {
                        let pp = lo + (p2 - n0);
                        assert(self.at(row as int, pp));
                    } else {
                        assert(o[p2] == left[p2]);
                    }
                } else {
                    assert(o[p2] == left[p2] && o[q] == left[q]);
                }
            }
            assert forall|k: int| 0 <= k < o.len() implies self.cell_holds(row as int, (#[trigger] o[k]).0 as int, o[k].1) by {
                if k >= n0 {
                    let pk = lo + (k - n0);
                    assert(self.at(row as int, pk));
                    assert(self.stored_with(row as int, o[k].0 as int, o[k].1));
                } else {
                    assert(o[k] == left[k]);
                }
            }
            assert forall|c: int| #[trigger] self.cell_present(row as int, c) implies has_column(o, c) by {
                if c < row {
                    assert(self.stored(c, row as int));
                    let k = choose|k: int| 0 <= k < left.len() && (#[trigger] left[k]).0 == c;
                    assert(o[k] == left[k]);
                } else {
                    let q = choose|q: int| #[trigger] self.at(row as int, q) && self.bin2_view()[q] == c;
                    let k = n0 + (q - lo);
                    assert(o[k].0 == c);
                }
            }
        }
        out
    }
}

/// Two lists strictly ordered by cell that hold the same pixels are equal.
pub proof fn lemma_sorted_same_pixels(a: Seq<PixelT>, b: Seq<PixelT>)
    requires
        strictly_sorted(a),
        strictly_sorted(b),
        forall|x: PixelT| a.contains(x) <==> b.contains(x),
    ensures
        a == b,
    decreases a.len(),
{
    if a.len() == 0 {
        if b.len() > 0 {
            assert(b.contains(b[0]));
        }
        assert(a =~= b);
    } else {
        assert(a.contains(a[0]));
        assert(b.len() > 0);
        assert(b.contains(b[0]));
        let j = choose|j: int| 0 <= j < b.len() && b[j] == a[0];
        let i = choose|i: int| 0 <= i < a.len() && a[i] == b[0];
        if j > 0 {
            assert(key_lt(b[0], b[j]));
            if i > 0 {
                assert(key_lt(a[0], a[i]));
            }
        }
        assert(a[0] == b[0]);
        let a1 = a.drop_first();
        let b1 = b.drop_first();
        assert forall|p: int, q: int| 0 <= p < q < a1.len() implies key_lt(#[trigger] a1[p], #[trigger] a1[q]) by {
            assert(key_lt(a[p + 1], a[q + 1]));
        }
        assert forall|p: int, q: int| 0 <= p < q < b1.len() implies key_lt(#[trigger] b1[p], #[trigger] b1[q]) by {
            assert(key_lt(b[p + 1], b[q + 1]));
        }
        assert forall|x: PixelT| a1.contains(x) <==> b1.contains(x) by {
            if a1.contains(x) {
                let k = choose|k: int| 0 <= k < a1.len() && a1[k] == x;
                assert(key_lt(a[0], a[k + 1]));
                assert(a.contains(x));
                let m = choose|m: int| 0 <= m < b.len() && b[m] == x;
                assert(m != 0);
                assert(b1[m - 1] == x);
            }
            if b1.contains(x) {
                let k = choose|k: int| 0 <= k < b1.len() && b1[k] == x;
                assert(key_lt(b[0], b[k + 1]));
                assert(b.contains(x));
                let m = choose|m: int| 0 <= m < a.len() && a[m] == x;
                assert(m != 0);
                assert(a1[m - 1] == x);
            }
        }
        lemma_sorted_same_pixels(a1, b1);
        assert(a =~= seq![a[0]] + a1);
        assert(b =~= seq![b[0]] + b1);
    }
}

/// Fetching the whole stored triangle of a store that holds exactly the
/// pixel list `px` gives back `px` itself, in storage order.
pub proof fn lemma_full_fetch_is_storage(sel: Selector2D, px: Seq<PixelT>, t: Seq<PixelT>)
    requires
        sel.wf(),
        strictly_sorted(px),
        forall|p: int| 0 <= p < px.len() ==> (#[trigger] px[p]).0 <= px[p].1 < sel.n_bins(),
        forall|a: int, b: int, w: u32| #[trigger] sel.stored_with(a, b, w) <==> lists_pixel(px, a, b, w),
        sel.answers(t, triu_rect(0, sel.n_bins(), 0, sel.n_bins())),
        strictly_sorted(t),
    ensures
        t == px,
{
    let n = sel.n_bins();
    assert forall|x: PixelT| t.contains(x) <==> px.contains(x) by {
        if t.contains(x) {
            let k = choose|k: int| 0 <= k < t.len() && t[k] == x;
            assert(triu_rect(0, n, 0, n)(t[k].0 as int, t[k].1 as int));
            assert(sel.cell_holds(x.0 as int, x.1 as int, x.2));
            assert(sel.stored_with(x.0 as int, x.1 as int, x.2));
            let p = choose|p: int| 0 <= p < px.len() && (#[trigger] px[p]).0 == x.0 && px[p].1 == x.1 && px[p].2 == x.2;
            assert(px[p] == x);
        }
        if px.contains(x) {
            let p = choose|p: int| 0 <= p < px.len() && px[p] == x;
            assert(lists_pixel(px, x.0 as int, x.1 as int, x.2));
            assert(sel.stored_with(x.0 as int, x.1 as int, x.2));
            let q = choose|q: int|
                #[trigger] sel.at(x.0 as int, q) && sel.bin2_view()[q] == x.1 && sel.counts_view()[q] == x.2;
            assert(sel.stored(x.0 as int, x.1 as int));
            assert(sel.cell_present(x.0 as int, x.1 as int));
            assert(triu_rect(0, n, 0, n)(x.0 as int, x.1 as int));
            let k = choose|k: int| 0 <= k < t.len() && t[k].0 == x.0 && t[k].1 == x.1;
            assert(sel.cell_holds(x.0 as int, x.1 as int, t[k].2));
            sel.lemma_stored_value_unique(x.0 as int, x.1 as int, x.2, t[k].2);
            assert(t[k] == x);
        }
    }
    lemma_sorted_same_pixels(t, px);
}

} // verus!
