//! Bin tables and offset indexes of one resolution.
use vstd::prelude::*;

use crate::selector::PixelT;

verus! {

/// Number of bins of width `res` tiling a contig of length `len`: `ceil(len / res)`.
pub open spec fn bins_of(len: int, res: int) -> int {
    len / res + if len % res == 0 {
        0int
    } else {
        1int
    }
}

/// Global id of the first bin of contig `i`: the bins of all earlier contigs.
pub open spec fn offset_of(lengths: Seq<u64>, res: int, i: int) -> int
    decreases i,
{
    if i <= 0 {
        0
    } else {
        offset_of(lengths, res, i - 1) + bins_of(lengths[i - 1] as int, res)
    }
}

/// Total number of bins over all contigs.
pub open spec fn total_bins(lengths: Seq<u64>, res: int) -> int {
    offset_of(lengths, res, lengths.len() as int)
}

/// Global id of bin `k` of contig `i`.
pub open spec fn bin_index(lengths: Seq<u64>, res: int, i: int, k: int) -> int {
    offset_of(lengths, res, i) + k
}

/// Start of bin `k` of a contig of length `len`.
pub open spec fn bin_start(len: int, res: int, k: int) -> int {
    k * res
}

/// End of bin `k` of a contig of length `len`: the last bin stops at the contig's end.
pub open spec fn bin_end(len: int, res: int, k: int) -> int {
    if k + 1 == bins_of(len, res) {
        len
    } else {
        (k + 1) * res
    }
}

/// A contig has no negative number of bins, and at least one if it is not empty.
pub proof fn lemma_bins_of_nonneg(len: int, res: int)
    requires
        len >= 0,
        res > 0,
    ensures
        bins_of(len, res) >= 0,
        len > 0 ==> bins_of(len, res) >= 1,
{
    assert(len / res >= 0) by (nonlinear_arith)
        requires
            len >= 0,
            res > 0,
    ;
    if len > 0 && len / res == 0 {
        assert(len % res != 0) by (nonlinear_arith)
            requires
                len > 0,
                res > 0,
                len / res == 0,
        ;
    }
}

/// Offsets never decrease along the contigs.
pub proof fn lemma_offset_monotonic(lengths: Seq<u64>, res: int, i: int, j: int)
    requires
        res > 0,
        0 <= i <= j <= lengths.len(),
    ensures
        offset_of(lengths, res, i) <= offset_of(lengths, res, j),
    decreases j - i,
{
    if i < j {
        lemma_offset_monotonic(lengths, res, i, j - 1);
        lemma_bins_of_nonneg(lengths[j - 1] as int, res);
    }
}

/// A bin that is not the last one of its contig ends before the contig does.
proof fn lemma_bin_inside(len: int, res: int, k: int)
    requires
        len >= 0,
        res > 0,
        0 <= k < bins_of(len, res),
    ensures
        k * res < len,
        k + 1 < bins_of(len, res) ==> (k + 1) * res < len,
{
    let q = len / res;
    let m = len % res;
    assert(len == res * q + m && 0 <= m < res) by (nonlinear_arith)
        requires
            res > 0,
            q == len / res,
            m == len % res,
    ;
    assert(k * res < len) by (nonlinear_arith)
        requires
            len == res * q + m,
            0 <= m < res,
            k < q + (if m == 0 {
                0int
            } else {
                1int
            }),
            0 <= k,
    ;
    if k + 1 < bins_of(len, res) {
        assert((k + 1) * res < len) by (nonlinear_arith)
            requires
                len == res * q + m,
                0 <= m < res,
                k + 1 < q + (if m == 0 {
                    0int
                } else {
                    1int
                }),
                0 <= k,
        ;
    }
}

/// Number of bins of width `rsltn` over a contig of length `len`.
pub fn n_bins_for_length(len: u64, rsltn: u64) -> (r: u64)
    requires
        rsltn > 0,
    ensures
        r == bins_of(len as int, rsltn as int),
{
    let extra: u64 = if len % rsltn == 0 {
        0
    } else {
        1
    };
    proof {
        assert(len / rsltn <= len) by (nonlinear_arith)
            requires
                rsltn > 0,
        ;
        if extra == 1 {
            assert(len / rsltn < len) by (nonlinear_arith)
                requires
                    rsltn > 0,
                    len % rsltn != 0,
            ;
        }
    }
    len / rsltn + extra
}

/// Per-contig bin offsets: entry `i` is the global id of the first bin of
/// contig `i`; the last entry is the total number of bins.
pub fn build_tig_offsets(rsltn: u32, tig_lengths: &Vec<u64>) -> (r: Vec<u32>)
    requires
        rsltn > 0,
        total_bins(tig_lengths@, rsltn as int) <= u32::MAX,
    ensures
        r@.len() == tig_lengths@.len() + 1,
        forall|i: int| 0 <= i <= tig_lengths@.len() ==> #[trigger] r@[i] == offset_of(tig_lengths@, rsltn as int, i),
{
    let ghost res = rsltn as int;
    let mut count: u32 = 0;
    let mut offsets: Vec<u32> = Vec::new();
    let mut i: usize = 0;
    while i < tig_lengths.len()
        invariant
            rsltn > 0,
            res == rsltn as int,
            i <= tig_lengths@.len(),
            total_bins(tig_lengths@, res) <= u32::MAX,
            count == offset_of(tig_lengths@, res, i as int),
            offsets@.len() == i,
            forall|i2: int| 0 <= i2 < i ==> #[trigger] offsets@[i2] == offset_of(tig_lengths@, res, i2),
        decreases tig_lengths@.len() - i,
    {
        offsets.push(count);
        let nb = n_bins_for_length(tig_lengths[i], rsltn as u64);
        proof {
            lemma_offset_monotonic(tig_lengths@, res, i + 1, tig_lengths@.len() as int);
        }
        count = count + nb as u32;
        i += 1;
    }
    offsets.push(count);
    offsets
}

/// `(chrs, starts, ends)` is the bin table of contigs of the given lengths
/// at resolution `res`: bin `k` of contig `i` has global id
/// `bin_index(lengths, res, i, k)`, lies on contig `i` and covers
/// `[bin_start, bin_end)`.
pub open spec fn bin_table_ok(
    lengths: Seq<u64>,
    res: int,
    chrs: Seq<u32>,
    starts: Seq<u64>,
    ends: Seq<u64>,
) -> bool {
    &&& chrs.len() == total_bins(lengths, res)
    &&& starts.len() == chrs.len() && ends.len() == chrs.len()
    &&& forall|i: int, k: int|
        0 <= i < lengths.len() && 0 <= k < bins_of(lengths[i] as int, res) ==> {
            let b = #[trigger] bin_index(lengths, res, i, k);
            &&& chrs[b] == i
            &&& starts[b] == bin_start(lengths[i] as int, res, k)
            &&& ends[b] == bin_end(lengths[i] as int, res, k)
        }
}

/// The bin table of one resolution: for each bin its contig id, start and end.
/// Each contig is tiled from position zero with bins of width `rsltn`, the
/// last one cut at the contig's length.
pub fn build_bin_table_from_lengths(rsltn: u64, tig_lengths: &Vec<u64>) -> (r: (
    Vec<u32>,
    Vec<u64>,
    Vec<u64>,
))
    requires
        rsltn > 0,
        tig_lengths@.len() <= u32::MAX,
        total_bins(tig_lengths@, rsltn as int) <= usize::MAX,
    ensures
        bin_table_ok(tig_lengths@, rsltn as int, r.0@, r.1@, r.2@),
{
    let ghost res = rsltn as int;
    let ghost ls = tig_lengths@;
    let mut chrs: Vec<u32> = Vec::new();
    let mut starts: Vec<u64> = Vec::new();
    let mut ends: Vec<u64> = Vec::new();
    let mut i: usize = 0;
    while i < tig_lengths.len()
        invariant
            rsltn > 0,
            res == rsltn as int,
            ls == tig_lengths@,
            i <= ls.len() <= u32::MAX,
            total_bins(ls, res) <= usize::MAX,
            chrs@.len() == offset_of(ls, res, i as int),
            starts@.len() == chrs@.len() && ends@.len() == chrs@.len(),
            forall|i2: int, k: int|
                0 <= i2 < i && 0 <= k < bins_of(ls[i2] as int, res) ==> {
                    let b = #[trigger] bin_index(ls, res, i2, k);
                    &&& chrs@[b] == i2
                    &&& starts@[b] == bin_start(ls[i2] as int, res, k)
                    &&& ends@[b] == bin_end(ls[i2] as int, res, k)
                },
        decreases ls.len() - i,
    {
        let length = tig_lengths[i];
        let nb = n_bins_for_length(length, rsltn);
        proof {
            lemma_offset_monotonic(ls, res, i + 1, ls.len() as int);
            lemma_bins_of_nonneg(length as int, res);
            lemma_offset_monotonic(ls, res, 0, i as int);
        }
        let ghost base = chrs@.len();
        let mut k: u64 = 0;
        while k < nb
            invariant
                rsltn > 0,
                res == rsltn as int,
                ls == tig_lengths@,
                i < ls.len() <= u32::MAX,
                length == ls[i as int],
                nb == bins_of(length as int, res),
                base == offset_of(ls, res, i as int),
                base + nb <= usize::MAX,
                k <= nb,
                chrs@.len() == base + k,
                starts@.len() == chrs@.len() && ends@.len() == chrs@.len(),
                forall|i2: int, k2: int|
                    0 <= i2 < i && 0 <= k2 < bins_of(ls[i2] as int, res) ==> {
                        let b = #[trigger] bin_index(ls, res, i2, k2);
                        &&& chrs@[b] == i2
                        &&& starts@[b] == bin_start(ls[i2] as int, res, k2)
                        &&& ends@[b] == bin_end(ls[i2] as int, res, k2)
                    },
                forall|k2: int|
                    0 <= k2 < k ==> {
                        let b = #[trigger] bin_index(ls, res, i as int, k2);
                        &&& chrs@[b] == i
                        &&& starts@[b] == bin_start(length as int, res, k2)
                        &&& ends@[b] == bin_end(length as int, res, k2)
                    },
            decreases nb - k,
        {
            proof {
                lemma_bin_inside(length as int, res, k as int);
            }
            let start = k * rsltn;
            let end = if k + 1 == nb {
                length
            } else {
                (k + 1) * rsltn
            };
            let ghost old_len = chrs@.len();
            let ghost (oc, os, oe) = (chrs@, starts@, ends@);
            chrs.push(i as u32);
            starts.push(start);
            ends.push(end);
            proof {
                assert forall|i2: int, k2: int|
                    0 <= i2 < i && 0 <= k2 < bins_of(ls[i2] as int, res) implies {
                        let b = #[trigger] bin_index(ls, res, i2, k2);
                        &&& chrs@[b] == i2
                        &&& starts@[b] == bin_start(ls[i2] as int, res, k2)
                        &&& ends@[b] == bin_end(ls[i2] as int, res, k2)
                    } by {
                    lemma_offset_monotonic(ls, res, i2 + 1, i as int);
                    lemma_offset_monotonic(ls, res, 0, i2);
                    let b = bin_index(ls, res, i2, k2);
                    assert(b < old_len);
                    assert(chrs@[b] == oc[b] && starts@[b] == os[b] && ends@[b] == oe[b]);
                }
                assert(bin_index(ls, res, i as int, k as int) == old_len);
            }
            k += 1;
        }
        i += 1;
    }
    (chrs, starts, ends)
}

/// Number of pixels of `px` whose row bin is below `k`.
pub open spec fn count_below(px: Seq<PixelT>, k: int) -> int
    decreases px.len(),
{
    if px.len() == 0 {
        0
    } else {
        count_below(px.drop_last(), k) + if (px.last().0 as int) < k {
            1int
        } else {
            0int
        }
    }
}

/// Number of pixels of `px` whose row bin is `k`.
pub open spec fn count_row(px: Seq<PixelT>, k: int) -> int
    decreases px.len(),
{
    if px.len() == 0 {
        0
    } else {
        count_row(px.drop_last(), k) + if px.last().0 as int == k {
            1int
        } else {
            0int
        }
    }
}

/// Pixels ordered by row bin.
pub open spec fn rows_sorted(px: Seq<PixelT>) -> bool {
    forall|p: int, q: int| 0 <= p < q < px.len() ==> (#[trigger] px[p]).0 <= (#[trigger] px[q]).0
}

/// In pixels ordered by row, those with row below `k` are exactly the first `p`.
proof fn lemma_count_below_prefix(px: Seq<PixelT>, k: int, p: int)
    requires
        0 <= p <= px.len(),
        forall|q: int| 0 <= q < p ==> (#[trigger] px[q]).0 < k,
        forall|q: int| p <= q < px.len() ==> (#[trigger] px[q]).0 >= k,
    ensures
        count_below(px, k) == p,
    decreases px.len(),
{
    if px.len() > 0 {
        let d = px.drop_last();
        if p == px.len() {
            lemma_count_below_prefix(d, k, p - 1);
        } else {
            lemma_count_below_prefix(d, k, p);
        }
    }
}

/// The offset index counts rows: the number of pixels below row `k + 1` less
/// those below row `k` is the number of pixels in row `k`.
pub proof fn lemma_offset_index(px: Seq<PixelT>, k: int)
    ensures
        count_below(px, k + 1) - count_below(px, k) == count_row(px, k),
    decreases px.len(),
{
    if px.len() > 0 {
        lemma_offset_index(px.drop_last(), k);
    }
}

/// The per-row offset index of a pixel list ordered by row: entry `k` is the
/// position of the first pixel whose row is `k` or more, so that row `k`
/// occupies `[r[k], r[k + 1])`.
pub fn build_bin_offsets_from_pixels(total_bins: usize, pixels: &Vec<PixelT>) -> (r: Vec<u32>)
    requires
        total_bins < usize::MAX,
        pixels@.len() <= u32::MAX,
        rows_sorted(pixels@),
        forall|p: int| 0 <= p < pixels@.len() ==> (#[trigger] pixels@[p]).0 < total_bins,
    ensures
        r@.len() == total_bins + 1,
        forall|k: int| 0 <= k <= total_bins ==> #[trigger] r@[k] == count_below(pixels@, k),
        forall|k: int|
            0 <= k < total_bins ==> r@[k + 1] - r@[k] == #[trigger] count_row(pixels@, k),
{
    let mut offsets: Vec<u32> = Vec::new();
    let mut p: usize = 0;
    let mut k: usize = 0;
    while k <= total_bins
        invariant
            total_bins < usize::MAX,
            pixels@.len() <= u32::MAX,
            rows_sorted(pixels@),
            forall|q: int| 0 <= q < pixels@.len() ==> (#[trigger] pixels@[q]).0 < total_bins,
            k <= total_bins + 1,
            offsets@.len() == k,
            p <= pixels@.len(),
            forall|q: int| 0 <= q < p ==> (#[trigger] pixels@[q]).0 < k,
            k > 0 ==> forall|q: int| p <= q < pixels@.len() ==> (#[trigger] pixels@[q]).0 >= k - 1,
            forall|k2: int| 0 <= k2 < k ==> #[trigger] offsets@[k2] == count_below(pixels@, k2),
        decreases total_bins + 1 - k,
    {
        while p < pixels.len() && (pixels[p].0 as usize) < k
            invariant
                rows_sorted(pixels@),
                p <= pixels@.len(),
                forall|q: int| 0 <= q < p ==> (#[trigger] pixels@[q]).0 < k,
            decreases pixels@.len() - p,
        {
            p += 1;
        }
        proof {
            assert forall|q: int| p <= q < pixels@.len() implies (#[trigger] pixels@[q]).0 >= k by {
                assert(pixels@[p as int].0 >= k);
            }
            lemma_count_below_prefix(pixels@, k as int, p as int);
        }
        offsets.push(p as u32);
        k += 1;
    }
    proof {
        assert forall|k2: int| 0 <= k2 < total_bins implies offsets@[k2 + 1] - offsets@[k2]
            == #[trigger] count_row(pixels@, k2) by {
            lemma_offset_index(pixels@, k2);
        }
    }
    offsets
}

/// At most all pixels lie below a row.
pub proof fn lemma_count_below_bounds(px: Seq<PixelT>, k: int)
    ensures
        0 <= count_below(px, k) <= px.len(),
    decreases px.len(),
{
    if px.len() > 0 {
        lemma_count_below_bounds(px.drop_last(), k);
    }
}

/// In pixels ordered by row, the pixels below row `k` are the first
/// `count_below(px, k)` ones.
pub proof fn lemma_count_below_index(px: Seq<PixelT>, k: int)
    requires
        rows_sorted(px),
    ensures
        forall|p: int| 0 <= p < px.len() ==> (p < count_below(px, k) <==> (#[trigger] px[p]).0 < k),
    decreases px.len(),
{
    if px.len() > 0 {
        let d = px.drop_last();
        assert(rows_sorted(d)) by {
            assert forall|p: int, q: int| 0 <= p < q < d.len() implies (#[trigger] d[p]).0 <= (
            #[trigger] d[q]).0 by {
                assert(d[p] == px[p] && d[q] == px[q]);
            }
        }
        lemma_count_below_index(d, k);
        lemma_count_below_bounds(d, k);
        let n = px.len() - 1;
        assert forall|p: int| 0 <= p < px.len() implies (p < count_below(px, k) <==> (
        #[trigger] px[p]).0 < k) by {
            if p < n {
                assert(d[p] == px[p]);
            }
            if px[n].0 < k {
                if count_below(d, k) < d.len() {
                    let q = count_below(d, k);
                    assert(d[q] == px[q]);
                    assert(px[q].0 <= px[n].0);
                }
            }
        }
    }
}

} // verus!
