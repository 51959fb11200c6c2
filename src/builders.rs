//! Builders of one resolution: bin tables plus pixels, from raw contact
//! pairs or from a finer resolution.
use vstd::prelude::*;

use crate::bins::{
    bin_table_ok, bins_of, build_bin_offsets_from_pixels, build_bin_table_from_lengths, build_tig_offsets,
    lemma_offset_monotonic, offset_of, rows_sorted, total_bins,
};
use crate::pixels::{
    all_positive, count_at, has_cell, key_lt, lemma_count_at_bounded, strictly_sorted, sum_u32, total_count,
    PixelCounter,
};
use crate::selector::{lemma_round_trip, lists_pixel, PixelT, Selector2D};

verus! {

/// A position inside a contig falls in one of the contig's bins.
pub proof fn lemma_pos_in_bins(pos: int, len: int, res: int)
    requires
        0 <= pos < len,
        res > 0,
    ensures
        0 <= pos / res < bins_of(len, res),
{
    let q = len / res;
    let m = len % res;
    let qp = pos / res;
    let mp = pos % res;
    assert(len == res * q + m && 0 <= m < res && pos == res * qp + mp && 0 <= mp < res && qp
        >= 0) by (nonlinear_arith)
        requires
            res > 0,
            q == len / res,
            m == len % res,
            qp == pos / res,
            mp == pos % res,
            pos >= 0,
    ;
    assert(qp < q + (if m == 0 {
        0int
    } else {
        1int
    })) by (nonlinear_arith)
        requires
            len == res * q + m,
            0 <= m < res,
            pos == res * qp + mp,
            0 <= mp < res,
            pos < len,
            res > 0,
    ;
}

/// Global bin of position `pos` (cut to the contig) of contig `i`.
pub open spec fn anchor_bin(lengths: Seq<u64>, res: int, i: int, pos: int) -> int {
    let len = lengths[i] as int;
    offset_of(lengths, res, i) + (if pos < len {
        pos
    } else {
        len - 1
    }) / res
}

/// Global bin of a position of contig `i` that lies in its bin table.
proof fn lemma_anchor_bin_bounds(lengths: Seq<u64>, res: int, i: int, pos: int)
    requires
        res > 0,
        0 <= i < lengths.len(),
        lengths[i] > 0,
        pos >= 0,
    ensures
        0 <= anchor_bin(lengths, res, i, pos) < total_bins(lengths, res),
{
    let len = lengths[i] as int;
    let p = if pos < len {
        pos
    } else {
        len - 1
    };
    lemma_pos_in_bins(p, len, res);
    lemma_offset_monotonic(lengths, res, 0, i);
    lemma_offset_monotonic(lengths, res, i + 1, lengths.len() as int);
}

/// First index at or after `from` whose name is `name`.
pub open spec fn find_name(names: Seq<String>, name: Seq<char>, from: int) -> Option<int>
    decreases names.len() - from,
{
    if from < 0 || from >= names.len() {
        None
    } else if names[from]@ == name {
        Some(from)
    } else {
        find_name(names, name, from + 1)
    }
}

/// A found name lies at or after `from` and inside `names`.
pub proof fn lemma_find_name_range(names: Seq<String>, name: Seq<char>, from: int)
    ensures
        find_name(names, name, from) matches Some(i) ==> from <= i < names.len() && names[i]@ == name,
    decreases names.len() - from,
{
    if 0 <= from < names.len() && names[from]@ != name {
        lemma_find_name_range(names, name, from + 1);
    }
}

/// Position of `name` among `names`, first match.
pub fn find_tig(names: &Vec<String>, name: &String) -> (r: Option<usize>)
    ensures
        r.is_some() == find_name(names@, name@, 0).is_some(),
        r.is_some() ==> r.unwrap() == find_name(names@, name@, 0).unwrap(),
        r.is_some() ==> r.unwrap() < names@.len() && names@[r.unwrap() as int]@ == name@,
{
    let mut i: usize = 0;
    while i < names.len()
        invariant
            i <= names@.len(),
            find_name(names@, name@, 0) == find_name(names@, name@, i as int),
        decreases names@.len() - i,
    {
        if names[i] == *name {
            return Some(i);
        }
        i += 1;
    }
    None
}

/// The contigs of `s` of length `len`, in their order in `s`.
pub open spec fn with_length(s: Seq<(String, u64)>, len: u64) -> Seq<(String, u64)> {
    s.filter(|x: (String, u64)| x.1 == len)
}

/// Relies on `slice::sort_by_key`: the contigs come out ordered by length, a
/// permutation of what went in, and the sort is stable, so contigs of equal
/// length keep their relative order.
#[verifier::external_body]
fn sort_by_length(v: &mut Vec<(String, u64)>)
    ensures
        final(v)@.to_multiset() == old(v)@.to_multiset(),
        forall|p: int, q: int| 0 <= p < q < final(v)@.len() ==> final(v)@[p].1 <= final(v)@[q].1,
        forall|len: u64|
            #[trigger] with_length(final(v)@, len) == with_length(old(v)@, len),
{
    v.sort_by_key(|x| x.1);
}

/// The contig catalog ordered by length, each name kept with its length;
/// contigs of equal length stay in their given order.
pub fn order_by_length(tigs: Vec<(String, u64)>) -> (r: Vec<(String, u64)>)
    ensures
        r@.to_multiset() == tigs@.to_multiset(),
        r@.len() == tigs@.len(),
        forall|p: int, q: int| 0 <= p < q < r@.len() ==> r@[p].1 <= r@[q].1,
        forall|len: u64|
            #[trigger] with_length(r@, len) == with_length(tigs@, len),
{
    let mut v = tigs;
    sort_by_length(&mut v);
    proof {
        v@.to_multiset_ensures();
        tigs@.to_multiset_ensures();
    }
    v
}

/// The cell of a contact pair is a pair of bin ids `0 <= a <= b` that fit a `u32`.
pub proof fn lemma_pair_cell_bounds(pb: PairsBuilder, n1: Seq<char>, p1: u64, n2: Seq<char>, p2: u64)
    requires
        pb.wf(),
    ensures
        pb.pair_cell(n1, p1, n2, p2) matches Some(c) ==> 0 <= c.0 <= c.1 < total_bins(pb.lengths(), pb.resolution())
            && c.1 <= u32::MAX,
{
    pb.lemma_bin_for_bounds(n1, p1);
    pb.lemma_bin_for_bounds(n2, p2);
}

/// Number of the first `n` contact pairs of `obs` that fall in cell `(a, b)`
/// of the builder `pb`.
pub open spec fn pair_hits(pb: PairsBuilder, obs: Seq<(String, u64, String, u64)>, n: int, a: int, b: int) -> int
    decreases n,
{
    if n <= 0 {
        0
    } else {
        pair_hits(pb, obs, n - 1, a, b) + if pb.pair_cell(obs[n - 1].0@, obs[n - 1].1, obs[n - 1].2@, obs[n - 1].3)
            == Some((a, b)) {
            1int
        } else {
            0int
        }
    }
}

/// At most `n` of the first `n` pairs fall in one cell.
pub proof fn lemma_pair_hits_bounded(pb: PairsBuilder, obs: Seq<(String, u64, String, u64)>, n: int, a: int, b: int)
    requires
        n >= 0,
    ensures
        0 <= pair_hits(pb, obs, n, a, b) <= n,
    decreases n,
{
    if n > 0 {
        lemma_pair_hits_bounded(pb, obs, n - 1, a, b);
    }
}

/// Builds one resolution from raw contact pairs: each pair of positions is
/// binned and counted at its unordered pair of bins `(min, max)`.
#[derive(Debug)]
pub struct PairsBuilder {
    rsltn: u32,
    n_bins: usize,
    tig_order: Vec<String>,
    tig_lengths: Vec<u64>,
    bin_table: (Vec<u32>, Vec<u64>, Vec<u64>),
    tig_offsets: Vec<u32>,
    counter: PixelCounter,
}

/// What became of one contact pair.
#[derive(Debug, Clone, Copy, PartialEq, Eq, Structural)]
pub enum PairStatus {
    /// Counted at its cell.
    Counted,
    /// Left out: a contig is unknown or empty.
    Skipped,
    /// Left out: its cell already holds the largest count.
    CellFull,
}

impl PairsBuilder {
    pub closed spec fn resolution(&self) -> int {
        self.rsltn as int
    }

    pub closed spec fn names(&self) -> Seq<String> {
        self.tig_order@
    }

    pub closed spec fn lengths(&self) -> Seq<u64> {
        self.tig_lengths@
    }

    /// The pixels counted so far, strictly ordered by cell.
    pub closed spec fn counted(&self) -> Seq<PixelT> {
        self.counter@
    }

    /// The builder's invariant: offsets and bin table match the contigs,
    /// and the counted cells are upper-triangle cells of the bin range.
    pub closed spec fn wf(&self) -> bool {
        &&& self.rsltn > 0
        &&& self.tig_order@.len() == self.tig_lengths@.len()
        &&& self.tig_lengths@.len() <= u32::MAX
        &&& total_bins(self.tig_lengths@, self.rsltn as int) <= u32::MAX
        &&& self.n_bins == total_bins(self.tig_lengths@, self.rsltn as int)
        &&& bin_table_ok(
            self.tig_lengths@,
            self.rsltn as int,
            self.bin_table.0@,
            self.bin_table.1@,
            self.bin_table.2@,
        )
        &&& self.tig_offsets@.len() == self.tig_lengths@.len() + 1
        &&& forall|i: int|
            0 <= i <= self.tig_lengths@.len() ==> #[trigger] self.tig_offsets@[i] == offset_of(
                self.tig_lengths@,
                self.rsltn as int,
                i,
            )
        &&& self.counter.wf()
        &&& all_positive(self.counter@)
        &&& forall|p: int|
            0 <= p < self.counter@.len() ==> (#[trigger] self.counter@[p]).0 <= self.counter@[p].1
                < self.n_bins
    }

    /// Contig id of `name`.
    pub open spec fn tig_id(&self, name: Seq<char>) -> Option<int> {
        find_name(self.names(), name, 0)
    }

    /// Global bin of position `pos` of the contig named `name`; `None` for an
    /// unknown or empty contig.
    pub open spec fn bin_for(&self, name: Seq<char>, pos: u64) -> Option<int> {
        match self.tig_id(name) {
            Some(i) => if self.lengths()[i] > 0 {
                Some(anchor_bin(self.lengths(), self.resolution(), i, pos as int))
            } else {
                None
            },
            None => None,
        }
    }

    /// Cell `(min, max)` of the bins of both ends of a contact pair.
    pub open spec fn pair_cell(&self, n1: Seq<char>, p1: u64, n2: Seq<char>, p2: u64) -> Option<
        (int, int),
    > {
        match (self.bin_for(n1, p1), self.bin_for(n2, p2)) {
            (Some(a), Some(b)) => if a <= b {
                Some((a, b))
            } else {
                Some((b, a))
            },
            _ => None,
        }
    }

    /// A known, nonempty contig's position falls in a bin of the table.
    pub proof fn lemma_bin_for_bounds(&self, name: Seq<char>, pos: u64)
        requires
            self.wf(),
        ensures
            self.bin_for(name, pos) matches Some(x) ==> 0 <= x < total_bins(self.lengths(), self.resolution()),
    {
        if let Some(i) = self.tig_id(name) {
            lemma_find_name_range(self.names(), name, 0);
            if self.lengths()[i] > 0 {
                lemma_anchor_bin_bounds(self.lengths(), self.resolution(), i, pos as int);
            }
        }
    }

    /// A builder over the contigs `(name, length)` in the given order and bins
    /// of width `rsltn`, with nothing counted yet.
    pub fn new(ord_tig_lengths: &Vec<(String, u64)>, rsltn: u32) -> (r: PairsBuilder)
        requires
            rsltn > 0,
            ord_tig_lengths@.len() <= u32::MAX,
            total_bins(ord_tig_lengths@.map_values(|x: (String, u64)| x.1), rsltn as int)
                <= u32::MAX,
        ensures
            r.wf(),
            r.resolution() == rsltn,
            r.lengths() == ord_tig_lengths@.map_values(|x: (String, u64)| x.1),
            r.names().len() == ord_tig_lengths@.len(),
            forall|i: int| 0 <= i < ord_tig_lengths@.len() ==> #[trigger] r.names()[i] == ord_tig_lengths@[i].0,
            r.counted().len() == 0,
    {
        let mut names: Vec<String> = Vec::new();
        let mut lengths: Vec<u64> = Vec::new();
        let mut i: usize = 0;
        while i < ord_tig_lengths.len()
            invariant
                i <= ord_tig_lengths@.len(),
                names@.len() == i && lengths@.len() == i,
                forall|k: int| 0 <= k < i ==> #[trigger] names@[k] == ord_tig_lengths@[k].0,
                forall|k: int| 0 <= k < i ==> #[trigger] lengths@[k] == ord_tig_lengths@[k].1,
            decreases ord_tig_lengths@.len() - i,
        {
            names.push(ord_tig_lengths[i].0.clone());
            lengths.push(ord_tig_lengths[i].1);
            i += 1;
        }
        assert(lengths@ =~= ord_tig_lengths@.map_values(|x: (String, u64)| x.1));
        let tig_offsets = build_tig_offsets(rsltn, &lengths);
        let n_bins = tig_offsets[tig_offsets.len() - 1] as usize;
        let bin_table = build_bin_table_from_lengths(rsltn as u64, &lengths);
        PairsBuilder {
            rsltn,
            n_bins,
            tig_order: names,
            tig_lengths: lengths,
            bin_table,
            tig_offsets,
            counter: PixelCounter::new(),
        }
    }

    pub fn get_resolution(&self) -> (r: u32)
        ensures
            r == self.resolution(),
    {
        self.rsltn
    }

    /// Number of bins of the resolution.
    pub fn get_n_bins(&self) -> (r: usize)
        requires
            self.wf(),
        ensures
            r == total_bins(self.lengths(), self.resolution()),
    {
        self.n_bins
    }

    /// Contig names in catalog order.
    pub fn tig_names_view(&self) -> (r: &Vec<String>)
        ensures
            r@ == self.names(),
    {
        &self.tig_order
    }

    /// Contig lengths in catalog order.
    pub fn tig_lengths_view(&self) -> (r: &Vec<u64>)
        ensures
            r@ == self.lengths(),
    {
        &self.tig_lengths
    }

    /// Per-contig bin offsets.
    pub fn get_tig_offsets_view(&self) -> (r: &Vec<u32>)
        requires
            self.wf(),
        ensures
            r@.len() == self.lengths().len() + 1,
            forall|i: int|
                0 <= i <= self.lengths().len() ==> #[trigger] r@[i] == offset_of(
                    self.lengths(),
                    self.resolution(),
                    i,
                ),
    {
        &self.tig_offsets
    }

    /// The bin table: contig id, start and end of each bin.
    pub fn get_bin_table(&self) -> (r: &(Vec<u32>, Vec<u64>, Vec<u64>))
        requires
            self.wf(),
        ensures
            bin_table_ok(self.lengths(), self.resolution(), r.0@, r.1@, r.2@),
    {
        &self.bin_table
    }

    /// Contig id of `name`, first match in catalog order.
    pub fn get_tig_id(&self, name: &String) -> (r: Option<usize>)
        ensures
            r.is_some() == self.tig_id(name@).is_some(),
            r.is_some() ==> r.unwrap() == self.tig_id(name@).unwrap(),
    {
        find_tig(&self.tig_order, name)
    }

    /// Global bin of position `pos` of contig `tig`, the position cut to the
    /// contig's last base.
    pub fn get_bin_id(&self, tig: &String, pos: u64) -> (r: Option<u32>)
        requires
            self.wf(),
        ensures
            r.is_some() == self.bin_for(tig@, pos).is_some(),
            r.is_some() ==> r.unwrap() == self.bin_for(tig@, pos).unwrap(),
            r.is_some() ==> r.unwrap() < total_bins(self.lengths(), self.resolution()),
    {
        match find_tig(&self.tig_order, tig) {
            Some(i) => {
                let len = self.tig_lengths[i];
                if len == 0 {
                    return None;
                }
                let anchor = if pos < len {
                    pos
                } else {
                    len - 1
                };
                proof {
                    lemma_anchor_bin_bounds(self.lengths(), self.resolution(), i as int, pos as int);
                    assert(self.tig_offsets@[i as int] == offset_of(
                        self.lengths(),
                        self.resolution(),
                        i as int,
                    ));
                }
                Some(self.tig_offsets[i] + (anchor / self.rsltn as u64) as u32)
            },
            None => None,
        }
    }

    /// The cell `(bin1, bin2)` with `bin1 <= bin2` of a contact pair, or
    /// `None` when a contig is unknown or empty.
    pub fn pair_to_bin_rec(&self, tig1: &String, pos1: u64, tig2: &String, pos2: u64) -> (r:
        Option<(u32, u32)>)
        requires
            self.wf(),
        ensures
            r.is_some() == self.pair_cell(tig1@, pos1, tig2@, pos2).is_some(),
            r.is_some() ==> r.unwrap().0 == self.pair_cell(tig1@, pos1, tig2@, pos2).unwrap().0
                && r.unwrap().1 == self.pair_cell(tig1@, pos1, tig2@, pos2).unwrap().1,
            r.is_some() ==> r.unwrap().0 <= r.unwrap().1 < total_bins(self.lengths(), self.resolution()),
    {
        let b1 = self.get_bin_id(tig1, pos1);
        let b2 = self.get_bin_id(tig2, pos2);
        match (b1, b2) {
            (Some(a), Some(b)) => if a <= b {
                Some((a, b))
            } else {
                Some((b, a))
            },
            _ => None,
        }
    }

    /// Counts one contact pair at its cell, unless a contig is unknown or
    /// empty, or the cell already holds the largest count.
    pub fn add_pair(&mut self, tig1: &String, pos1: u64, tig2: &String, pos2: u64) -> (r: PairStatus)
        requires
            old(self).wf(),
        ensures
            final(self).wf(),
            final(self).resolution() == old(self).resolution(),
            final(self).lengths() == old(self).lengths(),
            final(self).names() == old(self).names(),
            r == match old(self).pair_cell(tig1@, pos1, tig2@, pos2) {
                None => PairStatus::Skipped,
                Some(c) => if count_at(old(self).counted(), c.0 as u32, c.1 as u32) < u32::MAX {
                    PairStatus::Counted
                } else {
                    PairStatus::CellFull
                },
            },
            r != PairStatus::Counted ==> final(self).counted() == old(self).counted(),
            r == PairStatus::Counted ==> total_count(final(self).counted()) == total_count(
                old(self).counted(),
            ) + 1,
            r == PairStatus::Counted ==> forall|a: u32, b: u32|
                #[trigger] count_at(final(self).counted(), a, b) == count_at(old(self).counted(), a, b)
                    + if old(self).pair_cell(tig1@, pos1, tig2@, pos2) == Some((a as int, b as int)) {
                    1int
                } else {
                    0int
                },
            r == PairStatus::Counted ==> forall|a: u32, b: u32|
                #[trigger] has_cell(final(self).counted(), a, b) == (has_cell(old(self).counted(), a, b)
                    || old(self).pair_cell(tig1@, pos1, tig2@, pos2) == Some((a as int, b as int))),
    {
        match self.pair_to_bin_rec(tig1, pos1, tig2, pos2) {
            Some((b1, b2)) => {
                let ghost before = self.counter@;
                if !self.counter.add(b1, b2, 1) {
                    return PairStatus::CellFull;
                }
                proof {
                    assert forall|p: int|
                        0 <= p < self.counter@.len() implies (#[trigger] self.counter@[p]).0
                        <= self.counter@[p].1 < self.n_bins by {
                        assert(has_cell(self.counter@, self.counter@[p].0, self.counter@[p].1));
                        if !has_cell(before, self.counter@[p].0, self.counter@[p].1) {
                        } else {
                            let q = choose|q: int|
                                0 <= q < before.len() && (#[trigger] before[q]).0 == self.counter@[p].0
                                    && before[q].1 == self.counter@[p].1;
                            assert(before[q].0 <= before[q].1 < self.n_bins);
                        }
                    }
                }
                PairStatus::Counted
            },
            None => PairStatus::Skipped,
        }
    }

    /// Counts every contact pair of `obs` (contig, position, contig,
    /// position) as `add_pair` does; with fewer pairs than the largest count
    /// no cell can fill up.
    pub fn add_pairs(&mut self, obs: &Vec<(String, u64, String, u64)>)
        requires
            old(self).wf(),
            forall|a: u32, b: u32| #[trigger] count_at(old(self).counted(), a, b) + obs@.len() < u32::MAX,
        ensures
            final(self).wf(),
            final(self).resolution() == old(self).resolution(),
            final(self).lengths() == old(self).lengths(),
            final(self).names() == old(self).names(),
            forall|a: u32, b: u32|
                #[trigger] count_at(final(self).counted(), a, b) == count_at(old(self).counted(), a, b)
                    + pair_hits(*old(self), obs@, obs@.len() as int, a as int, b as int),
            forall|a: u32, b: u32|
                #[trigger] has_cell(final(self).counted(), a, b) == (has_cell(old(self).counted(), a, b)
                    || pair_hits(*old(self), obs@, obs@.len() as int, a as int, b as int) > 0),
    {
        let ghost s0 = *self;
        let mut k: usize = 0;
        while k < obs.len()
            invariant
                self.wf(),
                s0 == *old(self),
                s0.wf(),
                k <= obs@.len(),
                self.resolution() == s0.resolution(),
                self.lengths() == s0.lengths(),
                self.names() == s0.names(),
                forall|a: u32, b: u32| #[trigger] count_at(s0.counted(), a, b) + obs@.len() < u32::MAX,
                forall|a: u32, b: u32|
                    #[trigger] count_at(self.counted(), a, b) == count_at(s0.counted(), a, b)
                        + pair_hits(s0, obs@, k as int, a as int, b as int),
                forall|a: u32, b: u32|
                    #[trigger] has_cell(self.counted(), a, b) == (has_cell(s0.counted(), a, b)
                        || pair_hits(s0, obs@, k as int, a as int, b as int) > 0),
            decreases obs@.len() - k,
        {
            let ghost cur = *self;
            let ghost o = obs@[k as int];
            proof {
                assert(cur.pair_cell(o.0@, o.1, o.2@, o.3) == s0.pair_cell(o.0@, o.1, o.2@, o.3));
                if let Some(c) = s0.pair_cell(o.0@, o.1, o.2@, o.3) {
                    lemma_pair_hits_bounded(s0, obs@, k as int, c.0, c.1);
                    lemma_pair_cell_bounds(s0, o.0@, o.1, o.2@, o.3);
                    assert(count_at(s0.counted(), c.0 as u32, c.1 as u32) + obs@.len() < u32::MAX);
                }
            }
            let st = self.add_pair(&obs[k].0, obs[k].1, &obs[k].2, obs[k].3);
            proof {
                assert(st != PairStatus::CellFull);
                assert forall|a: u32, b: u32| #[trigger] count_at(self.counted(), a, b) == count_at(s0.counted(), a, b)
                    + pair_hits(s0, obs@, k + 1, a as int, b as int) by {
                    lemma_pair_cell_bounds(s0, o.0@, o.1, o.2@, o.3);
                }
                assert forall|a: u32, b: u32| #[trigger] has_cell(self.counted(), a, b) == (has_cell(s0.counted(), a, b)
                    || pair_hits(s0, obs@, k + 1, a as int, b as int) > 0) by {
                    lemma_pair_cell_bounds(s0, o.0@, o.1, o.2@, o.3);
                    lemma_pair_hits_bounded(s0, obs@, k as int, a as int, b as int);
                }
            }
            k += 1;
        }
    }

    /// The counted pixels, strictly ordered by `(bin1, bin2)`.
    pub fn get_pixels(self) -> (r: Vec<PixelT>)
        requires
            self.wf(),
        ensures
            r@ == self.counted(),
            strictly_sorted(r@),
            all_positive(r@),
            forall|p: int|
                0 <= p < r@.len() ==> (#[trigger] r@[p]).0 <= r@[p].1 < total_bins(
                    self.lengths(),
                    self.resolution(),
                ),
    {
        self.counter.into_pixels()
    }
}

/// Bins of a finer resolution, each inside its contig: `chrs[b]` is the
/// contig of bin `b` and `starts[b]` its start.
pub open spec fn source_bins_ok(lengths: Seq<u64>, chrs: Seq<u32>, starts: Seq<u64>) -> bool {
    &&& chrs.len() == starts.len()
    &&& forall|b: int|
        0 <= b < chrs.len() ==> #[trigger] chrs[b] < lengths.len() && starts[b] < lengths[chrs[b]
            as int]
}

/// Coarse bin, at resolution `res`, of a fine bin of contig `chr` starting at `start`.
pub open spec fn zoom_bin(lengths: Seq<u64>, res: int, chr: int, start: int) -> int {
    offset_of(lengths, res, chr) + start / res
}

/// Coarse cell `(min, max)` of the fine pixel between bins `b1` and `b2`.
pub open spec fn zoom_cell(lengths: Seq<u64>, res: int, chrs: Seq<u32>, starts: Seq<u64>, b1: u32, b2: u32) -> (
    int,
    int,
) {
    let x = zoom_bin(lengths, res, chrs[b1 as int] as int, starts[b1 as int] as int);
    let y = zoom_bin(lengths, res, chrs[b2 as int] as int, starts[b2 as int] as int);
    if x <= y {
        (x, y)
    } else {
        (y, x)
    }
}

/// Count that the first `n` fine pixels bring to coarse cell `(a, b)`.
pub open spec fn zoom_mass(
    lengths: Seq<u64>,
    res: int,
    chrs: Seq<u32>,
    starts: Seq<u64>,
    bins1: Seq<u32>,
    bins2: Seq<u32>,
    counts: Seq<u32>,
    n: int,
    a: int,
    b: int,
) -> int
    decreases n,
{
    if n <= 0 {
        0
    } else {
        zoom_mass(lengths, res, chrs, starts, bins1, bins2, counts, n - 1, a, b) + if zoom_cell(
            lengths,
            res,
            chrs,
            starts,
            bins1[n - 1],
            bins2[n - 1],
        ) == (a, b) {
            counts[n - 1] as int
        } else {
            0int
        }
    }
}

/// Some of the first `n` fine pixels lands in coarse cell `(a, b)`.
pub open spec fn zoom_hit(
    lengths: Seq<u64>,
    res: int,
    chrs: Seq<u32>,
    starts: Seq<u64>,
    bins1: Seq<u32>,
    bins2: Seq<u32>,
    n: int,
    a: int,
    b: int,
) -> bool
    decreases n,
{
    if n <= 0 {
        false
    } else {
        zoom_hit(lengths, res, chrs, starts, bins1, bins2, n - 1, a, b) || zoom_cell(
            lengths,
            res,
            chrs,
            starts,
            bins1[n - 1],
            bins2[n - 1],
        ) == (a, b)
    }
}

/// Counts only add up along the pixels.
pub proof fn lemma_zoom_mass_monotonic(
    lengths: Seq<u64>,
    res: int,
    chrs: Seq<u32>,
    starts: Seq<u64>,
    bins1: Seq<u32>,
    bins2: Seq<u32>,
    counts: Seq<u32>,
    n: int,
    m: int,
    a: int,
    b: int,
)
    requires
        0 <= n <= m,
    ensures
        zoom_mass(lengths, res, chrs, starts, bins1, bins2, counts, n, a, b) <= zoom_mass(
            lengths,
            res,
            chrs,
            starts,
            bins1,
            bins2,
            counts,
            m,
            a,
            b,
        ),
    decreases m,
{
    if n < m {
        lemma_zoom_mass_monotonic(lengths, res, chrs, starts, bins1, bins2, counts, n, m - 1, a, b);
    }
}

/// No coarse cell goes past the largest count once the pixels are added.
pub open spec fn zoom_fits(
    base: Seq<PixelT>,
    lengths: Seq<u64>,
    res: int,
    chrs: Seq<u32>,
    starts: Seq<u64>,
    bins1: Seq<u32>,
    bins2: Seq<u32>,
    counts: Seq<u32>,
) -> bool {
    forall|a: u32, b: u32|
        #[trigger] count_at(base, a, b) + zoom_mass(
            lengths,
            res,
            chrs,
            starts,
            bins1,
            bins2,
            counts,
            counts.len() as int,
            a as int,
            b as int,
        ) <= u32::MAX
}

/// Builds a coarser resolution by summing the pixels of a finer one into the
/// coarse bins that contain their bins.
#[derive(Debug)]
pub struct ZoomBuilder {
    new_res: u32,
    n_new_bins: usize,
    chunksize: usize,
    bin_table: (Vec<u32>, Vec<u64>, Vec<u64>),
    tig_offsets: Vec<u32>,
    tig_lengths: Vec<u64>,
    counter: PixelCounter,
}

impl ZoomBuilder {
    pub closed spec fn resolution(&self) -> int {
        self.new_res as int
    }

    pub closed spec fn lengths(&self) -> Seq<u64> {
        self.tig_lengths@
    }

    /// The coarse pixels summed so far, strictly ordered by cell.
    pub closed spec fn counted(&self) -> Seq<PixelT> {
        self.counter@
    }

    /// The builder's invariant: offsets and bin table match the contigs,
    /// and the summed cells are upper-triangle cells of the new bin range.
    pub closed spec fn wf(&self) -> bool {
        &&& self.new_res > 0
        &&& self.tig_lengths@.len() <= u32::MAX
        &&& total_bins(self.tig_lengths@, self.new_res as int) <= u32::MAX
        &&& self.n_new_bins == total_bins(self.tig_lengths@, self.new_res as int)
        &&& bin_table_ok(
            self.tig_lengths@,
            self.new_res as int,
            self.bin_table.0@,
            self.bin_table.1@,
            self.bin_table.2@,
        )
        &&& self.chunksize > 0
        &&& self.tig_offsets@.len() == self.tig_lengths@.len() + 1
        &&& forall|i: int|
            0 <= i <= self.tig_lengths@.len() ==> #[trigger] self.tig_offsets@[i] == offset_of(
                self.tig_lengths@,
                self.new_res as int,
                i,
            )
        &&& self.counter.wf()
        &&& all_positive(self.counter@)
        &&& forall|p: int|
            0 <= p < self.counter@.len() ==> (#[trigger] self.counter@[p]).0 <= self.counter@[p].1
                < self.n_new_bins
    }

    /// Count that the first `n` fine pixels bring to coarse cell `(a, b)`.
    pub open spec fn mass_at(
        &self,
        chrs: Seq<u32>,
        starts: Seq<u64>,
        bins1: Seq<u32>,
        bins2: Seq<u32>,
        counts: Seq<u32>,
        n: int,
        a: int,
        b: int,
    ) -> int {
        zoom_mass(self.lengths(), self.resolution(), chrs, starts, bins1, bins2, counts, n, a, b)
    }

    /// A builder of the resolution `new_res` over contigs of the given
    /// lengths, with nothing summed yet; the finer pixels are meant to come in
    /// chunks of `chunksize`.
    pub fn new(tig_lengths: &Vec<u64>, new_res: u32, chunksize: usize) -> (r: ZoomBuilder)
        requires
            new_res > 0,
            chunksize > 0,
            tig_lengths@.len() <= u32::MAX,
            total_bins(tig_lengths@, new_res as int) <= u32::MAX,
        ensures
            r.wf(),
            r.resolution() == new_res,
            r.chunk_len() == chunksize,
            r.lengths() == tig_lengths@,
            r.counted().len() == 0,
            total_count(r.counted()) == 0,
    {
        let tig_offsets = build_tig_offsets(new_res, tig_lengths);
        let n_new_bins = tig_offsets[tig_offsets.len() - 1] as usize;
        let bin_table = build_bin_table_from_lengths(new_res as u64, tig_lengths);
        let mut lengths: Vec<u64> = Vec::new();
        let mut i: usize = 0;
        while i < tig_lengths.len()
            invariant
                i <= tig_lengths@.len(),
                lengths@ == tig_lengths@.subrange(0, i as int),
            decreases tig_lengths@.len() - i,
        {
            lengths.push(tig_lengths[i]);
            i += 1;
            proof {
                assert(lengths@ =~= tig_lengths@.subrange(0, i as int));
            }
        }
        assert(lengths@ =~= tig_lengths@);
        ZoomBuilder {
            new_res,
            n_new_bins,
            chunksize,
            bin_table,
            tig_offsets,
            tig_lengths: lengths,
            counter: PixelCounter::new(),
        }
    }

    pub fn get_resolution(&self) -> (r: u32)
        ensures
            r == self.resolution(),
    {
        self.new_res
    }

    pub closed spec fn chunk_len(&self) -> int {
        self.chunksize as int
    }

    /// Number of fine pixels meant to come in one chunk.
    pub fn get_chunksize(&self) -> (r: usize)
        ensures
            r == self.chunk_len(),
    {
        self.chunksize
    }

    /// Number of bins of the new resolution.
    pub fn get_n_bins(&self) -> (r: usize)
        requires
            self.wf(),
        ensures
            r == total_bins(self.lengths(), self.resolution()),
    {
        self.n_new_bins
    }

    /// Per-contig bin offsets of the new resolution.
    pub fn get_tig_offsets_view(&self) -> (r: &Vec<u32>)
        requires
            self.wf(),
        ensures
            r@.len() == self.lengths().len() + 1,
            forall|i: int|
                0 <= i <= self.lengths().len() ==> #[trigger] r@[i] == offset_of(
                    self.lengths(),
                    self.resolution(),
                    i,
                ),
    {
        &self.tig_offsets
    }

    /// The bin table of the new resolution.
    pub fn get_bin_table(&self) -> (r: &(Vec<u32>, Vec<u64>, Vec<u64>))
        requires
            self.wf(),
        ensures
            bin_table_ok(self.lengths(), self.resolution(), r.0@, r.1@, r.2@),
    {
        &self.bin_table
    }

    /// Sums one chunk of fine pixels `(bins1[k], bins2[k], counts[k])` into
    /// their coarse cells; the fine bin table is `bin_chrs` and `bin_starts`.
    /// The total count grows by exactly the chunk's total. When a coarse
    /// cell would go past the largest count, this is an error and the chunk
    /// is summed only up to that pixel.
    pub fn add_chunk(
        &mut self,
        bin_chrs: &Vec<u32>,
        bin_starts: &Vec<u64>,
        bins1: &Vec<u32>,
        bins2: &Vec<u32>,
        counts: &Vec<u32>,
    ) -> (r: Result<(), CountOverflow>)
        requires
            old(self).wf(),
            source_bins_ok(old(self).lengths(), bin_chrs@, bin_starts@),
            bins1@.len() == counts@.len() && bins2@.len() == counts@.len(),
            forall|k: int|
                0 <= k < counts@.len() ==> #[trigger] bins1@[k] < bin_chrs@.len() && bins2@[k]
                    < bin_chrs@.len(),
            forall|k: int| 0 <= k < counts@.len() ==> #[trigger] counts@[k] > 0,
        ensures
            final(self).wf(),
            final(self).resolution() == old(self).resolution(),
            final(self).lengths() == old(self).lengths(),
            r is Ok <==> zoom_fits(
                old(self).counted(),
                old(self).lengths(),
                old(self).resolution(),
                bin_chrs@,
                bin_starts@,
                bins1@,
                bins2@,
                counts@,
            ),
            r is Ok ==> total_count(final(self).counted()) == total_count(old(self).counted())
                + sum_u32(counts@),
            r is Ok ==> forall|a: u32, b: u32|
                #[trigger] count_at(final(self).counted(), a, b) == count_at(old(self).counted(), a, b)
                    + old(self).mass_at(
                    bin_chrs@,
                    bin_starts@,
                    bins1@,
                    bins2@,
                    counts@,
                    counts@.len() as int,
                    a as int,
                    b as int,
                ),
            r is Ok ==> forall|a: u32, b: u32|
                #[trigger] has_cell(final(self).counted(), a, b) == (has_cell(old(self).counted(), a, b)
                    || zoom_hit(
                    old(self).lengths(),
                    old(self).resolution(),
                    bin_chrs@,
                    bin_starts@,
                    bins1@,
                    bins2@,
                    counts@.len() as int,
                    a as int,
                    b as int,
                )),
    {
        let ghost c0 = self.counter@;
        let ghost s0 = *self;
        let ghost res = self.new_res as int;
        let ghost ls = self.tig_lengths@;
        let mut k: usize = 0;
        while k < counts.len()
            invariant
                self.wf(),
                self.new_res == s0.new_res,
                self.tig_lengths@ == s0.tig_lengths@,
                self.tig_offsets@ == s0.tig_offsets@,
                self.n_new_bins == s0.n_new_bins,
                res == self.new_res as int,
                ls == s0.lengths(),
                c0 == s0.counted(),
                s0 == *old(self),
                source_bins_ok(self.lengths(), bin_chrs@, bin_starts@),
                bins1@.len() == counts@.len() && bins2@.len() == counts@.len(),
                forall|k2: int|
                    0 <= k2 < counts@.len() ==> #[trigger] bins1@[k2] < bin_chrs@.len() && bins2@[k2]
                        < bin_chrs@.len(),
                k <= counts@.len(),
                forall|k2: int| 0 <= k2 < counts@.len() ==> #[trigger] counts@[k2] > 0,
                forall|a: u32, b: u32|
                    #[trigger] has_cell(self.counter@, a, b) == (has_cell(c0, a, b) || zoom_hit(
                        ls,
                        res,
                        bin_chrs@,
                        bin_starts@,
                        bins1@,
                        bins2@,
                        k as int,
                        a as int,
                        b as int,
                    )),
                total_count(self.counter@) == total_count(c0) + sum_u32(counts@.subrange(0, k as int)),
                forall|a: u32, b: u32|
                    #[trigger] count_at(self.counter@, a, b) == count_at(c0, a, b) + zoom_mass(
                        ls,
                        res,
                        bin_chrs@,
                        bin_starts@,
                        bins1@,
                        bins2@,
                        counts@,
                        k as int,
                        a as int,
                        b as int,
                    ),
            decreases counts@.len() - k,
        {
            let f1 = bins1[k] as usize;
            let f2 = bins2[k] as usize;
            let chr1 = bin_chrs[f1] as usize;
            let chr2 = bin_chrs[f2] as usize;
            let st1 = bin_starts[f1];
            let st2 = bin_starts[f2];
            proof {
                lemma_pos_in_bins(st1 as int, ls[chr1 as int] as int, res);
                lemma_pos_in_bins(st2 as int, ls[chr2 as int] as int, res);
                lemma_offset_monotonic(ls, res, chr1 + 1, ls.len() as int);
                lemma_offset_monotonic(ls, res, chr2 + 1, ls.len() as int);
                assert(self.tig_offsets@[chr1 as int] == offset_of(ls, res, chr1 as int));
                assert(self.tig_offsets@[chr2 as int] == offset_of(ls, res, chr2 as int));
                assert(counts@.subrange(0, k + 1).drop_last() =~= counts@.subrange(0, k as int));
            }
            let n1 = self.tig_offsets[chr1] + (st1 / self.new_res as u64) as u32;
            let n2 = self.tig_offsets[chr2] + (st2 / self.new_res as u64) as u32;
            let (x, y) = if n1 <= n2 {
                (n1, n2)
            } else {
                (n2, n1)
            };
            let c = counts[k];
            let ghost before = self.counter@;
            if !self.counter.add(x, y, c) {
                proof {
                    let full = counts@.len() as int;
                    lemma_zoom_mass_monotonic(ls, res, bin_chrs@, bin_starts@, bins1@, bins2@, counts@, k + 1, full, x as int, y as int);
                    assert(count_at(c0, x, y) + zoom_mass(ls, res, bin_chrs@, bin_starts@, bins1@, bins2@, counts@, full, x as int, y as int) > u32::MAX);
                }
                return Err(CountOverflow);
            }
            proof {
                assert forall|p: int|
                    0 <= p < self.counter@.len() implies (#[trigger] self.counter@[p]).0
                    <= self.counter@[p].1 < self.n_new_bins by {
                    assert(has_cell(self.counter@, self.counter@[p].0, self.counter@[p].1));
                    if has_cell(before, self.counter@[p].0, self.counter@[p].1) {
                        let q = choose|q: int|
                            0 <= q < before.len() && (#[trigger] before[q]).0 == self.counter@[p].0
                                && before[q].1 == self.counter@[p].1;
                        assert(before[q].0 <= before[q].1 < self.n_new_bins);
                    }
                }
            }
            k += 1;
        }
        proof {
            assert(counts@ =~= counts@.subrange(0, counts@.len() as int));
            assert forall|a: u32, b: u32| #[trigger] count_at(c0, a, b) + zoom_mass(
                ls,
                res,
                bin_chrs@,
                bin_starts@,
                bins1@,
                bins2@,
                counts@,
                counts@.len() as int,
                a as int,
                b as int,
            ) <= u32::MAX by {
                lemma_count_at_bounded(self.counter@, a, b);
            }
        }
        Ok(())
    }

    /// The coarse pixels, strictly ordered by `(bin1, bin2)`.
    pub fn get_pixels(self) -> (r: Vec<PixelT>)
        requires
            self.wf(),
        ensures
            r@ == self.counted(),
            strictly_sorted(r@),
            all_positive(r@),
            total_count(r@) == total_count(self.counted()),
            forall|p: int|
                0 <= p < r@.len() ==> (#[trigger] r@[p]).0 <= r@[p].1 < total_bins(
                    self.lengths(),
                    self.resolution(),
                ),
    {
        self.counter.into_pixels()
    }
}

/// A coarse cell would go past the largest count.
#[derive(Debug, Clone, Copy, PartialEq, Eq, Structural)]
pub struct CountOverflow;

/// All pixels `(bins1[k], bins2[k], counts[k])` of a finer resolution, whose
/// bin table is `bin_chrs` and `bin_starts`, summed into the bins of
/// `new_res`: strictly ordered by cell, with exactly the total count of
/// `counts`; `None` when a coarse cell would go past the largest count.
pub fn zoom_pixels(
    tig_lengths: &Vec<u64>,
    new_res: u32,
    bin_chrs: &Vec<u32>,
    bin_starts: &Vec<u64>,
    bins1: &Vec<u32>,
    bins2: &Vec<u32>,
    counts: &Vec<u32>,
) -> (r: Option<Vec<PixelT>>)
    requires
        new_res > 0,
        tig_lengths@.len() <= u32::MAX,
        total_bins(tig_lengths@, new_res as int) <= u32::MAX,
        source_bins_ok(tig_lengths@, bin_chrs@, bin_starts@),
        bins1@.len() == counts@.len() && bins2@.len() == counts@.len(),
        forall|k: int|
            0 <= k < counts@.len() ==> #[trigger] bins1@[k] < bin_chrs@.len() && bins2@[k]
                < bin_chrs@.len(),
        forall|k: int| 0 <= k < counts@.len() ==> #[trigger] counts@[k] > 0,
    ensures
        r is Some ==> all_positive(r->Some_0@),
        r is Some ==> forall|a: u32, b: u32|
            #[trigger] count_at(r->Some_0@, a, b) == zoom_mass(
                tig_lengths@,
                new_res as int,
                bin_chrs@,
                bin_starts@,
                bins1@,
                bins2@,
                counts@,
                counts@.len() as int,
                a as int,
                b as int,
            ),
        r is Some ==> forall|a: u32, b: u32|
            #[trigger] has_cell(r->Some_0@, a, b) == zoom_hit(
                tig_lengths@,
                new_res as int,
                bin_chrs@,
                bin_starts@,
                bins1@,
                bins2@,
                counts@.len() as int,
                a as int,
                b as int,
            ),
        r is Some <==> zoom_fits(
            Seq::empty(),
            tig_lengths@,
            new_res as int,
            bin_chrs@,
            bin_starts@,
            bins1@,
            bins2@,
            counts@,
        ),
        r is Some ==> strictly_sorted(r->Some_0@) && total_count(r->Some_0@) == sum_u32(counts@),
        r is Some ==> forall|p: int|
            0 <= p < r->Some_0@.len() ==> (#[trigger] r->Some_0@[p]).0 <= r->Some_0@[p].1
                < total_bins(tig_lengths@, new_res as int),
{
    let mut zb = ZoomBuilder::new(tig_lengths, new_res, 1);
    proof {
        assert(zb.counted() =~= Seq::<PixelT>::empty());
    }
    match zb.add_chunk(bin_chrs, bin_starts, bins1, bins2, counts) {
        Ok(()) => {
            proof {
                assert forall|a: u32, b: u32| #[trigger] count_at(Seq::<PixelT>::empty(), a, b) == 0 by {}
                assert forall|a: u32, b: u32| !#[trigger] has_cell(Seq::<PixelT>::empty(), a, b) by {}
            }
            Some(zb.get_pixels())
        },
        Err(_) => None,
    }
}

/// Pixels strictly ordered by cell are ordered by row.
pub proof fn lemma_strictly_sorted_rows(px: Seq<PixelT>)
    requires
        strictly_sorted(px),
    ensures
        rows_sorted(px),
{
    assert forall|p: int, q: int| 0 <= p < q < px.len() implies (#[trigger] px[p]).0 <= (
    #[trigger] px[q]).0 by {
        assert(key_lt(px[p], px[q]));
    }
}

/// The per-row offset index of a pixel list strictly ordered by cell, over
/// `n_bins` bins.
pub fn get_bin_offsets(n_bins: usize, pixels: &Vec<PixelT>) -> (r: Vec<u32>)
    requires
        n_bins < usize::MAX,
        pixels@.len() <= u32::MAX,
        strictly_sorted(pixels@),
        forall|p: int| 0 <= p < pixels@.len() ==> (#[trigger] pixels@[p]).0 < n_bins,
    ensures
        r@.len() == n_bins + 1,
        forall|k: int| 0 <= k <= n_bins ==> #[trigger] r@[k] == crate::bins::count_below(pixels@, k),
        forall|k: int|
            0 <= k < n_bins ==> r@[k + 1] - r@[k] == #[trigger] crate::bins::count_row(pixels@, k),
{
    proof {
        lemma_strictly_sorted_rows(pixels@);
    }
    build_bin_offsets_from_pixels(n_bins, pixels)
}

/// Round trip from contact pairs to the symmetric matrix: when the pixels
/// `px` count, cell by cell, the pairs of `obs` that fall in each cell of
/// `pb` (as `add_pairs` on a builder with nothing counted, then `get_pixels`,
/// give them) and `sel` stores exactly `px` (as `Selector2D::from_pixels`
/// gives), cell `(r, c)` of the symmetric matrix holds `v` exactly when `v`
/// pairs, at least one, fall in cell `(min(r, c), max(r, c))`.
pub proof fn lemma_pairs_round_trip(
    pb: PairsBuilder,
    obs: Seq<(String, u64, String, u64)>,
    px: Seq<PixelT>,
    sel: Selector2D,
    r: u32,
    c: u32,
    v: u32,
)
    requires
        strictly_sorted(px),
        forall|a: u32, b: u32|
            #[trigger] count_at(px, a, b) == pair_hits(pb, obs, obs.len() as int, a as int, b as int),
        forall|a: u32, b: u32|
            #[trigger] has_cell(px, a, b) == (pair_hits(pb, obs, obs.len() as int, a as int, b as int) > 0),
        sel.wf(),
        forall|a: int, b: int, w: u32| #[trigger] sel.stored_with(a, b, w) <==> lists_pixel(px, a, b, w),
    ensures
        sel.cell_holds(r as int, c as int, v) <==> {
            let (a, b) = if r <= c {
                (r, c)
            } else {
                (c, r)
            };
            v > 0 && pair_hits(pb, obs, obs.len() as int, a as int, b as int) == v
        },
{
    lemma_round_trip(sel, px, r, c, v);
}

} // verus!
