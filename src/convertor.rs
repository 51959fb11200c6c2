//! Bookkeeping of the alignment-to-pairs conversion: rescue strategies,
//! statistics and duplicate detection on sorted pair records.
use vstd::prelude::*;

verus! {

/// How far reads with several alignments are rescued.
#[derive(Debug, Clone, Copy, PartialEq, Eq, Structural)]
pub enum RescueStrategy {
    Unique,
    Simple,
    Complex,
}

/// Strand of an alignment.
#[derive(Debug, Clone, Copy, PartialEq, Eq, Structural)]
pub enum Strand {
    Forward,
    Reverse,
}

/// How a pair was obtained: both reads unique, one rescued, or both rescued.
#[derive(Debug, Clone, Copy, PartialEq, Eq, Structural)]
pub enum PairType {
    UU,
    UD,
    DD,
}

/// Counters of a conversion run.
#[derive(Debug, Clone, Copy, PartialEq, Eq, Structural)]
pub struct ConverterStat {
    pub read_counter: u64,
    pub alignment_counter: u64,
    pub pairs_counter: u64,
    pub nn_counter: u64,
    pub nm_counter: u64,
    pub mm_counter: u64,
    pub prime_counter: u64,
    pub supp_counter: u64,
    pub sec_counter: u64,
    pub mq00_counter: u64,
    pub mq01_counter: u64,
    pub mq11_counter: u64,
    pub intra_counter: u64,
    pub inter_counter: u64,
    pub uu_pair_counter: u64,
    pub uw_pair_counter: u64,
    pub ww_pair_counter: u64,
}

impl ConverterStat {
    /// All counters at zero.
    pub fn new() -> (r: ConverterStat)
        ensures
            r == (ConverterStat {
                read_counter: 0,
                alignment_counter: 0,
                pairs_counter: 0,
                nn_counter: 0,
                nm_counter: 0,
                mm_counter: 0,
                prime_counter: 0,
                supp_counter: 0,
                sec_counter: 0,
                mq00_counter: 0,
                mq01_counter: 0,
                mq11_counter: 0,
                intra_counter: 0,
                inter_counter: 0,
                uu_pair_counter: 0,
                uw_pair_counter: 0,
                ww_pair_counter: 0,
            }),
    {
        ConverterStat {
            read_counter: 0,
            alignment_counter: 0,
            pairs_counter: 0,
            nn_counter: 0,
            nm_counter: 0,
            mm_counter: 0,
            prime_counter: 0,
            supp_counter: 0,
            sec_counter: 0,
            mq00_counter: 0,
            mq01_counter: 0,
            mq11_counter: 0,
            intra_counter: 0,
            inter_counter: 0,
            uu_pair_counter: 0,
            uw_pair_counter: 0,
            ww_pair_counter: 0,
        }
    }

    /// Counts one alignment record.
    pub fn update_align_count(&mut self)
        requires
            old(self).alignment_counter < u64::MAX,
        ensures
            *final(self) == (ConverterStat {
                alignment_counter: (old(self).alignment_counter + 1) as u64,
                ..*old(self)
            }),
    {
        self.alignment_counter += 1;
    }

    /// Counts one read.
    pub fn update_read_count(&mut self)
        requires
            old(self).read_counter < u64::MAX,
        ensures
            *final(self) == (ConverterStat { read_counter: (old(self).read_counter + 1) as u64, ..*old(self) }),
    {
        self.read_counter += 1;
    }

    /// Counts `count` pairs of kind `tp`.
    pub fn update_pair_count(&mut self, tp: PairType, count: u64)
        requires
            tp == PairType::UU ==> old(self).uu_pair_counter + count <= u64::MAX,
            tp == PairType::UD ==> old(self).uw_pair_counter + count <= u64::MAX,
            tp == PairType::DD ==> old(self).ww_pair_counter + count <= u64::MAX,
        ensures
            *final(self) == (match tp {
                PairType::UU => ConverterStat {
                    uu_pair_counter: (old(self).uu_pair_counter + count) as u64,
                    ..*old(self)
                },
                PairType::UD => ConverterStat {
                    uw_pair_counter: (old(self).uw_pair_counter + count) as u64,
                    ..*old(self)
                },
                PairType::DD => ConverterStat {
                    ww_pair_counter: (old(self).ww_pair_counter + count) as u64,
                    ..*old(self)
                },
            }),
    {
        match tp {
            PairType::UU => {
                self.uu_pair_counter += count;
            },
            PairType::UD => {
                self.uw_pair_counter += count;
            },
            PairType::DD => {
                self.ww_pair_counter += count;
            },
        }
    }
}

/// What the conversion reads of one alignment record: reference and span,
/// strand, and flags.
#[derive(Debug, Clone, Copy, PartialEq, Eq, Structural)]
pub struct AlignmentSummary {
    pub ref_id: i32,
    pub start: i32,
    pub end: i32,
    pub reverse: bool,
    pub mapped: bool,
    pub secondary: bool,
    pub supplementary: bool,
    pub mapq: u8,
}

/// Middle of an alignment's span, rounded down.
pub open spec fn alignment_pos(rec: AlignmentSummary) -> int {
    rec.start + (rec.end - rec.start) / 2
}

/// Kind of alignment: 0 secondary, 1 supplementary, 2 primary.
pub open spec fn alignment_kind(rec: AlignmentSummary) -> int {
    if rec.secondary {
        0
    } else if rec.supplementary {
        1
    } else {
        2
    }
}

/// Number of the first `n` records of kind `kind`.
pub open spec fn kind_count(recs: Seq<AlignmentSummary>, n: int, kind: int) -> int
    decreases n,
{
    if n <= 0 {
        0
    } else {
        kind_count(recs, n - 1, kind) + if alignment_kind(recs[n - 1]) == kind {
            1int
        } else {
            0int
        }
    }
}

proof fn lemma_kind_count_le(recs: Seq<AlignmentSummary>, n: int, kind: int)
    requires
        n >= 0,
    ensures
        0 <= kind_count(recs, n, kind) <= n,
    decreases n,
{
    if n > 0 {
        lemma_kind_count_le(recs, n - 1, kind);
    }
}

/// Middle of the alignment's span.
pub fn get_alignment_pos(rec: &AlignmentSummary) -> (r: i64)
    requires
        rec.start <= rec.end,
    ensures
        r == alignment_pos(*rec),
{
    rec.start as i64 + (rec.end as i64 - rec.start as i64) / 2
}

/// Distance between the middles of two alignments on one reference; the
/// largest value for alignments on different references.
pub fn calc_dist(fa: &AlignmentSummary, sa: &AlignmentSummary) -> (r: u64)
    requires
        fa.start <= fa.end,
        sa.start <= sa.end,
    ensures
        r == if fa.ref_id == sa.ref_id {
            let d = alignment_pos(*fa) - alignment_pos(*sa);
            if d >= 0 {
                d
            } else {
                -d
            }
        } else {
            u64::MAX as int
        },
{
    if fa.ref_id == sa.ref_id {
        let d = get_alignment_pos(fa) - get_alignment_pos(sa);
        if d >= 0 {
            d as u64
        } else {
            (-d) as u64
        }
    } else {
        u64::MAX
    }
}

/// Two alignments on opposite strands facing each other: the reverse one
/// lies after the forward one.
pub fn is_opposite_pair(fa: &AlignmentSummary, sa: &AlignmentSummary) -> (r: bool)
    requires
        fa.start <= fa.end,
        sa.start <= sa.end,
    ensures
        r == (fa.reverse != sa.reverse && if sa.reverse {
            alignment_pos(*sa) > alignment_pos(*fa)
        } else {
            alignment_pos(*sa) < alignment_pos(*fa)
        }),
{
    let mut can_rescue = fa.reverse != sa.reverse;
    if sa.reverse {
        can_rescue = can_rescue && get_alignment_pos(sa) > get_alignment_pos(fa);
    } else {
        can_rescue = can_rescue && get_alignment_pos(sa) < get_alignment_pos(fa);
    }
    can_rescue
}

/// The two alignments ordered by reference, then by position.
pub fn get_ordered_alignments(fa: &AlignmentSummary, sa: &AlignmentSummary) -> (r: (
    AlignmentSummary,
    AlignmentSummary,
))
    requires
        fa.start <= fa.end,
        sa.start <= sa.end,
    ensures
        r == if fa.ref_id == sa.ref_id {
            if alignment_pos(*fa) < alignment_pos(*sa) {
                (*fa, *sa)
            } else {
                (*sa, *fa)
            }
        } else if fa.ref_id < sa.ref_id {
            (*fa, *sa)
        } else {
            (*sa, *fa)
        },
{
    if fa.ref_id == sa.ref_id {
        if get_alignment_pos(fa) < get_alignment_pos(sa) {
            (*fa, *sa)
        } else {
            (*sa, *fa)
        }
    } else if fa.ref_id < sa.ref_id {
        (*fa, *sa)
    } else {
        (*sa, *fa)
    }
}

impl ConverterStat {
    /// Counts records as secondary, else supplementary, else primary.
    pub fn update_alignment_count(&mut self, records: &Vec<AlignmentSummary>)
        requires
            old(self).sec_counter + records@.len() <= u64::MAX,
            old(self).supp_counter + records@.len() <= u64::MAX,
            old(self).prime_counter + records@.len() <= u64::MAX,
        ensures
            *final(self) == (ConverterStat {
                sec_counter: (old(self).sec_counter + kind_count(records@, records@.len() as int, 0)) as u64,
                supp_counter: (old(self).supp_counter + kind_count(records@, records@.len() as int, 1)) as u64,
                prime_counter: (old(self).prime_counter + kind_count(records@, records@.len() as int, 2)) as u64,
                ..*old(self)
            }),
    {
        let ghost s0 = *self;
        let mut k: usize = 0;
        while k < records.len()
            invariant
                k <= records@.len(),
                s0 == *old(self),
                s0.sec_counter + records@.len() <= u64::MAX,
                s0.supp_counter + records@.len() <= u64::MAX,
                s0.prime_counter + records@.len() <= u64::MAX,
                *self == (ConverterStat {
                    sec_counter: (s0.sec_counter + kind_count(records@, k as int, 0)) as u64,
                    supp_counter: (s0.supp_counter + kind_count(records@, k as int, 1)) as u64,
                    prime_counter: (s0.prime_counter + kind_count(records@, k as int, 2)) as u64,
                    ..s0
                }),
            decreases records@.len() - k,
        {
            proof {
                lemma_kind_count_le(records@, k as int, 0);
                lemma_kind_count_le(records@, k as int, 1);
                lemma_kind_count_le(records@, k as int, 2);
            }
            let rec = &records[k];
            if rec.secondary {
                self.sec_counter += 1;
            } else if rec.supplementary {
                self.supp_counter += 1;
            } else {
                self.prime_counter += 1;
            }
            k += 1;
        }
    }

    /// Counts a pair as both unmapped, one unmapped, or both mapped.
    pub fn update_mapping_count(&mut self, rec1: &AlignmentSummary, rec2: &AlignmentSummary)
        requires
            old(self).nn_counter < u64::MAX,
            old(self).nm_counter < u64::MAX,
            old(self).mm_counter < u64::MAX,
        ensures
            *final(self) == if !rec1.mapped && !rec2.mapped {
                ConverterStat { nn_counter: (old(self).nn_counter + 1) as u64, ..*old(self) }
            } else if rec1.mapped != rec2.mapped {
                ConverterStat { nm_counter: (old(self).nm_counter + 1) as u64, ..*old(self) }
            } else {
                ConverterStat { mm_counter: (old(self).mm_counter + 1) as u64, ..*old(self) }
            },
    {
        if !rec1.mapped && !rec2.mapped {
            self.nn_counter += 1;
        } else if rec1.mapped != rec2.mapped {
            self.nm_counter += 1;
        } else {
            self.mm_counter += 1;
        }
    }

    /// Counts a pair by how many of its reads have mapping quality zero.
    pub fn update_mapq_count(&mut self, rec1: &AlignmentSummary, rec2: &AlignmentSummary)
        requires
            old(self).mq00_counter < u64::MAX,
            old(self).mq01_counter < u64::MAX,
            old(self).mq11_counter < u64::MAX,
        ensures
            *final(self) == if rec1.mapq == 0 && rec2.mapq == 0 {
                ConverterStat { mq00_counter: (old(self).mq00_counter + 1) as u64, ..*old(self) }
            } else if (rec1.mapq == 0) != (rec2.mapq == 0) {
                ConverterStat { mq01_counter: (old(self).mq01_counter + 1) as u64, ..*old(self) }
            } else {
                ConverterStat { mq11_counter: (old(self).mq11_counter + 1) as u64, ..*old(self) }
            },
    {
        if rec1.mapq == 0 && rec2.mapq == 0 {
            self.mq00_counter += 1;
        } else if (rec1.mapq == 0) != (rec2.mapq == 0) {
            self.mq01_counter += 1;
        } else {
            self.mq11_counter += 1;
        }
    }
}

/// One line of a sorted pairs file, as far as duplicate detection reads it.
#[derive(Debug, Clone, PartialEq, Eq)]
pub struct DupRecord {
    pub read_name: String,
    pub name1: String,
    pub pos1: i64,
    pub name2: String,
    pub pos2: i64,
    pub strand1: char,
    pub strand2: char,
}

/// Two records are copies of one molecule: same contigs and strands, the
/// first positions within `max_mismatch` of each other and the second
/// position of `rec1` at most `max_mismatch` past that of `rec2`.
pub open spec fn duplicated(rec1: DupRecord, rec2: DupRecord, max_mismatch: int) -> bool {
    let d1 = rec1.pos1 - rec2.pos1;
    let d2 = rec1.pos2 - rec2.pos2;
    &&& rec1.name1@ == rec2.name1@
    &&& rec1.name2@ == rec2.name2@
    &&& rec1.strand1 == rec2.strand1
    &&& rec1.strand2 == rec2.strand2
    &&& (if d1 >= 0 {
        d1
    } else {
        -d1
    }) <= max_mismatch
    &&& d2 <= max_mismatch
}

/// Positions whose differences fit a signed 64-bit integer, absolute value included.
pub open spec fn positions_close(rec1: DupRecord, rec2: DupRecord) -> bool {
    i64::MIN < rec1.pos1 - rec2.pos1 <= i64::MAX && i64::MIN <= rec1.pos2 - rec2.pos2 <= i64::MAX
}

/// Whether two records are copies of one molecule.
pub fn is_duplicated_copies(rec1: &DupRecord, rec2: &DupRecord, max_mismatch: i64) -> (r: bool)
    requires
        positions_close(*rec1, *rec2),
    ensures
        r == duplicated(*rec1, *rec2, max_mismatch as int),
{
    if !(rec1.name1 == rec2.name1 && rec1.name2 == rec2.name2 && rec1.strand1 == rec2.strand1
        && rec1.strand2 == rec2.strand2) {
        return false;
    }
    let d1 = rec1.pos1 - rec2.pos1;
    let d2 = rec1.pos2 - rec2.pos2;
    let a1 = if d1 >= 0 {
        d1
    } else {
        -d1
    };
    let m = if a1 >= d2 {
        a1
    } else {
        d2
    };
    m <= max_mismatch
}

/// Marks as removed every record after the first that duplicates it, unless
/// the first is itself removed or there are fewer than two records.
pub fn update_records_wrt_first(recs: Vec<(DupRecord, bool)>) -> (r: Vec<(DupRecord, bool)>)
    requires
        forall|k: int| 0 < k < recs@.len() ==> positions_close(recs@[0].0, #[trigger] recs@[k].0),
    ensures
        r@.len() == recs@.len(),
        recs@.len() < 2 || recs@[0].1 ==> r@ == recs@,
        !(recs@.len() < 2 || recs@[0].1) ==> r@[0] == recs@[0] && forall|k: int|
            0 < k < recs@.len() ==> #[trigger] r@[k] == (recs@[k].0, recs@[k].1 || duplicated(
                recs@[0].0,
                recs@[k].0,
                3,
            )),
{
    if recs.len() < 2 {
        return recs;
    }
    if recs[0].1 {
        return recs;
    }
    let mut recs = recs;
    let ghost orig = recs@;
    let mut k: usize = 1;
    while k < recs.len()
        invariant
            recs@.len() == orig.len(),
            orig.len() >= 2,
            !orig[0].1,
            recs@[0] == orig[0],
            1 <= k <= recs@.len(),
            forall|m: int| 0 < m < orig.len() ==> positions_close(orig[0].0, #[trigger] orig[m].0),
            forall|m: int|
                0 < m < k ==> #[trigger] recs@[m] == (orig[m].0, orig[m].1 || duplicated(
                    orig[0].0,
                    orig[m].0,
                    3,
                )),
            forall|m: int| k <= m < recs@.len() ==> #[trigger] recs@[m] == orig[m],
        decreases recs@.len() - k,
    {
        if is_duplicated_copies(&recs[0].0, &recs[k].0, 3) {
            let (rec, _) = recs.remove(k);
            recs.insert(k, (rec, true));
        }
        k += 1;
    }
    recs
}

/// Settings of the search for the largest trans-contig value of each row.
#[derive(Debug, Clone, Copy, PartialEq, Eq, Structural)]
pub struct MaxInRowFinder {
    pub length_cutoff: u64,
    pub chunksize: usize,
}

impl MaxInRowFinder {
    pub fn new(length_cutoff: u64, chunksize: usize) -> (r: MaxInRowFinder)
        ensures
            r == (MaxInRowFinder { length_cutoff, chunksize }),
    {
        MaxInRowFinder { length_cutoff, chunksize }
    }
}

} // verus!
