//! The integer stages of balancing: masking the near-diagonal band, per-bin
//! marginal sums, and the coverage filter. The iterative correction itself
//! works on floating-point weights and runs outside this library.
use vstd::prelude::*;
use vstd::string::StringSliceAdditionalSpecFns;

verus! {

/// Balancing strategy of a resolution.
#[derive(Debug, Clone, Copy, PartialEq, Eq, Structural)]
pub enum Strategy {
    /// Iterative correction over the whole genome.
    ICGenomeWide,
    /// One weight per bin, the inverse of the bin width.
    BinLength,
    /// No balancing.
    Unbalanced,
}

/// Whether the bytes of `s` are exactly `word`.
fn bytes_equal(s: &[u8], word: &[u8]) -> (r: bool)
    ensures
        r == (s@ == word@),
{
    if s.len() != word.len() {
        return false;
    }
    let mut i: usize = 0;
    while i < s.len()
        invariant
            s@.len() == word@.len(),
            i <= s@.len(),
            forall|k: int| 0 <= k < i ==> s@[k] == word@[k],
        decreases s@.len() - i,
    {
        if s[i] != word[i] {
            return false;
        }
        i += 1;
    }
    assert(s@ =~= word@);
    true
}

/// The bytes of `ICGW`.
pub open spec fn icgw() -> Seq<u8> {
    seq![73u8, 67, 71, 87]
}

/// The bytes of `LEN`.
pub open spec fn len_word() -> Seq<u8> {
    seq![76u8, 69, 78]
}

impl Strategy {
    /// `ICGW` is genome-wide iterative correction, `LEN` is bin length,
    /// anything else is none.
    pub fn from_string(s: &str) -> (r: Strategy)
        ensures
            r == (if s.spec_bytes() == icgw() {
                Strategy::ICGenomeWide
            } else if s.spec_bytes() == len_word() {
                Strategy::BinLength
            } else {
                Strategy::Unbalanced
            }),
    {
        let b = s.as_bytes();
        let icgw_bytes: [u8; 4] = [73, 67, 71, 87];
        let len_bytes: [u8; 3] = [76, 69, 78];
        assert(icgw_bytes@ =~= icgw());
        assert(len_bytes@ =~= len_word());
        if bytes_equal(b, icgw_bytes.as_slice()) {
            Strategy::ICGenomeWide
        } else if bytes_equal(b, len_bytes.as_slice()) {
            Strategy::BinLength
        } else {
            Strategy::Unbalanced
        }
    }

    /// As `from_string`, with no text meaning none.
    pub fn from_option(s: Option<&str>) -> (r: Strategy)
        ensures
            r == match s {
                Some(t) => if t.spec_bytes() == icgw() {
                    Strategy::ICGenomeWide
                } else if t.spec_bytes() == len_word() {
                    Strategy::BinLength
                } else {
                    Strategy::Unbalanced
                },
                None => Strategy::Unbalanced,
            },
    {
        match s {
            Some(strategy) => Strategy::from_string(strategy),
            None => Strategy::Unbalanced,
        }
    }
}

/// Distance of a pixel from the diagonal.
pub open spec fn diag_distance(b1: u32, b2: u32) -> int {
    if b1 > b2 {
        b1 - b2
    } else {
        b2 - b1
    }
}

/// Counts with every pixel closer than `ignore_diags` to the diagonal set to zero.
pub fn zeroing_diags(bins1: &Vec<u32>, bins2: &Vec<u32>, counts: &Vec<u32>, ignore_diags: u32) -> (r:
    Vec<u32>)
    requires
        bins1@.len() == counts@.len() && bins2@.len() == counts@.len(),
    ensures
        r@.len() == counts@.len(),
        forall|k: int|
            0 <= k < counts@.len() ==> #[trigger] r@[k] == if diag_distance(bins1@[k], bins2@[k])
                < ignore_diags {
                0u32
            } else {
                counts@[k]
            },
{
    let mut out: Vec<u32> = Vec::new();
    let mut k: usize = 0;
    while k < counts.len()
        invariant
            bins1@.len() == counts@.len() && bins2@.len() == counts@.len(),
            k <= counts@.len(),
            out@.len() == k,
            forall|m: int|
                0 <= m < k ==> #[trigger] out@[m] == if diag_distance(bins1@[m], bins2@[m])
                    < ignore_diags {
                    0u32
                } else {
                    counts@[m]
                },
        decreases counts@.len() - k,
    {
        let (b1, b2) = (bins1[k], bins2[k]);
        let diff = if b1 > b2 {
            b1 - b2
        } else {
            b2 - b1
        };
        out.push(if diff < ignore_diags {
            0
        } else {
            counts[k]
        });
        k += 1;
    }
    out
}

/// Each count replaced by 1 if nonzero.
pub fn binarize(data: &Vec<u32>) -> (r: Vec<u32>)
    ensures
        r@.len() == data@.len(),
        forall|k: int| 0 <= k < data@.len() ==> #[trigger] r@[k] == if data@[k] != 0 {
            1u32
        } else {
            0u32
        },
{
    let mut out: Vec<u32> = Vec::new();
    let mut k: usize = 0;
    while k < data.len()
        invariant
            k <= data@.len(),
            out@.len() == k,
            forall|m: int| 0 <= m < k ==> #[trigger] out@[m] == if data@[m] != 0 {
                1u32
            } else {
                0u32
            },
        decreases data@.len() - k,
    {
        out.push(if data[k] != 0 {
            1
        } else {
            0
        });
        k += 1;
    }
    out
}

/// Sum of the weights of the first `n` pixels that touch bin `b`, a pixel
/// counting once for each of its two ends in `b`.
pub open spec fn marginal(bins1: Seq<u32>, bins2: Seq<u32>, data: Seq<u32>, n: int, b: int) -> int
    decreases n,
{
    if n <= 0 {
        0
    } else {
        marginal(bins1, bins2, data, n - 1, b) + (if bins1[n - 1] == b {
            data[n - 1] as int
        } else {
            0int
        }) + (if bins2[n - 1] == b {
            data[n - 1] as int
        } else {
            0int
        })
    }
}

/// Sum of all weights of the first `n` pixels.
pub open spec fn data_total(data: Seq<u32>, n: int) -> int
    decreases n,
{
    if n <= 0 {
        0
    } else {
        data_total(data, n - 1) + data[n - 1] as int
    }
}

proof fn lemma_marginal_bounded(bins1: Seq<u32>, bins2: Seq<u32>, data: Seq<u32>, n: int, b: int)
    requires
        0 <= n <= data.len(),
    ensures
        0 <= marginal(bins1, bins2, data, n, b) <= 2 * data_total(data, n),
    decreases n,
{
    if n > 0 {
        lemma_marginal_bounded(bins1, bins2, data, n - 1, b);
    }
}

/// Marginal sums of a pixel chunk over `n_bins` bins: entry `b` adds the
/// weight of every pixel with an end in bin `b` (twice for a diagonal pixel).
pub fn marginalize(n_bins: usize, bins1: &Vec<u32>, bins2: &Vec<u32>, data: &Vec<u32>) -> (r: Vec<
    u64,
>)
    requires
        bins1@.len() == data@.len() && bins2@.len() == data@.len(),
        data@.len() <= 0x7fff_ffff,
        forall|k: int| 0 <= k < data@.len() ==> #[trigger] bins1@[k] < n_bins && bins2@[k] < n_bins,
    ensures
        r@.len() == n_bins,
        forall|b: int| 0 <= b < n_bins ==> #[trigger] r@[b] == marginal(bins1@, bins2@, data@, data@.len() as int, b),
{
    let mut m: Vec<u64> = Vec::new();
    let mut b: usize = 0;
    while b < n_bins
        invariant
            b <= n_bins,
            m@.len() == b,
            forall|c: int| 0 <= c < b ==> #[trigger] m@[c] == 0,
        decreases n_bins - b,
    {
        m.push(0);
        b += 1;
    }
    let mut k: usize = 0;
    while k < data.len()
        invariant
            bins1@.len() == data@.len() && bins2@.len() == data@.len(),
            data@.len() <= 0x7fff_ffff,
            forall|j: int| 0 <= j < data@.len() ==> #[trigger] bins1@[j] < n_bins && bins2@[j] < n_bins,
            k <= data@.len(),
            m@.len() == n_bins,
            forall|c: int| 0 <= c < n_bins ==> #[trigger] m@[c] == marginal(bins1@, bins2@, data@, k as int, c),
            data_total(data@, k as int) <= k * u32::MAX,
        decreases data@.len() - k,
    {
        let (b1, b2, v) = (bins1[k] as usize, bins2[k] as usize, data[k]);
        proof {
            lemma_marginal_bounded(bins1@, bins2@, data@, k as int, b1 as int);
            lemma_marginal_bounded(bins1@, bins2@, data@, k as int, b2 as int);
            assert(2 * (k * u32::MAX) + 2 * u32::MAX <= u64::MAX) by (nonlinear_arith)
                requires
                    k < 0x7fff_ffff,
            ;
        }
        let ghost before = m@;
        let x = m[b1];
        m.set(b1, x + v as u64);
        let y = m[b2];
        proof {
            assert(y <= 2 * (k * u32::MAX) + u32::MAX);
        }
        m.set(b2, y + v as u64);
        proof {
            assert forall|c: int| 0 <= c < n_bins implies #[trigger] m@[c] == marginal(
                bins1@,
                bins2@,
                data@,
                k + 1,
                c,
            ) by {
                assert(before[c] == marginal(bins1@, bins2@, data@, k as int, c));
            }
            assert(data_total(data@, k + 1) <= (k + 1) * u32::MAX) by (nonlinear_arith)
                requires
                    data_total(data@, k + 1) == data_total(data@, k as int) + data@[k as int],
                    data_total(data@, k as int) <= k * u32::MAX,
                    data@[k as int] <= u32::MAX,
            ;
        }
        k += 1;
    }
    m
}

/// Bins whose count of nonzero off-band contacts is below `min_nnz`: they
/// are left out of balancing.
pub fn few_nnz_bins(nnz_marginals: &Vec<u64>, min_nnz: u32) -> (r: Vec<bool>)
    ensures
        r@.len() == nnz_marginals@.len(),
        forall|b: int| 0 <= b < r@.len() ==> #[trigger] r@[b] == (nnz_marginals@[b] < min_nnz),
{
    let mut out: Vec<bool> = Vec::new();
    let mut b: usize = 0;
    while b < nnz_marginals.len()
        invariant
            b <= nnz_marginals@.len(),
            out@.len() == b,
            forall|c: int| 0 <= c < b ==> #[trigger] out@[c] == (nnz_marginals@[c] < min_nnz),
        decreases nnz_marginals@.len() - b,
    {
        out.push(nnz_marginals[b] < min_nnz as u64);
        b += 1;
    }
    out
}

} // verus!
