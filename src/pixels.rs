//! Aggregation of contact counts into a pixel list ordered by `(bin1, bin2)`.
use vstd::prelude::*;

use crate::selector::PixelT;

verus! {

/// Cell of `a` comes strictly before cell of `b` in `(bin1, bin2)` order.
pub open spec fn key_lt(a: PixelT, b: PixelT) -> bool {
    a.0 < b.0 || (a.0 == b.0 && a.1 < b.1)
}

/// Pixels strictly ordered by `(bin1, bin2)`: sorted, no cell twice.
pub open spec fn strictly_sorted(s: Seq<PixelT>) -> bool {
    forall|p: int, q: int| 0 <= p < q < s.len() ==> key_lt(#[trigger] s[p], #[trigger] s[q])
}

/// Sum of `w` over the pixels of `s`.
pub open spec fn sum_by(s: Seq<PixelT>, w: spec_fn(PixelT) -> int) -> int
    decreases s.len(),
{
    if s.len() == 0 {
        0
    } else {
        sum_by(s.drop_last(), w) + w(s.last())
    }
}

/// Total count of the pixels of `s`.
pub open spec fn total_count(s: Seq<PixelT>) -> int {
    sum_by(s, |x: PixelT| x.2 as int)
}

/// Weight that keeps the count of cell `(a, b)` only.
pub open spec fn cell_weight(a: u32, b: u32) -> spec_fn(PixelT) -> int {
    |x: PixelT|
        if x.0 == a && x.1 == b {
            x.2 as int
        } else {
            0int
        }
}

/// Total count that `s` holds at cell `(a, b)`.
pub open spec fn count_at(s: Seq<PixelT>, a: u32, b: u32) -> int {
    sum_by(s, cell_weight(a, b))
}

/// `s` has an entry at cell `(a, b)`.
pub open spec fn has_cell(s: Seq<PixelT>, a: u32, b: u32) -> bool {
    exists|p: int| 0 <= p < s.len() && (#[trigger] s[p]).0 == a && s[p].1 == b
}

/// Every pixel of `s` has a nonzero count.
pub open spec fn all_positive(s: Seq<PixelT>) -> bool {
    forall|p: int| 0 <= p < s.len() ==> (#[trigger] s[p]).2 > 0
}

/// Sum of a sequence of counts.
pub open spec fn sum_u32(s: Seq<u32>) -> int
    decreases s.len(),
{
    if s.len() == 0 {
        0
    } else {
        sum_u32(s.drop_last()) + s.last() as int
    }
}

/// Sums over a concatenation add up.
pub proof fn lemma_sum_by_concat(a: Seq<PixelT>, b: Seq<PixelT>, w: spec_fn(PixelT) -> int)
    ensures
        sum_by(a + b, w) == sum_by(a, w) + sum_by(b, w),
    decreases b.len(),
{
    if b.len() > 0 {
        lemma_sum_by_concat(a, b.drop_last(), w);
        assert((a + b).drop_last() =~= a + b.drop_last());
    }
}

proof fn lemma_sum_by_single(x: PixelT, w: spec_fn(PixelT) -> int)
    ensures
        sum_by(seq![x], w) == w(x),
{
    assert(seq![x].drop_last() =~= Seq::<PixelT>::empty());
    assert(sum_by(Seq::<PixelT>::empty(), w) == 0);
    assert(seq![x].last() == x);
}

/// Inserting one pixel adds its weight.
pub proof fn lemma_sum_by_insert(s: Seq<PixelT>, i: int, x: PixelT, w: spec_fn(PixelT) -> int)
    requires
        0 <= i <= s.len(),
    ensures
        sum_by(s.insert(i, x), w) == sum_by(s, w) + w(x),
{
    let a = s.subrange(0, i);
    let b = s.subrange(i, s.len() as int);
    assert(s =~= a + b);
    assert(s.insert(i, x) =~= a + seq![x] + b);
    lemma_sum_by_concat(a, b, w);
    lemma_sum_by_concat(a + seq![x], b, w);
    lemma_sum_by_concat(a, seq![x], w);
    lemma_sum_by_single(x, w);
}

/// Replacing one pixel swaps its weight.
pub proof fn lemma_sum_by_update(s: Seq<PixelT>, i: int, y: PixelT, w: spec_fn(PixelT) -> int)
    requires
        0 <= i < s.len(),
    ensures
        sum_by(s.update(i, y), w) == sum_by(s, w) - w(s[i]) + w(y),
{
    let a = s.subrange(0, i);
    let b = s.subrange(i + 1, s.len() as int);
    assert(s =~= a + seq![s[i]] + b);
    assert(s.update(i, y) =~= a + seq![y] + b);
    lemma_sum_by_concat(a + seq![s[i]], b, w);
    lemma_sum_by_concat(a, seq![s[i]], w);
    lemma_sum_by_concat(a + seq![y], b, w);
    lemma_sum_by_concat(a, seq![y], w);
    lemma_sum_by_single(s[i], w);
    lemma_sum_by_single(y, w);
}

/// Whether the cell of `a` comes strictly before the cell of `b`.
pub fn cell_before(a: &PixelT, b: &PixelT) -> (r: bool)
    ensures
        r == key_lt(*a, *b),
{
    a.0 < b.0 || (a.0 == b.0 && a.1 < b.1)
}

/// Counts accumulated per cell `(bin1, bin2)`, kept as a pixel list strictly
/// ordered by cell.
#[derive(Debug)]
pub struct PixelCounter {
    pixels: Vec<PixelT>,
}

impl View for PixelCounter {
    type V = Seq<PixelT>;

    closed spec fn view(&self) -> Seq<PixelT> {
        self.pixels@
    }
}

impl PixelCounter {
    /// The counter's invariant: its pixels are strictly ordered by cell.
    pub open spec fn wf(&self) -> bool {
        strictly_sorted(self@)
    }

    /// An empty counter.
    pub fn new() -> (r: PixelCounter)
        ensures
            r.wf(),
            r@.len() == 0,
            total_count(r@) == 0,
    {
        PixelCounter { pixels: Vec::new() }
    }

    /// Number of distinct cells counted so far.
    pub fn len(&self) -> (r: usize)
        ensures
            r == self@.len(),
    {
        self.pixels.len()
    }

    /// Adds `count` contacts to cell `(b1, b2)`, creating the cell if needed;
    /// returns `false`, changing nothing, when the cell's count would
    /// overflow.
    pub fn add(&mut self, b1: u32, b2: u32, count: u32) -> (ok: bool)
        requires
            old(self).wf(),
        ensures
            final(self).wf(),
            ok == (count_at(old(self)@, b1, b2) + count <= u32::MAX),
            !ok ==> final(self)@ == old(self)@,
            ok ==> total_count(final(self)@) == total_count(old(self)@) + count,
            ok ==> forall|a: u32, b: u32|
                #[trigger] count_at(final(self)@, a, b) == count_at(old(self)@, a, b) + if a == b1
                    && b == b2 {
                    count as int
                } else {
                    0int
                },
            ok ==> forall|a: u32, b: u32|
                #[trigger] has_cell(final(self)@, a, b) == (has_cell(old(self)@, a, b) || (a == b1
                    && b == b2)),
            all_positive(old(self)@) && count > 0 ==> all_positive(final(self)@),
    {
        let ghost s = self.pixels@;
        let x: PixelT = (b1, b2, count);
        let mut i = self.pixels.len();
        while i > 0 && cell_before(&x, &self.pixels[i - 1])
            invariant
                self.pixels@ == s,
                i <= s.len(),
                forall|q: int| i <= q < s.len() ==> key_lt(x, #[trigger] s[q]),
            decreases i,
        {
            proof {
                assert(key_lt(x, s[i - 1]));
            }
            i -= 1;
        }
        if i > 0 && self.pixels[i - 1].0 == b1 && self.pixels[i - 1].1 == b2 {
            let old_entry = self.pixels[i - 1];
            proof {
                lemma_count_at_entry(s, i - 1);
            }
            if old_entry.2 > u32::MAX - count {
                return false;
            }
            let y: PixelT = (b1, b2, old_entry.2 + count);
            self.pixels.set(i - 1, y);
            proof {
                let j = i - 1;
                assert(self.pixels@ == s.update(j, y));
                if all_positive(s) && count > 0 {
                    assert forall|p: int| 0 <= p < self.pixels@.len() implies (#[trigger] self.pixels@[p]).2 > 0 by {
                        if p != j {
                            assert(self.pixels@[p] == s[p]);
                        }
                    }
                }
                lemma_sum_by_update(s, j, y, |x: PixelT| x.2 as int);
                assert forall|a: u32, b: u32|
                    #[trigger] count_at(self.pixels@, a, b) == count_at(s, a, b) + if a == b1 && b
                        == b2 {
                        count as int
                    } else {
                        0int
                    } by {
                    lemma_sum_by_update(s, j, y, cell_weight(a, b));
                }
                assert forall|a: u32, b: u32|
                    #[trigger] has_cell(self.pixels@, a, b) == (has_cell(s, a, b) || (a == b1 && b
                        == b2)) by {
                    if has_cell(s, a, b) {
                        let p = choose|p: int| 0 <= p < s.len() && (#[trigger] s[p]).0 == a && s[p].1 == b;
                        assert(self.pixels@[p].0 == a && self.pixels@[p].1 == b);
                    }
                    if has_cell(self.pixels@, a, b) {
                        let p = choose|p: int|
                            0 <= p < self.pixels@.len() && (#[trigger] self.pixels@[p]).0 == a
                                && self.pixels@[p].1 == b;
                        assert(s[p].0 == a && s[p].1 == b);
                    }
                    if a == b1 && b == b2 {
                        assert(self.pixels@[j].0 == a && self.pixels@[j].1 == b);
                    }
                }
                assert forall|p: int, q: int|
                    0 <= p < q < self.pixels@.len() implies key_lt(
                    #[trigger] self.pixels@[p],
                    #[trigger] self.pixels@[q],
                ) by {
                    assert(key_lt(s[p], s[q]));
                }
            }
        } else {
            proof {
                assert(!has_cell(s, b1, b2)) by {
                    if has_cell(s, b1, b2) {
                        let q = choose|q: int| 0 <= q < s.len() && (#[trigger] s[q]).0 == b1 && s[q].1 == b2;
                        if q < i - 1 {
                            assert(key_lt(s[q], s[i - 1]));
                        }
                    }
                }
                lemma_count_at_absent(s, b1, b2);
            }
            self.pixels.insert(i, x);
            proof {
                assert(self.pixels@ == s.insert(i as int, x));
                if all_positive(s) && count > 0 {
                    assert forall|p: int| 0 <= p < self.pixels@.len() implies (#[trigger] self.pixels@[p]).2 > 0 by {
                        if p < i {
                            assert(self.pixels@[p] == s[p]);
                        } else if p > i {
                            assert(self.pixels@[p] == s[p - 1]);
                        }
                    }
                }
                lemma_sum_by_insert(s, i as int, x, |x: PixelT| x.2 as int);
                assert forall|a: u32, b: u32|
                    #[trigger] count_at(self.pixels@, a, b) == count_at(s, a, b) + if a == b1 && b
                        == b2 {
                        count as int
                    } else {
                        0int
                    } by {
                    lemma_sum_by_insert(s, i as int, x, cell_weight(a, b));
                }
                assert forall|a: u32, b: u32|
                    #[trigger] has_cell(self.pixels@, a, b) == (has_cell(s, a, b) || (a == b1 && b
                        == b2)) by {
                    let t = self.pixels@;
                    if has_cell(s, a, b) {
                        let p = choose|p: int| 0 <= p < s.len() && (#[trigger] s[p]).0 == a && s[p].1 == b;
                        if p < i {
                            assert(t[p] == s[p]);
                        } else {
                            assert(t[p + 1] == s[p]);
                        }
                    }
                    if has_cell(t, a, b) {
                        let p = choose|p: int| 0 <= p < t.len() && (#[trigger] t[p]).0 == a && t[p].1 == b;
                        if p < i {
                            assert(t[p] == s[p]);
                        } else if p > i {
                            assert(t[p] == s[p - 1]);
                        }
                    }
                    if a == b1 && b == b2 {
                        assert(t[i as int] == x);
                    }
                }
                assert forall|p: int, q: int|
                    0 <= p < q < self.pixels@.len() implies key_lt(
                    #[trigger] self.pixels@[p],
                    #[trigger] self.pixels@[q],
                ) by {
                    let t = self.pixels@;
                    if i > 0 {
                        assert(!key_lt(x, s[i - 1]));
                        assert(s[i - 1].0 != b1 || s[i - 1].1 != b2);
                    }
                    if q < i {
                        assert(key_lt(s[p], s[q]));
                    } else if q == i {
                        if p < i - 1 {
                            assert(key_lt(s[p], s[i - 1]));
                        }
                    } else if p < i {
                        assert(t[q] == s[q - 1]);
                        assert(key_lt(x, s[q - 1]));
                        if p < i - 1 {
                            assert(key_lt(s[p], s[i - 1]));
                        }
                    } else if p == i {
                        assert(t[q] == s[q - 1]);
                    } else {
                        assert(key_lt(s[p - 1], s[q - 1]));
                    }
                }
            }
        }
        true
    }

    /// The counted pixels, strictly ordered by cell.
    pub fn into_pixels(self) -> (r: Vec<PixelT>)
        ensures
            r@ == self@,
    {
        self.pixels
    }

    /// The counted pixels so far, strictly ordered by cell.
    pub fn pixels(&self) -> (r: &Vec<PixelT>)
        ensures
            r@ == self@,
    {
        &self.pixels
    }
}

/// A cell that no pixel holds has count zero.
pub proof fn lemma_count_at_absent(s: Seq<PixelT>, a: u32, b: u32)
    requires
        !has_cell(s, a, b),
    ensures
        count_at(s, a, b) == 0,
    decreases s.len(),
{
    if s.len() > 0 {
        let d = s.drop_last();
        assert(!has_cell(d, a, b)) by {
            if has_cell(d, a, b) {
                let p = choose|p: int| 0 <= p < d.len() && (#[trigger] d[p]).0 == a && d[p].1 == b;
                assert(s[p] == d[p]);
            }
        }
        lemma_count_at_absent(d, a, b);
        assert(!(s.last().0 == a && s.last().1 == b)) by {
            if s.last().0 == a && s.last().1 == b {
                assert(s[s.len() - 1].0 == a);
            }
        }
    }
}

/// In a pixel list strictly ordered by cell, the count at a pixel's cell is
/// that pixel's count.
pub proof fn lemma_count_at_entry(s: Seq<PixelT>, p: int)
    requires
        strictly_sorted(s),
        0 <= p < s.len(),
    ensures
        count_at(s, s[p].0, s[p].1) == s[p].2,
    decreases s.len(),
{
    let d = s.drop_last();
    let n = s.len() - 1;
    let (a, b) = (s[p].0, s[p].1);
    assert(strictly_sorted(d)) by {
        assert forall|i: int, j: int| 0 <= i < j < d.len() implies key_lt(#[trigger] d[i], #[trigger] d[j]) by {
            assert(d[i] == s[i] && d[j] == s[j]);
        }
    }
    if p == n {
        assert(!has_cell(d, a, b)) by {
            if has_cell(d, a, b) {
                let q = choose|q: int| 0 <= q < d.len() && (#[trigger] d[q]).0 == a && d[q].1 == b;
                assert(d[q] == s[q]);
                assert(key_lt(s[q], s[n]));
            }
        }
        lemma_count_at_absent(d, a, b);
    } else {
        assert(d[p] == s[p]);
        lemma_count_at_entry(d, p);
        assert(key_lt(s[p], s[n]));
    }
}

/// In a pixel list strictly ordered by cell, every cell's count fits a `u32`.
pub proof fn lemma_count_at_bounded(s: Seq<PixelT>, a: u32, b: u32)
    requires
        strictly_sorted(s),
    ensures
        0 <= count_at(s, a, b) <= u32::MAX,
{
    if has_cell(s, a, b) {
        let p = choose|p: int| 0 <= p < s.len() && (#[trigger] s[p]).0 == a && s[p].1 == b;
        lemma_count_at_entry(s, p);
    } else {
        lemma_count_at_absent(s, a, b);
    }
}

} // verus!
