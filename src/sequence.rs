//! Nucleotide sequences packed four bits per base, two bases per byte, in
//! the order `=ACMGRSVTWYHKDBN`.
use vstd::prelude::*;

use crate::cigar::shrink_vec;

verus! {

/// A byte that names no nucleotide.
#[derive(Debug, Clone, Copy, PartialEq, Eq, Structural)]
pub struct UnexpectedNucleotide(pub u8);

/// Code of a nucleotide symbol (either case; `=` has one form only).
pub open spec fn code_of_nt(nt: u8) -> Option<u8> {
    let up: u8 = if 97 <= nt <= 122 {
        (nt - 32) as u8
    } else {
        nt
    };
    if nt == 61 {
        Some(0u8)
    } else if up == 65 {
        Some(1u8)
    } else if up == 67 {
        Some(2u8)
    } else if up == 77 {
        Some(3u8)
    } else if up == 71 {
        Some(4u8)
    } else if up == 82 {
        Some(5u8)
    } else if up == 83 {
        Some(6u8)
    } else if up == 86 {
        Some(7u8)
    } else if up == 84 {
        Some(8u8)
    } else if up == 87 {
        Some(9u8)
    } else if up == 89 {
        Some(10u8)
    } else if up == 72 {
        Some(11u8)
    } else if up == 75 {
        Some(12u8)
    } else if up == 68 {
        Some(13u8)
    } else if up == 66 {
        Some(14u8)
    } else if up == 78 {
        Some(15u8)
    } else {
        None
    }
}

/// Symbol of each code: `=ACMGRSVTWYHKDBN`.
pub open spec fn nt_symbols() -> Seq<u8> {
    seq![61u8, 65, 67, 77, 71, 82, 83, 86, 84, 87, 89, 72, 75, 68, 66, 78]
}

/// Symbol of each code keeping only A, C, G and T, others as N.
pub open spec fn acgtn_symbols() -> Seq<u8> {
    seq![78u8, 65, 67, 78, 71, 78, 78, 78, 84, 78, 78, 78, 78, 78, 78, 78]
}

/// Bytes `A`, `C`, `G`, `T` and `N`.
pub open spec fn is_acgtn(x: u8) -> bool {
    x == 65 || x == 67 || x == 71 || x == 84 || x == 78
}

/// Symbol of the complement of each code.
pub open spec fn compl_symbols() -> Seq<u8> {
    seq![61u8, 84, 71, 75, 67, 89, 83, 66, 65, 87, 82, 68, 77, 72, 86, 78]
}

/// Symbol of the complement of each code keeping only A, C, G and T, others as N.
pub open spec fn compl_acgtn_symbols() -> Seq<u8> {
    seq![78u8, 84, 71, 78, 67, 78, 78, 78, 65, 78, 78, 78, 78, 78, 78, 78]
}

/// Converts a nucleotide symbol to its four-bit code (for example `T` to 8).
pub fn nt_to_raw(nt: u8) -> (r: Result<u8, UnexpectedNucleotide>)
    ensures
        r == match code_of_nt(nt) {
            Some(c) => Ok::<u8, UnexpectedNucleotide>(c),
            None => Err(UnexpectedNucleotide(nt)),
        },
{
    match nt {
        61 => Ok(0),
        65 | 97 => Ok(1),
        67 | 99 => Ok(2),
        77 | 109 => Ok(3),
        71 | 103 => Ok(4),
        82 | 114 => Ok(5),
        83 | 115 => Ok(6),
        86 | 118 => Ok(7),
        84 | 116 => Ok(8),
        87 | 119 => Ok(9),
        89 | 121 => Ok(10),
        72 | 104 => Ok(11),
        75 | 107 => Ok(12),
        68 | 100 => Ok(13),
        66 | 98 => Ok(14),
        78 | 110 => Ok(15),
        _ => Err(UnexpectedNucleotide(nt)),
    }
}

/// Entry `c` (`0..16`) of a 16-symbol table.
fn lookup(table: &[u8; 16], c: u8) -> (r: u8)
    requires
        c < 16,
    ensures
        r == table@[c as int],
{
    table[c as usize]
}

/// Code of base `i` in the packed bytes `raw`: high half of byte `i / 2` for
/// even `i`, low half for odd `i`.
pub open spec fn code_at(raw: Seq<u8>, i: int) -> u8 {
    if i % 2 == 0 {
        (raw[i / 2] / 16) as u8
    } else {
        (raw[i / 2] % 16) as u8
    }
}

proof fn lemma_nibbles(b: u8)
    ensures
        b >> 4u8 == b / 16,
        b & 0x0fu8 == b % 16,
        b / 16 < 16,
{
    assert(b >> 4u8 == b / 16) by (bit_vector);
    assert(b & 0x0fu8 == b % 16) by (bit_vector);
}

proof fn lemma_pack_high(c: u8)
    requires
        c < 16,
    ensures
        (c << 4u8) / 16 == c,
        (c << 4u8) % 16 == 0,
{
    assert((c << 4u8) / 16 == c && (c << 4u8) % 16 == 0) by (bit_vector)
        requires
            c < 16u8,
    ;
}

proof fn lemma_pack_low(b: u8, c: u8)
    requires
        c < 16,
        b % 16 == 0,
    ensures
        (b | c) / 16 == b / 16,
        (b | c) % 16 == c,
{
    assert((b | c) / 16 == b / 16 && (b | c) % 16 == c) by (bit_vector)
        requires
            c < 16u8,
            b % 16u8 == 0u8,
    ;
}

/// A nucleotide sequence, two bases per byte.
#[derive(Clone, Debug)]
pub struct Sequence {
    raw: Vec<u8>,
    len: usize,
}

impl View for Sequence {
    type V = Seq<u8>;

    /// The codes of the bases, in order.
    closed spec fn view(&self) -> Seq<u8> {
        Seq::new(self.len as nat, |i: int| code_at(self.raw@, i))
    }
}

impl Sequence {
    /// The packed bytes.
    pub closed spec fn packed(&self) -> Seq<u8> {
        self.raw@
    }

    /// The packing invariant: one byte per two bases, the unused low half of
    /// a last odd byte zero.
    pub closed spec fn wf(&self) -> bool {
        &&& self.raw@.len() == (self.len + 1) / 2
        &&& self.len % 2 == 1 ==> self.raw@[(self.len / 2) as int] % 16 == 0
    }

    /// Every base code is one of the sixteen codes `0..16`.
    pub proof fn lemma_codes_in_range(&self)
        ensures
            forall|i: int| 0 <= i < self@.len() ==> #[trigger] self@[i] < 16,
    {
        assert forall|i: int| 0 <= i < self@.len() implies #[trigger] self@[i] < 16 by {
            let b = self.raw@[i / 2];
            assert(b / 16 < 16 && b % 16 < 16);
        }
    }

    /// An empty sequence.
    pub fn new() -> (r: Sequence)
        ensures
            r.wf(),
            r@.len() == 0,
    {
        Sequence { raw: Vec::new(), len: 0 }
    }

    /// The sequence of the symbols in `text`.
    pub fn from_text(text: &[u8]) -> (r: Result<Sequence, UnexpectedNucleotide>)
        requires
            text@.len() < usize::MAX,
        ensures
            r is Ok <==> forall|k: int| 0 <= k < text@.len() ==> #[trigger] code_of_nt(text@[k]) is Some,
            r is Ok ==> r->Ok_0.wf() && r->Ok_0@ == text@.map_values(|nt: u8| code_of_nt(nt)->Some_0),
            r is Err ==> exists|k: int|
                0 <= k < text@.len() && r->Err_0 == UnexpectedNucleotide(text@[k])
                    && code_of_nt(text@[k]) is None && forall|m: int|
                    0 <= m < k ==> #[trigger] code_of_nt(text@[m]) is Some,
    {
        let mut seq = Sequence::new();
        match seq.extend_from_text(text) {
            Ok(()) => {
                assert(seq@ =~= text@.map_values(|nt: u8| code_of_nt(nt)->Some_0));
                Ok(seq)
            },
            Err(e) => Err(e),
        }
    }

    /// Removes every base.
    pub fn clear(&mut self)
        ensures
            final(self).wf(),
            final(self)@.len() == 0,
    {
        self.raw.clear();
        self.len = 0;
    }

    /// Releases unused capacity.
    pub fn shrink_to_fit(&mut self)
        requires
            old(self).wf(),
        ensures
            final(self).wf(),
            final(self)@ == old(self)@,
    {
        shrink_vec(&mut self.raw);
        assert(self@ =~= old(self)@);
    }

    /// Appends one base given by its symbol; an unknown symbol appends nothing.
    pub fn push(&mut self, nt: u8) -> (r: Result<(), UnexpectedNucleotide>)
        requires
            old(self).wf(),
            old(self)@.len() < usize::MAX,
        ensures
            final(self).wf(),
            r == match code_of_nt(nt) {
                Some(c) => Ok::<(), UnexpectedNucleotide>(()),
                None => Err(UnexpectedNucleotide(nt)),
            },
            r is Ok ==> final(self)@ == old(self)@.push(code_of_nt(nt)->Some_0),
            r is Err ==> final(self)@ == old(self)@,
    {
        let code = match nt_to_raw(nt) {
            Ok(c) => c,
            Err(e) => {
                return Err(e);
            },
        };
        let ghost old_raw = self.raw@;
        if self.len % 2 == 0 {
            proof {
                lemma_pack_high(code);
            }
            self.raw.push(code << 4);
        } else {
            let b = self.raw[self.len / 2];
            proof {
                lemma_pack_low(b, code);
            }
            self.raw.set(self.len / 2, b | code);
        }
        self.len += 1;
        proof {
            assert forall|i: int| 0 <= i < self.len - 1 implies code_at(self.raw@, i) == code_at(
                old_raw,
                i,
            ) by {
                if i / 2 != (self.len - 1) / 2 {
                    assert(self.raw@[i / 2] == old_raw[i / 2]);
                }
            }
            assert(self@ =~= old(self)@.push(code));
        }
        Ok(())
    }

    /// Appends the bases written in `text`; stops at the first unknown
    /// symbol, keeping the bases before it.
    pub fn extend_from_text(&mut self, text: &[u8]) -> (r: Result<(), UnexpectedNucleotide>)
        requires
            old(self).wf(),
            old(self)@.len() + text@.len() < usize::MAX,
        ensures
            final(self).wf(),
            r is Ok <==> forall|k: int| 0 <= k < text@.len() ==> #[trigger] code_of_nt(text@[k]) is Some,
            r is Ok ==> final(self)@ == old(self)@ + text@.map_values(
                |nt: u8| code_of_nt(nt)->Some_0,
            ),
            r is Err ==> exists|k: int|
                0 <= k < text@.len() && r->Err_0 == UnexpectedNucleotide(text@[k])
                    && code_of_nt(text@[k]) is None && (forall|m: int|
                    0 <= m < k ==> #[trigger] code_of_nt(text@[m]) is Some) && final(self)@ == old(
                    self,
                )@ + text@.subrange(0, k).map_values(|nt: u8| code_of_nt(nt)->Some_0),
    {
        let mut i: usize = 0;
        while i < text.len()
            invariant
                self.wf(),
                i <= text@.len(),
                old(self)@.len() + text@.len() < usize::MAX,
                forall|m: int| 0 <= m < i ==> #[trigger] code_of_nt(text@[m]) is Some,
                self@ == old(self)@ + text@.subrange(0, i as int).map_values(
                    |nt: u8| code_of_nt(nt)->Some_0,
                ),
            decreases text@.len() - i,
        {
            let ghost before = self@;
            match self.push(text[i]) {
                Ok(()) => {},
                Err(e) => {
                    return Err(e);
                },
            }
            proof {
                assert(text@.subrange(0, i + 1).map_values(|nt: u8| code_of_nt(nt)->Some_0)
                    =~= text@.subrange(0, i as int).map_values(|nt: u8| code_of_nt(nt)->Some_0).push(
                    code_of_nt(text@[i as int])->Some_0,
                ));
                assert(self@ =~= old(self)@ + text@.subrange(0, i + 1).map_values(
                    |nt: u8| code_of_nt(nt)->Some_0,
                ));
            }
            i += 1;
        }
        assert(text@.subrange(0, i as int) =~= text@);
        Ok(())
    }

    /// The packed bytes.
    pub fn raw(&self) -> (r: &[u8])
        ensures
            r@ == self.packed(),
    {
        self.raw.as_slice()
    }

    /// Number of bases.
    pub fn len(&self) -> (r: usize)
        ensures
            r == self@.len(),
    {
        self.len
    }

    /// Whether the sequence holds any base.
    pub fn available(&self) -> (r: bool)
        ensures
            r == (self@.len() > 0),
    {
        self.len > 0
    }

    /// Code of base `index`.
    fn code(&self, index: usize) -> (r: u8)
        requires
            self.wf(),
            index < self@.len(),
        ensures
            r == self@[index as int],
            r < 16,
    {
        let b = self.raw[index / 2];
        proof {
            lemma_nibbles(b);
        }
        if index % 2 == 0 {
            b >> 4
        } else {
            b & 0x0f
        }
    }

    /// Symbol of base `index` (one of `=ACMGRSVTWYHKDBN`).
    pub fn at(&self, index: usize) -> (r: u8)
        requires
            self.wf(),
            index < self@.len(),
        ensures
            self@[index as int] < 16,
            r == nt_symbols()[self@[index as int] as int],
    {
        let table: [u8; 16] = [61, 65, 67, 77, 71, 82, 83, 86, 84, 87, 89, 72, 75, 68, 66, 78];
        assert(table@ =~= nt_symbols());
        lookup(&table, self.code(index))
    }

    /// Symbol of base `index`, N for anything but A, C, G and T.
    pub fn at_acgtn_only(&self, index: usize) -> (r: u8)
        requires
            self.wf(),
            index < self@.len(),
        ensures
            self@[index as int] < 16,
            r == acgtn_symbols()[self@[index as int] as int],
    {
        let table: [u8; 16] = [78, 65, 67, 78, 71, 78, 78, 78, 84, 78, 78, 78, 78, 78, 78, 78];
        assert(table@ =~= acgtn_symbols());
        lookup(&table, self.code(index))
    }

    /// Symbol of the complement of base `index`.
    pub fn compl_at(&self, index: usize) -> (r: u8)
        requires
            self.wf(),
            index < self@.len(),
        ensures
            self@[index as int] < 16,
            r == compl_symbols()[self@[index as int] as int],
    {
        let table: [u8; 16] = [61, 84, 71, 75, 67, 89, 83, 66, 65, 87, 82, 68, 77, 72, 86, 78];
        assert(table@ =~= compl_symbols());
        lookup(&table, self.code(index))
    }

    /// Symbol of the complement of base `index`, N for anything but A, C, G and T.
    pub fn compl_at_acgtn_only(&self, index: usize) -> (r: u8)
        requires
            self.wf(),
            index < self@.len(),
        ensures
            self@[index as int] < 16,
            r == compl_acgtn_symbols()[self@[index as int] as int],
    {
        let table: [u8; 16] = [78, 84, 71, 78, 67, 78, 78, 78, 65, 78, 78, 78, 78, 78, 78, 78];
        assert(table@ =~= compl_acgtn_symbols());
        lookup(&table, self.code(index))
    }

    /// Symbols of bases `[start, end)` through `table`, read forwards or, for
    /// `reverse`, backwards from `end - 1`.
    fn render(&self, start: usize, end: usize, table: &[u8; 16], reverse: bool) -> (r: Vec<u8>)
        requires
            self.wf(),
            start <= end <= self@.len(),
        ensures
            r@.len() == end - start,
            forall|k: int|
                0 <= k < end - start ==> #[trigger] r@[k] == table@[self@[if reverse {
                    end - 1 - k
                } else {
                    start + k
                }] as int],
    {
        let mut out: Vec<u8> = Vec::new();
        let mut k: usize = 0;
        while k < end - start
            invariant
                self.wf(),
                start <= end <= self@.len(),
                k <= end - start,
                out@.len() == k,
                forall|m: int|
                    0 <= m < k ==> #[trigger] out@[m] == table@[self@[if reverse {
                        end - 1 - m
                    } else {
                        start + m
                    }] as int],
            decreases end - start - k,
        {
            let idx = if reverse {
                end - 1 - k
            } else {
                start + k
            };
            out.push(lookup(table, self.code(idx)));
            k += 1;
        }
        out
    }

    /// Symbols of all bases.
    pub fn to_vec(&self) -> (r: Vec<u8>)
        requires
            self.wf(),
        ensures
            r@ == self@.map_values(|c: u8| nt_symbols()[c as int]),
    {
        let table: [u8; 16] = [61, 65, 67, 77, 71, 82, 83, 86, 84, 87, 89, 72, 75, 68, 66, 78];
        assert(table@ =~= nt_symbols());
        let r = self.render(0, self.len, &table, false);
        assert(r@ =~= self@.map_values(|c: u8| nt_symbols()[c as int]));
        r
    }

    /// Symbols of all bases, N for anything but A, C, G and T.
    pub fn to_vec_acgtn_only(&self) -> (r: Vec<u8>)
        requires
            self.wf(),
        ensures
            forall|k: int| 0 <= k < r@.len() ==> is_acgtn(#[trigger] r@[k]),
            r@ == self@.map_values(|c: u8| acgtn_symbols()[c as int]),
    {
        let table: [u8; 16] = [78, 65, 67, 78, 71, 78, 78, 78, 84, 78, 78, 78, 78, 78, 78, 78];
        assert(table@ =~= acgtn_symbols());
        let r = self.render(0, self.len, &table, false);
        assert(r@ =~= self@.map_values(|c: u8| acgtn_symbols()[c as int]));
        proof {
            self.lemma_codes_in_range();
            assert forall|k: int| 0 <= k < r@.len() implies is_acgtn(#[trigger] r@[k]) by {}
        }
        r
    }

    /// Symbols of bases `[start, end)`.
    pub fn subseq(&self, start: usize, end: usize) -> (r: Vec<u8>)
        requires
            self.wf(),
            start <= end <= self@.len(),
        ensures
            r@ == self@.subrange(start as int, end as int).map_values(|c: u8| nt_symbols()[c as int]),
    {
        let table: [u8; 16] = [61, 65, 67, 77, 71, 82, 83, 86, 84, 87, 89, 72, 75, 68, 66, 78];
        assert(table@ =~= nt_symbols());
        let r = self.render(start, end, &table, false);
        assert(r@ =~= self@.subrange(start as int, end as int).map_values(
            |c: u8| nt_symbols()[c as int],
        ));
        r
    }

    /// Symbols of bases `[start, end)`, N for anything but A, C, G and T.
    pub fn subseq_acgtn_only(&self, start: usize, end: usize) -> (r: Vec<u8>)
        requires
            self.wf(),
            start <= end <= self@.len(),
        ensures
            forall|k: int| 0 <= k < r@.len() ==> is_acgtn(#[trigger] r@[k]),
            r@ == self@.subrange(start as int, end as int).map_values(
                |c: u8| acgtn_symbols()[c as int],
            ),
    {
        let table: [u8; 16] = [78, 65, 67, 78, 71, 78, 78, 78, 84, 78, 78, 78, 78, 78, 78, 78];
        assert(table@ =~= acgtn_symbols());
        let r = self.render(start, end, &table, false);
        assert(r@ =~= self@.subrange(start as int, end as int).map_values(
            |c: u8| acgtn_symbols()[c as int],
        ));
        proof {
            self.lemma_codes_in_range();
            assert forall|k: int| 0 <= k < r@.len() implies is_acgtn(#[trigger] r@[k]) by {}
        }
        r
    }

    /// Reverse complement of bases `[start, end)`.
    pub fn rev_compl(&self, start: usize, end: usize) -> (r: Vec<u8>)
        requires
            self.wf(),
            start <= end <= self@.len(),
        ensures
            r@ == self@.subrange(start as int, end as int).reverse().map_values(
                |c: u8| compl_symbols()[c as int],
            ),
    {
        let table: [u8; 16] = [61, 84, 71, 75, 67, 89, 83, 66, 65, 87, 82, 68, 77, 72, 86, 78];
        assert(table@ =~= compl_symbols());
        let r = self.render(start, end, &table, true);
        assert(r@ =~= self@.subrange(start as int, end as int).reverse().map_values(
            |c: u8| compl_symbols()[c as int],
        ));
        r
    }

    /// Reverse complement of bases `[start, end)`, N for anything but A, C, G and T.
    pub fn rev_compl_acgtn_only(&self, start: usize, end: usize) -> (r: Vec<u8>)
        requires
            self.wf(),
            start <= end <= self@.len(),
        ensures
            forall|k: int| 0 <= k < r@.len() ==> is_acgtn(#[trigger] r@[k]),
            r@ == self@.subrange(start as int, end as int).reverse().map_values(
                |c: u8| compl_acgtn_symbols()[c as int],
            ),
    {
        let table: [u8; 16] = [78, 84, 71, 78, 67, 78, 78, 78, 65, 78, 78, 78, 78, 78, 78, 78];
        assert(table@ =~= compl_acgtn_symbols());
        let r = self.render(start, end, &table, true);
        assert(r@ =~= self@.subrange(start as int, end as int).reverse().map_values(
            |c: u8| compl_acgtn_symbols()[c as int],
        ));
        proof {
            self.lemma_codes_in_range();
            assert forall|k: int| 0 <= k < r@.len() implies is_acgtn(#[trigger] r@[k]) by {}
        }
        r
    }

    /// Human readable text: the symbols of all bases, or `*` when empty.
    pub fn write_readable(&self) -> (r: Vec<u8>)
        requires
            self.wf(),
        ensures
            self@.len() == 0 ==> r@ == seq![42u8],
            self@.len() > 0 ==> r@ == self@.map_values(|c: u8| nt_symbols()[c as int]),
    {
        if self.len == 0 {
            let mut r: Vec<u8> = Vec::new();
            r.push(42);
            assert(r@ =~= seq![42u8]);
            r
        } else {
            self.to_vec()
        }
    }
}

} // verus!
