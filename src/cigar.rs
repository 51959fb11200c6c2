//! CIGAR strings in their packed form: each `u32` holds `length * 16 + code`,
//! with operation codes `0..=8` standing for `MIDNSHP=X`.
use vstd::prelude::*;

verus! {

/// Why a CIGAR could not be read.
#[derive(Debug, Clone, Copy, PartialEq, Eq, Structural)]
pub enum CigarError {
    /// A byte that names no operation.
    UnexpectedOperation(u8),
    /// An operation with length zero.
    ZeroLength,
    /// A length that does not fit the 28 bits of the packed form.
    LengthOverflow,
}

/// Operation classes: Match (M, = and X), Insertion (I and S), Deletion (D
/// and N) and Hard clipping (H and P).
#[derive(Debug, Clone, Copy, PartialEq, Eq, Structural)]
pub enum Class {
    Match,
    Insertion,
    Deletion,
    Hard,
}

/// A CIGAR operation.
#[derive(Debug, Clone, Copy, PartialEq, Eq, Structural)]
pub enum Operation {
    AlnMatch,
    Insertion,
    Deletion,
    Skip,
    Soft,
    Hard,
    Padding,
    SeqMatch,
    SeqMismatch,
}

/// Largest operation length of the packed form (28 bits).
pub const MAX_OP_LEN: u32 = 0x0fff_ffff;

/// Operation of code `c` (`0..=8`).
pub open spec fn op_of_code(c: int) -> Operation {
    if c == 0 {
        Operation::AlnMatch
    } else if c == 1 {
        Operation::Insertion
    } else if c == 2 {
        Operation::Deletion
    } else if c == 3 {
        Operation::Skip
    } else if c == 4 {
        Operation::Soft
    } else if c == 5 {
        Operation::Hard
    } else if c == 6 {
        Operation::Padding
    } else if c == 7 {
        Operation::SeqMatch
    } else {
        Operation::SeqMismatch
    }
}

/// Operation named by a text symbol, if any.
pub open spec fn op_of_symbol(s: u8) -> Option<Operation> {
    if s == 77 {
        Some(Operation::AlnMatch)
    } else if s == 73 {
        Some(Operation::Insertion)
    } else if s == 68 {
        Some(Operation::Deletion)
    } else if s == 78 {
        Some(Operation::Skip)
    } else if s == 83 {
        Some(Operation::Soft)
    } else if s == 72 {
        Some(Operation::Hard)
    } else if s == 80 {
        Some(Operation::Padding)
    } else if s == 61 {
        Some(Operation::SeqMatch)
    } else if s == 88 {
        Some(Operation::SeqMismatch)
    } else {
        None
    }
}

impl Operation {
    /// Code of the operation in the packed form.
    pub open spec fn code(self) -> u32 {
        match self {
            Operation::AlnMatch => 0,
            Operation::Insertion => 1,
            Operation::Deletion => 2,
            Operation::Skip => 3,
            Operation::Soft => 4,
            Operation::Hard => 5,
            Operation::Padding => 6,
            Operation::SeqMatch => 7,
            Operation::SeqMismatch => 8,
        }
    }

    /// Text symbol of the operation (`M`, `I`, `D`, `N`, `S`, `H`, `P`, `=`, `X`).
    pub open spec fn symbol(self) -> u8 {
        match self {
            Operation::AlnMatch => 77,
            Operation::Insertion => 73,
            Operation::Deletion => 68,
            Operation::Skip => 78,
            Operation::Soft => 83,
            Operation::Hard => 72,
            Operation::Padding => 80,
            Operation::SeqMatch => 61,
            Operation::SeqMismatch => 88,
        }
    }

    /// Class of the operation.
    pub open spec fn spec_class(self) -> Class {
        match self {
            Operation::AlnMatch | Operation::SeqMatch | Operation::SeqMismatch => Class::Match,
            Operation::Insertion | Operation::Soft => Class::Insertion,
            Operation::Deletion | Operation::Skip => Class::Deletion,
            Operation::Hard | Operation::Padding => Class::Hard,
        }
    }

    /// The operation advances along the read.
    pub open spec fn spec_consumes_query(self) -> bool {
        self.spec_class() == Class::Match || self.spec_class() == Class::Insertion
    }

    /// The operation advances along the reference.
    pub open spec fn spec_consumes_ref(self) -> bool {
        self.spec_class() == Class::Match || self.spec_class() == Class::Deletion
    }

    /// Codes and symbols name operations one to one.
    pub proof fn lemma_code_round_trip(self)
        ensures
            op_of_code(self.code() as int) == self,
            self.code() <= 8,
            op_of_symbol(self.symbol()) == Some(self),
    {
    }

    /// The operation named by `symbol` (for example `M`).
    pub fn from_symbol(symbol: u8) -> (r: Result<Operation, CigarError>)
        ensures
            r == match op_of_symbol(symbol) {
                Some(op) => Ok::<Operation, CigarError>(op),
                None => Err(CigarError::UnexpectedOperation(symbol)),
            },
    {
        match symbol {
            77 => Ok(Operation::AlnMatch),
            73 => Ok(Operation::Insertion),
            68 => Ok(Operation::Deletion),
            78 => Ok(Operation::Skip),
            83 => Ok(Operation::Soft),
            72 => Ok(Operation::Hard),
            80 => Ok(Operation::Padding),
            61 => Ok(Operation::SeqMatch),
            88 => Ok(Operation::SeqMismatch),
            _ => Err(CigarError::UnexpectedOperation(symbol)),
        }
    }

    /// The operation of code `code` (`0..=8`).
    pub fn from_code(code: u32) -> (r: Operation)
        requires
            code <= 8,
        ensures
            r == op_of_code(code as int),
            r.code() == code,
    {
        match code {
            0 => Operation::AlnMatch,
            1 => Operation::Insertion,
            2 => Operation::Deletion,
            3 => Operation::Skip,
            4 => Operation::Soft,
            5 => Operation::Hard,
            6 => Operation::Padding,
            7 => Operation::SeqMatch,
            _ => Operation::SeqMismatch,
        }
    }

    /// Code of the operation in the packed form.
    pub fn to_code(self) -> (r: u32)
        ensures
            r == self.code(),
    {
        match self {
            Operation::AlnMatch => 0,
            Operation::Insertion => 1,
            Operation::Deletion => 2,
            Operation::Skip => 3,
            Operation::Soft => 4,
            Operation::Hard => 5,
            Operation::Padding => 6,
            Operation::SeqMatch => 7,
            Operation::SeqMismatch => 8,
        }
    }

    /// Text symbol of the operation (for example `M`).
    pub fn to_byte(self) -> (r: u8)
        ensures
            r == self.symbol(),
    {
        match self {
            Operation::AlnMatch => 77,
            Operation::Insertion => 73,
            Operation::Deletion => 68,
            Operation::Skip => 78,
            Operation::Soft => 83,
            Operation::Hard => 72,
            Operation::Padding => 80,
            Operation::SeqMatch => 61,
            Operation::SeqMismatch => 88,
        }
    }

    /// Whether the operation consumes the query (M, I, S, = and X).
    pub fn consumes_query(self) -> (r: bool)
        ensures
            r == self.spec_consumes_query(),
    {
        match self {
            Operation::AlnMatch | Operation::Insertion | Operation::Soft | Operation::SeqMatch
            | Operation::SeqMismatch => true,
            _ => false,
        }
    }

    /// Whether the operation consumes the reference (M, D, N, = and X).
    pub fn consumes_ref(self) -> (r: bool)
        ensures
            r == self.spec_consumes_ref(),
    {
        match self {
            Operation::AlnMatch | Operation::Deletion | Operation::Skip | Operation::SeqMatch
            | Operation::SeqMismatch => true,
            _ => false,
        }
    }

    /// The operation's class.
    pub fn class(self) -> (r: Class)
        ensures
            r == self.spec_class(),
    {
        match self {
            Operation::AlnMatch | Operation::SeqMatch | Operation::SeqMismatch => Class::Match,
            Operation::Insertion | Operation::Soft => Class::Insertion,
            Operation::Deletion | Operation::Skip => Class::Deletion,
            Operation::Hard | Operation::Padding => Class::Hard,
        }
    }

    /// M, = or X: consumes both query and reference.
    pub fn is_match(self) -> (r: bool)
        ensures
            r == (self.spec_class() == Class::Match),
    {
        match self {
            Operation::AlnMatch | Operation::SeqMatch | Operation::SeqMismatch => true,
            _ => false,
        }
    }

    /// I or S: consumes the query only.
    pub fn is_insertion(self) -> (r: bool)
        ensures
            r == (self.spec_class() == Class::Insertion),
    {
        match self {
            Operation::Insertion | Operation::Soft => true,
            _ => false,
        }
    }

    /// D or N: consumes the reference only.
    pub fn is_deletion(self) -> (r: bool)
        ensures
            r == (self.spec_class() == Class::Deletion),
    {
        match self {
            Operation::Deletion | Operation::Skip => true,
            _ => false,
        }
    }

    /// H or P: consumes neither.
    pub fn is_hard_clipping(self) -> (r: bool)
        ensures
            r == (self.spec_class() == Class::Hard),
    {
        match self {
            Operation::Hard | Operation::Padding => true,
            _ => false,
        }
    }
}

/// Packed entry for an operation of length `len`.
pub open spec fn encode(len: int, op: Operation) -> int {
    len * 16 + op.code()
}

/// Length of a packed entry.
pub open spec fn entry_len(v: u32) -> u32 {
    v / 16
}

/// Operation of a packed entry.
pub open spec fn entry_op(v: u32) -> Operation {
    op_of_code((v % 16) as int)
}

/// Every packed entry has an operation code `0..=8`.
pub open spec fn codes_valid(raw: Seq<u32>) -> bool {
    forall|i: int| 0 <= i < raw.len() ==> #[trigger] raw[i] % 16 <= 8
}

proof fn lemma_unpack(v: u32)
    ensures
        v >> 4u32 == v / 16,
        v & 0xfu32 == v % 16,
{
    assert(v >> 4u32 == v / 16) by (bit_vector);
    assert(v & 0xfu32 == v % 16) by (bit_vector);
}

proof fn lemma_pack(len: u32, code: u32)
    requires
        len <= MAX_OP_LEN,
        code < 16,
    ensures
        (len << 4u32) | code == len * 16 + code,
{
    assert((len << 4u32) | code == len * 16 + code) by (bit_vector)
        requires
            len <= 0x0fff_ffffu32,
            code < 16u32,
    ;
}

/// Result of reading CIGAR text from position `i` on, with `acc` the length
/// read so far and `out` the entries already complete: the entries, and the
/// error that stopped the reading, if any.
pub open spec fn parse_text(text: Seq<u8>, i: int, acc: int, out: Seq<u32>) -> (
    Seq<u32>,
    Option<CigarError>,
)
    decreases text.len() - i,
{
    if i < 0 || i >= text.len() {
        (out, None)
    } else if 48 <= text[i] <= 57 {
        let next = 10 * acc + (text[i] - 48);
        if next > MAX_OP_LEN {
            (out, Some(CigarError::LengthOverflow))
        } else {
            parse_text(text, i + 1, next, out)
        }
    } else {
        match op_of_symbol(text[i]) {
            None => (out, Some(CigarError::UnexpectedOperation(text[i]))),
            Some(op) => if acc == 0 {
                (out, Some(CigarError::ZeroLength))
            } else {
                parse_text(text, i + 1, 0, out.push(encode(acc, op) as u32))
            },
        }
    }
}

/// Total length of the first `n` entries whose operation satisfies `keep`.
pub open spec fn len_sum(raw: Seq<u32>, n: int, keep: spec_fn(Operation) -> bool) -> int
    decreases n,
{
    if n <= 0 {
        0
    } else {
        len_sum(raw, n - 1, keep) + if keep(entry_op(raw[n - 1])) {
            entry_len(raw[n - 1]) as int
        } else {
            0int
        }
    }
}

proof fn lemma_len_sum_monotonic(raw: Seq<u32>, n: int, m: int, keep: spec_fn(Operation) -> bool)
    requires
        0 <= n <= m,
    ensures
        0 <= len_sum(raw, n, keep) <= len_sum(raw, m, keep),
    decreases m,
{
    if n < m {
        lemma_len_sum_monotonic(raw, n, m - 1, keep);
    } else if n > 0 {
        lemma_len_sum_monotonic(raw, n - 1, n - 1, keep);
    }
}

/// Total length of the leading run of entries from position `k` whose
/// operations satisfy `skip` or `take`, counting only those of `take`.
pub open spec fn clip_from(
    s: Seq<u32>,
    k: int,
    skip: spec_fn(Operation) -> bool,
    take: spec_fn(Operation) -> bool,
) -> int
    decreases s.len() - k,
{
    if k < 0 || k >= s.len() {
        0
    } else if take(entry_op(s[k])) {
        entry_len(s[k]) + clip_from(s, k + 1, skip, take)
    } else if skip(entry_op(s[k])) {
        clip_from(s, k + 1, skip, take)
    } else {
        0
    }
}

proof fn lemma_clip_nonneg(
    s: Seq<u32>,
    k: int,
    skip: spec_fn(Operation) -> bool,
    take: spec_fn(Operation) -> bool,
)
    ensures
        clip_from(s, k, skip, take) >= 0,
    decreases s.len() - k,
{
    if 0 <= k < s.len() {
        lemma_clip_nonneg(s, k + 1, skip, take);
    }
}

/// Operations that consume neither query nor reference.
pub open spec fn is_hard_op(op: Operation) -> bool {
    op.spec_class() == Class::Hard
}

/// Operations of the insertion class.
pub open spec fn is_insertion_op(op: Operation) -> bool {
    op.spec_class() == Class::Insertion
}

/// No operation.
pub open spec fn no_op(op: Operation) -> bool {
    false
}

/// Operations that consume the reference.
pub open spec fn consumes_ref_op(op: Operation) -> bool {
    op.spec_consumes_ref()
}

/// Operations that consume the query.
pub open spec fn consumes_query_op(op: Operation) -> bool {
    op.spec_consumes_query()
}

/// A CIGAR in packed form.
#[derive(Clone, Debug)]
pub struct Cigar {
    raw: Vec<u32>,
}

impl View for Cigar {
    type V = Seq<u32>;

    closed spec fn view(&self) -> Seq<u32> {
        self.raw@
    }
}

/// Relies on `Vec::shrink_to_fit`: it lowers the capacity and keeps the elements.
#[verifier::external_body]
pub(crate) fn shrink_vec<T>(v: &mut Vec<T>)
    ensures
        final(v)@ == old(v)@,
{
    v.shrink_to_fit();
}

impl Cigar {
    /// An empty CIGAR.
    pub fn new() -> (r: Cigar)
        ensures
            r@.len() == 0,
    {
        Cigar { raw: Vec::new() }
    }

    /// A CIGAR holding the packed entries `raw`.
    pub fn from_raw(raw: &[u32]) -> (r: Cigar)
        ensures
            r@ == raw@,
    {
        Cigar { raw: vstd::slice::slice_to_vec(raw) }
    }

    /// Removes every entry.
    pub fn clear(&mut self)
        ensures
            final(self)@.len() == 0,
    {
        self.raw.clear();
    }

    /// Appends packed entries.
    pub fn extend_from_raw(&mut self, values: Vec<u32>)
        ensures
            final(self)@ == old(self)@ + values@,
    {
        let mut values = values;
        self.raw.append(&mut values);
    }

    /// Appends an operation of length `len`; does nothing when `len` is 0.
    pub fn push(&mut self, len: u32, operation: Operation)
        requires
            len <= MAX_OP_LEN,
        ensures
            len == 0 ==> final(self)@ == old(self)@,
            len > 0 ==> final(self)@ == old(self)@.push(encode(len as int, operation) as u32),
    {
        if len > 0 {
            let code = operation.to_code();
            proof {
                lemma_pack(len, code);
            }
            self.raw.push(len << 4 | code)
        }
    }

    /// Appends the operations written in `text` (for example `b"10M2I"`).
    /// On an error the entries read before it stay appended.
    pub fn extend_from_text(&mut self, text: &[u8]) -> (r: Result<(), CigarError>)
        ensures
            final(self)@ == parse_text(text@, 0, 0, old(self)@).0,
            r == match parse_text(text@, 0, 0, old(self)@).1 {
                None => Ok::<(), CigarError>(()),
                Some(e) => Err(e),
            },
    {
        let ghost whole = parse_text(text@, 0, 0, self.raw@);
        let mut op_len: u32 = 0;
        let mut i: usize = 0;
        while i < text.len()
            invariant
                i <= text@.len(),
                op_len <= MAX_OP_LEN,
                parse_text(text@, i as int, op_len as int, self.raw@) == whole,
                whole == parse_text(text@, 0, 0, old(self)@),
            decreases text@.len() - i,
        {
            let symb = text[i];
            if symb >= 48 && symb <= 57 {
                let d = (symb - 48) as u32;
                let bound = (MAX_OP_LEN - d) / 10;
                proof {
                    assert(op_len > bound <==> 10 * op_len + d > MAX_OP_LEN) by (nonlinear_arith)
                        requires
                            bound == (MAX_OP_LEN - d) / 10,
                            d <= 9,
                    ;
                }
                if op_len > bound {
                    proof {
                        assert(text@[i as int] - 48 == d);
                        assert(parse_text(text@, i as int, op_len as int, self.raw@) == (
                            self.raw@,
                            Some(CigarError::LengthOverflow),
                        ));
                    }
                    return Err(CigarError::LengthOverflow);
                }
                op_len = 10 * op_len + d;
            } else {
                let op = match Operation::from_symbol(symb) {
                    Ok(op) => op,
                    Err(e) => {
                        return Err(e);
                    },
                };
                if op_len == 0 {
                    return Err(CigarError::ZeroLength);
                }
                let code = op.to_code();
                proof {
                    lemma_pack(op_len, code);
                }
                self.raw.push(op_len << 4 | code);
                op_len = 0;
            }
            i += 1;
        }
        Ok(())
    }

    /// Length and operation of entry `index`.
    pub fn at(&self, index: usize) -> (r: (u32, Operation))
        requires
            index < self@.len(),
            self@[index as int] % 16 <= 8,
        ensures
            r == (entry_len(self@[index as int]), entry_op(self@[index as int])),
    {
        let v = self.raw[index];
        proof {
            lemma_unpack(v);
        }
        (v >> 4, Operation::from_code(v & 0xf))
    }

    /// A double-ended walk over the entries.
    pub fn iter(&self) -> (r: CigarIter<'_>)
        ensures
            r.parent() == self,
            r.front() == 0,
            r.back() == self@.len(),
    {
        CigarIter { parent: self, i: 0, j: self.raw.len() }
    }

    /// All entries as `(length, operation)`.
    pub fn to_ops(&self) -> (r: Vec<(u32, Operation)>)
        requires
            codes_valid(self@),
        ensures
            r@.len() == self@.len(),
            forall|k: int|
                0 <= k < r@.len() ==> #[trigger] r@[k] == (entry_len(self@[k]), entry_op(self@[k])),
    {
        let mut r: Vec<(u32, Operation)> = Vec::new();
        let mut k: usize = 0;
        while k < self.raw.len()
            invariant
                codes_valid(self@),
                k <= self@.len(),
                r@.len() == k,
                forall|m: int|
                    0 <= m < k ==> #[trigger] r@[m] == (entry_len(self@[m]), entry_op(self@[m])),
            decreases self@.len() - k,
        {
            r.push(self.at(k));
            k += 1;
        }
        r
    }

    /// Number of entries.
    pub fn len(&self) -> (r: usize)
        ensures
            r == self@.len(),
    {
        self.raw.len()
    }

    /// Whether there is no entry.
    pub fn is_empty(&self) -> (r: bool)
        ensures
            r == (self@.len() == 0),
    {
        self.raw.len() == 0
    }

    /// The packed entries.
    pub fn raw(&self) -> (r: &[u32])
        ensures
            r@ == self@,
    {
        self.raw.as_slice()
    }

    /// Total length of the entries whose operation satisfies `keep`.
    fn sum_lengths(&self, keep_ref: bool) -> (r: u32)
        requires
            codes_valid(self@),
            len_sum(
                self@,
                self@.len() as int,
                if keep_ref {
                    |op: Operation| consumes_ref_op(op)
                } else {
                    |op: Operation| consumes_query_op(op)
                },
            ) <= u32::MAX,
        ensures
            r == len_sum(
                self@,
                self@.len() as int,
                if keep_ref {
                    |op: Operation| consumes_ref_op(op)
                } else {
                    |op: Operation| consumes_query_op(op)
                },
            ),
    {
        let ghost keep = if keep_ref {
            |op: Operation| consumes_ref_op(op)
        } else {
            |op: Operation| consumes_query_op(op)
        };
        let mut total: u32 = 0;
        let mut k: usize = 0;
        while k < self.raw.len()
            invariant
                codes_valid(self@),
                k <= self@.len(),
                len_sum(self@, self@.len() as int, keep) <= u32::MAX,
                total == len_sum(self@, k as int, keep),
                keep == (if keep_ref {
                    |op: Operation| consumes_ref_op(op)
                } else {
                    |op: Operation| consumes_query_op(op)
                }),
            decreases self@.len() - k,
        {
            let (len, op) = self.at(k);
            proof {
                lemma_len_sum_monotonic(self@, k + 1, self@.len() as int, keep);
            }
            let counted = if keep_ref {
                op.consumes_ref()
            } else {
                op.consumes_query()
            };
            if counted {
                total = total + len;
            }
            k += 1;
        }
        total
    }

    /// Length of the alignment on the reference: the total length of M, D,
    /// N, = and X.
    pub fn calculate_ref_len(&self) -> (r: u32)
        requires
            codes_valid(self@),
            len_sum(self@, self@.len() as int, |op: Operation| consumes_ref_op(op)) <= u32::MAX,
        ensures
            r == len_sum(self@, self@.len() as int, |op: Operation| consumes_ref_op(op)),
    {
        self.sum_lengths(true)
    }

    /// Length of the query: the total length of M, I, S, = and X.
    pub fn calculate_query_len(&self) -> (r: u32)
        requires
            codes_valid(self@),
            len_sum(self@, self@.len() as int, |op: Operation| consumes_query_op(op)) <= u32::MAX,
        ensures
            r == len_sum(self@, self@.len() as int, |op: Operation| consumes_query_op(op)),
    {
        self.sum_lengths(false)
    }

    /// Releases unused capacity.
    pub fn shrink_to_fit(&mut self)
        ensures
            final(self)@ == old(self)@,
    {
        shrink_vec(&mut self.raw);
    }

    /// The entries from the chosen end: in order from the left, reversed from
    /// the right.
    pub open spec fn from_side(&self, left_side: bool) -> Seq<u32> {
        if left_side {
            self@
        } else {
            self@.reverse()
        }
    }

    /// Total length of the leading run from `left_side`'s end of entries
    /// satisfying `skip` or `take`, counting those of `take`.
    fn clip_length(&self, left_side: bool, skip_insertions: bool) -> (r: u32)
        requires
            codes_valid(self@),
            clip_from(
                self.from_side(left_side),
                0,
                if skip_insertions {
                    |op: Operation| is_hard_op(op)
                } else {
                    |op: Operation| no_op(op)
                },
                if skip_insertions {
                    |op: Operation| is_insertion_op(op)
                } else {
                    |op: Operation| is_hard_op(op)
                },
            ) <= u32::MAX,
        ensures
            r == clip_from(
                self.from_side(left_side),
                0,
                if skip_insertions {
                    |op: Operation| is_hard_op(op)
                } else {
                    |op: Operation| no_op(op)
                },
                if skip_insertions {
                    |op: Operation| is_insertion_op(op)
                } else {
                    |op: Operation| is_hard_op(op)
                },
            ),
    {
        let ghost skip = if skip_insertions {
            |op: Operation| is_hard_op(op)
        } else {
            |op: Operation| no_op(op)
        };
        let ghost take = if skip_insertions {
            |op: Operation| is_insertion_op(op)
        } else {
            |op: Operation| is_hard_op(op)
        };
        let ghost s = self.from_side(left_side);
        let n = self.raw.len();
        let mut total: u32 = 0;
        let mut k: usize = 0;
        while k < n
            invariant
                codes_valid(self@),
                n == self@.len(),
                s == self.from_side(left_side),
                s.len() == n,
                k <= n,
                clip_from(s, 0, skip, take) <= u32::MAX,
                total + clip_from(s, k as int, skip, take) == clip_from(s, 0, skip, take),
                skip == (if skip_insertions {
                    |op: Operation| is_hard_op(op)
                } else {
                    |op: Operation| no_op(op)
                }),
                take == (if skip_insertions {
                    |op: Operation| is_insertion_op(op)
                } else {
                    |op: Operation| is_hard_op(op)
                }),
            decreases n - k,
        {
            let idx = if left_side {
                k
            } else {
                n - 1 - k
            };
            let (len, op) = self.at(idx);
            proof {
                assert(s[k as int] == self@[idx as int]);
                lemma_clip_nonneg(s, k + 1, skip, take);
            }
            let class = op.class();
            let taken = if skip_insertions {
                class == Class::Insertion
            } else {
                class == Class::Hard
            };
            let skipped = skip_insertions && class == Class::Hard;
            if taken {
                total = total + len;
            } else if !skipped {
                return total;
            }
            k += 1;
        }
        total
    }

    /// Length of the hard clipping (H and P) at the left end if `left_side`,
    /// else at the right end.
    pub fn hard_clipping(&self, left_side: bool) -> (r: u32)
        requires
            codes_valid(self@),
            clip_from(
                self.from_side(left_side),
                0,
                |op: Operation| no_op(op),
                |op: Operation| is_hard_op(op),
            ) <= u32::MAX,
        ensures
            r == clip_from(
                self.from_side(left_side),
                0,
                |op: Operation| no_op(op),
                |op: Operation| is_hard_op(op),
            ),
    {
        self.clip_length(left_side, false)
    }

    /// Length of the soft clipping (I and S) at the left end if `left_side`,
    /// else at the right end, passing over hard clipping.
    pub fn soft_clipping(&self, left_side: bool) -> (r: u32)
        requires
            codes_valid(self@),
            clip_from(
                self.from_side(left_side),
                0,
                |op: Operation| is_hard_op(op),
                |op: Operation| is_insertion_op(op),
            ) <= u32::MAX,
        ensures
            r == clip_from(
                self.from_side(left_side),
                0,
                |op: Operation| is_hard_op(op),
                |op: Operation| is_insertion_op(op),
            ),
    {
        self.clip_length(left_side, true)
    }
}

/// Double-ended walk over the entries of a CIGAR: the entries not yet handed
/// out are those at positions `[front, back)`.
pub struct CigarIter<'a> {
    parent: &'a Cigar,
    i: usize,
    j: usize,
}

impl<'a> CigarIter<'a> {
    pub closed spec fn parent(&self) -> &'a Cigar {
        self.parent
    }

    pub closed spec fn front(&self) -> int {
        self.i as int
    }

    pub closed spec fn back(&self) -> int {
        self.j as int
    }

    /// The next entry from the front, if any.
    pub fn next(&mut self) -> (r: Option<(u32, Operation)>)
        requires
            old(self).front() <= old(self).back() <= old(self).parent()@.len(),
            codes_valid(old(self).parent()@),
        ensures
            final(self).parent() == old(self).parent(),
            final(self).back() == old(self).back(),
            old(self).front() < old(self).back() ==> {
                &&& final(self).front() == old(self).front() + 1
                &&& r == Some(
                    (
                        entry_len(old(self).parent()@[old(self).front()]),
                        entry_op(old(self).parent()@[old(self).front()]),
                    ),
                )
            },
            old(self).front() >= old(self).back() ==> r.is_none() && final(self).front() == old(
                self,
            ).front(),
    {
        if self.i < self.j {
            self.i += 1;
            Some(self.parent.at(self.i - 1))
        } else {
            None
        }
    }

    /// The next entry from the back, if any.
    pub fn next_back(&mut self) -> (r: Option<(u32, Operation)>)
        requires
            old(self).front() <= old(self).back() <= old(self).parent()@.len(),
            codes_valid(old(self).parent()@),
        ensures
            final(self).parent() == old(self).parent(),
            final(self).front() == old(self).front(),
            old(self).front() < old(self).back() ==> {
                &&& final(self).back() == old(self).back() - 1
                &&& r == Some(
                    (
                        entry_len(old(self).parent()@[old(self).back() - 1]),
                        entry_op(old(self).parent()@[old(self).back() - 1]),
                    ),
                )
            },
            old(self).front() >= old(self).back() ==> r.is_none() && final(self).back() == old(
                self,
            ).back(),
    {
        if self.i < self.j {
            self.j -= 1;
            Some(self.parent.at(self.j))
        } else {
            None
        }
    }

    /// Number of entries not yet handed out.
    pub fn remaining(&self) -> (r: usize)
        requires
            self.front() <= self.back(),
        ensures
            r == self.back() - self.front(),
    {
        self.j - self.i
    }
}

/// Position pairs of one operation of length `len` starting at query
/// position `q` and reference position `r`: each step gives the query
/// position if the operation consumes the query and the reference position
/// if it consumes the reference.
pub open spec fn op_pairs(op: Operation, len: int, q: int, r: int) -> Seq<(Option<u32>, Option<u32>)> {
    Seq::new(
        len as nat,
        |i: int|
            (
                if op.spec_consumes_query() {
                    Some((q + i) as u32)
                } else {
                    None
                },
                if op.spec_consumes_ref() {
                    Some((r + i) as u32)
                } else {
                    None
                },
            ),
    )
}

/// Query advance of an operation of length `len`.
pub open spec fn q_step(op: Operation, len: int) -> int {
    if op.spec_consumes_query() {
        len
    } else {
        0
    }
}

/// Reference advance of an operation of length `len`.
pub open spec fn r_step(op: Operation, len: int) -> int {
    if op.spec_consumes_ref() {
        len
    } else {
        0
    }
}

/// Aligned position pairs of the entries from `k` on, with the query at `q`
/// and the reference at `r`; hard clipping and padding give none.
pub open spec fn aligned_from(raw: Seq<u32>, k: int, q: int, r: int) -> Seq<(Option<u32>, Option<u32>)>
    decreases raw.len() - k,
{
    if k < 0 || k >= raw.len() {
        Seq::empty()
    } else {
        let op = entry_op(raw[k]);
        let len = entry_len(raw[k]) as int;
        if is_hard_op(op) {
            aligned_from(raw, k + 1, q, r)
        } else {
            op_pairs(op, len, q, r) + aligned_from(raw, k + 1, q + q_step(op, len), r + r_step(op, len))
        }
    }
}

/// Matching position pairs (M, = and X only) of the entries from `k` on,
/// with the query at `q` and the reference at `r`.
pub open spec fn matching_from(raw: Seq<u32>, k: int, q: int, r: int) -> Seq<(u32, u32)>
    decreases raw.len() - k,
{
    if k < 0 || k >= raw.len() {
        Seq::empty()
    } else {
        let op = entry_op(raw[k]);
        let len = entry_len(raw[k]) as int;
        let rest = matching_from(raw, k + 1, q + q_step(op, len), r + r_step(op, len));
        if op.spec_class() == Class::Match {
            Seq::new(len as nat, |i: int| ((q + i) as u32, (r + i) as u32)) + rest
        } else {
            rest
        }
    }
}

proof fn lemma_len_sum_step(raw: Seq<u32>, k: int, keep: spec_fn(Operation) -> bool)
    requires
        0 <= k < raw.len(),
    ensures
        len_sum(raw, k + 1, keep) == len_sum(raw, k, keep) + if keep(entry_op(raw[k])) {
            entry_len(raw[k]) as int
        } else {
            0int
        },
{
}

impl Cigar {
    /// Pairs of aligned positions `(query, reference)`, the reference
    /// starting at `r_pos`; a position is `None` where the operation does not
    /// consume that side (insertions, deletions). Hard clipping and padding
    /// give no pair.
    pub fn aligned_pairs(&self, r_pos: u32) -> (res: Vec<(Option<u32>, Option<u32>)>)
        requires
            codes_valid(self@),
            len_sum(self@, self@.len() as int, |op: Operation| consumes_query_op(op)) <= u32::MAX,
            r_pos + len_sum(self@, self@.len() as int, |op: Operation| consumes_ref_op(op)) <= u32::MAX,
        ensures
            res@ == aligned_from(self@, 0, 0, r_pos as int),
    {
        let ghost raw = self@;
        let ghost kq = |op: Operation| consumes_query_op(op);
        let ghost kr = |op: Operation| consumes_ref_op(op);
        let mut out: Vec<(Option<u32>, Option<u32>)> = Vec::new();
        let mut q: u32 = 0;
        let mut r: u32 = r_pos;
        let mut k: usize = 0;
        while k < self.raw.len()
            invariant
                raw == self@,
                kq == (|op: Operation| consumes_query_op(op)),
                kr == (|op: Operation| consumes_ref_op(op)),
                codes_valid(raw),
                k <= raw.len(),
                len_sum(raw, raw.len() as int, kq) <= u32::MAX,
                r_pos + len_sum(raw, raw.len() as int, kr) <= u32::MAX,
                q == len_sum(raw, k as int, kq),
                r == r_pos + len_sum(raw, k as int, kr),
                out@ + aligned_from(raw, k as int, q as int, r as int) == aligned_from(
                    raw,
                    0,
                    0,
                    r_pos as int,
                ),
            decreases raw.len() - k,
        {
            let (len, op) = self.at(k);
            proof {
                lemma_len_sum_step(raw, k as int, kq);
                lemma_len_sum_step(raw, k as int, kr);
                lemma_len_sum_monotonic(raw, k + 1, raw.len() as int, kq);
                lemma_len_sum_monotonic(raw, k + 1, raw.len() as int, kr);
                assert(kq(op) == op.spec_consumes_query());
                assert(kr(op) == op.spec_consumes_ref());
                assert(len_sum(raw, k + 1, kq) == q + q_step(op, len as int));
                assert(len_sum(raw, k + 1, kr) == r - r_pos + r_step(op, len as int));
            }
            if !op.is_hard_clipping() {
                let cq = op.consumes_query();
                let cr = op.consumes_ref();
                let ghost base = out@;
                let mut i: u32 = 0;
                while i < len
                    invariant
                        i <= len,
                        cq == op.spec_consumes_query(),
                        cr == op.spec_consumes_ref(),
                        cq ==> q + len <= u32::MAX,
                        cr ==> r + len <= u32::MAX,
                        out@ == base + op_pairs(op, len as int, q as int, r as int).subrange(0, i as int),
                    decreases len - i,
                {
                    let qp = if cq {
                        Some(q + i)
                    } else {
                        None
                    };
                    let rp = if cr {
                        Some(r + i)
                    } else {
                        None
                    };
                    out.push((qp, rp));
                    i += 1;
                    proof {
                        assert(out@ =~= base + op_pairs(op, len as int, q as int, r as int).subrange(
                            0,
                            i as int,
                        ));
                    }
                }
                proof {
                    assert(op_pairs(op, len as int, q as int, r as int).subrange(0, len as int)
                        =~= op_pairs(op, len as int, q as int, r as int));
                    assert(base + op_pairs(op, len as int, q as int, r as int) + aligned_from(
                        raw,
                        k + 1,
                        q + q_step(op, len as int),
                        r + r_step(op, len as int),
                    ) =~= base + (op_pairs(op, len as int, q as int, r as int) + aligned_from(
                        raw,
                        k + 1,
                        q + q_step(op, len as int),
                        r + r_step(op, len as int),
                    )));
                }
                if cq {
                    q = q + len;
                }
                if cr {
                    r = r + len;
                }
            }
            k += 1;
        }
        proof {
            assert(out@ + Seq::<(Option<u32>, Option<u32>)>::empty() =~= out@);
        }
        out
    }

    /// Pairs `(query, reference)` of positions aligned by M, = and X, the
    /// reference starting at `r_pos`; insertions and deletions only move the
    /// positions.
    pub fn matching_pairs(&self, r_pos: u32) -> (res: Vec<(u32, u32)>)
        requires
            codes_valid(self@),
            len_sum(self@, self@.len() as int, |op: Operation| consumes_query_op(op)) <= u32::MAX,
            r_pos + len_sum(self@, self@.len() as int, |op: Operation| consumes_ref_op(op)) <= u32::MAX,
        ensures
            res@ == matching_from(self@, 0, 0, r_pos as int),
    {
        let ghost raw = self@;
        let ghost kq = |op: Operation| consumes_query_op(op);
        let ghost kr = |op: Operation| consumes_ref_op(op);
        let mut out: Vec<(u32, u32)> = Vec::new();
        let mut q: u32 = 0;
        let mut r: u32 = r_pos;
        let mut k: usize = 0;
        while k < self.raw.len()
            invariant
                raw == self@,
                kq == (|op: Operation| consumes_query_op(op)),
                kr == (|op: Operation| consumes_ref_op(op)),
                codes_valid(raw),
                k <= raw.len(),
                len_sum(raw, raw.len() as int, kq) <= u32::MAX,
                r_pos + len_sum(raw, raw.len() as int, kr) <= u32::MAX,
                q == len_sum(raw, k as int, kq),
                r == r_pos + len_sum(raw, k as int, kr),
                out@ + matching_from(raw, k as int, q as int, r as int) == matching_from(
                    raw,
                    0,
                    0,
                    r_pos as int,
                ),
            decreases raw.len() - k,
        {
            let (len, op) = self.at(k);
            proof {
                lemma_len_sum_step(raw, k as int, kq);
                lemma_len_sum_step(raw, k as int, kr);
                lemma_len_sum_monotonic(raw, k + 1, raw.len() as int, kq);
                lemma_len_sum_monotonic(raw, k + 1, raw.len() as int, kr);
                assert(kq(op) == op.spec_consumes_query());
                assert(kr(op) == op.spec_consumes_ref());
                assert(len_sum(raw, k + 1, kq) == q + q_step(op, len as int));
                assert(len_sum(raw, k + 1, kr) == r - r_pos + r_step(op, len as int));
            }
            if op.is_match() {
                let ghost base = out@;
                let ghost run = Seq::new(len as nat, |i: int| ((q + i) as u32, (r + i) as u32));
                let mut i: u32 = 0;
                while i < len
                    invariant
                        i <= len,
                        q + len <= u32::MAX,
                        r + len <= u32::MAX,
                        run == Seq::new(len as nat, |j: int| ((q + j) as u32, (r + j) as u32)),
                        out@ == base + run.subrange(0, i as int),
                    decreases len - i,
                {
                    out.push((q + i, r + i));
                    i += 1;
                    proof {
                        assert(out@ =~= base + run.subrange(0, i as int));
                    }
                }
                proof {
                    assert(run.subrange(0, len as int) =~= run);
                    let rest = matching_from(
                        raw,
                        k + 1,
                        q + q_step(op, len as int),
                        r + r_step(op, len as int),
                    );
                    assert(base + run + rest =~= base + (run + rest));
                }
            }
            if op.consumes_query() {
                q = q + len;
            }
            if op.consumes_ref() {
                r = r + len;
            }
            k += 1;
        }
        proof {
            assert(out@ + Seq::<(u32, u32)>::empty() =~= out@);
        }
        out
    }
}

/// Decimal digits of `n`, most significant first, as text bytes.
pub open spec fn decimal(n: nat) -> Seq<u8>
    decreases n,
{
    if n < 10 {
        seq![(48 + n) as u8]
    } else {
        decimal(n / 10).push((48 + n % 10) as u8)
    }
}

/// Text of the first `n` entries: each length in decimal, then its symbol.
pub open spec fn text_of(raw: Seq<u32>, n: int) -> Seq<u8>
    decreases n,
{
    if n <= 0 {
        Seq::empty()
    } else {
        text_of(raw, n - 1) + decimal(entry_len(raw[n - 1]) as nat).push(entry_op(raw[n - 1]).symbol())
    }
}

/// Decimal text of `n`.
fn push_decimal(out: &mut Vec<u8>, n: u32)
    ensures
        final(out)@ == old(out)@ + decimal(n as nat),
    decreases n,
{
    if n >= 10 {
        push_decimal(out, n / 10);
    }
    out.push(48 + (n % 10) as u8);
    proof {
        if n >= 10 {
            assert(decimal(n as nat) == decimal((n / 10) as nat).push((48 + n % 10) as u8));
        }
        assert(final(out)@ =~= old(out)@ + decimal(n as nat));
    }
}

impl Cigar {
    /// Human readable text: each operation as its length in decimal and its
    /// symbol (`10M2I`), or `*` when empty.
    pub fn write_readable(&self) -> (r: Vec<u8>)
        requires
            codes_valid(self@),
        ensures
            self@.len() == 0 ==> r@ == seq![42u8],
            self@.len() > 0 ==> r@ == text_of(self@, self@.len() as int),
    {
        let mut out: Vec<u8> = Vec::new();
        if self.raw.len() == 0 {
            out.push(42);
            assert(out@ =~= seq![42u8]);
            return out;
        }
        let mut k: usize = 0;
        while k < self.raw.len()
            invariant
                codes_valid(self@),
                k <= self@.len(),
                out@ == text_of(self@, k as int),
            decreases self@.len() - k,
        {
            let (len, op) = self.at(k);
            push_decimal(&mut out, len);
            out.push(op.to_byte());
            proof {
                assert(out@ =~= text_of(self@, k + 1));
            }
            k += 1;
        }
        out
    }
}

} // verus!
