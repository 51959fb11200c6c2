//! Small pieces of the assembly-graph format: orientations and record kinds.
use vstd::prelude::*;

verus! {

/// Orientation of a segment.
#[derive(Debug, Clone, Copy, PartialEq, Eq, Structural)]
pub enum Orientation {
    Forward,
    Reverse,
}

/// Kind of a graph record, by its first field.
#[derive(Debug, Clone, Copy, PartialEq, Eq, Structural)]
pub enum RecordType {
    Comment,
    Header,
    Sequence,
    Link,
    Containment,
    Path,
}

/// A graph file could not be parsed.
#[derive(Debug, Clone, Copy, PartialEq, Eq, Structural)]
pub struct GFAParseError;

impl GFAParseError {
    pub fn message(&self) -> &'static str {
        "Problem with parsing file"
    }
}

impl Orientation {
    /// `+` is forward, `-` is reverse; anything else is none.
    pub fn from_raw(o: &[u8]) -> (r: Option<Orientation>)
        ensures
            r == (if o@ == seq![43u8] {
                Some(Orientation::Forward)
            } else if o@ == seq![45u8] {
                Some(Orientation::Reverse)
            } else {
                None
            }),
    {
        if o.len() == 1 && o[0] == 43 {
            assert(o@ =~= seq![43u8]);
            Some(Orientation::Forward)
        } else if o.len() == 1 && o[0] == 45 {
            assert(o@ =~= seq![45u8]);
            Some(Orientation::Reverse)
        } else {
            None
        }
    }

    /// The opposite orientation.
    pub fn inverse(o: &Orientation) -> (r: Orientation)
        ensures
            r != *o,
    {
        match o {
            Orientation::Forward => Orientation::Reverse,
            Orientation::Reverse => Orientation::Forward,
        }
    }

    /// The symbol of the orientation, `+` or `-`.
    pub fn symbol(&self) -> (r: u8)
        ensures
            r == (if *self == Orientation::Forward {
                43u8
            } else {
                45u8
            }),
    {
        match self {
            Orientation::Forward => 43,
            Orientation::Reverse => 45,
        }
    }
}

impl RecordType {
    /// The record kind named by a one-byte field: `#`, `H`, `S`, `L`, `C` or `P`.
    pub fn from_raw(s: &[u8]) -> (r: Option<RecordType>)
        ensures
            s@.len() != 1 ==> r.is_none(),
            s@.len() == 1 ==> r == (if s@[0] == 35 {
                Some(RecordType::Comment)
            } else if s@[0] == 72 {
                Some(RecordType::Header)
            } else if s@[0] == 83 {
                Some(RecordType::Sequence)
            } else if s@[0] == 76 {
                Some(RecordType::Link)
            } else if s@[0] == 67 {
                Some(RecordType::Containment)
            } else if s@[0] == 80 {
                Some(RecordType::Path)
            } else {
                None
            }),
    {
        if s.len() != 1 {
            return None;
        }
        match s[0] {
            35 => Some(RecordType::Comment),
            72 => Some(RecordType::Header),
            83 => Some(RecordType::Sequence),
            76 => Some(RecordType::Link),
            67 => Some(RecordType::Containment),
            80 => Some(RecordType::Path),
            _ => None,
        }
    }
}

} // verus!
