use vstd::prelude::*;

verus! {

/// Errors of rendering and of the match store.
#[derive(Debug, Clone, Copy, PartialEq, Eq, Structural)]
pub enum CgVgError {
    /// The requested ordinal, and how many records the store holds.
    LoadIndexOob(u32, u32),
    /// A line of the text store does not read back as `<line_number> <path>`.
    LoadIndexFormat,
    /// A wrapping width of zero.
    InvalidWidth,
    /// The terminal is not wider than the prefix of a match line.
    DegenerateWidth,
    /// The text ends inside an escape sequence.
    IncompleteEscape,
    /// A submatch range lies past the end of its text, or out of order.
    SubmatchRangeInvalid,
    /// The offset index does not decode, or points outside the data.
    CorruptIndex,
    /// A record of the data file does not decode.
    CorruptRecord,
}

} // verus!
