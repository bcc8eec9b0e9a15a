use vstd::prelude::*;

verus! {

/// Why a buffer failed to decode; each variant carries the byte offset at
/// which the problem was detected.
#[derive(PartialEq, Eq, Debug, Clone, Copy, Structural)]
pub enum DecodeError {
    /// A second `i` inside an integer.
    DuplicateStartToken(usize),
    /// A byte that the grammar does not allow here, with the byte as a character.
    InvalidToken(usize, char),
    /// A byte-string length without digits, or with no `:` before the end.
    InvalidLength(usize),
    /// A byte string whose declared length runs past the end of the buffer;
    /// the offset is the one just past the `:`.
    ByteStrEOF(usize),
    /// An integer, list or dictionary that the buffer ends inside of.
    NoEndToken(usize),
    /// An integer that does not start with `i`.
    NoStartToken(usize),
    /// An `e` with no open list or dictionary to close.
    InvalidEndToken(usize),
    /// A dictionary with an odd number of items or a key that is not a byte string.
    InvalidDict(usize),
    /// An integer without digits.
    Empty(usize),
    /// A number whose digits start with a redundant `0`; the offset is that
    /// of the digit following the zero.
    LeadingZero(usize),
    /// An integer outside the range of `i64`; the offset is that of the digit
    /// that leaves the range.
    IntOverflow(usize),
}

} // verus!
