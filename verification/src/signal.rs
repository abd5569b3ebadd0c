//! Signal types, signal handles and the errors of the writer.

use vstd::prelude::*;

verus! {

/// The type of a signal, which decides how many bytes its value takes.
#[derive(Clone, Copy, Debug, PartialEq, Eq, Structural)]
pub enum FstSignalType {
    /// A vector of four (or nine) state bits, one character per bit. Width zero stands for a
    /// value of variable length.
    BitVec(u32),
    /// A double precision real, stored as its eight little endian bytes.
    Real,
}

impl FstSignalType {
    /// A bit vector of `len` bits.
    pub fn bit_vec(len: u32) -> (t: Self)
        ensures
            t == FstSignalType::BitVec(len),
    {
        FstSignalType::BitVec(len)
    }

    /// A real valued signal.
    pub fn real64() -> (t: Self)
        ensures
            t == FstSignalType::Real,
    {
        FstSignalType::Real
    }

    /// The number of bytes a value of this type takes.
    pub open spec fn spec_len(&self) -> u32 {
        match *self {
            FstSignalType::BitVec(len) => len,
            FstSignalType::Real => 8,
        }
    }

    /// The number of bytes a value of this type takes.
    #[verifier::when_used_as_spec(spec_len)]
    pub fn len(&self) -> (len: u32)
        ensures
            len == self.spec_len(),
    {
        match self {
            FstSignalType::BitVec(len) => *len,
            FstSignalType::Real => 8,
        }
    }

    /// Whether this is a real valued signal.
    pub fn is_real(&self) -> (is_real: bool)
        ensures
            is_real == (*self == FstSignalType::Real),
    {
        match self {
            FstSignalType::Real => true,
            FstSignalType::BitVec(_) => false,
        }
    }
}

/// The handle of a signal: its position among the signals of the file.
#[derive(Clone, Copy, Debug, PartialEq, Eq, Structural)]
pub struct FstSignalId {
    index: u32,
}

impl FstSignalId {
    /// The position of the signal this handle stands for.
    pub closed spec fn index(self) -> nat {
        self.index as nat
    }

    /// The handle of the signal at position `index`.
    pub fn from_index(index: u32) -> (id: Self)
        ensures
            id.index() == index,
    {
        FstSignalId { index }
    }

    /// The position of the signal, for indexing the per signal tables.
    pub fn to_array_index(&self) -> (index: usize)
        ensures
            index == self.index(),
    {
        self.index as usize
    }
}

/// What can go wrong while buffering value changes.
#[derive(Clone, Copy, Debug, PartialEq, Eq, Structural)]
pub enum FstWriteError {
    /// The time went backwards: the last time written, then the new one.
    TimeDecrease(u64, u64),
    /// A handle that stands for no signal.
    InvalidSignalId(FstSignalId),
    /// A character that is not one of the nine `std_logic` states.
    InvalidCharacter(char),
}

} // verus!
