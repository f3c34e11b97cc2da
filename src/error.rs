use vstd::prelude::*;

verus! {

/// The ways in which building an alphabet or ranking over it can fail.
#[derive(Debug, Clone, Copy, PartialEq, Eq, Structural)]
pub enum LehmerError {
    /// The symbol collection held no symbol at all.
    EmptyAlphabet,
    /// The symbol collection held some symbol more than once.
    DuplicateSymbol,
    /// The alphabet has a single symbol, so there is nothing to rank.
    DegenerateAlphabet,
    /// The index is not below the number of arrangements of the alphabet.
    IndexOutOfRange,
}

impl LehmerError {
    /// A human-readable description of the failure.
    pub fn message(&self) -> (r: &'static str)
        ensures
            *self == LehmerError::EmptyAlphabet ==> r@ == "Given no char, so no permutation!"@,
            *self == LehmerError::DuplicateSymbol ==> r@ == "Given duplicated chars!"@,
            *self == LehmerError::DegenerateAlphabet ==> r@
                == "The Lehmer code of single char is meanless!"@,
            *self == LehmerError::IndexOutOfRange ==> r@
                == "A dicimal larger than total number of this permutation!"@,
    {
        match self {
            LehmerError::EmptyAlphabet => "Given no char, so no permutation!",
            LehmerError::DuplicateSymbol => "Given duplicated chars!",
            LehmerError::DegenerateAlphabet => "The Lehmer code of single char is meanless!",
            LehmerError::IndexOutOfRange => "A dicimal larger than total number of this permutation!",
        }
    }
}

} // verus!
