//! Why a decode stopped, and where.

use vstd::prelude::*;

verus! {

/// The reason a decode was abandoned.
///
/// Offsets count bytes from the start of the input handed to the function
/// that reports the error.
#[derive(Debug, Clone, Copy, PartialEq, Eq, Structural)]
pub enum DecodeError {
    /// The bytes do not follow the archive grammar. `offset` is the place of
    /// the byte that should have been something else, or the length of the
    /// input when it ended where a byte was still required.
    FormatViolation { offset: usize },
    /// The archive is well formed but asks for something that is not
    /// implemented: literals in a base other than decimal, digits in a base
    /// other than hexadecimal, or an odd number of digits.
    UnsupportedConfiguration,
    /// A decimal literal does not fit in 32 bits. `offset` is the place of
    /// the digit that took it over the limit.
    NumericOverflow { offset: usize },
}

/// The mathematical reading of a [`DecodeError`]: the same three reasons, with
/// unbounded offsets.
pub enum Fault {
    FormatViolation { offset: nat },
    UnsupportedConfiguration,
    NumericOverflow { offset: nat },
}

impl Fault {
    /// The same fault, seen from `by` bytes further back in the input.
    pub open spec fn shifted(self, by: nat) -> Fault {
        match self {
            Fault::FormatViolation { offset } => Fault::FormatViolation { offset: offset + by },
            Fault::UnsupportedConfiguration => Fault::UnsupportedConfiguration,
            Fault::NumericOverflow { offset } => Fault::NumericOverflow { offset: offset + by },
        }
    }

    /// Whether the fault points into an input of `len` bytes, or at its end.
    pub open spec fn within(self, len: nat) -> bool {
        match self {
            Fault::FormatViolation { offset } => offset <= len,
            Fault::UnsupportedConfiguration => true,
            Fault::NumericOverflow { offset } => offset <= len,
        }
    }
}

/// Moving a fault twice is moving it once by the sum.
pub proof fn lemma_shifted_twice(fault: Fault, first: nat, second: nat)
    ensures
        fault.shifted(first).shifted(second) == fault.shifted(first + second),
{
}

impl View for DecodeError {
    type V = Fault;

    open spec fn view(&self) -> Fault {
        match *self {
            DecodeError::FormatViolation { offset } => Fault::FormatViolation {
                offset: offset as nat,
            },
            DecodeError::UnsupportedConfiguration => Fault::UnsupportedConfiguration,
            DecodeError::NumericOverflow { offset } => Fault::NumericOverflow {
                offset: offset as nat,
            },
        }
    }
}

impl DecodeError {
    /// Re-bases the offset of an error found in a tail of the input onto the
    /// whole input.
    pub fn shifted(self, by: usize) -> (e: DecodeError)
        requires
            match self {
                DecodeError::FormatViolation { offset } => offset + by <= usize::MAX,
                DecodeError::UnsupportedConfiguration => true,
                DecodeError::NumericOverflow { offset } => offset + by <= usize::MAX,
            },
        ensures
            e@ == self@.shifted(by as nat),
    {
        match self {
            DecodeError::FormatViolation { offset } => DecodeError::FormatViolation {
                offset: offset + by,
            },
            DecodeError::UnsupportedConfiguration => DecodeError::UnsupportedConfiguration,
            DecodeError::NumericOverflow { offset } => DecodeError::NumericOverflow {
                offset: offset + by,
            },
        }
    }
}

/// What a parser returns in the model: a value and the number of bytes it
/// took, or a fault.
pub type Parsed<T> = Result<(T, nat), Fault>;

/// A parse of a tail that starts `base` bytes into the input, seen from the
/// start of the input.
pub open spec fn located<T>(r: Parsed<T>, base: nat) -> Parsed<T> {
    match r {
        Ok((value, used)) => Ok((value, base + used)),
        Err(fault) => Err(fault.shifted(base)),
    }
}

/// A result found in a tail that starts `base` bytes into the input, seen
/// from the start of the input: a fault moves, a value stays.
pub open spec fn rebased<T>(r: Result<T, Fault>, base: nat) -> Result<T, Fault> {
    match r {
        Ok(value) => Ok(value),
        Err(fault) => Err(fault.shifted(base)),
    }
}

/// The model's reading of what an executable parser returned.
pub open spec fn outcome<T>(r: Result<(T, usize), DecodeError>) -> Parsed<T> {
    match r {
        Ok((value, used)) => Ok((value, used as nat)),
        Err(e) => Err(e@),
    }
}

} // verus!
