//! Classified, recoverable errors of the heap and the virtual machine.

use vstd::prelude::*;

verus! {

/// Broad classification of an error, mirroring the groups the runtime
/// distinguishes: value conversions, heap access, operand shape,
/// arithmetic, and malformed instruction streams.
#[derive(Copy, Clone, Debug, PartialEq, Eq, Structural)]
pub enum ErrorKind {
    Conversion,
    Heap,
    Type,
    Arithmetic,
    Vm,
}

/// Every recoverable failure of the runtime. Execution halts and the error
/// propagates unmodified to the caller; there is no internal retry.
#[derive(Copy, Clone, Debug, PartialEq, Eq, Structural)]
pub enum VMError {
    /// A handle's index lies outside the heap's slot arrays.
    InvalidHandle,
    /// `DIV` saw a zero divisor, in integer or in float representation.
    DivideByZero,
    /// `LIST` named a source register beyond the register file.
    NotEnoughElements,
    /// `CAR` on something that is neither a pair nor nil.
    CarNotPair,
    /// `CDR` on something that is neither a pair nor nil.
    CdrNotPair,
    /// `XAR`/`XDR` on something that is neither a pair nor nil.
    XarNotPair,
    /// The instruction stream held an unrecognized opcode byte.
    InvalidOpcode(u8),
    /// An integer was read out of a value of another shape.
    NotAnInt,
    /// A number was read out of a value that is not numeric.
    NotAFloat,
    /// A conversion source was not an integer value.
    ConversionMismatch,
    /// An integer did not fit the narrower conversion target.
    ConversionOutOfRange,
}

impl VMError {
    /// The classification of this error.
    pub fn kind(&self) -> (k: ErrorKind)
        ensures
            k == self.kind_spec(),
    {
        match self {
            VMError::InvalidHandle => ErrorKind::Heap,
            VMError::DivideByZero => ErrorKind::Arithmetic,
            VMError::NotEnoughElements => ErrorKind::Vm,
            VMError::CarNotPair => ErrorKind::Type,
            VMError::CdrNotPair => ErrorKind::Type,
            VMError::XarNotPair => ErrorKind::Type,
            VMError::InvalidOpcode(_) => ErrorKind::Vm,
            VMError::NotAnInt => ErrorKind::Vm,
            VMError::NotAFloat => ErrorKind::Vm,
            VMError::ConversionMismatch => ErrorKind::Conversion,
            VMError::ConversionOutOfRange => ErrorKind::Conversion,
        }
    }

    pub open spec fn kind_spec(&self) -> ErrorKind {
        match self {
            VMError::InvalidHandle => ErrorKind::Heap,
            VMError::DivideByZero => ErrorKind::Arithmetic,
            VMError::NotEnoughElements => ErrorKind::Vm,
            VMError::CarNotPair => ErrorKind::Type,
            VMError::CdrNotPair => ErrorKind::Type,
            VMError::XarNotPair => ErrorKind::Type,
            VMError::InvalidOpcode(_) => ErrorKind::Vm,
            VMError::NotAnInt => ErrorKind::Vm,
            VMError::NotAFloat => ErrorKind::Vm,
            VMError::ConversionMismatch => ErrorKind::Conversion,
            VMError::ConversionOutOfRange => ErrorKind::Conversion,
        }
    }

    /// A human-readable message for the host to present; the heap and VM
    /// themselves never consult it.
    pub fn display_string(&self) -> &'static str {
        match self {
            VMError::InvalidHandle => "[Heap]: Invalid object handle!",
            VMError::DivideByZero => "[VM]: Divide by zero error.",
            VMError::NotEnoughElements => "[VM]: List: Not enough elements.",
            VMError::CarNotPair => "[VM]: CAR: Not a pair/conscell.",
            VMError::CdrNotPair => "[VM]: CDR: Not a pair/conscell.",
            VMError::XarNotPair => "[VM]: XAR: Not a pair/conscell.",
            VMError::InvalidOpcode(_) => "[VM]: Invalid opcode.",
            VMError::NotAnInt => "[VM]: Not an int.",
            VMError::NotAFloat => "[VM]: Not a float.",
            VMError::ConversionMismatch => "[Conversion]: Not an integer value.",
            VMError::ConversionOutOfRange => "[Conversion]: Integer out of range.",
        }
    }
}

/// Result type used throughout the runtime.
pub type VMResult<T> = Result<T, VMError>;

} // verus!
