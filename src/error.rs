use vstd::prelude::*;

verus! {

/// Failures of the protocol's operations. A proof that merely fails to verify
/// is not an error: verification reports it as `Ok(false)`.
#[derive(Debug, Clone, Copy, PartialEq, Eq, Structural)]
pub enum FriError {
    /// Two operands belong to fields with different moduli.
    FieldMismatch,
    /// The divisor is the zero element.
    DivisionByZero,
    /// The operand has no multiplicative inverse modulo the field's modulus.
    NotInvertible,
    /// A read went past the last object of the transcript.
    TranscriptExhausted,
    /// The inputs do not fit the protocol's shape (empty polynomial, odd or
    /// empty domain, inconsistent lengths, unreadable encoding).
    MalformedInput,
}

} // verus!
