//! Error kinds reported by the signature scheme.

use vstd::prelude::*;

verus! {

/// Everything that can go wrong while generating keys, signing or verifying.
#[derive(Clone, Copy, Debug, PartialEq, Eq, Structural)]
pub enum RabinWilliamsError {
    /// The requested modulus size is below the supported minimum.
    InvalidKeySize,
    /// No suitable prime was found, or a modulus is not usable as one.
    InvalidPrime,
    /// A message representative exceeds the modulus.
    MessageTooLarge,
    /// A signature is malformed or cannot be unblinded.
    InvalidSignature,
    /// The requested modular square root does not exist.
    SquareRootModPrimeFailed,
    /// An internal arithmetic step could not be completed.
    ComputationError,
}

impl RabinWilliamsError {
    /// The text that describes this error.
    pub open spec fn message_spec(self) -> Seq<char> {
        match self {
            RabinWilliamsError::InvalidKeySize => "Invalid key size"@,
            RabinWilliamsError::InvalidPrime => "Invalid prime number"@,
            RabinWilliamsError::MessageTooLarge => "Message too large"@,
            RabinWilliamsError::InvalidSignature => "Invalid signature"@,
            RabinWilliamsError::SquareRootModPrimeFailed => {
                "Square root modulo prime computation failed"@
            },
            RabinWilliamsError::ComputationError => "Internal computation error"@,
        }
    }

    /// A short description of this error, fit for showing to a user.
    pub fn message(&self) -> (text: &'static str)
        ensures
            text@ == self.message_spec(),
    {
        match self {
            RabinWilliamsError::InvalidKeySize => "Invalid key size",
            RabinWilliamsError::InvalidPrime => "Invalid prime number",
            RabinWilliamsError::MessageTooLarge => "Message too large",
            RabinWilliamsError::InvalidSignature => "Invalid signature",
            RabinWilliamsError::SquareRootModPrimeFailed => {
                "Square root modulo prime computation failed"
            },
            RabinWilliamsError::ComputationError => "Internal computation error",
        }
    }
}

} // verus!
