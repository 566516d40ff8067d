//! The failures that the store reports to its callers. Failures of reading
//! and writing files, and of the command line, arise outside this library.

use vstd::prelude::*;

verus! {

/// Every way in which an operation of the store can fail.
#[derive(Debug, Clone, Copy, PartialEq, Eq, Structural)]
pub enum VaultError {
    /// Binary data is malformed or ends before a declared field is complete.
    Deserialization,
    /// The domain is already present in the index.
    DuplicateKey,
    /// The domain is not present in the index.
    NotFound,
    /// Key derivation failed, or the ciphertext did not authenticate.
    Crypto,
}

} // verus!
