//! Macaroon-style bearer credentials: tokens that carry an attenuating list of
//! caveats and a chained HMAC-SHA3-256 signature binding them to a root key.

pub mod caveat;
pub mod crypto;
pub mod error;
pub mod laws;
pub mod predicate;
pub mod serialization;
pub mod stroopwafel;
pub mod text;
pub mod verifiers;

pub use caveat::Caveat;
pub use error::StroopwafelError;
pub use stroopwafel::Stroopwafel;

use vstd::prelude::*;

verus! {

/// Result type of the fallible operations of this library.
pub type Result<T> = core::result::Result<T, StroopwafelError>;

} // verus!
