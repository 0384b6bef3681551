//! capillary offers a [`Dictionary`] data structure: a key-value store keyed
//! by *sequences* of key parts, with search by partial key.
//!
//! Besides whole-key lookup, a [`Lookup`] cursor can be fed key parts one at a
//! time. As long as the parts fed so far are the beginning of some stored key,
//! the cursor advances; the moment a part fits no stored key, the cursor
//! resets and reports an error, so the next call starts a fresh search. After
//! each step the cursor can be asked whether the parts fed so far already
//! resolve to a stored value. This is the mechanism needed for streaming
//! find-and-replace: scan input part by part, advance the cursor, and fire a
//! substitution the instant a complete match is recognized.

use vstd::prelude::*;

pub mod dict;
mod store;

pub use dict::Dictionary;
pub use dict::Lookup;

verus! {

/// Error indicating that a key part led to no edge from the cursor's current
/// position, so the cursor was reset to its default state.
pub struct InvalidKeyPartErr;

} // verus!
