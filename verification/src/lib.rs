//! Big-number and modular-arithmetic core of the POKE and INKE public-key
//! encryption schemes.
pub mod bn;
pub mod dlp;
pub mod endomorphism;
pub mod integer;
pub mod keystream;
pub mod limbs;
pub mod modular;
pub mod rand;
pub mod supplement;
pub mod utilities;

use vstd::prelude::*;

verus! {

/// The value that a fallible operation returns on success (all bits set).
pub const SUCCESS_RETVAL: u32 = 0xffff_ffffu32;

/// The value that a fallible operation returns on failure.
pub const FAILURE_RETVAL: u32 = 0u32;

} // verus!
