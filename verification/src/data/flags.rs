//! The two small bit sets of the field extractor.

use vstd::prelude::*;

verus! {

/// A fresh pair of flag sets, field flags first and backtrack flags second,
/// with no bit set.
pub fn generate_flags() -> (sets: (u8, u8))
    ensures
        sets.0 == 0,
        sets.1 == 0,
{
    let flags: u8 = 0b00000000;
    let backtrack: u8 = 0b00000000;
    (flags, backtrack)
}

/// Toggles in `flags` every bit that is set in `flag`.
pub fn update_flag(flags: &mut u8, flag: u8)
    ensures
        *final(flags) == *old(flags) ^ flag,
{
    *flags ^= flag;
}

/// Whether every bit of `flag` is set in `flags`.
pub fn check_flag(flags: &u8, flag: u8) -> (set: bool)
    ensures
        set == (*flags & flag == flag),
{
    *flags & flag == flag
}

} // verus!
