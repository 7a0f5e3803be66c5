use vstd::prelude::*;

verus! {

/// Output written into a `std::io::Write` sink.
#[derive(Debug, Clone, Copy, Default, PartialEq, Eq, PartialOrd, Ord, Hash, Structural)]
pub struct AsWritable;

/// Output collected into a `Vec<u8>`.
#[derive(Debug, Clone, Copy, Default, PartialEq, Eq, PartialOrd, Ord, Hash, Structural)]
pub struct AsOwnedBytes;

/// Output collected into a `String`.
#[derive(Debug, Clone, Copy, Default, PartialEq, Eq, PartialOrd, Ord, Hash, Structural)]
pub struct AsOwnedString;

} // verus!
