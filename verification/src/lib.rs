//! An open-addressing hash table using Robin Hood hashing with
//! backward-shift deletion.
//!
//! The table keeps every entry in a single contiguous bucket array whose
//! length is a power of two.  An entry's *ideal* bucket is `hash % capacity`;
//! its *probe distance* is how far past that bucket it actually sits.  Robin
//! Hood insertion displaces entries that are closer to their ideal bucket
//! ("richer") in favour of entries that are farther away, and removal shifts
//! trailing entries backward so that no tombstone is ever left behind.

use vstd::prelude::*;

pub mod bucket_math;
pub mod node;
pub mod table;

verus! {

/// The fixed-width hash value attached to every stored key.
pub type HashType = u32;

} // verus!
