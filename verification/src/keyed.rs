//! The capabilities that the containers ask of what they store.

use vstd::prelude::*;

verus! {

/// A record that is ordered by an unsigned integer key.
///
/// The containers compare records by `key` alone: two records with the same
/// key are ties, whatever else they hold.
pub trait Keyed: Sized {
    /// The key that orders this record.
    spec fn key(&self) -> u64;

    /// Reads the key.
    fn key_of(&self) -> (k: u64)
        ensures
            k == self.key(),
    ;
}

/// A record with a one-line rendering for diagnostic dumps.
pub trait Labeled: Sized {
    /// The characters of the rendering.
    spec fn label(&self) -> Seq<char>;

    /// Renders the record.
    fn to_label(&self) -> (s: String)
        ensures
            s@ == self.label(),
    ;
}

} // verus!
