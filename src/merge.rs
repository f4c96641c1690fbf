//! Merge policies: how the values buffered for one key collapse into one.
use vstd::prelude::*;

verus! {

/// The bytes of each value.
pub open spec fn values_view(values: Seq<&[u8]>) -> Seq<Seq<u8>> {
    values.map_values(|s: &[u8]| s@)
}

/// A merge policy. Given the values pushed for one key, newest first, it
/// gives the single value to keep, or `None` to drop the key.
pub trait Merger {
    /// The value kept for `key` with `values` (newest first), if any.
    spec fn merged(&self, key: Seq<u8>, values: Seq<Seq<u8>>) -> Option<Seq<u8>>;

    /// Merges the values of one key, newest first.
    fn merge(&self, key: &[u8], values: &Vec<&[u8]>) -> (r: Option<Vec<u8>>)
        requires
            values@.len() >= 1,
        ensures
            match r {
                Some(v) => self.merged(key@, values_view(values@)) == Some(v@),
                None => self.merged(key@, values_view(values@)) is None,
            },
    ;
}

/// The policy that keeps what is there: for a key pushed once, its value;
/// for a key pushed more than once, the newest value.
pub struct NoopMerger {}

impl Merger for NoopMerger {
    open spec fn merged(&self, key: Seq<u8>, values: Seq<Seq<u8>>) -> Option<Seq<u8>> {
        Some(values[0])
    }

    fn merge(&self, key: &[u8], values: &Vec<&[u8]>) -> (r: Option<Vec<u8>>) {
        Some(vstd::slice::slice_to_vec(values[0]))
    }
}

} // verus!
