//! Table properties. The underlying engine collects none for this layer, so
//! the collection is empty and every lookup reports "not supported" rather
//! than a fabricated zero.

use vstd::prelude::*;

verus! {

/// User-collected table properties; this layer collects none.
pub struct UserCollectedProperties;

impl UserCollectedProperties {
    /// No property is ever present.
    pub fn get(&self, index: &[u8]) -> (r: Option<&[u8]>)
        ensures
            r is None,
    {
        let _ = index;
        None
    }

    /// No size or key estimate is available.
    pub fn approximate_size_and_keys(&self, start: &[u8], end: &[u8]) -> (r: Option<
        (usize, usize),
    >)
        ensures
            r is None,
    {
        let _ = start;
        let _ = end;
        None
    }
}

/// The (always empty) collection of table properties.
pub struct TablePropertiesCollection;

impl TablePropertiesCollection {
    /// Visit every collected property: there are none, so the callback is
    /// never called.
    pub fn iter_user_collected_properties<F: FnMut(&UserCollectedProperties) -> bool>(
        &self,
        f: F,
    ) {
        let _ = f;
    }
}

} // verus!
