//! Compaction events. The underlying engine owns compaction; this layer
//! only reports the trivial event shape, never fabricating activity.

use vstd::prelude::*;

verus! {

/// A compaction event of the underlying engine. No compaction runs in this
/// layer, so every reported quantity is the explicit zero of "nothing
/// compacted".
pub struct AgateCompactedEvent;

impl AgateCompactedEvent {
    /// No bytes were reclaimed: compaction is the engine's business.
    pub fn total_bytes_declined(&self) -> (r: u64)
        ensures
            r == 0,
    {
        0
    }

    /// The size decline is always trivial, whatever the threshold.
    pub fn is_size_declining_trivial(&self, split_check_diff: u64) -> (r: bool)
        ensures
            r == true,
    {
        let _ = split_check_diff;
        true
    }

    /// The label this event reports for its output level.
    pub fn output_level_label(&self) -> (r: String)
        ensures
            r@ == "AgateCompactedEvent::CompactedEvent"@,
    {
        crate::engine::string_clone_of_str("AgateCompactedEvent::CompactedEvent")
    }

    /// No ranges decline any bytes.
    pub fn calc_ranges_declined_bytes(
        self,
        ranges: &Vec<(Vec<u8>, u64)>,
        bytes_threshold: u64,
    ) -> (r: Vec<(u64, u64)>)
        ensures
            r@.len() == 0,
    {
        let _ = ranges;
        let _ = bytes_threshold;
        Vec::new()
    }

    /// The family this event reports.
    pub fn cf(&self) -> (r: &'static str)
        ensures
            r@ == "AgateCompactedEvent"@,
    {
        "AgateCompactedEvent"
    }
}

} // verus!
