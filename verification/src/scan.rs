//! Looking for one image in a shard: the decision taken at each entry of the tar stream.

use vstd::prelude::*;

use crate::lexical::{char_vec, compare_keys, KeyOrder};

verus! {

/// What to do with the next entry of a shard while looking for one image in it.
#[derive(PartialEq, Eq, Structural, Clone, Copy, Debug)]
pub enum ScanStep {
    /// The entry is another file: go on to the next one.
    Skip,
    /// The entry is the image looked for: read and decode it.
    Take,
    /// The entry or its path could not be read: stop, with no image.
    GiveUp,
}

/// The step for an entry whose path reads as `entry_path` (none where the entry or its path
/// could not be read), when the image looked for has path `wanted`.
pub fn scan_step(entry_path: Option<&str>, wanted: &str) -> (step: ScanStep)
    ensures
        entry_path is None ==> step == ScanStep::GiveUp,
        entry_path matches Some(p) ==> (step == ScanStep::Take <==> p@ == wanted@) && (step
            == ScanStep::Skip <==> p@ != wanted@),
{
    match entry_path {
        None => ScanStep::GiveUp,
        Some(p) => {
            if compare_keys(&char_vec(p), &char_vec(wanted)) == KeyOrder::Equal {
                ScanStep::Take
            } else {
                ScanStep::Skip
            }
        },
    }
}

} // verus!
