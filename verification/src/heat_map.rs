//! The heat-map view's data: the entries of the current scan, kept for an
//! alternate renderer that draws them as size-proportional bars.  Rendering
//! itself happens outside the library.

use vstd::prelude::*;

use crate::scanner::FileEntry;

verus! {

/// The entries the heat map draws, in scan order.
pub struct HeatMap {
    pub entries: Vec<FileEntry>,
}

impl HeatMap {
    /// A heat map with nothing to draw yet.
    pub fn new() -> (h: HeatMap)
        ensures
            h.entries@ == Seq::<FileEntry>::empty(),
    {
        HeatMap { entries: Vec::new() }
    }
}

} // verus!
