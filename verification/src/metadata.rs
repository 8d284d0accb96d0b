use vstd::prelude::*;

use crate::block::LSMBlockMeta;

verus! {

/// What one merge did to a level's block set: the blocks whose files were
/// newly written, and the blocks whose files may now be unlinked.
pub struct ManifestUpdate {
    pub added_files: Vec<LSMBlockMeta>,
    pub removed_files: Vec<LSMBlockMeta>,
}

impl ManifestUpdate {
    pub fn new(added_files: Vec<LSMBlockMeta>, removed_files: Vec<LSMBlockMeta>) -> (u:
        ManifestUpdate)
        ensures
            u.added_files@ == added_files@,
            u.removed_files@ == removed_files@,
    {
        ManifestUpdate { added_files, removed_files }
    }
}

impl Default for ManifestUpdate {
    fn default() -> (u: ManifestUpdate)
        ensures
            u.added_files@.len() == 0,
            u.removed_files@.len() == 0,
    {
        ManifestUpdate::new(Vec::new(), Vec::new())
    }
}

} // verus!
