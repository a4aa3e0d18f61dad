//! Inserting: the first messages of a dumped tree are stored in an archive.

use crate::archive::{Archive, DUMPED_AT_MOST};
use crate::object::{exported_msg, Found, FoundView};
use vstd::prelude::*;

verus! {

/// The command that inserts dumped messages.
pub struct Cmd {}

impl Cmd {
    /// Stores the first messages that the files found in the tree hold, five
    /// at most, each under the name of its file without the ending.
    pub fn run(&self, archive: &mut Archive, files: &Vec<Found>)
        ensures
            final(archive)@ == old(archive)@.store_all(
                ({
                    let held = files.deep_view().filter_map(|file: FoundView| exported_msg(file));
                    if held.len() <= DUMPED_AT_MOST {
                        held
                    } else {
                        held.take(DUMPED_AT_MOST as int)
                    }
                }),
            ),
            final(archive)@.wf(),
    {
        proof {
            use_type_invariant(&*archive);
        }
        archive.insert_dumped(files);
    }
}

} // verus!
