//! Importing: the messages of an exported tree are ingested.

use crate::archive::{raw_of, MsgView};
use crate::object::{exported_msg, Found, FoundView};
use crate::data::Storage;
use vstd::prelude::*;

verus! {

/// The command that imports an exported tree.
pub struct Cmd {
    /// The root of the tree.
    pub obj_dir: String,
}

impl Cmd {
    /// Ingests the messages that the files found below the root hold.
    pub fn run(&self, db: &mut Storage, files: &Vec<Found>)
        ensures
            final(db)@ == old(db)@.ingest_all(
                files.deep_view().filter_map(|file: FoundView| exported_msg(file)).map_values(
                    |msg: MsgView| raw_of(msg),
                ),
            ),
            final(db)@.wf(),
    {
        proof {
            use_type_invariant(&*db);
        }
        db.import(files);
    }
}

} // verus!
