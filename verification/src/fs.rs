//! Walking a file tree: which path to look at next, and what to do with
//! what was found there. Looking at the path is the caller's part.

use vstd::prelude::*;

verus! {

/// What stands at a path.
pub enum Entry<P> {
    /// A file.
    File,
    /// A directory, with the paths of its entries.
    Dir(Vec<P>),
    /// Neither, or nothing that could be read.
    Other,
}

/// The paths of a walk that were found and not looked at yet. The last one
/// is the next to look at.
pub struct FilePaths<P> {
    frontier: Vec<P>,
}

impl<P> View for FilePaths<P> {
    type V = Seq<P>;

    closed spec fn view(&self) -> Seq<P> {
        self.frontier@
    }
}

/// The paths left to look at after `entry` was found at a path.
pub open spec fn frontier_after<P>(frontier: Seq<P>, entry: Entry<P>) -> Seq<P> {
    match entry {
        Entry::Dir(entries) => frontier + entries@,
        _ => frontier,
    }
}

/// A walk of the tree below `path`.
pub fn find_files<P>(path: P) -> (walk: FilePaths<P>)
    ensures
        walk@ == seq![path],
{
    FilePaths::find(path)
}

impl<P> FilePaths<P> {
    /// A walk that has the root to look at.
    pub fn find(root: P) -> (walk: FilePaths<P>)
        ensures
            walk@ == seq![root],
    {
        let mut frontier = Vec::new();
        frontier.push(root);
        FilePaths { frontier }
    }

    /// The next path to look at, taken off the walk; `None` when the walk
    /// is over.
    pub fn pop(&mut self) -> (path: Option<P>)
        ensures
            match path {
                Some(p) => old(self)@.len() > 0 && p == old(self)@.last() && final(self)@ == old(
                    self,
                )@.drop_last(),
                None => old(self)@.len() == 0 && final(self)@ == old(self)@,
            },
    {
        self.frontier.pop()
    }

    /// Takes in what was found at `path`: a file is handed back as found,
    /// the entries of a directory join the paths to look at, anything else
    /// is passed over.
    pub fn found(&mut self, path: P, entry: Entry<P>) -> (file: Option<P>)
        ensures
            final(self)@ == frontier_after(old(self)@, entry),
            file == if entry is File {
                Some(path)
            } else {
                None
            },
    {
        match entry {
            Entry::File => Some(path),
            Entry::Dir(mut entries) => {
                self.frontier.append(&mut entries);
                None
            },
            Entry::Other => None,
        }
    }
}

} // verus!
