//! The files of an exported store: one file for each message, named by
//! the hash of the message, holding its raw bytes compressed.

use crate::archive::{Msg, MsgView};
use crate::file::{extension_appended, gunzipped, gzipped, path_extension_append, read_gz, write_as_gz, GzError, GzFile};
use crate::hash::is_hash;
use crate::seqs::lemma_filter_next;
use crate::text::{ends_with, strip_suffix, without_last};
use vstd::prelude::*;

verus! {

/// The directory of the file that the message under `hash` is exported to.
pub open spec fn object_dir(hash: Seq<char>) -> Seq<char> {
    hash.take(2)
}

/// The name of the file that the message under `hash` is exported to.
pub open spec fn object_name(hash: Seq<char>) -> Seq<char> {
    extension_appended(extension_appended(hash, "eml"@), "gz"@)
}

/// One file of an exported store.
#[derive(Debug)]
pub struct Exported {
    /// The directory below the root of the tree.
    pub dir: String,
    /// The name of the file in that directory.
    pub name: String,
    /// What the file holds.
    pub contents: Vec<u8>,
}

impl Exported {
    /// The file that holds `msg`.
    pub open spec fn holds(self, msg: MsgView) -> bool {
        &&& self.dir@ == object_dir(msg.hash)
        &&& self.name@ == object_name(msg.hash)
        &&& gzipped(msg.raw) == Some(self.contents@)
        &&& gunzipped(self.contents@) == Some(msg.raw)
    }
}

/// The file that the message `raw`, stored under `hash`, is exported to.
pub(crate) fn export_raw(hash: &str, raw: &[u8]) -> (r: Result<Exported, GzError>)
    requires
        is_hash(hash@),
    ensures
        r is Ok <==> gzipped(raw@) is Some,
        r matches Ok(file) ==> file.holds(MsgView { hash: hash@, raw: raw@ }),
{
    let dir = hash.substring_char(0, 2).to_owned();
    let name = path_extension_append(hash, "eml");
    exported_from(dir, write_as_gz(name.as_str(), raw))
}

/// The exported file in the directory `dir` from the compressed file that
/// was made for it: the same name and contents, or, where none was made,
/// the same failure.
pub fn exported_from(dir: String, made: Result<GzFile, GzError>) -> (r: Result<Exported, GzError>)
    ensures
        match made {
            Ok(file) => r matches Ok(exported) && exported.dir@ == dir@ && exported.name@
                == file.path@ && exported.contents@ == file.contents@,
            Err(error) => r matches Err(failure) && failure.reason@ == error.reason@,
        },
{
    match made {
        Ok(file) => Ok(Exported { dir, name: file.path, contents: file.contents }),
        Err(error) => Err(error),
    }
}

/// The files of an export from what was made for each message: all of
/// them where each was made, else the first failure.
pub fn all_made(made: Vec<Result<Exported, GzError>>) -> (r: Result<Vec<Exported>, GzError>)
    ensures
        match r {
            Ok(files) => files.len() == made.len() && forall|i: int|
                0 <= i < made.len() ==> #[trigger] made[i] == Ok::<Exported, GzError>(files[i]),
            Err(failure) => exists|i: int|
                0 <= i < made.len() && #[trigger] made[i] == Err::<Exported, GzError>(failure)
                    && forall|k: int| 0 <= k < i ==> (#[trigger] made[k]) is Ok,
        },
{
    let ghost all = made@;
    let mut files: Vec<Exported> = Vec::new();
    for one in it: made
        invariant
            it.seq() == all,
            files.len() == it.index(),
            forall|k: int|
                0 <= k < it.index() ==> #[trigger] all[k] == Ok::<Exported, GzError>(files[k]),
    {
        let ghost i = it.index() as int;
        match one {
            Ok(file) => {
                files.push(file);
            },
            Err(failure) => {
                assert(all[i] == Err::<Exported, GzError>(failure));
                return Err(failure);
            },
        }
    }
    Ok(files)
}

/// A file found in a tree: its name and, where it could be read, what it
/// holds.
#[derive(Debug)]
pub struct Found {
    pub name: String,
    pub contents: Option<Vec<u8>>,
}

pub struct FoundView {
    pub name: Seq<char>,
    pub contents: Option<Seq<u8>>,
}

impl View for Found {
    type V = FoundView;

    open spec fn view(&self) -> FoundView {
        FoundView {
            name: self.name@,
            contents: match self.contents {
                Some(bytes) => Some(bytes@),
                None => None,
            },
        }
    }
}

impl DeepView for Found {
    type V = FoundView;

    open spec fn deep_view(&self) -> FoundView {
        self@
    }
}

/// Files with this ending hold exported messages.
pub open spec fn object_suffix() -> Seq<char> {
    ".eml.gz"@
}

/// `name` is the name of a file that holds an exported message.
pub open spec fn is_object_name(name: Seq<char>) -> bool {
    ends_with(name, object_suffix())
}

/// Whether `name` is the name of a file that holds an exported message.
pub fn is_object(name: &str) -> (named: bool)
    ensures
        named == is_object_name(name@),
{
    strip_suffix(name, ".eml.gz").is_some()
}

/// The message that an exported file holds, named by what stands before
/// the ending of the file's name; `None` for a file with another name, a
/// file that could not be read, and contents that do not decompress.
pub open spec fn exported_msg(file: FoundView) -> Option<MsgView> {
    if is_object_name(file.name) {
        match file.contents {
            Some(contents) => match gunzipped(contents) {
                Some(raw) => Some(
                    MsgView { hash: without_last(file.name, object_suffix().len()), raw },
                ),
                None => None,
            },
            None => None,
        }
    } else {
        None
    }
}

/// The messages that the files of a tree hold, and before them the number of
/// files that are named as exported messages are, readable or not.
pub fn found_msgs(files: &Vec<Found>) -> (found: (usize, Vec<Msg>))
    ensures
        found.0 == files.deep_view().filter(|file: FoundView| is_object_name(file.name)).len(),
        found.1.deep_view() == files.deep_view().filter_map(|file: FoundView| exported_msg(file)),
{
    let ghost all = files.deep_view();
    let ghost named = |file: FoundView| is_object_name(file.name);
    let ghost held = |file: FoundView| exported_msg(file);
    let mut n: usize = 0;
    let mut msgs: Vec<Msg> = Vec::new();
    let mut i: usize = 0;
    assert(all.take(0).filter(named) =~= Seq::empty()) by {
        reveal(Seq::filter);
    }
    assert(all.take(0).filter_map(held) =~= Seq::empty());
    while i < files.len()
        invariant
            i <= files.len(),
            all == files.deep_view(),
            named == |file: FoundView| is_object_name(file.name),
            held == |file: FoundView| exported_msg(file),
            n == all.take(i as int).filter(named).len(),
            n <= i,
            msgs.deep_view() == all.take(i as int).filter_map(held),
        decreases files.len() - i,
    {
        proof {
            lemma_filter_next(all, i as int, named);
            all.lemma_filter_map_take_succ(held, i as int);
        }
        let file = &files[i];
        assert(all[i as int] == file@);
        let ghost before = msgs.deep_view();
        match strip_suffix(file.name.as_str(), ".eml.gz") {
            Some(stem) => {
                n += 1;
                match &file.contents {
                    Some(contents) => match read_gz(contents.as_slice()) {
                        Ok(raw) => {
                            let ghost msg = MsgView { hash: stem@, raw: raw@ };
                            msgs.push(Msg { hash: stem, raw });
                            assert(msgs.deep_view() =~= before + seq![msg]);
                        },
                        Err(_) => {
                            assert(msgs.deep_view() =~= before + Seq::empty());
                        },
                    },
                    None => {
                        assert(msgs.deep_view() =~= before + Seq::empty());
                    },
                }
            },
            None => {
                assert(msgs.deep_view() =~= before + Seq::empty());
            },
        }
        i += 1;
    }
    assert(all.take(i as int) =~= all);
    (n, msgs)
}

/// The name that a message is exported under is the name of an exported
/// message, and what stands before its ending is the hash.
pub proof fn lemma_object_name(hash: Seq<char>)
    ensures
        is_object_name(object_name(hash)),
        without_last(object_name(hash), object_suffix().len()) == hash,
{
    reveal_strlit(".eml.gz");
    reveal_strlit("eml");
    reveal_strlit("gz");
    let name = object_name(hash);
    assert(name.len() == hash.len() + 7);
    assert(name.skip(name.len() - 7) =~= object_suffix());
    assert(name.take(name.len() - 7) =~= hash);
}

} // verus!
