//! The store: the archive of messages together with the per-mailbox marks,
//! every message under the hash of its own bytes, and the file tree that a
//! store is exported to and imported from.

use crate::archive::{has_message, raw_of, Archive, ArchiveView, MsgView, Stored};
use crate::object::{
    all_made, export_raw, exported_msg, found_msgs, is_object_name, lemma_object_name, object_name, Exported,
    Found, FoundView,
};
use crate::file::{gunzipped, gzipped, GzError};
use crate::hash::{lemma_hash_shape, sha256, sha256_hex};
use crate::mail::parsed_headers;
use crate::state::State;
use vstd::prelude::*;

pub use crate::archive::{Body, Header, Msg};
pub use crate::state::LastSeenMsg;

verus! {

/// What a store holds.
pub struct StorageView {
    pub archive: ArchiveView,
    pub last_seen: Map<(Seq<char>, Seq<char>), u32>,
}

impl StorageView {
    /// The archive is well formed, and every message is stored under the
    /// hash of its own bytes.
    pub open spec fn wf(self) -> bool {
        &&& self.archive.wf()
        &&& forall|i: int|
            0 <= i < self.archive.messages.len() ==> (#[trigger] self.archive.messages[i]).hash
                == sha256_hex(self.archive.messages[i].raw)
    }

    /// The store after `raw` was ingested.
    pub open spec fn ingest(self, raw: Seq<u8>) -> StorageView {
        StorageView { archive: self.archive.store(sha256_hex(raw), raw), ..self }
    }

    /// The store after each of `raws` was ingested, in order.
    pub open spec fn ingest_all(self, raws: Seq<Seq<u8>>) -> StorageView
        decreases raws.len(),
    {
        if raws.len() == 0 {
            self
        } else {
            self.ingest_all(raws.drop_last()).ingest(raws.last())
        }
    }

    /// The mark of a mailbox, `None` where it was never seen.
    pub open spec fn last_seen_of(self, account: Seq<char>, mailbox: Seq<char>) -> Option<u32> {
        if self.last_seen.contains_key((account, mailbox)) {
            Some(self.last_seen[(account, mailbox)])
        } else {
            None
        }
    }
}

/// Messages, their header and body rows, and the marks of the mailboxes.
pub struct Storage {
    archive: Archive,
    state: State,
}

impl View for Storage {
    type V = StorageView;

    closed spec fn view(&self) -> StorageView {
        StorageView { archive: self.archive@, last_seen: self.state@ }
    }
}

/// The messages that the files of an exported tree hold, and before them
/// the number of files that are named as exported messages are, readable
/// or not.
pub fn exported(files: &Vec<Found>) -> (found: (usize, Vec<Msg>))
    ensures
        found.0 == files.deep_view().filter(|file: FoundView| is_object_name(file.name)).len(),
        found.1.deep_view() == files.deep_view().filter_map(|file: FoundView| exported_msg(file)),
{
    found_msgs(files)
}

impl Storage {
    /// What a store holds is always well formed.
    #[verifier::type_invariant]
    pub open spec fn well_formed(self) -> bool {
        self@.wf()
    }

    /// An empty store.
    pub fn new() -> (storage: Storage)
        ensures
            storage@.wf(),
            storage@.archive.messages.len() == 0,
            storage@.archive.headers.len() == 0,
            storage@.archive.bodies.len() == 0,
            storage@.last_seen == Map::<(Seq<char>, Seq<char>), u32>::empty(),
    {
        Storage { archive: Archive::new(), state: State::new() }
    }

    /// Records `uid` as the last message seen in `mailbox` of `account`. The
    /// last write wins; a lower identifier than the one recorded is not
    /// refused.
    pub fn store_last_seen(&mut self, account: &str, mailbox: &str, uid: u32)
        ensures
            final(self)@ == (StorageView {
                last_seen: old(self)@.last_seen.insert((account@, mailbox@), uid),
                ..old(self)@
            }),
            final(self)@.wf(),
    {
        proof {
            use_type_invariant(&*self);
        }
        let mut taken = Storage::new();
        std::mem::swap(self, &mut taken);
        let Storage { archive, mut state } = taken;
        state.set(account, mailbox, uid);
        *self = Storage { archive, state };
    }

    /// The last message seen in `mailbox` of `account`; `None` where the
    /// mailbox was never seen.
    pub fn fetch_last_seen(&self, account: &str, mailbox: &str) -> (uid: Option<u32>)
        ensures
            uid == self@.last_seen_of(account@, mailbox@),
    {
        self.state.get(account, mailbox)
    }

    /// Ingests one raw message: hashes it and stores it under its hash, with
    /// the header and body rows read out of it. Bytes that are stored
    /// already change nothing.
    pub fn store_msg(&mut self, raw: &[u8]) -> (stored: Stored)
        ensures
            final(self)@ == old(self)@.ingest(raw@),
            final(self)@.wf(),
            stored.hash@ == sha256_hex(raw@),
            stored.added == !has_message(old(self)@.archive.messages, sha256_hex(raw@)),
            stored.header_failure is Some <==> stored.added && parsed_headers(raw@) is None,
    {
        proof {
            use_type_invariant(&*self);
            lemma_ingest_wf(self@, raw@);
        }
        let hash = sha256(raw);
        let mut taken = Storage::new();
        std::mem::swap(self, &mut taken);
        let Storage { mut archive, state } = taken;
        let stored = archive.store(hash.as_str(), raw);
        *self = Storage { archive, state };
        stored
    }

    /// How many messages are stored.
    pub fn count_messages(&self) -> (count: u64)
        ensures
            count == self@.archive.messages.len(),
    {
        self.archive.count_messages()
    }

    /// Every stored message, in the order they came.
    pub fn fetch_messages(&self) -> (messages: Vec<Msg>)
        ensures
            messages.deep_view() == self@.archive.messages,
    {
        self.archive.fetch_messages()
    }

    /// The header rows of the message stored under `msg_hash`.
    pub fn fetch_headers(&self, msg_hash: &str) -> (headers: Vec<Header>)
        ensures
            headers.deep_view() == crate::archive::headers_of(self@.archive.headers, msg_hash@),
    {
        self.archive.fetch_headers(msg_hash)
    }

    /// The body row of the message stored under `msg_hash`, if there is one.
    pub fn fetch_body(&self, msg_hash: &str) -> (body: Option<Body>)
        ensures
            body.deep_view() == ({
                let rows = crate::archive::bodies_of(self@.archive.bodies, msg_hash@);
                if rows.len() == 0 {
                    None
                } else {
                    Some(rows.last())
                }
            }),
    {
        self.archive.fetch_body(msg_hash)
    }

    /// Ingests the messages that the files of an exported tree hold, in the
    /// order of the files. Each message is stored under the hash of the
    /// bytes that its file decompresses to.
    pub fn import(&mut self, files: &Vec<Found>)
        ensures
            final(self)@ == old(self)@.ingest_all(
                files.deep_view().filter_map(|file: FoundView| exported_msg(file)).map_values(
                    |msg: MsgView| raw_of(msg),
                ),
            ),
            final(self)@.wf(),
    {
        let (_, msgs) = exported(files);
        let ghost raws = msgs.deep_view().map_values(|msg: MsgView| raw_of(msg));
        let mut i: usize = 0;
        assert(raws.take(0) =~= Seq::empty());
        proof {
            use_type_invariant(&*self);
        }
        while i < msgs.len()
            invariant
                i <= msgs.len(),
                raws == msgs.deep_view().map_values(|msg: MsgView| raw_of(msg)),
                self@ == old(self)@.ingest_all(raws.take(i as int)),
                self@.wf(),
            decreases msgs.len() - i,
        {
            assert(raws.take(i + 1).drop_last() =~= raws.take(i as int));
            assert(raws.take(i + 1).last() == msgs[i as int]@.raw);
            self.store_msg(msgs[i].raw.as_slice());
            i += 1;
        }
        assert(raws.take(i as int) =~= raws);
    }

    /// The files of the exported store: one for each message, in order, in the
    /// directory named by the first two characters of its hash, named by the
    /// hash with `.eml.gz` behind it, holding the raw bytes compressed. None for
    /// a store without messages. Fails with the first message not compressed.
    pub fn export(&self) -> (r: Result<Vec<Exported>, GzError>)
        ensures
            r is Ok <==> forall|i: int|
                0 <= i < self@.archive.messages.len() ==> gzipped(
                    (#[trigger] self@.archive.messages[i]).raw,
                ) is Some,
            r matches Ok(files) ==> files.len() == self@.archive.messages.len() && forall|i: int|
                0 <= i < files.len() ==> (#[trigger] files[i]).holds(self@.archive.messages[i]),
    {
        proof {
            use_type_invariant(self);
        }
        let msgs = self.archive.messages();
        let mut made: Vec<Result<Exported, GzError>> = Vec::new();
        let mut failed = false;
        let mut i: usize = 0;
        while i < msgs.len() && !failed
            invariant
                i <= msgs.len(),
                msgs.deep_view() == self@.archive.messages,
                self@.wf(),
                made.len() == i,
                forall|k: int|
                    0 <= k < i ==> ((#[trigger] made[k]) matches Ok(file) ==> file.holds(
                        self@.archive.messages[k],
                    )),
                forall|k: int|
                    0 <= k < i ==> ((#[trigger] made[k]) is Ok <==> gzipped(
                        self@.archive.messages[k].raw,
                    ) is Some),
                failed ==> i > 0 && made[i - 1] is Err,
            decreases msgs.len() - i,
        {
            assert(msgs.deep_view()[i as int] == msgs[i as int]@);
            proof {
                lemma_hash_shape(self@.archive.messages[i as int].raw);
            }
            let one = export_raw(msgs[i].hash.as_str(), msgs[i].raw.as_slice());
            match &one {
                Ok(_) => {},
                Err(_) => {
                    failed = true;
                },
            }
            made.push(one);
            i += 1;
        }
        let r = all_made(made);
        proof {
            if r is Err {
                let k = choose|k: int|
                    0 <= k < made.len() && #[trigger] made[k] == Err::<Exported, GzError>(r->Err_0);
                assert(gzipped(self@.archive.messages[k].raw) is None);
            }
            if r is Ok {
                let files = r->Ok_0;
                if failed {
                    assert(made[i - 1] == Ok::<Exported, GzError>(files[i - 1]));
                }
                assert forall|k: int| 0 <= k < self@.archive.messages.len() implies gzipped(
                    (#[trigger] self@.archive.messages[k]).raw,
                ) is Some by {
                    assert(made[k] == Ok::<Exported, GzError>(files[k]));
                }
                assert forall|k: int| 0 <= k < files.len() implies (#[trigger] files[k]).holds(
                    self@.archive.messages[k],
                ) by {
                    assert(made[k] == Ok::<Exported, GzError>(files[k]));
                }
            }
        }
        r
    }
}

/// Ingesting keeps a store well formed.
pub proof fn lemma_ingest_wf(store: StorageView, raw: Seq<u8>)
    requires
        store.wf(),
    ensures
        store.ingest(raw).wf(),
{
    crate::archive::lemma_store_wf(store.archive, sha256_hex(raw), raw);
}

/// Among messages with different hashes, one hash selects one message at
/// most, and exactly one where a message is stored under it.
pub proof fn lemma_one_under_hash(messages: Seq<MsgView>, hash: Seq<char>)
    requires
        forall|i: int, j: int| 0 <= i < j < messages.len() ==> messages[i].hash != messages[j].hash,
    ensures
        messages.filter(|msg: MsgView| msg.hash == hash).len() == if has_message(messages, hash) {
            1nat
        } else {
            0nat
        },
    decreases messages.len(),
{
    reveal(Seq::filter);
    if messages.len() > 0 {
        let before = messages.drop_last();
        lemma_one_under_hash(before, hash);
        if has_message(before, hash) {
            let k = choose|k: int| 0 <= k < before.len() && before[k].hash == hash;
            assert(messages[k].hash == hash);
            assert(messages[k].hash != messages[messages.len() - 1].hash);
        } else if has_message(messages, hash) {
            let k = choose|k: int| 0 <= k < messages.len() && messages[k].hash == hash;
            if k < before.len() {
                assert(before[k].hash == hash);
            }
        }
        if messages.last().hash == hash {
            assert(messages[messages.len() - 1].hash == hash);
        }
    }
}

/// Ingesting the same bytes twice leaves the store as ingesting them once
/// left it: one message row under their hash, and the header and body rows
/// of the first time, none of them twice.
pub proof fn lemma_ingest_idempotent(store: StorageView, raw: Seq<u8>)
    requires
        store.wf(),
    ensures
        store.ingest(raw).ingest(raw) == store.ingest(raw),
        store.ingest(raw).wf(),
        store.ingest(raw).archive.messages.filter(
            |msg: MsgView| msg.hash == sha256_hex(raw),
        ).len() == 1,
        store.ingest(raw).archive.headers.no_duplicates(),
        crate::archive::bodies_of(store.ingest(raw).archive.bodies, sha256_hex(raw)).len() <= 1,
{
    let hash = sha256_hex(raw);
    let once = store.ingest(raw);
    crate::archive::lemma_store_idempotent(store.archive, hash, raw);
    lemma_ingest_wf(store, raw);
    assert(once.wf());
    assert(once.archive.headers.no_duplicates()) by {
        crate::archive::lemma_headers_unique(once.archive.messages);
    }
    assert(crate::archive::bodies_of(once.archive.bodies, hash).len() <= 1) by {
        crate::archive::lemma_bodies_of_message(once.archive.messages, hash);
    }
    assert(once.archive.messages.filter(|msg: MsgView| msg.hash == hash).len() == 1) by {
        lemma_one_under_hash(once.archive.messages, hash);
    }
}

/// The store without messages and marks.
pub open spec fn empty_store() -> StorageView {
    StorageView {
        archive: ArchiveView {
            messages: Seq::empty(),
            headers: Seq::empty(),
            bodies: Seq::empty(),
        },
        last_seen: Map::empty(),
    }
}

/// `files` is what an export of `messages` reads back as: for each message,
/// in order, the file of its name with the contents that decompress to it.
pub open spec fn is_export_of(files: Seq<FoundView>, messages: Seq<MsgView>) -> bool {
    &&& files.len() == messages.len()
    &&& forall|i: int|
        0 <= i < files.len() ==> {
            &&& (#[trigger] files[i]).name == object_name(messages[i].hash)
            &&& files[i].contents matches Some(contents)
            &&& gunzipped(contents) == Some(messages[i].raw)
        }
}

/// The messages read back from an export are the messages exported.
pub proof fn lemma_exported_are_messages(files: Seq<FoundView>, messages: Seq<MsgView>)
    requires
        is_export_of(files, messages),
    ensures
        files.filter_map(|file: FoundView| exported_msg(file)) == messages,
    decreases files.len(),
{
    let held = |file: FoundView| exported_msg(file);
    if files.len() > 0 {
        let n = files.len() - 1;
        assert(is_export_of(files.drop_last(), messages.drop_last())) by {
            assert forall|i: int| 0 <= i < n implies {
                &&& (#[trigger] files.drop_last()[i]).name == object_name(
                    messages.drop_last()[i].hash,
                )
                &&& files.drop_last()[i].contents matches Some(contents)
                &&& gunzipped(contents) == Some(messages.drop_last()[i].raw)
            } by {
                assert(files.drop_last()[i] == files[i]);
            }
        }
        lemma_exported_are_messages(files.drop_last(), messages.drop_last());
        lemma_object_name(messages[n].hash);
        assert(files.last() == files[n]);
        assert(exported_msg(files.last()) == Some(messages[n]));
        assert(messages.drop_last() + seq![messages[n]] =~= messages);
    } else {
        assert(files.filter_map(held) =~= messages);
    }
}

/// Ingesting the raw bytes of the messages of a well-formed store, in
/// order, into an empty store builds the archive of that store again.
pub proof fn lemma_reingest(store: StorageView, n: int)
    requires
        store.wf(),
        0 <= n <= store.archive.messages.len(),
    ensures
        empty_store().ingest_all(
            store.archive.messages.take(n).map_values(|msg: MsgView| raw_of(msg)),
        ).archive == (ArchiveView {
            messages: store.archive.messages.take(n),
            headers: crate::archive::all_header_rows(store.archive.messages.take(n)),
            bodies: crate::archive::all_body_rows(store.archive.messages.take(n)),
        }),
    decreases n,
{
    let messages = store.archive.messages;
    let raws = messages.take(n).map_values(|msg: MsgView| raw_of(msg));
    if n == 0 {
        assert(messages.take(0) =~= Seq::empty());
        assert(raws =~= Seq::empty());
        assert(crate::archive::all_header_rows(messages.take(0)) =~= Seq::empty());
        assert(crate::archive::all_body_rows(messages.take(0)) =~= Seq::empty());
    } else {
        lemma_reingest(store, n - 1);
        let last = messages[n - 1];
        let before = messages.take(n - 1);
        assert(messages.take(n).drop_last() =~= before);
        assert(messages.take(n).last() == last);
        assert(raws.drop_last() =~= before.map_values(|msg: MsgView| raw_of(msg)));
        assert(raws.last() == last.raw);
        assert(last.hash == sha256_hex(last.raw));
        assert(!has_message(before, last.hash)) by {
            if has_message(before, last.hash) {
                let k = choose|k: int| 0 <= k < before.len() && before[k].hash == last.hash;
                assert(messages[k].hash != messages[n - 1].hash);
            }
        }
        assert(before.push(MsgView { hash: last.hash, raw: last.raw }) =~= messages.take(n));
    }
}

/// Export followed by import into an empty store gives the store back:
/// the same messages under the same hashes, with the same header and body
/// rows.
pub proof fn lemma_export_import(store: StorageView, files: Seq<FoundView>)
    requires
        store.wf(),
        is_export_of(files, store.archive.messages),
    ensures
        empty_store().ingest_all(
            files.filter_map(|file: FoundView| exported_msg(file)).map_values(
                |msg: MsgView| raw_of(msg),
            ),
        ).archive == store.archive,
{
    lemma_exported_are_messages(files, store.archive.messages);
    lemma_reingest(store, store.archive.messages.len() as int);
    assert(store.archive.messages.take(store.archive.messages.len() as int)
        =~= store.archive.messages);
}

} // verus!
