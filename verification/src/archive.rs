//! The archive of messages: every message once, under its hash, with the
//! header and body rows read out of it.

use crate::mail::{body_text, extracted_body_text, parse_error_text, parse_headers, parsed_headers};
use crate::object::{exported_msg, found_msgs, Found, FoundView};
use crate::seqs::{distinct, lemma_distinct, lemma_filter_all, lemma_filter_next, lemma_filter_none};
use crate::text::str_eq;
use vstd::prelude::*;

verus! {

/// A stored message: the raw bytes under their hash.
#[derive(Debug, PartialEq, Eq, PartialOrd, Ord)]
pub struct Msg {
    pub hash: String,
    pub raw: Vec<u8>,
}

/// One header field of a stored message.
#[derive(Debug, PartialEq, Eq, PartialOrd, Ord)]
pub struct Header {
    pub msg_hash: String,
    pub name: String,
    pub value: String,
}

/// The plain-text body of a stored message.
#[derive(Debug, PartialEq)]
pub struct Body {
    pub msg_hash: String,
    pub text: Option<String>,
}

pub struct MsgView {
    pub hash: Seq<char>,
    pub raw: Seq<u8>,
}

pub struct HeaderView {
    pub msg_hash: Seq<char>,
    pub name: Seq<char>,
    pub value: Seq<char>,
}

pub struct BodyView {
    pub msg_hash: Seq<char>,
    pub text: Option<Seq<char>>,
}

impl View for Msg {
    type V = MsgView;

    open spec fn view(&self) -> MsgView {
        MsgView { hash: self.hash@, raw: self.raw@ }
    }
}

impl DeepView for Msg {
    type V = MsgView;

    open spec fn deep_view(&self) -> MsgView {
        self@
    }
}

impl View for Header {
    type V = HeaderView;

    open spec fn view(&self) -> HeaderView {
        HeaderView { msg_hash: self.msg_hash@, name: self.name@, value: self.value@ }
    }
}

impl DeepView for Header {
    type V = HeaderView;

    open spec fn deep_view(&self) -> HeaderView {
        self@
    }
}

impl View for Body {
    type V = BodyView;

    open spec fn view(&self) -> BodyView {
        BodyView { msg_hash: self.msg_hash@, text: self.text.deep_view() }
    }
}

impl DeepView for Body {
    type V = BodyView;

    open spec fn deep_view(&self) -> BodyView {
        self@
    }
}

impl Clone for Msg {
    fn clone(&self) -> (copy: Msg)
        ensures
            copy@ == self@,
    {
        Msg { hash: self.hash.clone(), raw: self.raw.clone() }
    }
}

impl Clone for Header {
    fn clone(&self) -> (copy: Header)
        ensures
            copy@ == self@,
    {
        Header {
            msg_hash: self.msg_hash.clone(),
            name: self.name.clone(),
            value: self.value.clone(),
        }
    }
}

impl Clone for Body {
    fn clone(&self) -> (copy: Body)
        ensures
            copy@ == self@,
    {
        let text = match &self.text {
            Some(t) => Some(t.clone()),
            None => None,
        };
        Body { msg_hash: self.msg_hash.clone(), text }
    }
}

/// Some message of `messages` is stored under `hash`.
pub open spec fn has_message(messages: Seq<MsgView>, hash: Seq<char>) -> bool {
    exists|i: int| 0 <= i < messages.len() && #[trigger] messages[i].hash == hash
}

/// The header row for one field of the message stored under `hash`.
pub open spec fn header_row(hash: Seq<char>, field: (Seq<char>, Seq<char>)) -> HeaderView {
    HeaderView { msg_hash: hash, name: field.0, value: field.1 }
}

/// The header rows for the fields read out of a message: one for each
/// distinct field, none where the header block did not parse.
pub open spec fn header_rows_of(
    hash: Seq<char>,
    fields: Option<Seq<(Seq<char>, Seq<char>)>>,
) -> Seq<HeaderView> {
    match fields {
        Some(fields) => distinct(fields).map_values(
            |field: (Seq<char>, Seq<char>)| header_row(hash, field),
        ),
        None => Seq::empty(),
    }
}

/// The body rows for the text read out of a message: one where a text was
/// found.
pub open spec fn body_rows_of(hash: Seq<char>, text: Option<Seq<char>>) -> Seq<BodyView> {
    match text {
        Some(text) => seq![BodyView { msg_hash: hash, text: Some(text) }],
        None => Seq::empty(),
    }
}

/// The header rows that a message adds: those for the fields of its raw
/// bytes.
pub open spec fn header_rows(hash: Seq<char>, raw: Seq<u8>) -> Seq<HeaderView> {
    header_rows_of(hash, parsed_headers(raw))
}

/// The body rows that a message adds: those for the plain text of its raw
/// bytes.
pub open spec fn body_rows(hash: Seq<char>, raw: Seq<u8>) -> Seq<BodyView> {
    body_rows_of(hash, extracted_body_text(raw))
}

/// The header table of an archive that holds `messages`.
pub open spec fn all_header_rows(messages: Seq<MsgView>) -> Seq<HeaderView>
    decreases messages.len(),
{
    if messages.len() == 0 {
        Seq::empty()
    } else {
        all_header_rows(messages.drop_last()) + header_rows(
            messages.last().hash,
            messages.last().raw,
        )
    }
}

/// The body table of an archive that holds `messages`.
pub open spec fn all_body_rows(messages: Seq<MsgView>) -> Seq<BodyView>
    decreases messages.len(),
{
    if messages.len() == 0 {
        Seq::empty()
    } else {
        all_body_rows(messages.drop_last()) + body_rows(messages.last().hash, messages.last().raw)
    }
}

/// The rows of `headers` that belong to the message stored under `hash`.
pub open spec fn headers_of(headers: Seq<HeaderView>, hash: Seq<char>) -> Seq<HeaderView> {
    headers.filter(|row: HeaderView| row.msg_hash == hash)
}

/// The rows of `bodies` that belong to the message stored under `hash`.
pub open spec fn bodies_of(bodies: Seq<BodyView>, hash: Seq<char>) -> Seq<BodyView> {
    bodies.filter(|row: BodyView| row.msg_hash == hash)
}

/// The three tables of an archive.
pub struct ArchiveView {
    pub messages: Seq<MsgView>,
    pub headers: Seq<HeaderView>,
    pub bodies: Seq<BodyView>,
}

impl ArchiveView {
    /// No hash is stored twice, and the header and body tables hold exactly
    /// the rows of the stored messages, in the order the messages came.
    pub open spec fn wf(self) -> bool {
        &&& forall|i: int, j: int|
            0 <= i < j < self.messages.len() ==> self.messages[i].hash != self.messages[j].hash
        &&& self.headers == all_header_rows(self.messages)
        &&& self.bodies == all_body_rows(self.messages)
    }

    /// The archive after each of `msgs` was stored under its hash, in order.
    pub open spec fn store_all(self, msgs: Seq<MsgView>) -> ArchiveView
        decreases msgs.len(),
    {
        if msgs.len() == 0 {
            self
        } else {
            self.store_all(msgs.drop_last()).store(msgs.last().hash, msgs.last().raw)
        }
    }

    /// The archive after `raw` was stored under `hash`: unchanged where the
    /// hash is known, else one message more, with its rows.
    pub open spec fn store(self, hash: Seq<char>, raw: Seq<u8>) -> ArchiveView {
        if has_message(self.messages, hash) {
            self
        } else {
            ArchiveView {
                messages: self.messages.push(MsgView { hash, raw }),
                headers: self.headers + header_rows(hash, raw),
                bodies: self.bodies + body_rows(hash, raw),
            }
        }
    }
}

/// What storing one message did.
pub struct Stored {
    /// The hash the message is stored under.
    pub hash: String,
    /// Whether the message was new to the archive.
    pub added: bool,
    /// Why no header rows were written, where the header block of a new
    /// message did not parse.
    pub header_failure: Option<String>,
}

/// The raw bytes of a message.
pub open spec fn raw_of(msg: MsgView) -> Seq<u8> {
    msg.raw
}

/// How many messages `dumped` hands out at most.
pub const DUMPED_AT_MOST: usize = 5;

/// The first messages that the files of a tree hold, five at most.
pub fn dumped(files: &Vec<Found>) -> (msgs: Vec<Msg>)
    ensures
        msgs.deep_view() == ({
            let held = files.deep_view().filter_map(|file: FoundView| exported_msg(file));
            if held.len() <= DUMPED_AT_MOST {
                held
            } else {
                held.take(DUMPED_AT_MOST as int)
            }
        }),
{
    let (_, mut msgs) = found_msgs(files);
    let ghost held = msgs.deep_view();
    if msgs.len() > DUMPED_AT_MOST {
        msgs.truncate(DUMPED_AT_MOST);
        assert(msgs.deep_view() =~= held.take(DUMPED_AT_MOST as int));
    }
    msgs
}

/// Messages by hash, with their header and body rows.
pub struct Archive {
    messages: Vec<Msg>,
    headers: Vec<Header>,
    bodies: Vec<Body>,
}

impl View for Archive {
    type V = ArchiveView;

    closed spec fn view(&self) -> ArchiveView {
        ArchiveView {
            messages: self.messages.deep_view(),
            headers: self.headers.deep_view(),
            bodies: self.bodies.deep_view(),
        }
    }
}

/// Looks `hash` up among `messages`.
fn position(messages: &Vec<Msg>, hash: &str) -> (found: Option<usize>)
    ensures
        match found {
            Some(i) => i < messages.len() && messages[i as int].hash@ == hash@,
            None => true,
        },
        found is Some <==> has_message(messages.deep_view(), hash@),
{
    let mut i: usize = 0;
    while i < messages.len()
        invariant
            i <= messages.len(),
            forall|k: int| 0 <= k < i ==> messages[k].hash@ != hash@,
        decreases messages.len() - i,
    {
        if str_eq(messages[i].hash.as_str(), hash) {
            assert(messages.deep_view()[i as int].hash == hash@);
            return Some(i);
        }
        i += 1;
    }
    assert forall|k: int| 0 <= k < messages.deep_view().len() implies messages.deep_view()[k].hash
        != hash@ by {
        assert(messages.deep_view()[k].hash == messages[k].hash@);
    }
    None
}

/// Adds the message row for `raw` under `hash`, unless a message is stored
/// under that hash already. Says whether the row was added.
fn tx_insert_msg(messages: &mut Vec<Msg>, hash: &str, raw: &[u8]) -> (added: bool)
    ensures
        added == !has_message(old(messages).deep_view(), hash@),
        final(messages).deep_view() == if added {
            old(messages).deep_view().push(MsgView { hash: hash@, raw: raw@ })
        } else {
            old(messages).deep_view()
        },
{
    if position(messages, hash).is_some() {
        return false;
    }
    let msg = Msg { hash: hash.to_owned(), raw: vstd::slice::slice_to_vec(raw) };
    messages.push(msg);
    assert(messages.deep_view() =~= old(messages).deep_view().push(
        MsgView { hash: hash@, raw: raw@ },
    ));
    true
}

/// Adds the header row `(msg_hash, name, value)`, unless the rows from
/// `start` on hold it already.
fn tx_insert_header(
    headers: &mut Vec<Header>,
    start: usize,
    msg_hash: &str,
    name: &str,
    value: &str,
)
    requires
        start <= old(headers).len(),
    ensures
        ({
            let row = HeaderView { msg_hash: msg_hash@, name: name@, value: value@ };
            final(headers).deep_view() == if old(headers).deep_view().skip(start as int).contains(
                row,
            ) {
                old(headers).deep_view()
            } else {
                old(headers).deep_view().push(row)
            }
        }),
{
    let ghost row = HeaderView { msg_hash: msg_hash@, name: name@, value: value@ };
    let ghost rows = headers.deep_view();
    let mut i: usize = start;
    while i < headers.len()
        invariant
            start <= i <= headers.len(),
            rows == headers.deep_view(),
            row == (HeaderView { msg_hash: msg_hash@, name: name@, value: value@ }),
            forall|k: int| start <= k < i ==> rows[k] != row,
        decreases headers.len() - i,
    {
        let held = &headers[i];
        assert(rows[i as int] == held@);
        if str_eq(held.msg_hash.as_str(), msg_hash) && str_eq(held.name.as_str(), name) && str_eq(
            held.value.as_str(),
            value,
        ) {
            assert(rows.skip(start as int)[i - start] == row);
            return ;
        }
        i += 1;
    }
    assert(!rows.skip(start as int).contains(row));
    headers.push(
        Header { msg_hash: msg_hash.to_owned(), name: name.to_owned(), value: value.to_owned() },
    );
    assert(headers.deep_view() =~= rows.push(row));
}

/// Adds the body row of the message stored under `msg_hash`.
fn tx_insert_body(bodies: &mut Vec<Body>, msg_hash: &str, text: String)
    ensures
        final(bodies).deep_view() == old(bodies).deep_view().push(
            BodyView { msg_hash: msg_hash@, text: Some(text@) },
        ),
{
    bodies.push(Body { msg_hash: msg_hash.to_owned(), text: Some(text) });
    assert(bodies.deep_view() =~= old(bodies).deep_view().push(
        BodyView { msg_hash: msg_hash@, text: Some(text@) },
    ));
}

/// Adds the rows of `fields` that the rows from `start` on do not hold yet.
fn tx_insert_headers(
    headers: &mut Vec<Header>,
    msg_hash: &str,
    fields: &Vec<(String, String)>,
)
    ensures
        final(headers).deep_view() == old(headers).deep_view() + distinct(
            fields.deep_view(),
        ).map_values(|field: (Seq<char>, Seq<char>)| header_row(msg_hash@, field)),
{
    let start = headers.len();
    let ghost before = headers.deep_view();
    let ghost all = fields.deep_view();
    let ghost row_of = |field: (Seq<char>, Seq<char>)| header_row(msg_hash@, field);
    let mut k: usize = 0;
    assert(distinct(all.take(0)).map_values(row_of) =~= Seq::empty());
    assert(headers.deep_view() =~= before + distinct(all.take(0)).map_values(row_of));
    while k < fields.len()
        invariant
            k <= fields.len(),
            all == fields.deep_view(),
            start == before.len(),
            row_of == |field: (Seq<char>, Seq<char>)| header_row(msg_hash@, field),
            headers.deep_view() == before + distinct(all.take(k as int)).map_values(row_of),
        decreases fields.len() - k,
    {
        let ghost held = distinct(all.take(k as int));
        let ghost field = all[k as int];
        let ghost row = header_row(msg_hash@, field);
        proof {
            assert(all.take(k + 1).drop_last() =~= all.take(k as int));
            assert(all.take(k + 1).last() == field);
            assert(headers.deep_view().skip(start as int) =~= held.map_values(row_of));
            if held.contains(field) {
                let j = choose|j: int| 0 <= j < held.len() && held[j] == field;
                assert(held.map_values(row_of)[j] == row);
            }
            if held.map_values(row_of).contains(row) {
                let j = choose|j: int|
                    0 <= j < held.map_values(row_of).len() && held.map_values(row_of)[j] == row;
                assert(held[j] == field);
            }
            assert(held.push(field).map_values(row_of) =~= held.map_values(row_of).push(row));
        }
        let name = &fields[k].0;
        let value = &fields[k].1;
        tx_insert_header(headers, start, msg_hash, name.as_str(), value.as_str());
        k += 1;
        assert(headers.deep_view() =~= before + distinct(all.take(k as int)).map_values(row_of));
    }
    assert(all.take(k as int) =~= all);
}

/// Stores one message as one unit: the message row, then the header rows,
/// then the body row. Nothing is written for a hash that is known already;
/// a header block that does not parse leaves the message without header
/// rows, and the failure is handed back.
fn tx_insert(
    messages: &mut Vec<Msg>,
    headers: &mut Vec<Header>,
    bodies: &mut Vec<Body>,
    hash: &str,
    raw: &[u8],
) -> (stored: Stored)
    ensures
        stored.hash@ == hash@,
        stored.added == !has_message(old(messages).deep_view(), hash@),
        stored.header_failure is Some <==> stored.added && parsed_headers(raw@) is None,
        stored.added ==> final(messages).deep_view() == old(messages).deep_view().push(
            MsgView { hash: hash@, raw: raw@ },
        ) && final(headers).deep_view() == old(headers).deep_view() + header_rows(hash@, raw@)
            && final(bodies).deep_view() == old(bodies).deep_view() + body_rows(hash@, raw@),
        !stored.added ==> final(messages).deep_view() == old(messages).deep_view()
            && final(headers).deep_view() == old(headers).deep_view()
            && final(bodies).deep_view() == old(bodies).deep_view(),
{
    if !tx_insert_msg(messages, hash, raw) {
        return Stored { hash: hash.to_owned(), added: false, header_failure: None };
    }
    let (fields, header_failure) = match parse_headers(raw) {
        Ok(fields) => (Some(fields), None),
        Err(error) => (None, Some(parse_error_text(&error))),
    };
    let mut read = rows(hash, &fields, body_text(raw));
    let ghost held = headers.deep_view();
    let ghost added = read.headers.deep_view();
    headers.append(&mut read.headers);
    assert(headers.deep_view() =~= held + added);
    let ghost held = bodies.deep_view();
    let ghost added = read.bodies.deep_view();
    bodies.append(&mut read.bodies);
    assert(bodies.deep_view() =~= held + added);
    Stored { hash: hash.to_owned(), added: true, header_failure }
}

/// The header and body rows of one message.
pub struct Rows {
    pub headers: Vec<Header>,
    pub bodies: Vec<Body>,
}

/// The fields of a message, where its header block parsed.
pub open spec fn fields_view(fields: Option<Vec<(String, String)>>) -> Option<
    Seq<(Seq<char>, Seq<char>)>,
> {
    match fields {
        Some(fields) => Some(fields.deep_view()),
        None => None,
    }
}

/// The rows to store for the message under `hash` from what was read out of
/// it: a header row for each distinct field, in the order the fields first
/// occur, and a body row where a text was found.
pub fn rows(hash: &str, fields: &Option<Vec<(String, String)>>, text: Option<String>) -> (read: Rows)
    ensures
        read.headers.deep_view() == header_rows_of(hash@, fields_view(*fields)),
        read.bodies.deep_view() == body_rows_of(hash@, text.deep_view()),
{
    let mut headers: Vec<Header> = Vec::new();
    let mut bodies: Vec<Body> = Vec::new();
    match fields {
        Some(fields) => {
            tx_insert_headers(&mut headers, hash, fields);
            assert(headers.deep_view() =~= header_rows_of(hash@, Some(fields.deep_view())));
        },
        None => {
            assert(headers.deep_view() =~= header_rows_of(hash@, None));
        },
    }
    match text {
        Some(text) => {
            tx_insert_body(&mut bodies, hash, text);
            assert(bodies.deep_view() =~= body_rows_of(hash@, Some(text@)));
        },
        None => {
            assert(bodies.deep_view() =~= body_rows_of(hash@, None));
        },
    }
    Rows { headers, bodies }
}

/// Storing a message keeps an archive well formed.
pub proof fn lemma_store_wf(archive: ArchiveView, hash: Seq<char>, raw: Seq<u8>)
    requires
        archive.wf(),
    ensures
        archive.store(hash, raw).wf(),
{
    if !has_message(archive.messages, hash) {
        let after = archive.store(hash, raw);
        assert(after.messages.drop_last() =~= archive.messages);
        assert forall|i: int, j: int| 0 <= i < j < after.messages.len() implies after.messages[i].hash
            != after.messages[j].hash by {
            if j == archive.messages.len() {
                assert(archive.messages[i].hash != hash);
            }
        }
    }
}

impl Archive {
    /// The tables of an archive are always well formed.
    #[verifier::type_invariant]
    pub open spec fn well_formed(self) -> bool {
        self@.wf()
    }

    /// An archive without messages.
    pub fn new() -> (archive: Archive)
        ensures
            archive@.wf(),
            archive@.messages.len() == 0,
            archive@.headers.len() == 0,
            archive@.bodies.len() == 0,
    {
        let messages: Vec<Msg> = Vec::new();
        let headers: Vec<Header> = Vec::new();
        let bodies: Vec<Body> = Vec::new();
        assert(headers.deep_view() =~= all_header_rows(messages.deep_view()));
        assert(bodies.deep_view() =~= all_body_rows(messages.deep_view()));
        Archive { messages, headers, bodies }
    }

    /// The stored messages, in the order they came.
    pub fn messages(&self) -> (messages: &Vec<Msg>)
        ensures
            messages.deep_view() == self@.messages,
    {
        &self.messages
    }

    /// Whether a message is stored under `hash`.
    pub fn contains(&self, hash: &str) -> (known: bool)
        ensures
            known == has_message(self@.messages, hash@),
    {
        position(&self.messages, hash).is_some()
    }

    /// Stores `raw` under `hash` with the rows read out of it. A hash that is
    /// known already keeps what it has.
    pub fn store(&mut self, hash: &str, raw: &[u8]) -> (stored: Stored)
        ensures
            final(self)@ == old(self)@.store(hash@, raw@),
            final(self)@.wf(),
            stored.hash@ == hash@,
            stored.added == !has_message(old(self)@.messages, hash@),
            stored.header_failure is Some <==> stored.added && parsed_headers(raw@) is None,
    {
        proof {
            use_type_invariant(&*self);
            lemma_store_wf(self@, hash@, raw@);
        }
        let mut taken = Archive::new();
        std::mem::swap(self, &mut taken);
        let Archive { mut messages, mut headers, mut bodies } = taken;
        let stored = tx_insert(&mut messages, &mut headers, &mut bodies, hash, raw);
        *self = Archive { messages, headers, bodies };
        stored
    }

    /// Stores the first messages that the files of a tree hold, five at
    /// most, each under the name of its file without the ending.
    pub fn insert_dumped(&mut self, files: &Vec<Found>)
        ensures
            final(self)@ == old(self)@.store_all(
                ({
                    let held = files.deep_view().filter_map(|file: FoundView| exported_msg(file));
                    if held.len() <= DUMPED_AT_MOST {
                        held
                    } else {
                        held.take(DUMPED_AT_MOST as int)
                    }
                }),
            ),
            final(self)@.wf(),
    {
        let msgs = dumped(files);
        let ghost all = msgs.deep_view();
        let mut i: usize = 0;
        assert(all.take(0) =~= Seq::empty());
        proof {
            use_type_invariant(&*self);
        }
        while i < msgs.len()
            invariant
                i <= msgs.len(),
                all == msgs.deep_view(),
                self@ == old(self)@.store_all(all.take(i as int)),
                self@.wf(),
            decreases msgs.len() - i,
        {
            assert(all.take(i + 1).drop_last() =~= all.take(i as int));
            assert(all.take(i + 1).last() == msgs[i as int]@);
            self.store(msgs[i].hash.as_str(), msgs[i].raw.as_slice());
            i += 1;
        }
        assert(all.take(i as int) =~= all);
    }

    /// How many messages are stored.
    pub fn count_messages(&self) -> (count: u64)
        ensures
            count == self@.messages.len(),
    {
        self.messages.len() as u64
    }

    /// Every stored message, in the order they came.
    pub fn fetch_messages(&self) -> (messages: Vec<Msg>)
        ensures
            messages.deep_view() == self@.messages,
    {
        let mut messages: Vec<Msg> = Vec::new();
        let mut i: usize = 0;
        while i < self.messages.len()
            invariant
                i <= self.messages.len(),
                messages.deep_view() == self.messages.deep_view().take(i as int),
            decreases self.messages.len() - i,
        {
            let ghost before = messages.deep_view();
            let copy = self.messages[i].clone();
            messages.push(copy);
            assert(messages.deep_view() =~= before.push(self.messages[i as int]@));
            i += 1;
            assert(messages.deep_view() =~= self.messages.deep_view().take(i as int));
        }
        assert(self.messages.deep_view().take(i as int) =~= self.messages.deep_view());
        messages
    }

    /// The header rows of the message stored under `msg_hash`; none where
    /// no such message is stored.
    pub fn fetch_headers(&self, msg_hash: &str) -> (headers: Vec<Header>)
        ensures
            headers.deep_view() == headers_of(self@.headers, msg_hash@),
    {
        let ghost rows = self.headers.deep_view();
        let ghost pred = |row: HeaderView| row.msg_hash == msg_hash@;
        let mut headers: Vec<Header> = Vec::new();
        let mut i: usize = 0;
        assert(rows.take(0).filter(pred) =~= Seq::empty()) by {
            reveal(Seq::filter);
        }
        while i < self.headers.len()
            invariant
                i <= self.headers.len(),
                rows == self.headers.deep_view(),
                pred == |row: HeaderView| row.msg_hash == msg_hash@,
                headers.deep_view() == rows.take(i as int).filter(pred),
            decreases self.headers.len() - i,
        {
            proof {
                lemma_filter_next(rows, i as int, pred);
            }
            if str_eq(self.headers[i].msg_hash.as_str(), msg_hash) {
                let ghost before = headers.deep_view();
                let copy = self.headers[i].clone();
                headers.push(copy);
                assert(headers.deep_view() =~= before.push(rows[i as int]));
            }
            i += 1;
        }
        assert(rows.take(i as int) =~= rows);
        headers
    }

    /// The body row of the message stored under `msg_hash`, if there is one.
    pub fn fetch_body(&self, msg_hash: &str) -> (body: Option<Body>)
        ensures
            body.deep_view() == ({
                let rows = bodies_of(self@.bodies, msg_hash@);
                if rows.len() == 0 {
                    None
                } else {
                    Some(rows.last())
                }
            }),
    {
        let ghost rows = self.bodies.deep_view();
        let ghost pred = |row: BodyView| row.msg_hash == msg_hash@;
        let mut body: Option<Body> = None;
        let mut i: usize = 0;
        assert(rows.take(0).filter(pred) =~= Seq::empty()) by {
            reveal(Seq::filter);
        }
        while i < self.bodies.len()
            invariant
                i <= self.bodies.len(),
                rows == self.bodies.deep_view(),
                pred == |row: BodyView| row.msg_hash == msg_hash@,
                body.deep_view() == ({
                    let found = rows.take(i as int).filter(pred);
                    if found.len() == 0 {
                        None
                    } else {
                        Some(found.last())
                    }
                }),
            decreases self.bodies.len() - i,
        {
            proof {
                lemma_filter_next(rows, i as int, pred);
            }
            if str_eq(self.bodies[i].msg_hash.as_str(), msg_hash) {
                body = Some(self.bodies[i].clone());
            }
            i += 1;
        }
        assert(rows.take(i as int) =~= rows);
        body
    }
}

/// Storing a message a second time changes nothing: the archive holds it
/// once, with the rows of the first time.
pub proof fn lemma_store_idempotent(archive: ArchiveView, hash: Seq<char>, raw: Seq<u8>)
    ensures
        archive.store(hash, raw).store(hash, raw) == archive.store(hash, raw),
        has_message(archive.store(hash, raw).messages, hash),
{
    let once = archive.store(hash, raw);
    if has_message(archive.messages, hash) {
    } else {
        assert(once.messages[archive.messages.len() as int].hash == hash);
    }
}

/// Storing a message takes no message away and leaves every row in place.
pub proof fn lemma_store_keeps(archive: ArchiveView, hash: Seq<char>, raw: Seq<u8>)
    ensures
        archive.messages.is_prefix_of(archive.store(hash, raw).messages),
        archive.headers.is_prefix_of(archive.store(hash, raw).headers),
        archive.bodies.is_prefix_of(archive.store(hash, raw).bodies),
        forall|known: Seq<char>|
            has_message(archive.messages, known) ==> has_message(
                archive.store(hash, raw).messages,
                known,
            ),
{
    let after = archive.store(hash, raw);
    assert forall|known: Seq<char>| has_message(archive.messages, known) implies has_message(
        after.messages,
        known,
    ) by {
        let i = choose|i: int| 0 <= i < archive.messages.len() && archive.messages[i].hash == known;
        assert(after.messages[i].hash == known);
    }
}

/// Every header row that a message adds carries the hash of the message.
pub proof fn lemma_header_rows_hash(hash: Seq<char>, raw: Seq<u8>)
    ensures
        forall|i: int|
            0 <= i < header_rows(hash, raw).len() ==> (#[trigger] header_rows(
                hash,
                raw,
            )[i]).msg_hash == hash,
{
}

/// The header rows under the hash of a stored message are the rows read out
/// of its raw bytes; under a hash that is not stored there are none.
pub proof fn lemma_headers_of_message(messages: Seq<MsgView>, hash: Seq<char>)
    requires
        forall|i: int, j: int| 0 <= i < j < messages.len() ==> messages[i].hash != messages[j].hash,
    ensures
        !has_message(messages, hash) ==> headers_of(all_header_rows(messages), hash)
            == Seq::<HeaderView>::empty(),
        forall|i: int|
            0 <= i < messages.len() && (#[trigger] messages[i]).hash == hash ==> headers_of(
                all_header_rows(messages),
                hash,
            ) == header_rows(hash, messages[i].raw),
    decreases messages.len(),
{
    let pred = |row: HeaderView| row.msg_hash == hash;
    if messages.len() == 0 {
        lemma_filter_none(all_header_rows(messages), pred);
    } else {
        let before = messages.drop_last();
        let last = messages.last();
        let added = header_rows(last.hash, last.raw);
        lemma_headers_of_message(before, hash);
        Seq::filter_distributes_over_add(all_header_rows(before), added, pred);
        lemma_header_rows_hash(last.hash, last.raw);
        if last.hash == hash {
            lemma_filter_all(added, pred);
            assert(!has_message(before, hash)) by {
                if has_message(before, hash) {
                    let k = choose|k: int| 0 <= k < before.len() && before[k].hash == hash;
                    assert(messages[k].hash == messages[messages.len() - 1].hash);
                }
            }
            assert(Seq::<HeaderView>::empty() + added =~= added);
        } else {
            lemma_filter_none(added, pred);
            assert(headers_of(all_header_rows(before), hash) + Seq::<HeaderView>::empty()
                =~= headers_of(all_header_rows(before), hash));
            if has_message(messages, hash) {
                let k = choose|k: int| 0 <= k < messages.len() && messages[k].hash == hash;
                assert(before[k].hash == hash);
            }
        }
        assert forall|i: int|
            0 <= i < messages.len() && (#[trigger] messages[i]).hash == hash implies headers_of(
            all_header_rows(messages),
            hash,
        ) == header_rows(hash, messages[i].raw) by {
            if i < before.len() {
                assert(before[i].hash == hash);
            }
        }
    }
}

/// The body rows under the hash of a stored message are the rows read out of
/// its raw bytes, one at most; under a hash that is not stored there are none.
pub proof fn lemma_bodies_of_message(messages: Seq<MsgView>, hash: Seq<char>)
    requires
        forall|i: int, j: int| 0 <= i < j < messages.len() ==> messages[i].hash != messages[j].hash,
    ensures
        bodies_of(all_body_rows(messages), hash).len() <= 1,
        !has_message(messages, hash) ==> bodies_of(all_body_rows(messages), hash)
            == Seq::<BodyView>::empty(),
        forall|i: int|
            0 <= i < messages.len() && (#[trigger] messages[i]).hash == hash ==> bodies_of(
                all_body_rows(messages),
                hash,
            ) == body_rows(hash, messages[i].raw),
    decreases messages.len(),
{
    let pred = |row: BodyView| row.msg_hash == hash;
    if messages.len() == 0 {
        lemma_filter_none(all_body_rows(messages), pred);
    } else {
        let before = messages.drop_last();
        let last = messages.last();
        let added = body_rows(last.hash, last.raw);
        lemma_bodies_of_message(before, hash);
        Seq::filter_distributes_over_add(all_body_rows(before), added, pred);
        if last.hash == hash {
            lemma_filter_all(added, pred);
            assert(!has_message(before, hash)) by {
                if has_message(before, hash) {
                    let k = choose|k: int| 0 <= k < before.len() && before[k].hash == hash;
                    assert(messages[k].hash == messages[messages.len() - 1].hash);
                }
            }
            assert(Seq::<BodyView>::empty() + added =~= added);
        } else {
            lemma_filter_none(added, pred);
            assert(bodies_of(all_body_rows(before), hash) + Seq::<BodyView>::empty() =~= bodies_of(
                all_body_rows(before),
                hash,
            ));
            if has_message(messages, hash) {
                let k = choose|k: int| 0 <= k < messages.len() && messages[k].hash == hash;
                assert(before[k].hash == hash);
            }
        }
        assert forall|i: int|
            0 <= i < messages.len() && (#[trigger] messages[i]).hash == hash implies bodies_of(
            all_body_rows(messages),
            hash,
        ) == body_rows(hash, messages[i].raw) by {
            if i < before.len() {
                assert(before[i].hash == hash);
            }
        }
    }
}

/// Every row of the header table belongs to a stored message.
pub proof fn lemma_header_rows_belong(messages: Seq<MsgView>)
    ensures
        forall|k: int|
            0 <= k < all_header_rows(messages).len() ==> has_message(
                messages,
                (#[trigger] all_header_rows(messages)[k]).msg_hash,
            ),
    decreases messages.len(),
{
    if messages.len() > 0 {
        let before = messages.drop_last();
        let last = messages.last();
        lemma_header_rows_belong(before);
        lemma_header_rows_hash(last.hash, last.raw);
        assert forall|k: int| 0 <= k < all_header_rows(messages).len() implies has_message(
            messages,
            (#[trigger] all_header_rows(messages)[k]).msg_hash,
        ) by {
            let row = all_header_rows(messages)[k];
            if k < all_header_rows(before).len() {
                assert(row == all_header_rows(before)[k]);
                let i = choose|i: int| 0 <= i < before.len() && before[i].hash == row.msg_hash;
                assert(messages[i].hash == row.msg_hash);
            } else {
                assert(row == header_rows(last.hash, last.raw)[k - all_header_rows(before).len()]);
                assert(messages[messages.len() - 1].hash == row.msg_hash);
            }
        }
    }
}

/// The rows that one message adds are all different.
pub proof fn lemma_header_rows_differ(hash: Seq<char>, raw: Seq<u8>)
    ensures
        header_rows(hash, raw).no_duplicates(),
{
    match parsed_headers(raw) {
        Some(fields) => {
            lemma_distinct(fields);
            let kept = distinct(fields);
            let rows = header_rows(hash, raw);
            assert forall|i: int, j: int|
                0 <= i < rows.len() && 0 <= j < rows.len() && i != j implies rows[i] != rows[j] by {
                assert(rows[i] == header_row(hash, kept[i]));
                assert(rows[j] == header_row(hash, kept[j]));
                assert(kept[i] != kept[j]);
                if rows[i] == rows[j] {
                    assert(kept[i].0 == kept[j].0);
                    assert(kept[i].1 == kept[j].1);
                }
            }
        },
        None => {},
    }
}

/// In a well-formed archive no header row occurs twice: a field that a
/// message repeats is stored once, and fields of different messages differ
/// in the hash.
pub proof fn lemma_headers_unique(messages: Seq<MsgView>)
    requires
        forall|i: int, j: int| 0 <= i < j < messages.len() ==> messages[i].hash != messages[j].hash,
    ensures
        all_header_rows(messages).no_duplicates(),
    decreases messages.len(),
{
    if messages.len() > 0 {
        let before = messages.drop_last();
        let last = messages.last();
        let held = all_header_rows(before);
        let added = header_rows(last.hash, last.raw);
        lemma_headers_unique(before);
        lemma_header_rows_belong(before);
        lemma_header_rows_differ(last.hash, last.raw);
        lemma_header_rows_hash(last.hash, last.raw);
        let all = all_header_rows(messages);
        assert forall|i: int, j: int|
            0 <= i < all.len() && 0 <= j < all.len() && i != j implies all[i] != all[j] by {
            if i < held.len() && j < held.len() {
                assert(all[i] == held[i] && all[j] == held[j]);
            } else if i >= held.len() && j >= held.len() {
                assert(all[i] == added[i - held.len()] && all[j] == added[j - held.len()]);
            } else {
                let (a, b) = if i < held.len() {
                    (i, j)
                } else {
                    (j, i)
                };
                assert(all[a] == held[a]);
                assert(all[b] == added[b - held.len()]);
                assert(has_message(before, held[a].msg_hash));
                let k = choose|k: int| 0 <= k < before.len() && before[k].hash == held[a].msg_hash;
                assert(messages[k].hash != messages[messages.len() - 1].hash);
            }
        }
    }
}

} // verus!
