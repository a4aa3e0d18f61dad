//! What is asked of a mail server and what is made of its answers: the
//! range of a fetch, and the messages among the entries that come back.

use crate::text::{decimal, push_decimal};
use vstd::prelude::*;
use vstd::string::StringExecFns;

verus! {

/// What can go wrong in a session with a mail server.
#[derive(Debug)]
pub enum Error {
    Bye,
    TimedOut,
    BadFolderPath(String),
    FetchInvalidMissingBody { uid: u32 },
    FetchInvalidMissingHeaders { uid: u32 },
    FetchInvalidMissingUid,
    UidIsZero,
    IdleEventChannelHungUp,
    /// A message did not parse; the text is the parser's.
    MailParse(String),
    /// The protocol failed; the text is the client's.
    Imap(String),
    /// The connection failed; the text is the system's.
    Io(String),
}

impl Clone for Error {
    fn clone(&self) -> (copy: Error)
        ensures
            copy == *self,
    {
        match self {
            Error::Bye => Error::Bye,
            Error::TimedOut => Error::TimedOut,
            Error::BadFolderPath(path) => Error::BadFolderPath(path.clone()),
            Error::FetchInvalidMissingBody { uid } => Error::FetchInvalidMissingBody { uid: *uid },
            Error::FetchInvalidMissingHeaders { uid } => Error::FetchInvalidMissingHeaders {
                uid: *uid,
            },
            Error::FetchInvalidMissingUid => Error::FetchInvalidMissingUid,
            Error::UidIsZero => Error::UidIsZero,
            Error::IdleEventChannelHungUp => Error::IdleEventChannelHungUp,
            Error::MailParse(reason) => Error::MailParse(reason.clone()),
            Error::Imap(reason) => Error::Imap(reason.clone()),
            Error::Io(reason) => Error::Io(reason.clone()),
        }
    }
}

impl Error {
    /// The text of the error.
    pub open spec fn text(self) -> Seq<char> {
        match self {
            Error::Bye => "Bye"@,
            Error::TimedOut => "TimedOut"@,
            Error::BadFolderPath(path) => "BadFolderPath: "@ + path@,
            Error::FetchInvalidMissingBody { uid } => "MsgInvalidMissingBody uid="@ + decimal(
                uid as nat,
            ),
            Error::FetchInvalidMissingHeaders { uid } => "FetchInvalidMissingHeaders uid="@
                + decimal(uid as nat),
            Error::FetchInvalidMissingUid => "FetchInvalidMissingUid"@,
            Error::UidIsZero => "UidIsZero"@,
            Error::IdleEventChannelHungUp => "Idle event channel hung-up"@,
            Error::MailParse(reason) => "MailParse: "@ + reason@,
            Error::Imap(reason) => "Imap error: "@ + reason@,
            Error::Io(reason) => "IO error: "@ + reason@,
        }
    }

    /// The text of the error.
    pub fn message(&self) -> (message: String)
        ensures
            message@ == self.text(),
    {
        match self {
            Error::Bye => "Bye".to_owned(),
            Error::TimedOut => "TimedOut".to_owned(),
            Error::BadFolderPath(path) => {
                let mut message = "BadFolderPath: ".to_owned();
                message.append(path.as_str());
                message
            },
            Error::FetchInvalidMissingBody { uid } => {
                let mut message = "MsgInvalidMissingBody uid=".to_owned();
                push_decimal(&mut message, *uid);
                message
            },
            Error::FetchInvalidMissingHeaders { uid } => {
                let mut message = "FetchInvalidMissingHeaders uid=".to_owned();
                push_decimal(&mut message, *uid);
                message
            },
            Error::FetchInvalidMissingUid => "FetchInvalidMissingUid".to_owned(),
            Error::UidIsZero => "UidIsZero".to_owned(),
            Error::IdleEventChannelHungUp => "Idle event channel hung-up".to_owned(),
            Error::MailParse(reason) => {
                let mut message = "MailParse: ".to_owned();
                message.append(reason.as_str());
                message
            },
            Error::Imap(reason) => {
                let mut message = "Imap error: ".to_owned();
                message.append(reason.as_str());
                message
            },
            Error::Io(reason) => {
                let mut message = "IO error: ".to_owned();
                message.append(reason.as_str());
                message
            },
        }
    }
}

/// A fetched message: its identifier in the mailbox, its place in the
/// mailbox, and its raw bytes.
#[derive(Debug, PartialEq, Eq)]
pub struct Msg {
    pub uid: u32,
    pub ord: u32,
    pub raw: Vec<u8>,
}

pub struct MsgView {
    pub uid: u32,
    pub ord: u32,
    pub raw: Seq<u8>,
}

impl View for Msg {
    type V = MsgView;

    open spec fn view(&self) -> MsgView {
        MsgView { uid: self.uid, ord: self.ord, raw: self.raw@ }
    }
}

impl DeepView for Msg {
    type V = MsgView;

    open spec fn deep_view(&self) -> MsgView {
        self@
    }
}

/// One entry of the answer to a fetch, as the server sent it.
pub struct Fetched {
    /// The identifier, where the server gave one.
    pub uid: Option<u32>,
    /// The place of the message in the mailbox.
    pub message: u32,
    /// The raw bytes, where the server gave them.
    pub body: Option<Vec<u8>>,
}

pub struct FetchedView {
    pub uid: Option<u32>,
    pub message: u32,
    pub body: Option<Seq<u8>>,
}

impl View for Fetched {
    type V = FetchedView;

    open spec fn view(&self) -> FetchedView {
        FetchedView {
            uid: self.uid,
            message: self.message,
            body: match self.body {
                Some(bytes) => Some(bytes@),
                None => None,
            },
        }
    }
}

impl DeepView for Fetched {
    type V = FetchedView;

    open spec fn deep_view(&self) -> FetchedView {
        self@
    }
}

/// What is fetched of each message: the raw message and its identifier.
pub const FETCH_QUERY: &'static str = "(RFC822 UID)";

/// The first identifier of a fetch that begins with `beginning_with`:
/// the first message of all where nothing is given.
pub open spec fn first_of(beginning_with: Option<u32>) -> u32 {
    match beginning_with {
        Some(uid) => uid,
        None => 1,
    }
}

/// The range of a fetch: every message from `lo` on. Identifiers start at
/// 1, so `lo` is never 0.
pub struct UidRange {
    lo: u32,
}

impl View for UidRange {
    type V = u32;

    closed spec fn view(&self) -> u32 {
        self.lo
    }
}

/// The message that an entry of the answer gives, where it has both an
/// identifier and a body.
pub open spec fn msg_of(entry: Option<FetchedView>) -> Option<MsgView> {
    match entry {
        Some(fetched) => match (fetched.uid, fetched.body) {
            (Some(uid), Some(raw)) => Some(MsgView { uid, ord: fetched.message, raw }),
            _ => None,
        },
        None => None,
    }
}

/// The entries of an answer, in which a failed entry is `None`.
pub open spec fn entries_of(fetches: Seq<Result<Fetched, Error>>) -> Seq<Option<FetchedView>> {
    fetches.map_values(
        |fetch: Result<Fetched, Error>|
            match fetch {
                Ok(fetched) => Some(fetched@),
                Err(_) => None,
            },
    )
}

impl UidRange {
    #[verifier::type_invariant]
    spec fn starts_at_one(self) -> bool {
        self.lo >= 1
    }

    /// The first identifier of the range.
    pub fn lo(&self) -> (lo: u32)
        ensures
            lo == self@,
            lo >= 1,
    {
        proof {
            use_type_invariant(self);
        }
        self.lo
    }

    /// The range as it is written in a fetch: the first identifier, a
    /// colon, and a star for the last message there is.
    pub fn sequence_set(&self) -> (set: String)
        ensures
            set@ == decimal(self@ as nat) + ":*"@,
    {
        let mut set = String::new();
        push_decimal(&mut set, self.lo);
        set.append(":*");
        assert(set@ =~= decimal(self@ as nat) + ":*"@);
        set
    }

    /// Whether a message with the identifier `uid` is in the range.
    pub fn contains(&self, uid: u32) -> (inside: bool)
        ensures
            inside == (uid >= self@),
    {
        uid >= self.lo
    }

    /// The message that one entry of an answer gives: none where the entry
    /// lacks the identifier or the body.
    pub fn msg(&self, fetched: Fetched) -> (msg: Option<Msg>)
        ensures
            msg.deep_view() == msg_of(Some(fetched@)),
    {
        match fetched {
            Fetched { uid: Some(uid), message, body: Some(raw) } => Some(
                Msg { uid, ord: message, raw },
            ),
            _ => None,
        }
    }

    /// The messages of an answer: one for each entry that came without
    /// failure and has both an identifier and a body, in the order of the
    /// entries. What the range asks of the server is not checked again.
    pub fn msgs(&self, fetches: &Vec<Result<Fetched, Error>>) -> (msgs: Vec<Msg>)
        ensures
            msgs.deep_view() == entries_of(fetches@).filter_map(
                |entry: Option<FetchedView>| msg_of(entry),
            ),
    {
        let ghost entries = entries_of(fetches@);
        let ghost pick = |entry: Option<FetchedView>| msg_of(entry);
        let mut msgs: Vec<Msg> = Vec::new();
        let mut i: usize = 0;
        assert(entries.take(0).filter_map(pick) =~= Seq::empty());
        while i < fetches.len()
            invariant
                i <= fetches.len(),
                entries == entries_of(fetches@),
                pick == |entry: Option<FetchedView>| msg_of(entry),
                msgs.deep_view() == entries.take(i as int).filter_map(pick),
            decreases fetches.len() - i,
        {
            let ghost before = msgs.deep_view();
            proof {
                entries.lemma_filter_map_take_succ(pick, i as int);
            }
            match &fetches[i] {
                Ok(Fetched { uid: Some(uid), message, body: Some(raw) }) => {
                    let ghost msg = MsgView { uid: *uid, ord: *message, raw: raw@ };
                    msgs.push(Msg { uid: *uid, ord: *message, raw: raw.clone() });
                    assert(msgs.deep_view() =~= before + seq![msg]);
                },
                _ => {
                    assert(msgs.deep_view() =~= before + Seq::empty());
                },
            }
            i += 1;
        }
        assert(entries.take(entries.len() as int) =~= entries);
        msgs
    }
}

/// The range of a fetch that begins with `beginning_with`, or with the
/// first message where nothing is given. Identifiers start at 1: a fetch
/// that is to begin with 0 is refused here, before anything is asked of
/// the server.
pub fn fetch_msgs(beginning_with: Option<u32>) -> (r: Result<UidRange, Error>)
    ensures
        match r {
            Ok(range) => beginning_with != Some(0u32) && range@ == first_of(beginning_with),
            Err(error) => beginning_with == Some(0u32) && error is UidIsZero,
        },
{
    match beginning_with {
        Some(0) => Err(Error::UidIsZero),
        Some(uid) => Ok(UidRange { lo: uid }),
        None => Ok(UidRange { lo: 1 }),
    }
}

/// The range of a fetch of every message.
pub fn fetch_msgs_all() -> (r: Result<UidRange, Error>)
    ensures
        r matches Ok(range) && range@ == 1,
{
    fetch_msgs(None)
}

/// The range of a fetch that begins with `initial_uid`; refused for 0.
pub fn fetch_msgs_from(initial_uid: u32) -> (r: Result<UidRange, Error>)
    ensures
        match r {
            Ok(range) => initial_uid != 0 && range@ == initial_uid,
            Err(error) => initial_uid == 0 && error is UidIsZero,
        },
{
    fetch_msgs(Some(initial_uid))
}

/// The names of the mailboxes in the answer to a listing: the entries that
/// came without failure, in the order they came.
pub fn list_mailboxes(names: Vec<Result<String, Error>>) -> (mailboxes: Vec<String>)
    ensures
        mailboxes.deep_view() == names@.filter_map(
            |name: Result<String, Error>|
                match name {
                    Ok(mailbox) => Some(mailbox@),
                    Err(_) => None,
                },
        ),
{
    let ghost pick = |name: Result<String, Error>|
        match name {
            Ok(mailbox) => Some(mailbox@),
            Err(_) => None,
        };
    let mut mailboxes: Vec<String> = Vec::new();
    let mut i: usize = 0;
    assert(names@.take(0).filter_map(pick) =~= Seq::empty());
    while i < names.len()
        invariant
            i <= names.len(),
            pick == |name: Result<String, Error>|
                match name {
                    Ok(mailbox) => Some(mailbox@),
                    Err(_) => None,
                },
            mailboxes.deep_view() == names@.take(i as int).filter_map(pick),
        decreases names.len() - i,
    {
        proof {
            names@.lemma_filter_map_take_succ(pick, i as int);
        }
        let ghost before = mailboxes.deep_view();
        match &names[i] {
            Ok(mailbox) => {
                mailboxes.push(mailbox.clone());
                assert(mailboxes.deep_view() =~= before + seq![mailbox@]);
            },
            Err(_) => {
                assert(mailboxes.deep_view() =~= before + Seq::empty());
            },
        }
        i += 1;
    }
    assert(names@.take(i as int) =~= names@);
    mailboxes
}

} // verus!
