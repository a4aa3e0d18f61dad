//! Fetching: for each mailbox of each account, the messages from the last
//! one seen on are ingested and the mark of the mailbox is moved up.

use crate::archive::Stored;
use crate::data::{Storage, StorageView};
use crate::imap::{entries_of, fetch_msgs_from, msg_of, Error, Fetched, FetchedView, Msg, MsgView, UidRange};
use crate::mail::{parsed_subject, subject};
use crate::cfg::ImapAccount;
use crate::text::{sort_strings, sorted, str_eq, truncate, truncated};
use vstd::prelude::*;

verus! {

/// How many characters of a subject or a mailbox name are shown.
pub const MAX_SHOWN_LEN: usize = 25;

/// The identifier to go by where a mailbox has the mark `last_seen`: the
/// first of all where it was never seen.
pub open spec fn seen_or_first(last_seen: Option<u32>) -> u32 {
    match last_seen {
        Some(uid) => uid,
        None => 1,
    }
}

/// The identifier that a fetch begins with: the last one seen, or the first
/// of all where everything is to be fetched again.
pub open spec fn first_uid(last_seen: Option<u32>, all: bool) -> u32 {
    if all {
        1
    } else {
        seen_or_first(last_seen)
    }
}

/// By how much the place in the mailbox moved from one message to the next;
/// nothing where it did not move up.
pub open spec fn step_of(ord_prev: u32, ord_curr: u32) -> u64 {
    if ord_curr >= ord_prev {
        (ord_curr - ord_prev) as u64
    } else {
        0
    }
}

/// The store after one fetched message was taken in: the message is
/// ingested, and then the mark of the mailbox is set to its identifier
/// where that is higher than `seen`, the mark the fetch began with.
pub open spec fn sync_msg(
    store: StorageView,
    account: Seq<char>,
    mailbox: Seq<char>,
    seen: u32,
    msg: MsgView,
) -> StorageView {
    let ingested = store.ingest(msg.raw);
    if msg.uid > seen {
        StorageView { last_seen: ingested.last_seen.insert((account, mailbox), msg.uid), ..ingested }
    } else {
        ingested
    }
}

/// The store after the fetched messages were taken in, in order.
pub open spec fn sync_msgs(
    store: StorageView,
    account: Seq<char>,
    mailbox: Seq<char>,
    seen: u32,
    msgs: Seq<MsgView>,
) -> StorageView
    decreases msgs.len(),
{
    if msgs.len() == 0 {
        store
    } else {
        sync_msg(
            sync_msgs(store, account, mailbox, seen, msgs.drop_last()),
            account,
            mailbox,
            seen,
            msgs.last(),
        )
    }
}

/// The messages that fetching one mailbox takes in, in order: every message
/// of the answer; none where the fetch fails or would begin with 0.
pub open spec fn fetched_msgs(
    store: StorageView,
    account: Seq<char>,
    mailbox: Seq<char>,
    all: bool,
    answer: Option<Seq<Option<FetchedView>>>,
) -> Seq<MsgView> {
    match answer {
        Some(entries) => if first_uid(store.last_seen_of(account, mailbox), all) != 0 {
            entries.filter_map(|entry: Option<FetchedView>| msg_of(entry))
        } else {
            Seq::empty()
        },
        None => Seq::empty(),
    }
}

/// The store after one mailbox was fetched. `answer` is what the server
/// sent, `None` where the fetch failed. A fetch that fails, or that would
/// begin with 0, leaves the store as it is.
pub open spec fn sync_mailbox(
    store: StorageView,
    account: Seq<char>,
    mailbox: Seq<char>,
    all: bool,
    answer: Option<Seq<Option<FetchedView>>>,
) -> StorageView {
    sync_msgs(
        store,
        account,
        mailbox,
        seen_or_first(store.last_seen_of(account, mailbox)),
        fetched_msgs(store, account, mailbox, all, answer),
    )
}

/// What the server sent, `None` where the fetch failed.
pub open spec fn answer_view(answer: Result<Vec<Result<Fetched, Error>>, Error>) -> Option<
    Seq<Option<FetchedView>>,
> {
    match answer {
        Ok(fetches) => Some(entries_of(fetches@)),
        Err(_) => None,
    }
}

/// What taking in one fetched message did.
pub struct Progress {
    /// The subject of the message, cut off for showing; empty where the
    /// message has none.
    pub subject: String,
    /// What storing the message did.
    pub stored: Stored,
    /// Whether the mark of the mailbox was moved to this message.
    pub advanced: bool,
    /// By how much the place in the mailbox moved.
    pub inc: u64,
}

impl Progress {
    /// What is reported of taking in `msg` into `store`, by a fetch that
    /// began with the mark `seen` and took in a message at the place
    /// `ord_prev` last.
    pub open spec fn reports(self, store: StorageView, seen: u32, ord_prev: u32, msg: MsgView) -> bool {
        &&& self.subject@ == match parsed_subject(msg.raw) {
            Some(text) => truncated(text, MAX_SHOWN_LEN as nat),
            None => Seq::<char>::empty(),
        }
        &&& self.stored.hash@ == crate::hash::sha256_hex(msg.raw)
        &&& self.stored.added == !crate::archive::has_message(
            store.archive.messages,
            crate::hash::sha256_hex(msg.raw),
        )
        &&& self.stored.header_failure is Some <==> self.stored.added && crate::mail::parsed_headers(
            msg.raw,
        ) is None
        &&& self.advanced == (msg.uid > seen)
        &&& self.inc == step_of(ord_prev, msg.ord)
    }
}

/// The place in the mailbox of the message taken in before the `i`th of
/// `msgs`; 0 before the first.
pub open spec fn ord_before(msgs: Seq<MsgView>, i: int) -> u32 {
    if i <= 0 {
        0
    } else {
        msgs[i - 1].ord
    }
}

/// The fetch of one mailbox, under way.
pub struct MailboxFetch {
    /// The mark that the mailbox had when the fetch began, or 1.
    pub last_seen_uid: u32,
    /// The identifier that the fetch begins with.
    pub first_uid: u32,
    /// The place in the mailbox of the message taken in last.
    pub ord_prev: u32,
}

impl MailboxFetch {
    /// Begins the fetch of `mailbox`: reads its mark.
    pub fn begin(db: &Storage, account_name: &str, mailbox: &str, all: bool) -> (fetch:
        MailboxFetch)
        ensures
            fetch.last_seen_uid == seen_or_first(db@.last_seen_of(account_name@, mailbox@)),
            fetch.first_uid == first_uid(db@.last_seen_of(account_name@, mailbox@), all),
            fetch.ord_prev == 0,
    {
        let last_seen_uid = match db.fetch_last_seen(account_name, mailbox) {
            Some(uid) => uid,
            None => 1,
        };
        let first_uid = if all {
            1
        } else {
            last_seen_uid
        };
        MailboxFetch { last_seen_uid, first_uid, ord_prev: 0 }
    }

    /// The range to ask the server for.
    pub fn range(&self) -> (r: Result<UidRange, Error>)
        ensures
            match r {
                Ok(range) => self.first_uid != 0 && range@ == self.first_uid,
                Err(error) => self.first_uid == 0 && error is UidIsZero,
            },
    {
        fetch_msgs_from(self.first_uid)
    }

    /// Takes in one fetched message: ingests it, and after that moves the
    /// mark of the mailbox to its identifier where that is higher than the
    /// mark the fetch began with.
    pub fn msg(&mut self, db: &mut Storage, account_name: &str, mailbox: &str, msg: &Msg) -> (done:
        Progress)
        ensures
            final(db)@ == sync_msg(
                old(db)@,
                account_name@,
                mailbox@,
                old(self).last_seen_uid,
                msg@,
            ),
            final(db)@.wf(),
            final(self).last_seen_uid == old(self).last_seen_uid,
            final(self).first_uid == old(self).first_uid,
            final(self).ord_prev == msg.ord,
            done.reports(old(db)@, old(self).last_seen_uid, old(self).ord_prev, msg@),
    {
        proof {
            use_type_invariant(&*db);
        }
        let subject = match subject(msg.raw.as_slice()) {
            Some(text) => truncate(text.as_str(), MAX_SHOWN_LEN),
            None => String::new(),
        };
        let stored = db.store_msg(msg.raw.as_slice());
        let advanced = msg.uid > self.last_seen_uid;
        if advanced {
            db.store_last_seen(account_name, mailbox, msg.uid);
        }
        let inc: u64 = if msg.ord >= self.ord_prev {
            (msg.ord - self.ord_prev) as u64
        } else {
            0
        };
        self.ord_prev = msg.ord;
        Progress { subject, stored, advanced, inc }
    }
}

/// Fetches one mailbox from what the server sent: takes in, in order, every
/// message of the answer. A fetch that failed, or that would begin with 0,
/// takes nothing in and hands the failure back.
pub fn fetch_mailbox(
    db: &mut Storage,
    account_name: &str,
    mailbox: &str,
    all: bool,
    answer: &Result<Vec<Result<Fetched, Error>>, Error>,
) -> (fetched: Result<Vec<Progress>, Error>)
    ensures
        final(db)@ == sync_mailbox(old(db)@, account_name@, mailbox@, all, answer_view(*answer)),
        final(db)@.wf(),
        fetched is Err <==> answer is Err || first_uid(
            old(db)@.last_seen_of(account_name@, mailbox@),
            all,
        ) == 0,
        fetched matches Ok(done) ==> answer_view(*answer) matches Some(entries) && ({
            let last_seen = old(db)@.last_seen_of(account_name@, mailbox@);
            let seen = seen_or_first(last_seen);
            let msgs = entries.filter_map(
                |entry: Option<FetchedView>| msg_of(entry),
            );
            &&& done.len() == msgs.len()
            &&& forall|i: int|
                0 <= i < done.len() ==> (#[trigger] done[i]).reports(
                    sync_msgs(old(db)@, account_name@, mailbox@, seen, msgs.take(i)),
                    seen,
                    ord_before(msgs, i),
                    msgs[i],
                )
        }),
{
    proof {
        use_type_invariant(&*db);
    }
    let mut fetch = MailboxFetch::begin(db, account_name, mailbox, all);
    let range = match fetch.range() {
        Ok(range) => range,
        Err(error) => {
            return Err(error);
        },
    };
    let fetches = match answer {
        Ok(fetches) => fetches,
        Err(error) => {
            return Err(error.clone());
        },
    };
    let msgs = range.msgs(fetches);
    let ghost all_msgs = msgs.deep_view();
    let ghost seen = fetch.last_seen_uid;
    let mut done: Vec<Progress> = Vec::new();
    let mut i: usize = 0;
    assert(all_msgs.take(0) =~= Seq::empty());
    while i < msgs.len()
        invariant
            i <= msgs.len(),
            all_msgs == msgs.deep_view(),
            fetch.last_seen_uid == seen,
            fetch.ord_prev == ord_before(all_msgs, i as int),
            db@ == sync_msgs(old(db)@, account_name@, mailbox@, seen, all_msgs.take(i as int)),
            db@.wf(),
            done.len() == i,
            forall|k: int|
                0 <= k < i ==> (#[trigger] done[k]).reports(
                    sync_msgs(old(db)@, account_name@, mailbox@, seen, all_msgs.take(k)),
                    seen,
                    ord_before(all_msgs, k),
                    all_msgs[k],
                ),
        decreases msgs.len() - i,
    {
        assert(all_msgs.take(i + 1).drop_last() =~= all_msgs.take(i as int));
        assert(all_msgs.take(i + 1).last() == msgs[i as int]@);
        assert(all_msgs[i as int] == msgs[i as int]@);
        let progress = fetch.msg(db, account_name, mailbox, &msgs[i]);
        done.push(progress);
        i += 1;
    }
    assert(all_msgs.take(i as int) =~= all_msgs);
    Ok(done)
}

/// The names among `listed` that are not among `ignore`, in the order listed.
pub open spec fn selected(ignore: Seq<Seq<char>>, listed: Seq<Seq<char>>) -> Seq<Seq<char>> {
    listed.filter(|name: Seq<char>| !ignore.contains(name))
}

/// The mailboxes of an account to fetch, in the order to fetch them: those
/// listed that the account does not ignore, sorted by name.
pub fn mailboxes(account: &ImapAccount, listed: Vec<String>) -> (names: Vec<String>)
    ensures
        sorted(names.deep_view()),
        names.deep_view().to_multiset() == selected(
            account.ignore_mailboxes.deep_view(),
            listed.deep_view(),
        ).to_multiset(),
{
    let ghost all = listed.deep_view();
    let ghost ignore = account.ignore_mailboxes.deep_view();
    let ghost keep = |name: Seq<char>| !ignore.contains(name);
    let mut names: Vec<String> = Vec::new();
    assert(all.take(0).filter(keep) =~= Seq::empty()) by {
        reveal(Seq::filter);
    }
    for name in it: listed
        invariant
            it.seq().len() == all.len(),
            forall|k: int| 0 <= k < all.len() ==> (#[trigger] it.seq()[k])@ == all[k],
            ignore == account.ignore_mailboxes.deep_view(),
            keep == |name: Seq<char>| !ignore.contains(name),
            names.deep_view() == all.take(it.index() as int).filter(keep),
    {
        let ghost before = names.deep_view();
        proof {
            crate::seqs::lemma_filter_next(all, it.index() as int, keep);
        }
        if !account.ignores(name.as_str()) {
            names.push(name);
            assert(names.deep_view() =~= before.push(all[it.index() as int]));
        }
    }
    assert(all.take(all.len() as int) =~= all);
    sort_strings(&mut names);
    names
}

/// One mailbox of a session: its name, how many messages the server says
/// it holds, and what the server sent when its messages were fetched. Each
/// of the two is the failure where asking failed.
pub struct Mailbox {
    pub name: String,
    pub exists: Result<u32, Error>,
    pub answer: Result<Vec<Result<Fetched, Error>>, Error>,
}

pub struct MailboxView {
    pub name: Seq<char>,
    pub exists: Option<u32>,
    pub answer: Option<Seq<Option<FetchedView>>>,
}

impl View for Mailbox {
    type V = MailboxView;

    open spec fn view(&self) -> MailboxView {
        MailboxView {
            name: self.name@,
            exists: match self.exists {
                Ok(n) => Some(n),
                Err(_) => None,
            },
            answer: answer_view(self.answer),
        }
    }
}

impl DeepView for Mailbox {
    type V = MailboxView;

    open spec fn deep_view(&self) -> MailboxView {
        self@
    }
}

/// The name of a mailbox.
pub open spec fn name_of(mailbox: MailboxView) -> Seq<char> {
    mailbox.name
}

/// The first mailbox of `boxes` that is called `name`.
pub open spec fn first_named(boxes: Seq<MailboxView>, name: Seq<char>) -> Option<MailboxView>
    decreases boxes.len(),
{
    if boxes.len() == 0 {
        None
    } else if boxes[0].name == name {
        Some(boxes[0])
    } else {
        first_named(boxes.drop_first(), name)
    }
}

/// How many messages the server says the mailbox `name` holds: nothing for
/// a mailbox that is not there, `None` where the server failed to say.
pub open spec fn counted(boxes: Seq<MailboxView>, name: Seq<char>) -> Option<u32> {
    match first_named(boxes, name) {
        Some(mailbox) => mailbox.exists,
        None => Some(0),
    }
}

/// What the server sent when the messages of a mailbox were fetched: a
/// failure also where the server failed to say how many messages the
/// mailbox holds, for such a mailbox is passed over.
pub open spec fn answer_of(mailbox: MailboxView) -> Option<Seq<Option<FetchedView>>> {
    if mailbox.exists is None {
        None
    } else {
        mailbox.answer
    }
}

/// The store after the mailboxes `names` were fetched, in order.
pub open spec fn sync_boxes(
    store: StorageView,
    account: Seq<char>,
    all: bool,
    names: Seq<Seq<char>>,
    boxes: Seq<MailboxView>,
) -> StorageView
    decreases names.len(),
{
    if names.len() == 0 {
        store
    } else {
        let before = sync_boxes(store, account, all, names.drop_last(), boxes);
        match first_named(boxes, names.last()) {
            Some(mailbox) => sync_mailbox(before, account, names.last(), all, answer_of(mailbox)),
            None => before,
        }
    }
}

/// Fetching the mailbox `name` fails: the server failed to count it, its
/// answer is a failure, or the fetch would begin with 0.
pub open spec fn fetch_fails(
    store: StorageView,
    account: Seq<char>,
    all: bool,
    name: Seq<char>,
    boxes: Seq<MailboxView>,
) -> bool {
    match first_named(boxes, name) {
        Some(mailbox) => answer_of(mailbox) is None || first_uid(
            store.last_seen_of(account, name),
            all,
        ) == 0,
        None => false,
    }
}

/// Looks up the first mailbox called `name`.
pub(crate) fn find_named(boxes: &Vec<Mailbox>, name: &str) -> (found: Option<usize>)
    ensures
        match found {
            Some(i) => i < boxes.len() && first_named(boxes.deep_view(), name@) == Some(
                boxes[i as int]@,
            ),
            None => first_named(boxes.deep_view(), name@) is None,
        },
{
    let ghost all = boxes.deep_view();
    let mut i: usize = 0;
    assert(all.skip(0) =~= all);
    while i < boxes.len()
        invariant
            i <= boxes.len(),
            all == boxes.deep_view(),
            first_named(all, name@) == first_named(all.skip(i as int), name@),
        decreases boxes.len() - i,
    {
        assert(all.skip(i as int)[0] == boxes[i as int]@);
        if str_eq(boxes[i].name.as_str(), name) {
            return Some(i);
        }
        assert(all.skip(i as int).drop_first() =~= all.skip(i + 1));
        i += 1;
    }
    None
}

/// What fetching one account did.
pub struct AccountFetch {
    /// The mailboxes fetched, in the order they were fetched.
    pub mailboxes: Vec<String>,
    /// How many messages each of them holds; `None` where the server failed
    /// to say.
    pub exists: Vec<Option<u32>>,
    /// For each of them what taking in its messages did, or why it was
    /// passed over.
    pub fetched: Vec<Result<Vec<Progress>, Error>>,
}

/// Fetches one account from what its session gave. A session that could not
/// be opened or listed fails the account, with the failure of the session,
/// before anything is taken in. A mailbox that the server would not count,
/// or whose fetch fails, is passed over and the others are fetched all the
/// same.
pub fn fetch_account(
    account_name: &str,
    account: &ImapAccount,
    db: &mut Storage,
    all: bool,
    session: &Result<Vec<Mailbox>, Error>,
) -> (done: Result<AccountFetch, Error>)
    ensures
        final(db)@.wf(),
        match *session {
            Ok(boxes) => {
                let names = selected(
                    account.ignore_mailboxes.deep_view(),
                    boxes.deep_view().map_values(|mailbox: MailboxView| name_of(mailbox)),
                );
                &&& done matches Ok(did)
                &&& sorted(did.mailboxes.deep_view())
                &&& did.mailboxes.deep_view().to_multiset() == names.to_multiset()
                &&& did.exists.len() == did.mailboxes.len()
                &&& forall|i: int|
                    0 <= i < did.exists.len() ==> #[trigger] did.exists[i] == counted(
                        boxes.deep_view(),
                        did.mailboxes.deep_view()[i],
                    )
                &&& did.fetched.len() == did.mailboxes.len()
                &&& forall|i: int|
                    0 <= i < did.fetched.len() ==> ((#[trigger] did.fetched[i]) is Err
                        <==> fetch_fails(
                        sync_boxes(
                            old(db)@,
                            account_name@,
                            all,
                            did.mailboxes.deep_view().take(i),
                            boxes.deep_view(),
                        ),
                        account_name@,
                        all,
                        did.mailboxes.deep_view()[i],
                        boxes.deep_view(),
                    ))
                &&& final(db)@ == sync_boxes(
                    old(db)@,
                    account_name@,
                    all,
                    did.mailboxes.deep_view(),
                    boxes.deep_view(),
                )
            },
            Err(error) => done == Err::<AccountFetch, Error>(error) && final(db)@ == old(db)@,
        },
{
    proof {
        use_type_invariant(&*db);
    }
    let boxes = match session {
        Ok(boxes) => boxes,
        Err(error) => {
            return Err(error.clone());
        },
    };
    let ghost views = boxes.deep_view();
    let ghost listed_names = views.map_values(|mailbox: MailboxView| name_of(mailbox));
    let mut listed: Vec<String> = Vec::new();
    let mut i: usize = 0;
    while i < boxes.len()
        invariant
            i <= boxes.len(),
            views == boxes.deep_view(),
            listed_names == views.map_values(|mailbox: MailboxView| name_of(mailbox)),
            listed.deep_view() == listed_names.take(i as int),
        decreases boxes.len() - i,
    {
        let ghost before = listed.deep_view();
        listed.push(boxes[i].name.clone());
        assert(listed.deep_view() =~= before.push(boxes[i as int].name@));
        i += 1;
        assert(listed.deep_view() =~= listed_names.take(i as int));
    }
    assert(listed_names.take(i as int) =~= listed_names);
    let order = mailboxes(account, listed);
    let mut exists: Vec<Option<u32>> = Vec::new();
    let mut k: usize = 0;
    while k < order.len()
        invariant
            k <= order.len(),
            views == boxes.deep_view(),
            exists.len() == k,
            forall|j: int|
                0 <= j < k ==> #[trigger] exists[j] == counted(views, order.deep_view()[j]),
        decreases order.len() - k,
    {
        assert(order.deep_view()[k as int] == order[k as int]@);
        let n = match find_named(boxes, order[k].as_str()) {
            Some(j) => match &boxes[j].exists {
                Ok(n) => Some(*n),
                Err(_) => None,
            },
            None => Some(0),
        };
        exists.push(n);
        k += 1;
    }
    let mut fetched: Vec<Result<Vec<Progress>, Error>> = Vec::new();
    let mut m: usize = 0;
    assert(order.deep_view().take(0) =~= Seq::empty());
    while m < order.len()
        invariant
            m <= order.len(),
            views == boxes.deep_view(),
            fetched.len() == m,
            db@ == sync_boxes(old(db)@, account_name@, all, order.deep_view().take(m as int), views),
            db@.wf(),
            forall|i: int|
                0 <= i < m ==> ((#[trigger] fetched[i]) is Err <==> fetch_fails(
                    sync_boxes(old(db)@, account_name@, all, order.deep_view().take(i), views),
                    account_name@,
                    all,
                    order.deep_view()[i],
                    views,
                )),
        decreases order.len() - m,
    {
        assert(order.deep_view()[m as int] == order[m as int]@);
        assert(order.deep_view().take(m + 1).drop_last() =~= order.deep_view().take(m as int));
        assert(order.deep_view().take(m + 1).last() == order[m as int]@);
        match find_named(boxes, order[m].as_str()) {
            Some(j) => {
                match &boxes[j].exists {
                    Ok(_) => {
                        let result = fetch_mailbox(
                            db,
                            account_name,
                            order[m].as_str(),
                            all,
                            &boxes[j].answer,
                        );
                        fetched.push(result);
                    },
                    Err(error) => {
                        fetched.push(Err(error.clone()));
                    },
                }
            },
            None => {
                fetched.push(Ok(Vec::new()));
            },
        }
        m += 1;
    }
    assert(order.deep_view().take(m as int) =~= order.deep_view());
    Ok(AccountFetch { mailboxes: order, exists, fetched })
}

/// How many characters of a failure are reported.
pub const MAX_ERR_MSG_LEN: usize = 50;

/// How the task of one account ended.
pub enum TaskEnd {
    /// It ran to its end and gave its result: nothing, or the text of the
    /// failure.
    Returned(Result<(), String>),
    /// It was cancelled; the text says so.
    Cancelled(String),
    /// It panicked; the text says so.
    Panicked(String),
}

/// What is reported of one account.
#[derive(Debug, PartialEq, Eq)]
pub enum Outcome {
    /// The account was fetched.
    Fetched,
    /// Fetching failed; the text is the start of the failure's.
    Failed(String),
    /// The task did not run to its end; the text is the start of the
    /// reason's.
    Aborted(String),
}

/// The outcome to report for a task that ended as `end`.
pub fn classify(end: TaskEnd) -> (outcome: Outcome)
    ensures
        match end {
            TaskEnd::Returned(Ok(_)) => outcome is Fetched,
            TaskEnd::Returned(Err(reason)) => outcome matches Outcome::Failed(text) && text@
                == truncated(reason@, MAX_ERR_MSG_LEN as nat),
            TaskEnd::Cancelled(reason) => outcome matches Outcome::Aborted(text) && text@
                == truncated(reason@, MAX_ERR_MSG_LEN as nat),
            TaskEnd::Panicked(reason) => outcome matches Outcome::Aborted(text) && text@
                == truncated(reason@, MAX_ERR_MSG_LEN as nat),
        },
{
    match end {
        TaskEnd::Returned(Ok(_)) => Outcome::Fetched,
        TaskEnd::Returned(Err(reason)) => Outcome::Failed(
            truncate(reason.as_str(), MAX_ERR_MSG_LEN),
        ),
        TaskEnd::Cancelled(reason) => Outcome::Aborted(truncate(reason.as_str(), MAX_ERR_MSG_LEN)),
        TaskEnd::Panicked(reason) => Outcome::Aborted(truncate(reason.as_str(), MAX_ERR_MSG_LEN)),
    }
}

/// One account to fetch, with what its session gave: the mailboxes, or the
/// failure where the session could not be opened or listed.
pub struct AccountRun {
    pub name: String,
    pub account: ImapAccount,
    pub session: Result<Vec<Mailbox>, Error>,
}

pub struct AccountRunView {
    pub name: Seq<char>,
    pub ignore: Seq<Seq<char>>,
    pub session: Option<Seq<MailboxView>>,
}

impl View for AccountRun {
    type V = AccountRunView;

    open spec fn view(&self) -> AccountRunView {
        AccountRunView {
            name: self.name@,
            ignore: self.account.ignore_mailboxes.deep_view(),
            session: match self.session {
                Ok(boxes) => Some(boxes.deep_view()),
                Err(_) => None,
            },
        }
    }
}

impl DeepView for AccountRun {
    type V = AccountRunView;

    open spec fn deep_view(&self) -> AccountRunView {
        self@
    }
}

impl AccountRunView {
    /// The names of the mailboxes to fetch, in the order listed.
    pub open spec fn names(self) -> Seq<Seq<char>> {
        match self.session {
            Some(boxes) => selected(
                self.ignore,
                boxes.map_values(|mailbox: MailboxView| name_of(mailbox)),
            ),
            None => Seq::empty(),
        }
    }

    /// The account fails: its session could not be opened or listed.
    pub open spec fn fails(self) -> bool {
        self.session is None
    }

    /// `order` is the order in which the mailboxes of the account are
    /// fetched: the names to fetch, sorted; nothing where the account
    /// fails.
    pub open spec fn fetches_in(self, order: Seq<Seq<char>>) -> bool {
        if self.fails() {
            order.len() == 0
        } else {
            sorted(order) && order.to_multiset() == self.names().to_multiset()
        }
    }
}

/// The store after one account was fetched, its mailboxes in `order`. An
/// account that fails leaves the store as it is.
pub open spec fn sync_account(
    store: StorageView,
    all: bool,
    run: AccountRunView,
    order: Seq<Seq<char>>,
) -> StorageView {
    match run.session {
        Some(boxes) => if run.fails() {
            store
        } else {
            sync_boxes(store, run.name, all, order, boxes)
        },
        None => store,
    }
}

/// The store after the accounts were fetched one after the other, the
/// mailboxes of each in its order.
pub open spec fn sync_accounts(
    store: StorageView,
    all: bool,
    runs: Seq<AccountRunView>,
    orders: Seq<Seq<Seq<char>>>,
) -> StorageView
    decreases runs.len(),
{
    if runs.len() == 0 || orders.len() != runs.len() {
        store
    } else {
        sync_account(
            sync_accounts(store, all, runs.drop_last(), orders.drop_last()),
            all,
            runs.last(),
            orders.last(),
        )
    }
}

/// What is reported of one account at the end of a run.
pub struct Report {
    /// The name of the account.
    pub account: String,
    /// How fetching it went.
    pub outcome: Outcome,
    /// The mailboxes that were fetched, in the order they were fetched.
    pub mailboxes: Vec<String>,
}

/// The order of mailboxes in a report.
pub open spec fn order_of(report: Report) -> Seq<Seq<char>> {
    report.mailboxes.deep_view()
}

/// How many accounts went well and how many did not.
pub struct Tally {
    pub ok: usize,
    pub failed: usize,
}

/// Counts the reports by outcome.
pub fn tally(reports: &Vec<Report>) -> (count: Tally)
    ensures
        count.ok == reports@.filter(|report: Report| report.outcome is Fetched).len(),
        count.ok + count.failed == reports.len(),
{
    let ghost went_well = |report: Report| report.outcome is Fetched;
    let mut ok: usize = 0;
    let mut i: usize = 0;
    assert(reports@.take(0).filter(went_well) =~= Seq::empty()) by {
        reveal(Seq::filter);
    }
    while i < reports.len()
        invariant
            i <= reports.len(),
            went_well == |report: Report| report.outcome is Fetched,
            ok == reports@.take(i as int).filter(went_well).len(),
            ok <= i,
        decreases reports.len() - i,
    {
        proof {
            crate::seqs::lemma_filter_next(reports@, i as int, went_well);
        }
        match reports[i].outcome {
            Outcome::Fetched => {
                ok += 1;
            },
            _ => {},
        }
        i += 1;
    }
    assert(reports@.take(i as int) =~= reports@);
    Tally { ok, failed: reports.len() - ok }
}

/// The command that fetches every account.
pub struct Cmd {
    /// Fetch everything again, from the first message of each mailbox.
    pub all: bool,
}

impl Cmd {
    /// Fetches every account from what its session gave, and reports on each
    /// of them. An account that fails is reported as failed and changes
    /// nothing in the store; the others are fetched all the same.
    pub fn run(&self, db: &mut Storage, runs: &Vec<AccountRun>) -> (reports: Vec<Report>)
        ensures
            final(db)@.wf(),
            reports.len() == runs.len(),
            forall|i: int|
                0 <= i < reports.len() ==> {
                    &&& (#[trigger] reports[i]).account@ == runs[i].name@
                    &&& reports[i].outcome is Fetched <==> !runs[i]@.fails()
                    &&& reports[i].outcome is Failed <==> runs[i]@.fails()
                    &&& runs[i].session matches Err(error) ==> reports[i].outcome matches Outcome::Failed(
                        text,
                    ) && text@ == truncated(error.text(), MAX_ERR_MSG_LEN as nat)
                    &&& runs[i]@.fetches_in(order_of(reports[i]))
                },
            final(db)@ == sync_accounts(
                old(db)@,
                self.all,
                runs.deep_view(),
                reports@.map_values(|report: Report| order_of(report)),
            ),
    {
        proof {
            use_type_invariant(&*db);
        }
        let ghost views = runs.deep_view();
        let mut reports: Vec<Report> = Vec::new();
        let mut i: usize = 0;
        assert(views.take(0) =~= Seq::empty());
        while i < runs.len()
            invariant
                i <= runs.len(),
                views == runs.deep_view(),
                reports.len() == i,
                db@.wf(),
                forall|k: int|
                    0 <= k < i ==> {
                        &&& (#[trigger] reports[k]).account@ == runs[k].name@
                        &&& reports[k].outcome is Fetched <==> !runs[k]@.fails()
                        &&& reports[k].outcome is Failed <==> runs[k]@.fails()
                        &&& runs[k].session matches Err(error) ==> reports[k].outcome matches Outcome::Failed(
                            text,
                        ) && text@ == truncated(error.text(), MAX_ERR_MSG_LEN as nat)
                        &&& runs[k]@.fetches_in(order_of(reports[k]))
                    },
                db@ == sync_accounts(
                    old(db)@,
                    self.all,
                    views.take(i as int),
                    reports@.map_values(|report: Report| order_of(report)),
                ),
            decreases runs.len() - i,
        {
            let run = &runs[i];
            let ghost before = reports@.map_values(|report: Report| order_of(report));
            assert(views[i as int] == run@);
            let done = fetch_account(run.name.as_str(), &run.account, db, self.all, &run.session);
            let report = match done {
                Ok(did) => Report {
                    account: run.name.clone(),
                    outcome: classify(TaskEnd::Returned(Ok(()))),
                    mailboxes: did.mailboxes,
                },
                Err(error) => Report {
                    account: run.name.clone(),
                    outcome: classify(TaskEnd::Returned(Err(error.message()))),
                    mailboxes: Vec::new(),
                },
            };
            let ghost order = order_of(report);
            reports.push(report);
            i += 1;
            proof {
                let orders = reports@.map_values(|report: Report| order_of(report));
                assert(orders =~= before.push(order));
                assert(orders.drop_last() =~= before);
                assert(views.take(i as int).drop_last() =~= views.take(i - 1));
                assert(views.take(i as int).last() == run@);
            }
        }
        assert(views.take(i as int) =~= views);
        reports
    }
}

/// The raw bytes of a fetched message.
pub open spec fn raw_of(msg: MsgView) -> Seq<u8> {
    msg.raw
}

/// The raw bytes of the messages that fetching one mailbox takes in.
pub open spec fn taken_in(
    store: StorageView,
    account: Seq<char>,
    mailbox: Seq<char>,
    all: bool,
    answer: Option<Seq<Option<FetchedView>>>,
) -> Seq<Seq<u8>> {
    fetched_msgs(store, account, mailbox, all, answer).map_values(|msg: MsgView| raw_of(msg))
}

/// The messages that fetching the mailboxes `names` takes in, in order.
pub open spec fn taken_in_boxes(
    store: StorageView,
    account: Seq<char>,
    all: bool,
    names: Seq<Seq<char>>,
    boxes: Seq<MailboxView>,
) -> Seq<Seq<u8>>
    decreases names.len(),
{
    if names.len() == 0 {
        Seq::empty()
    } else {
        let before = taken_in_boxes(store, account, all, names.drop_last(), boxes);
        match first_named(boxes, names.last()) {
            Some(mailbox) => before + taken_in(
                sync_boxes(store, account, all, names.drop_last(), boxes),
                account,
                names.last(),
                all,
                answer_of(mailbox),
            ),
            None => before,
        }
    }
}

/// A mark that is no lower than another: a mailbox never seen is below
/// every mark.
pub open spec fn mark_le(before: Option<u32>, after: Option<u32>) -> bool {
    match (before, after) {
        (None, _) => true,
        (Some(a), Some(b)) => a <= b,
        (Some(_), None) => false,
    }
}

/// Every message of `before` is a message of `after`.
pub open spec fn keeps(before: StorageView, after: StorageView) -> bool {
    forall|hash: Seq<char>| #[trigger]
        crate::archive::has_message(before.archive.messages, hash) ==> crate::archive::has_message(
            after.archive.messages,
            hash,
        )
}

/// Taking in a message stores it, keeps every stored message, leaves the
/// marks of all other mailboxes as they are, and leaves the mark of its own
/// mailbox as it is or sets it above `seen`.
pub proof fn lemma_sync_msg(
    store: StorageView,
    account: Seq<char>,
    mailbox: Seq<char>,
    seen: u32,
    msg: MsgView,
)
    ensures
        crate::archive::has_message(
            sync_msg(store, account, mailbox, seen, msg).archive.messages,
            crate::hash::sha256_hex(msg.raw),
        ),
        keeps(store, sync_msg(store, account, mailbox, seen, msg)),
        forall|a: Seq<char>, m: Seq<char>|
            (a, m) != (account, mailbox) ==> #[trigger] sync_msg(
                store,
                account,
                mailbox,
                seen,
                msg,
            ).last_seen_of(a, m) == store.last_seen_of(a, m),
        ({
            let after = sync_msg(store, account, mailbox, seen, msg).last_seen_of(account, mailbox);
            after == store.last_seen_of(account, mailbox) || (after matches Some(uid) && uid > seen)
        }),
{
    let hash = crate::hash::sha256_hex(msg.raw);
    crate::archive::lemma_store_idempotent(store.archive, hash, msg.raw);
    crate::archive::lemma_store_keeps(store.archive, hash, msg.raw);
}

/// Taking in messages stores each of them, keeps every stored message,
/// leaves the marks of all other mailboxes as they are, and leaves the mark
/// of their own mailbox as it is or sets it above `seen`.
pub proof fn lemma_sync_msgs(
    store: StorageView,
    account: Seq<char>,
    mailbox: Seq<char>,
    seen: u32,
    msgs: Seq<MsgView>,
)
    ensures
        forall|i: int|
            0 <= i < msgs.len() ==> crate::archive::has_message(
                sync_msgs(store, account, mailbox, seen, msgs).archive.messages,
                crate::hash::sha256_hex((#[trigger] msgs[i]).raw),
            ),
        keeps(store, sync_msgs(store, account, mailbox, seen, msgs)),
        forall|a: Seq<char>, m: Seq<char>|
            (a, m) != (account, mailbox) ==> #[trigger] sync_msgs(
                store,
                account,
                mailbox,
                seen,
                msgs,
            ).last_seen_of(a, m) == store.last_seen_of(a, m),
        ({
            let after = sync_msgs(store, account, mailbox, seen, msgs).last_seen_of(
                account,
                mailbox,
            );
            after == store.last_seen_of(account, mailbox) || (after matches Some(uid) && uid > seen)
        }),
    decreases msgs.len(),
{
    if msgs.len() > 0 {
        let before = sync_msgs(store, account, mailbox, seen, msgs.drop_last());
        let after = sync_msgs(store, account, mailbox, seen, msgs);
        lemma_sync_msgs(store, account, mailbox, seen, msgs.drop_last());
        lemma_sync_msg(before, account, mailbox, seen, msgs.last());
        assert forall|i: int| 0 <= i < msgs.len() implies crate::archive::has_message(
            after.archive.messages,
            crate::hash::sha256_hex((#[trigger] msgs[i]).raw),
        ) by {
            if i < msgs.len() - 1 {
                assert(msgs.drop_last()[i] == msgs[i]);
                assert(crate::archive::has_message(
                    before.archive.messages,
                    crate::hash::sha256_hex(msgs[i].raw),
                ));
            }
        }
        assert forall|a: Seq<char>, m: Seq<char>| (a, m) != (account, mailbox) implies after.last_seen_of(
            a,
            m,
        ) == store.last_seen_of(a, m) by {
            assert(after.last_seen_of(a, m) == before.last_seen_of(a, m));
        }
    }
}

/// Fetching a mailbox stores every message of the answer, keeps every
/// stored message, leaves the marks of all other mailboxes as they are, and
/// never lowers the mark of its own.
pub proof fn lemma_sync_mailbox(
    store: StorageView,
    account: Seq<char>,
    mailbox: Seq<char>,
    all: bool,
    answer: Option<Seq<Option<FetchedView>>>,
)
    ensures
        keeps(store, sync_mailbox(store, account, mailbox, all, answer)),
        forall|a: Seq<char>, m: Seq<char>|
            mark_le(
                store.last_seen_of(a, m),
                #[trigger] sync_mailbox(store, account, mailbox, all, answer).last_seen_of(a, m),
            ),
        forall|a: Seq<char>, m: Seq<char>|
            (a, m) != (account, mailbox) ==> #[trigger] sync_mailbox(
                store,
                account,
                mailbox,
                all,
                answer,
            ).last_seen_of(a, m) == store.last_seen_of(a, m),
        answer matches Some(entries) ==> {
            let first = first_uid(store.last_seen_of(account, mailbox), all);
            let msgs = entries.filter_map(|entry: Option<FetchedView>| msg_of(entry));
            first != 0 ==> forall|i: int|
                0 <= i < msgs.len() ==> crate::archive::has_message(
                    sync_mailbox(store, account, mailbox, all, answer).archive.messages,
                    crate::hash::sha256_hex((#[trigger] msgs[i]).raw),
                )
        },
{
    let last_seen = store.last_seen_of(account, mailbox);
    let first = first_uid(last_seen, all);
    let after = sync_mailbox(store, account, mailbox, all, answer);
    match answer {
        Some(entries) => {
            if first != 0 {
                let msgs = entries.filter_map(|entry: Option<FetchedView>| msg_of(entry));
                lemma_sync_msgs(store, account, mailbox, seen_or_first(last_seen), msgs);
            }
        },
        None => {},
    }
    assert forall|a: Seq<char>, m: Seq<char>|
        mark_le(store.last_seen_of(a, m), #[trigger] after.last_seen_of(a, m)) by {
        if (a, m) != (account, mailbox) {
            assert(after.last_seen_of(a, m) == store.last_seen_of(a, m));
        }
    }
}

/// One message taken in by the fetch of some mailbox of some account.
pub struct Step {
    pub account: Seq<char>,
    pub mailbox: Seq<char>,
    /// The mark that the fetch began with.
    pub seen: u32,
    pub msg: MsgView,
}

/// The store after the steps, one after the other.
pub open spec fn sync_steps(store: StorageView, steps: Seq<Step>) -> StorageView
    decreases steps.len(),
{
    if steps.len() == 0 {
        store
    } else {
        let step = steps.last();
        sync_msg(
            sync_steps(store, steps.drop_last()),
            step.account,
            step.mailbox,
            step.seen,
            step.msg,
        )
    }
}

/// However the steps of several accounts follow one another, every message
/// taken in is stored in the end, no stored message is lost, and the mark
/// of a mailbox that no step belongs to stays as it is.
pub proof fn lemma_any_order(store: StorageView, steps: Seq<Step>)
    ensures
        keeps(store, sync_steps(store, steps)),
        forall|i: int|
            0 <= i < steps.len() ==> crate::archive::has_message(
                sync_steps(store, steps).archive.messages,
                crate::hash::sha256_hex((#[trigger] steps[i]).msg.raw),
            ),
        forall|a: Seq<char>, m: Seq<char>|
            (forall|i: int|
                0 <= i < steps.len() ==> ((#[trigger] steps[i]).account, steps[i].mailbox) != (a, m))
                ==> #[trigger] sync_steps(store, steps).last_seen_of(a, m) == store.last_seen_of(
                a,
                m,
            ),
    decreases steps.len(),
{
    if steps.len() > 0 {
        let step = steps.last();
        let before = sync_steps(store, steps.drop_last());
        let after = sync_steps(store, steps);
        lemma_any_order(store, steps.drop_last());
        lemma_sync_msg(before, step.account, step.mailbox, step.seen, step.msg);
        assert forall|i: int| 0 <= i < steps.len() implies crate::archive::has_message(
            after.archive.messages,
            crate::hash::sha256_hex((#[trigger] steps[i]).msg.raw),
        ) by {
            if i < steps.len() - 1 {
                assert(steps.drop_last()[i] == steps[i]);
                assert(crate::archive::has_message(
                    before.archive.messages,
                    crate::hash::sha256_hex(steps[i].msg.raw),
                ));
            }
        }
        assert forall|a: Seq<char>, m: Seq<char>|
            (forall|i: int|
                0 <= i < steps.len() ==> ((#[trigger] steps[i]).account, steps[i].mailbox) != (
                    a,
                    m,
                )) implies #[trigger] after.last_seen_of(a, m) == store.last_seen_of(a, m) by {
            assert((steps[steps.len() - 1].account, steps[steps.len() - 1].mailbox) != (a, m));
            assert forall|i: int| 0 <= i < steps.drop_last().len() implies ((
            #[trigger] steps.drop_last()[i]).account, steps.drop_last()[i].mailbox) != (a, m) by {
                assert(steps.drop_last()[i] == steps[i]);
            }
            assert(before.last_seen_of(a, m) == store.last_seen_of(a, m));
            assert(after.last_seen_of(a, m) == before.last_seen_of(a, m));
        }
    }
}

/// One fetch of one mailbox.
pub struct MailboxRun {
    pub account: Seq<char>,
    pub mailbox: Seq<char>,
    pub all: bool,
    pub answer: Option<Seq<Option<FetchedView>>>,
}

/// The store after the fetches `runs`, one after the other.
pub open spec fn sync_runs(store: StorageView, runs: Seq<MailboxRun>) -> StorageView
    decreases runs.len(),
{
    if runs.len() == 0 {
        store
    } else {
        let run = runs.last();
        sync_mailbox(sync_runs(store, runs.drop_last()), run.account, run.mailbox, run.all, run.answer)
    }
}

/// Over any sequence of fetches, of whatever mailboxes and with whatever
/// answers, the mark of a mailbox never goes down, and no stored message is
/// lost.
pub proof fn lemma_marks_never_go_down(
    store: StorageView,
    runs: Seq<MailboxRun>,
    account: Seq<char>,
    mailbox: Seq<char>,
)
    ensures
        mark_le(
            store.last_seen_of(account, mailbox),
            sync_runs(store, runs).last_seen_of(account, mailbox),
        ),
        keeps(store, sync_runs(store, runs)),
    decreases runs.len(),
{
    if runs.len() > 0 {
        let run = runs.last();
        let before = sync_runs(store, runs.drop_last());
        lemma_marks_never_go_down(store, runs.drop_last(), account, mailbox);
        lemma_sync_mailbox(before, run.account, run.mailbox, run.all, run.answer);
        assert(mark_le(
            before.last_seen_of(account, mailbox),
            sync_runs(store, runs).last_seen_of(account, mailbox),
        ));
    }
}

/// Fetching the mailboxes of an account keeps every stored message and
/// lowers no mark.
pub proof fn lemma_sync_boxes(
    store: StorageView,
    account: Seq<char>,
    all: bool,
    names: Seq<Seq<char>>,
    boxes: Seq<MailboxView>,
)
    ensures
        keeps(store, sync_boxes(store, account, all, names, boxes)),
        forall|a: Seq<char>, m: Seq<char>|
            mark_le(
                store.last_seen_of(a, m),
                #[trigger] sync_boxes(store, account, all, names, boxes).last_seen_of(a, m),
            ),
    decreases names.len(),
{
    if names.len() > 0 {
        let before = sync_boxes(store, account, all, names.drop_last(), boxes);
        let after = sync_boxes(store, account, all, names, boxes);
        lemma_sync_boxes(store, account, all, names.drop_last(), boxes);
        match first_named(boxes, names.last()) {
            Some(mailbox) => {
                lemma_sync_mailbox(before, account, names.last(), all, answer_of(mailbox));
            },
            None => {},
        }
        assert forall|a: Seq<char>, m: Seq<char>|
            mark_le(store.last_seen_of(a, m), #[trigger] after.last_seen_of(a, m)) by {
            assert(mark_le(store.last_seen_of(a, m), before.last_seen_of(a, m)));
            assert(mark_le(before.last_seen_of(a, m), after.last_seen_of(a, m)));
        }
    }
}

/// Every message that fetching the mailboxes of an account takes in is
/// stored when the account is done.
pub proof fn lemma_taken_in_is_stored(
    store: StorageView,
    account: Seq<char>,
    all: bool,
    names: Seq<Seq<char>>,
    boxes: Seq<MailboxView>,
)
    ensures
        forall|i: int|
            0 <= i < taken_in_boxes(store, account, all, names, boxes).len()
                ==> crate::archive::has_message(
                sync_boxes(store, account, all, names, boxes).archive.messages,
                crate::hash::sha256_hex(
                    #[trigger] taken_in_boxes(store, account, all, names, boxes)[i],
                ),
            ),
    decreases names.len(),
{
    if names.len() > 0 {
        let before = sync_boxes(store, account, all, names.drop_last(), boxes);
        let after = sync_boxes(store, account, all, names, boxes);
        let taken_before = taken_in_boxes(store, account, all, names.drop_last(), boxes);
        let taken = taken_in_boxes(store, account, all, names, boxes);
        lemma_taken_in_is_stored(store, account, all, names.drop_last(), boxes);
        match first_named(boxes, names.last()) {
            Some(mailbox) => {
                lemma_sync_mailbox(before, account, names.last(), all, answer_of(mailbox));
                let here = taken_in(before, account, names.last(), all, answer_of(mailbox));
                assert forall|i: int| 0 <= i < taken.len() implies crate::archive::has_message(
                    after.archive.messages,
                    crate::hash::sha256_hex(#[trigger] taken[i]),
                ) by {
                    if i < taken_before.len() {
                        assert(taken[i] == taken_before[i]);
                        assert(crate::archive::has_message(
                            before.archive.messages,
                            crate::hash::sha256_hex(taken_before[i]),
                        ));
                    } else {
                        let k = i - taken_before.len();
                        assert(taken[i] == here[k]);
                        let first = first_uid(before.last_seen_of(account, names.last()), all);
                        match answer_of(mailbox) {
                            Some(entries) => {
                                let msgs = entries.filter_map(
                                    |entry: Option<FetchedView>| msg_of(entry),
                                );
                                assert(here[k] == msgs[k].raw);
                            },
                            None => {},
                        }
                    }
                }
            },
            None => {},
        }
    }
}

/// Fetching accounts keeps every stored message and lowers no mark.
pub proof fn lemma_sync_accounts(
    store: StorageView,
    all: bool,
    runs: Seq<AccountRunView>,
    orders: Seq<Seq<Seq<char>>>,
)
    ensures
        keeps(store, sync_accounts(store, all, runs, orders)),
        forall|a: Seq<char>, m: Seq<char>|
            mark_le(
                store.last_seen_of(a, m),
                #[trigger] sync_accounts(store, all, runs, orders).last_seen_of(a, m),
            ),
    decreases runs.len(),
{
    if runs.len() > 0 && orders.len() == runs.len() {
        let before = sync_accounts(store, all, runs.drop_last(), orders.drop_last());
        let after = sync_accounts(store, all, runs, orders);
        lemma_sync_accounts(store, all, runs.drop_last(), orders.drop_last());
        match runs.last().session {
            Some(boxes) => {
                lemma_sync_boxes(before, runs.last().name, all, orders.last(), boxes);
            },
            None => {},
        }
        assert forall|a: Seq<char>, m: Seq<char>|
            mark_le(store.last_seen_of(a, m), #[trigger] after.last_seen_of(a, m)) by {
            assert(mark_le(store.last_seen_of(a, m), before.last_seen_of(a, m)));
            assert(mark_le(before.last_seen_of(a, m), after.last_seen_of(a, m)));
        }
    }
}

/// The store after the first `n` of the accounts were fetched.
pub open spec fn sync_first(
    store: StorageView,
    all: bool,
    runs: Seq<AccountRunView>,
    orders: Seq<Seq<Seq<char>>>,
    n: int,
) -> StorageView {
    sync_accounts(store, all, runs.take(n), orders.take(n))
}

/// One account does not disturb another, wherever the two stand in a run:
/// an account that fails changes nothing in the store, and what any
/// account took in is still stored when the run is over, whatever the
/// accounts after it did.
pub proof fn lemma_failure_isolation(
    store: StorageView,
    all: bool,
    runs: Seq<AccountRunView>,
    orders: Seq<Seq<Seq<char>>>,
    i: int,
)
    requires
        runs.len() == orders.len(),
        0 <= i < runs.len(),
    ensures
        runs[i].fails() ==> sync_first(store, all, runs, orders, i + 1) == sync_first(
            store,
            all,
            runs,
            orders,
            i,
        ),
        keeps(sync_first(store, all, runs, orders, i + 1), sync_accounts(store, all, runs, orders)),
    decreases runs.len() - i,
{
    assert(runs.take(i + 1).drop_last() =~= runs.take(i));
    assert(orders.take(i + 1).drop_last() =~= orders.take(i));
    assert(runs.take(i + 1).last() == runs[i]);
    if i + 1 == runs.len() {
        assert(runs.take(i + 1) =~= runs);
        assert(orders.take(i + 1) =~= orders);
    } else {
        lemma_failure_isolation(store, all, runs, orders, i + 1);
        let here = sync_first(store, all, runs, orders, i + 1);
        let next = sync_first(store, all, runs, orders, i + 2);
        assert(runs.take(i + 2).drop_last() =~= runs.take(i + 1));
        assert(orders.take(i + 2).drop_last() =~= orders.take(i + 1));
        assert(keeps(here, next)) by {
            match runs[i + 1].session {
                Some(boxes) => {
                    lemma_sync_boxes(here, runs[i + 1].name, all, orders[i + 1], boxes);
                },
                None => {},
            }
        }
    }
}

/// The two stores have the same marks for the mailboxes of `account`.
pub open spec fn same_marks_of(one: StorageView, other: StorageView, account: Seq<char>) -> bool {
    forall|m: Seq<char>| #[trigger] one.last_seen_of(account, m) == other.last_seen_of(account, m)
}

/// The marks of the accounts other than `account` are in `after` what they
/// were in `before`.
pub open spec fn other_marks_stay(before: StorageView, after: StorageView, account: Seq<char>) -> bool {
    forall|a: Seq<char>, m: Seq<char>|
        a != account ==> #[trigger] after.last_seen_of(a, m) == before.last_seen_of(a, m)
}

/// Every message that `to` has gained over `from` is stored in `other`.
pub open spec fn gains_held(from: StorageView, to: StorageView, other: StorageView) -> bool {
    forall|hash: Seq<char>|
        crate::archive::has_message(to.archive.messages, hash) && !crate::archive::has_message(
            from.archive.messages,
            hash,
        ) ==> #[trigger] crate::archive::has_message(other.archive.messages, hash)
}

/// The two stores hold messages under the same hashes and have the same
/// marks.
pub open spec fn same_contents(one: StorageView, other: StorageView) -> bool {
    &&& forall|a: Seq<char>, m: Seq<char>|
        #[trigger] one.last_seen_of(a, m) == other.last_seen_of(a, m)
    &&& forall|hash: Seq<char>|
        crate::archive::has_message(one.archive.messages, hash) <==> #[trigger] crate::archive::has_message(
            other.archive.messages,
            hash,
        )
}

/// What taking in a message does depends on the marks of its account alone:
/// from two stores with the same marks for the account, the marks for the
/// account are the same afterwards, and what the one store gains the other
/// holds.
pub proof fn lemma_step_from_marks(
    one: StorageView,
    other: StorageView,
    account: Seq<char>,
    mailbox: Seq<char>,
    seen: u32,
    msg: MsgView,
)
    requires
        same_marks_of(one, other, account),
    ensures
        same_marks_of(
            sync_msg(one, account, mailbox, seen, msg),
            sync_msg(other, account, mailbox, seen, msg),
            account,
        ),
        gains_held(
            one,
            sync_msg(one, account, mailbox, seen, msg),
            sync_msg(other, account, mailbox, seen, msg),
        ),
        other_marks_stay(one, sync_msg(one, account, mailbox, seen, msg), account),
{
    let after_one = sync_msg(one, account, mailbox, seen, msg);
    let after_other = sync_msg(other, account, mailbox, seen, msg);
    let new = crate::hash::sha256_hex(msg.raw);
    lemma_sync_msg(one, account, mailbox, seen, msg);
    lemma_sync_msg(other, account, mailbox, seen, msg);
    assert forall|m: Seq<char>| #[trigger]
        after_one.last_seen_of(account, m) == after_other.last_seen_of(account, m) by {
        assert(one.last_seen_of(account, m) == other.last_seen_of(account, m));
    }
    assert forall|hash: Seq<char>|
        crate::archive::has_message(after_one.archive.messages, hash)
            && !crate::archive::has_message(
            one.archive.messages,
            hash,
        ) implies #[trigger] crate::archive::has_message(after_other.archive.messages, hash) by {
        let i = choose|i: int|
            0 <= i < after_one.archive.messages.len() && after_one.archive.messages[i].hash == hash;
        if i < one.archive.messages.len() {
            assert(one.archive.messages[i].hash == hash);
        }
        assert(hash == new);
    }
}

/// The same for the messages of one fetch.
pub proof fn lemma_steps_from_marks(
    one: StorageView,
    other: StorageView,
    account: Seq<char>,
    mailbox: Seq<char>,
    seen: u32,
    msgs: Seq<MsgView>,
)
    requires
        same_marks_of(one, other, account),
    ensures
        same_marks_of(
            sync_msgs(one, account, mailbox, seen, msgs),
            sync_msgs(other, account, mailbox, seen, msgs),
            account,
        ),
        gains_held(
            one,
            sync_msgs(one, account, mailbox, seen, msgs),
            sync_msgs(other, account, mailbox, seen, msgs),
        ),
        other_marks_stay(one, sync_msgs(one, account, mailbox, seen, msgs), account),
    decreases msgs.len(),
{
    if msgs.len() > 0 {
        let before_one = sync_msgs(one, account, mailbox, seen, msgs.drop_last());
        let before_other = sync_msgs(other, account, mailbox, seen, msgs.drop_last());
        let after_one = sync_msgs(one, account, mailbox, seen, msgs);
        let after_other = sync_msgs(other, account, mailbox, seen, msgs);
        lemma_steps_from_marks(one, other, account, mailbox, seen, msgs.drop_last());
        lemma_step_from_marks(before_one, before_other, account, mailbox, seen, msgs.last());
        lemma_sync_msg(before_other, account, mailbox, seen, msgs.last());
        assert forall|hash: Seq<char>|
            crate::archive::has_message(after_one.archive.messages, hash)
                && !crate::archive::has_message(
                one.archive.messages,
                hash,
            ) implies #[trigger] crate::archive::has_message(after_other.archive.messages, hash) by {
            if crate::archive::has_message(before_one.archive.messages, hash) {
                assert(crate::archive::has_message(before_other.archive.messages, hash));
            }
        }
        assert forall|a: Seq<char>, m: Seq<char>| a != account implies #[trigger]
            after_one.last_seen_of(a, m) == one.last_seen_of(a, m) by {
            assert(after_one.last_seen_of(a, m) == before_one.last_seen_of(a, m));
            assert(before_one.last_seen_of(a, m) == one.last_seen_of(a, m));
        }
    }
}

/// The same for the mailboxes of one account.
pub proof fn lemma_boxes_from_marks(
    one: StorageView,
    other: StorageView,
    account: Seq<char>,
    all: bool,
    names: Seq<Seq<char>>,
    boxes: Seq<MailboxView>,
)
    requires
        same_marks_of(one, other, account),
    ensures
        same_marks_of(
            sync_boxes(one, account, all, names, boxes),
            sync_boxes(other, account, all, names, boxes),
            account,
        ),
        gains_held(
            one,
            sync_boxes(one, account, all, names, boxes),
            sync_boxes(other, account, all, names, boxes),
        ),
        other_marks_stay(one, sync_boxes(one, account, all, names, boxes), account),
    decreases names.len(),
{
    if names.len() > 0 {
        let before_one = sync_boxes(one, account, all, names.drop_last(), boxes);
        let before_other = sync_boxes(other, account, all, names.drop_last(), boxes);
        let after_one = sync_boxes(one, account, all, names, boxes);
        let after_other = sync_boxes(other, account, all, names, boxes);
        lemma_boxes_from_marks(one, other, account, all, names.drop_last(), boxes);
        match first_named(boxes, names.last()) {
            Some(mailbox) => {
                let name = names.last();
                assert(before_one.last_seen_of(account, name) == before_other.last_seen_of(
                    account,
                    name,
                ));
                lemma_steps_from_marks(
                    before_one,
                    before_other,
                    account,
                    name,
                    seen_or_first(before_one.last_seen_of(account, name)),
                    fetched_msgs(before_one, account, name, all, answer_of(mailbox)),
                );
                lemma_sync_mailbox(before_other, account, name, all, answer_of(mailbox));
            },
            None => {},
        }
        assert forall|hash: Seq<char>|
            crate::archive::has_message(after_one.archive.messages, hash)
                && !crate::archive::has_message(
                one.archive.messages,
                hash,
            ) implies #[trigger] crate::archive::has_message(after_other.archive.messages, hash) by {
            if crate::archive::has_message(before_one.archive.messages, hash) {
                assert(crate::archive::has_message(before_other.archive.messages, hash));
            }
        }
        assert forall|a: Seq<char>, m: Seq<char>| a != account implies #[trigger]
            after_one.last_seen_of(a, m) == one.last_seen_of(a, m) by {
            assert(after_one.last_seen_of(a, m) == before_one.last_seen_of(a, m));
            assert(before_one.last_seen_of(a, m) == one.last_seen_of(a, m));
        }
    }
}

/// The order in which the mailboxes of an account are fetched is
/// determined by the account: two orders for it are the same order.
pub proof fn lemma_one_order(run: AccountRunView, one: Seq<Seq<char>>, other: Seq<Seq<char>>)
    requires
        run.fetches_in(one),
        run.fetches_in(other),
    ensures
        one == other,
{
    if run.fails() {
        assert(one =~= other);
    } else {
        crate::text::lemma_sorted_unique(one, other);
    }
}

/// Fetching two accounts with different names comes to the same in either
/// order: the same marks, and messages under the same hashes.
pub proof fn lemma_either_order(
    store: StorageView,
    all: bool,
    a: AccountRunView,
    order_a: Seq<Seq<char>>,
    b: AccountRunView,
    order_b: Seq<Seq<char>>,
)
    requires
        a.name != b.name,
    ensures
        same_contents(
            sync_account(sync_account(store, all, a, order_a), all, b, order_b),
            sync_account(sync_account(store, all, b, order_b), all, a, order_a),
        ),
{
    let after_a = sync_account(store, all, a, order_a);
    let after_b = sync_account(store, all, b, order_b);
    let a_then_b = sync_account(after_a, all, b, order_b);
    let b_then_a = sync_account(after_b, all, a, order_a);
    lemma_account_from_marks(store, store, all, a, order_a);
    lemma_account_from_marks(store, store, all, b, order_b);
    assert(same_marks_of(store, after_b, a.name)) by {
        assert forall|m: Seq<char>| #[trigger]
            store.last_seen_of(a.name, m) == after_b.last_seen_of(a.name, m) by {
            assert(after_b.last_seen_of(a.name, m) == store.last_seen_of(a.name, m));
        }
    }
    assert(same_marks_of(store, after_a, b.name)) by {
        assert forall|m: Seq<char>| #[trigger]
            store.last_seen_of(b.name, m) == after_a.last_seen_of(b.name, m) by {
            assert(after_a.last_seen_of(b.name, m) == store.last_seen_of(b.name, m));
        }
    }
    lemma_account_from_marks(store, after_b, all, a, order_a);
    lemma_account_from_marks(after_b, store, all, a, order_a);
    lemma_account_from_marks(store, after_a, all, b, order_b);
    lemma_account_from_marks(after_a, store, all, b, order_b);
    lemma_account_keeps(store, all, a, order_a);
    lemma_account_keeps(store, all, b, order_b);
    lemma_account_keeps(after_a, all, b, order_b);
    lemma_account_keeps(after_b, all, a, order_a);
    assert forall|x: Seq<char>, m: Seq<char>| #[trigger]
        a_then_b.last_seen_of(x, m) == b_then_a.last_seen_of(x, m) by {
        if x == a.name {
            assert(a_then_b.last_seen_of(x, m) == after_a.last_seen_of(x, m));
            assert(after_a.last_seen_of(a.name, m) == b_then_a.last_seen_of(a.name, m));
        } else if x == b.name {
            assert(b_then_a.last_seen_of(x, m) == after_b.last_seen_of(x, m));
            assert(after_b.last_seen_of(b.name, m) == a_then_b.last_seen_of(b.name, m));
        } else {
            assert(a_then_b.last_seen_of(x, m) == after_a.last_seen_of(x, m));
            assert(after_a.last_seen_of(x, m) == store.last_seen_of(x, m));
            assert(b_then_a.last_seen_of(x, m) == after_b.last_seen_of(x, m));
            assert(after_b.last_seen_of(x, m) == store.last_seen_of(x, m));
        }
    }
    assert forall|hash: Seq<char>|
        crate::archive::has_message(a_then_b.archive.messages, hash)
            <==> #[trigger] crate::archive::has_message(b_then_a.archive.messages, hash) by {
        let in_store = crate::archive::has_message(store.archive.messages, hash);
        let in_a = crate::archive::has_message(after_a.archive.messages, hash);
        let in_b = crate::archive::has_message(after_b.archive.messages, hash);
        if crate::archive::has_message(a_then_b.archive.messages, hash) {
            if in_a {
                if !in_store {
                    // Gained by `a` from the store: `a` gains it after `b` too.
                    assert(crate::archive::has_message(b_then_a.archive.messages, hash));
                } else {
                    assert(in_b);
                }
            } else {
                // Gained by `b` after `a`: `b` gains it from the store too.
                assert(in_b);
            }
            assert(crate::archive::has_message(b_then_a.archive.messages, hash));
        }
        if crate::archive::has_message(b_then_a.archive.messages, hash) {
            if in_b {
                if !in_store {
                    assert(crate::archive::has_message(a_then_b.archive.messages, hash));
                } else {
                    assert(in_a);
                }
            } else {
                assert(in_a);
            }
            assert(crate::archive::has_message(a_then_b.archive.messages, hash));
        }
    }
}

/// What fetching an account does depends on the marks of the account
/// alone, and leaves the marks of the other accounts as they are.
pub proof fn lemma_account_from_marks(
    one: StorageView,
    other: StorageView,
    all: bool,
    run: AccountRunView,
    order: Seq<Seq<char>>,
)
    requires
        same_marks_of(one, other, run.name),
    ensures
        same_marks_of(
            sync_account(one, all, run, order),
            sync_account(other, all, run, order),
            run.name,
        ),
        gains_held(one, sync_account(one, all, run, order), sync_account(other, all, run, order)),
        other_marks_stay(one, sync_account(one, all, run, order), run.name),
{
    match run.session {
        Some(boxes) => {
            lemma_boxes_from_marks(one, other, run.name, all, order, boxes);
        },
        None => {},
    }
}

/// Fetching an account loses no stored message.
pub proof fn lemma_account_keeps(store: StorageView, all: bool, run: AccountRunView, order: Seq<Seq<char>>)
    ensures
        keeps(store, sync_account(store, all, run, order)),
{
    match run.session {
        Some(boxes) => {
            lemma_sync_boxes(store, run.name, all, order, boxes);
        },
        None => {},
    }
}

} // verus!
