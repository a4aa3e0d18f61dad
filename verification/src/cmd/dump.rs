//! Dumping: fetching every mailbox of every account, the ignored ones too,
//! and making for each message taken in the file it is exported to.

use crate::cmd::fetch::{
    answer_of, answer_view, fetched_msgs, find_named, first_named, keeps, lemma_sync_boxes,
    lemma_sync_msg, lemma_sync_msgs, raw_of, seen_or_first, sync_boxes, sync_mailbox, sync_msg,
    sync_msgs, taken_in_boxes, AccountRun, AccountRunView, Mailbox, MailboxFetch, MailboxView,
};
use crate::data::{Storage, StorageView};
use crate::file::{gzipped, GzError};
use crate::hash::{sha256, sha256_hex};
use crate::imap::{Error, Fetched, Msg, MsgView};
use crate::object::{export_raw, Exported};
use crate::text::sorted;
use vstd::prelude::*;

verus! {

/// Why dumping an account stopped.
#[derive(Debug)]
pub enum Failure {
    /// The session of the account could not be opened or listed.
    Session(Error),
    /// The file of a message could not be made; with the mailboxes of the
    /// account in the order they were being dumped.
    File { error: GzError, mailboxes: Vec<String> },
}

/// The file of an exported message holds the fetched message `raw`.
pub open spec fn holds_raw(file: Exported, raw: Seq<u8>) -> bool {
    file.holds(crate::archive::MsgView { hash: sha256_hex(raw), raw })
}

/// The files hold the fetched messages `raws`, one each, in order.
pub open spec fn files_hold(files: Seq<Exported>, raws: Seq<Seq<u8>>) -> bool {
    &&& files.len() == raws.len()
    &&& forall|i: int| 0 <= i < files.len() ==> holds_raw(#[trigger] files[i], raws[i])
}

/// Each of the messages can be compressed.
pub open spec fn compresses(msgs: Seq<MsgView>) -> bool {
    forall|i: int| 0 <= i < msgs.len() ==> gzipped((#[trigger] msgs[i]).raw) is Some
}

/// The messages before the first that cannot be compressed; all of them
/// where each can.
pub open spec fn compressed_prefix(msgs: Seq<MsgView>) -> Seq<MsgView>
    decreases msgs.len(),
{
    if msgs.len() == 0 {
        msgs
    } else {
        let before = compressed_prefix(msgs.drop_last());
        if before.len() == msgs.len() - 1 && gzipped(msgs.last().raw) is Some {
            msgs
        } else {
            before
        }
    }
}

/// Where each message can be compressed, none is left out.
pub proof fn lemma_prefix_all(msgs: Seq<MsgView>)
    requires
        compresses(msgs),
    ensures
        compressed_prefix(msgs) == msgs,
    decreases msgs.len(),
{
    if msgs.len() > 0 {
        assert forall|i: int| 0 <= i < msgs.drop_last().len() implies gzipped(
            (#[trigger] msgs.drop_last()[i]).raw,
        ) is Some by {
            assert(msgs.drop_last()[i] == msgs[i]);
        }
        lemma_prefix_all(msgs.drop_last());
        assert(gzipped(msgs[msgs.len() - 1].raw) is Some);
    }
}

/// Where the message at `i` is the first that cannot be compressed, the
/// messages before it are kept and no other.
pub proof fn lemma_prefix_at(msgs: Seq<MsgView>, i: int)
    requires
        0 <= i < msgs.len(),
        compresses(msgs.take(i)),
        gzipped(msgs[i].raw) is None,
    ensures
        compressed_prefix(msgs) == msgs.take(i),
    decreases msgs.len(),
{
    let before = msgs.drop_last();
    if i == msgs.len() - 1 {
        assert(before =~= msgs.take(i));
        lemma_prefix_all(before);
    } else {
        assert(before.take(i) =~= msgs.take(i));
        assert(before[i] == msgs[i]);
        lemma_prefix_at(before, i);
    }
}

/// Takes in one fetched message and hands back the file to write for it.
/// The file is made first: where the message cannot be compressed, nothing
/// is taken in.
pub fn dump_msg(
    fetch: &mut MailboxFetch,
    db: &mut Storage,
    name: &str,
    mailbox: &str,
    msg: &Msg,
) -> (r: Result<Exported, GzError>)
    ensures
        final(db)@.wf(),
        keeps(old(db)@, final(db)@),
        final(fetch).last_seen_uid == old(fetch).last_seen_uid,
        final(fetch).first_uid == old(fetch).first_uid,
        r is Ok <==> gzipped(msg.raw@) is Some,
        match r {
            Ok(file) => holds_raw(file, msg.raw@) && final(db)@ == sync_msg(
                old(db)@,
                name@,
                mailbox@,
                old(fetch).last_seen_uid,
                msg@,
            ),
            Err(_) => final(db)@ == old(db)@ && *final(fetch) == *old(fetch),
        },
{
    proof {
        use_type_invariant(&*db);
    }
    let hash = sha256(msg.raw.as_slice());
    match export_raw(hash.as_str(), msg.raw.as_slice()) {
        Ok(file) => {
            proof {
                lemma_sync_msg(db@, name@, mailbox@, fetch.last_seen_uid, msg@);
            }
            fetch.msg(db, name, mailbox, msg);
            Ok(file)
        },
        Err(error) => Err(error),
    }
}

/// Dumps one mailbox from what the server sent. A fetch that failed, or
/// that would begin with 0, is passed over: nothing is taken in and no file
/// is made. Dumping stops at the first message that cannot be compressed;
/// the messages before it stay taken in.
pub fn dump_mailbox(
    db: &mut Storage,
    name: &str,
    mailbox: &str,
    all: bool,
    answer: &Result<Vec<Result<Fetched, Error>>, Error>,
) -> (r: Result<Vec<Exported>, GzError>)
    ensures
        final(db)@.wf(),
        keeps(old(db)@, final(db)@),
        final(db)@ == sync_msgs(
            old(db)@,
            name@,
            mailbox@,
            seen_or_first(old(db)@.last_seen_of(name@, mailbox@)),
            compressed_prefix(fetched_msgs(old(db)@, name@, mailbox@, all, answer_view(*answer))),
        ),
        r is Ok <==> compresses(fetched_msgs(old(db)@, name@, mailbox@, all, answer_view(*answer))),
        r matches Ok(files) ==> final(db)@ == sync_mailbox(
            old(db)@,
            name@,
            mailbox@,
            all,
            answer_view(*answer),
        ) && files_hold(
            files@,
            fetched_msgs(old(db)@, name@, mailbox@, all, answer_view(*answer)).map_values(
                |msg: MsgView| raw_of(msg),
            ),
        ),
{
    proof {
        use_type_invariant(&*db);
    }
    let mut fetch = MailboxFetch::begin(db, name, mailbox, all);
    let mut files: Vec<Exported> = Vec::new();
    let range = match fetch.range() {
        Ok(range) => range,
        Err(_) => {
            return Ok(files);
        },
    };
    let fetches = match answer {
        Ok(fetches) => fetches,
        Err(_) => {
            return Ok(files);
        },
    };
    let msgs = range.msgs(fetches);
    let ghost all_msgs = msgs.deep_view();
    let ghost raws = all_msgs.map_values(|msg: MsgView| raw_of(msg));
    let ghost seen = fetch.last_seen_uid;
    let mut i: usize = 0;
    assert(all_msgs.take(0) =~= Seq::empty());
    while i < msgs.len()
        invariant
            i <= msgs.len(),
            all_msgs == msgs.deep_view(),
            all_msgs == fetched_msgs(old(db)@, name@, mailbox@, all, answer_view(*answer)),
            fetch.last_seen_uid == seen,
            seen == seen_or_first(old(db)@.last_seen_of(name@, mailbox@)),
            db@ == sync_msgs(old(db)@, name@, mailbox@, seen, all_msgs.take(i as int)),
            db@.wf(),
            compresses(all_msgs.take(i as int)),
            files.len() == i,
            forall|k: int| 0 <= k < i ==> holds_raw(#[trigger] files[k], all_msgs[k].raw),
        decreases msgs.len() - i,
    {
        assert(all_msgs.take(i + 1).drop_last() =~= all_msgs.take(i as int));
        assert(all_msgs.take(i + 1).last() == msgs[i as int]@);
        assert(all_msgs[i as int] == msgs[i as int]@);
        proof {
            lemma_sync_msgs(old(db)@, name@, mailbox@, seen, all_msgs.take(i as int));
        }
        match dump_msg(&mut fetch, db, name, mailbox, &msgs[i]) {
            Ok(file) => {
                files.push(file);
            },
            Err(error) => {
                proof {
                    assert(gzipped(all_msgs[i as int].raw) is None);
                    lemma_prefix_at(all_msgs, i as int);
                }
                return Err(error);
            },
        }
        proof {
            assert forall|k: int| 0 <= k < i + 1 implies gzipped(
                (#[trigger] all_msgs.take(i + 1)[k]).raw,
            ) is Some by {
                if k < i {
                    assert(all_msgs.take(i as int)[k] == all_msgs[k]);
                }
            }
        }
        i += 1;
    }
    proof {
        assert(all_msgs.take(i as int) =~= all_msgs);
        lemma_prefix_all(all_msgs);
        lemma_sync_msgs(old(db)@, name@, mailbox@, seen, all_msgs);
        assert forall|k: int| 0 <= k < files.len() implies holds_raw(#[trigger] files[k], raws[k]) by {
            assert(raws[k] == all_msgs[k].raw);
        }
    }
    Ok(files)
}

/// What dumping one account did.
#[derive(Debug)]
pub struct Dumped {
    /// The mailboxes dumped, in the order they were dumped.
    pub mailboxes: Vec<String>,
    /// The files to write, in the order the messages were taken in.
    pub files: Vec<Exported>,
}

/// The names of the mailboxes of a session, in the order listed.
pub open spec fn names_of(boxes: Seq<MailboxView>) -> Seq<Seq<char>> {
    boxes.map_values(|mailbox: MailboxView| crate::cmd::fetch::name_of(mailbox))
}

/// `order` is the order in which the mailboxes of a session are dumped:
/// every mailbox listed, sorted by name.
pub open spec fn is_order(order: Seq<Seq<char>>, boxes: Seq<MailboxView>) -> bool {
    sorted(order) && order.to_multiset() == names_of(boxes).to_multiset()
}

/// The messages that dumping the mailbox `name` takes in where none of them
/// stops it: none for a mailbox that is not there or cannot be counted.
pub open spec fn mailbox_msgs(
    store: StorageView,
    account: Seq<char>,
    all: bool,
    name: Seq<char>,
    boxes: Seq<MailboxView>,
) -> Seq<MsgView> {
    match first_named(boxes, name) {
        Some(mailbox) => fetched_msgs(store, account, name, all, answer_of(mailbox)),
        None => Seq::empty(),
    }
}

/// The messages of the `m`th of the mailboxes `names`, dumped after those
/// before it, can each be compressed.
pub open spec fn box_compresses(
    store: StorageView,
    account: Seq<char>,
    all: bool,
    names: Seq<Seq<char>>,
    boxes: Seq<MailboxView>,
    m: int,
) -> bool {
    compresses(
        mailbox_msgs(sync_boxes(store, account, all, names.take(m), boxes), account, all, names[m], boxes),
    )
}

/// Every message that dumping the mailboxes `names` takes in can be
/// compressed.
pub open spec fn dumps_well(
    store: StorageView,
    account: Seq<char>,
    all: bool,
    names: Seq<Seq<char>>,
    boxes: Seq<MailboxView>,
) -> bool {
    forall|m: int| 0 <= m < names.len() ==> #[trigger] box_compresses(store, account, all, names, boxes, m)
}

/// Dumping the mailboxes `names` into `store` stopped in the `m`th of them
/// and left `after`: the mailboxes before it are dumped in full, and of the
/// `m`th the messages before the first that cannot be compressed.
pub open spec fn stopped_at(
    store: StorageView,
    after: StorageView,
    account: Seq<char>,
    all: bool,
    names: Seq<Seq<char>>,
    boxes: Seq<MailboxView>,
    m: int,
) -> bool {
    let before = sync_boxes(store, account, all, names.take(m), boxes);
    &&& 0 <= m < names.len()
    &&& forall|j: int| 0 <= j < m ==> #[trigger] box_compresses(store, account, all, names, boxes, j)
    &&& !box_compresses(store, account, all, names, boxes, m)
    &&& after == sync_msgs(
        before,
        account,
        names[m],
        seen_or_first(before.last_seen_of(account, names[m])),
        compressed_prefix(mailbox_msgs(before, account, all, names[m], boxes)),
    )
}

/// Dumping the mailboxes `names` into `store` stopped in one of them and
/// left `after`.
pub open spec fn stopped(
    store: StorageView,
    after: StorageView,
    account: Seq<char>,
    all: bool,
    names: Seq<Seq<char>>,
    boxes: Seq<MailboxView>,
) -> bool {
    exists|m: int| #[trigger] stopped_at(store, after, account, all, names, boxes, m)
}

/// The mailboxes that a session gave, `None` where it failed.
pub open spec fn session_view(session: Result<Vec<Mailbox>, Error>) -> Option<Seq<MailboxView>> {
    match session {
        Ok(boxes) => Some(boxes.deep_view()),
        Err(_) => None,
    }
}

/// The order in which the mailboxes of a session are dumped.
pub open spec fn the_order(boxes: Seq<MailboxView>) -> Seq<Seq<char>> {
    choose|order: Seq<Seq<char>>| is_order(order, boxes)
}

/// An order of the mailboxes of a session is the order of them.
pub proof fn lemma_the_order(order: Seq<Seq<char>>, boxes: Seq<MailboxView>)
    requires
        is_order(order, boxes),
    ensures
        the_order(boxes) == order,
{
    assert(is_order(the_order(boxes), boxes));
    crate::text::lemma_sorted_unique(the_order(boxes), order);
}

/// The session of the account did not fail, and every message that dumping
/// its mailboxes in their order takes in can be compressed.
pub open spec fn account_dumps_well(
    store: StorageView,
    account: Seq<char>,
    all: bool,
    session: Option<Seq<MailboxView>>,
) -> bool {
    match session {
        Some(boxes) => dumps_well(store, account, all, the_order(boxes), boxes),
        None => false,
    }
}

/// Dumps one account from what its session gave: every mailbox listed,
/// sorted by name; a mailbox that the server would not count, or whose
/// fetch fails, is passed over. A session that could not be opened or
/// listed fails the account before anything is taken in. Dumping stops at
/// the first message that cannot be compressed.
pub fn dump_account(
    name: &str,
    db: &mut Storage,
    all: bool,
    session: &Result<Vec<Mailbox>, Error>,
) -> (r: Result<Dumped, Failure>)
    ensures
        final(db)@.wf(),
        keeps(old(db)@, final(db)@),
        r is Ok <==> account_dumps_well(old(db)@, name@, all, session_view(*session)),
        match *session {
            Ok(boxes) => match r {
                Ok(did) => {
                    &&& is_order(did.mailboxes.deep_view(), boxes.deep_view())
                    &&& dumps_well(old(db)@, name@, all, did.mailboxes.deep_view(), boxes.deep_view())
                    &&& final(db)@ == sync_boxes(
                        old(db)@,
                        name@,
                        all,
                        did.mailboxes.deep_view(),
                        boxes.deep_view(),
                    )
                    &&& files_hold(
                        did.files@,
                        taken_in_boxes(
                            old(db)@,
                            name@,
                            all,
                            did.mailboxes.deep_view(),
                            boxes.deep_view(),
                        ),
                    )
                },
                Err(Failure::File { error, mailboxes }) => {
                    &&& is_order(mailboxes.deep_view(), boxes.deep_view())
                    &&& stopped(
                        old(db)@,
                        final(db)@,
                        name@,
                        all,
                        mailboxes.deep_view(),
                        boxes.deep_view(),
                    )
                },
                Err(Failure::Session(_)) => false,
            },
            Err(error) => r matches Err(Failure::Session(failure)) && failure == error
                && final(db)@ == old(db)@,
        },
{
    proof {
        use_type_invariant(&*db);
    }
    let boxes = match session {
        Ok(boxes) => boxes,
        Err(error) => {
            return Err(Failure::Session(error.clone()));
        },
    };
    let ghost views = boxes.deep_view();
    let mut listed: Vec<String> = Vec::new();
    let mut i: usize = 0;
    while i < boxes.len()
        invariant
            i <= boxes.len(),
            views == boxes.deep_view(),
            listed.deep_view() == names_of(views).take(i as int),
        decreases boxes.len() - i,
    {
        let ghost before = listed.deep_view();
        listed.push(boxes[i].name.clone());
        assert(listed.deep_view() =~= before.push(boxes[i as int].name@));
        i += 1;
        assert(listed.deep_view() =~= names_of(views).take(i as int));
    }
    assert(names_of(views).take(i as int) =~= names_of(views));
    let mut order = listed;
    crate::text::sort_strings(&mut order);
    let ghost names = order.deep_view();
    let mut files: Vec<Exported> = Vec::new();
    let mut m: usize = 0;
    assert(names.take(0) =~= Seq::empty());
    while m < order.len()
        invariant
            m <= order.len(),
            views == boxes.deep_view(),
            names == order.deep_view(),
            is_order(names, views),
            *session == Ok::<Vec<Mailbox>, Error>(*boxes),
            db@ == sync_boxes(old(db)@, name@, all, names.take(m as int), views),
            db@.wf(),
            forall|j: int|
                0 <= j < m ==> #[trigger] box_compresses(old(db)@, name@, all, names, views, j),
            files_hold(files@, taken_in_boxes(old(db)@, name@, all, names.take(m as int), views)),
        decreases order.len() - m,
    {
        let ghost here = db@;
        assert(names[m as int] == order[m as int]@);
        assert(names.take(m + 1).drop_last() =~= names.take(m as int));
        assert(names.take(m + 1).last() == order[m as int]@);
        proof {
            lemma_sync_boxes(old(db)@, name@, all, names.take(m as int), views);
        }
        match find_named(boxes, order[m].as_str()) {
            Some(j) => {
                match &boxes[j].exists {
                    Ok(_) => {
                        match dump_mailbox(db, name, order[m].as_str(), all, &boxes[j].answer) {
                            Ok(mut made) => {
                                let ghost held = files@;
                                let ghost added = made@;
                                files.append(&mut made);
                                assert(files@ =~= held + added);
                                assert(box_compresses(old(db)@, name@, all, names, views, m as int));
                            },
                            Err(error) => {
                                proof {
                                    assert(!box_compresses(old(db)@, name@, all, names, views, m as int));
                                    assert(stopped_at(old(db)@, db@, name@, all, names, views, m as int));
                                    assert(!dumps_well(old(db)@, name@, all, names, views));
                                    assert(session_view(*session) == Some(views));
                                    lemma_the_order(names, views);
                                }
                                return Err(Failure::File { error, mailboxes: order });
                            },
                        }
                    },
                    Err(_) => {
                        assert(box_compresses(old(db)@, name@, all, names, views, m as int));
                    },
                }
            },
            None => {
                assert(box_compresses(old(db)@, name@, all, names, views, m as int));
            },
        }
        m += 1;
    }
    assert(names.take(m as int) =~= names);
    proof {
        lemma_sync_boxes(old(db)@, name@, all, names, views);
        lemma_the_order(names, views);
    }
    Ok(Dumped { mailboxes: order, files })
}

/// The order of mailboxes in what dumping an account did.
pub open spec fn order_of(did: Dumped) -> Seq<Seq<char>> {
    did.mailboxes.deep_view()
}

/// The store after the accounts were dumped one after the other, the
/// mailboxes of each in its order.
pub open spec fn dump_accounts(
    store: StorageView,
    all: bool,
    runs: Seq<AccountRunView>,
    orders: Seq<Seq<Seq<char>>>,
) -> StorageView
    decreases runs.len(),
{
    if runs.len() == 0 || orders.len() != runs.len() {
        store
    } else {
        let before = dump_accounts(store, all, runs.drop_last(), orders.drop_last());
        match runs.last().session {
            Some(boxes) => sync_boxes(before, runs.last().name, all, orders.last(), boxes),
            None => before,
        }
    }
}

/// `did` is what dumping the account `run` does to `store`: every mailbox
/// of the session, sorted by name, each message compressed, and a file for
/// each message taken in.
pub open spec fn dumps(did: Dumped, store: StorageView, all: bool, run: AccountRunView) -> bool {
    match run.session {
        Some(boxes) => {
            &&& is_order(order_of(did), boxes)
            &&& dumps_well(store, run.name, all, order_of(did), boxes)
            &&& files_hold(did.files@, taken_in_boxes(store, run.name, all, order_of(did), boxes))
        },
        None => false,
    }
}

/// Dumping stopped: the accounts dumped before, and why the next one failed.
#[derive(Debug)]
pub struct Stopped {
    pub done: Vec<Dumped>,
    pub failure: Failure,
}

/// `done` is what dumping the first accounts of `runs` did, one after the
/// other, beginning with `store`.
pub open spec fn dumped_first(
    done: Seq<Dumped>,
    store: StorageView,
    all: bool,
    runs: Seq<AccountRunView>,
) -> bool {
    let orders = done.map_values(|did: Dumped| order_of(did));
    &&& done.len() <= runs.len()
    &&& forall|i: int|
        0 <= i < done.len() ==> dumps(
            #[trigger] done[i],
            dump_accounts(store, all, runs.take(i), orders.take(i)),
            all,
            runs[i],
        )
}

/// The store after the accounts that `done` speaks of were dumped.
pub open spec fn store_after(
    done: Seq<Dumped>,
    store: StorageView,
    all: bool,
    runs: Seq<AccountRunView>,
) -> StorageView {
    dump_accounts(
        store,
        all,
        runs.take(done.len() as int),
        done.map_values(|did: Dumped| order_of(did)),
    )
}

/// The command that dumps every account.
pub struct Cmd {
    /// Dump everything again, from the first message of each mailbox.
    pub all: bool,
}

impl Cmd {
    /// Dumps the accounts one after the other and stops at the first whose
    /// session failed or of which a message cannot be compressed. Hands
    /// back, for each account dumped, the mailboxes and the files to write.
    pub fn run(&self, db: &mut Storage, runs: &Vec<AccountRun>) -> (r: Result<Vec<Dumped>, Stopped>)
        ensures
            final(db)@.wf(),
            keeps(old(db)@, final(db)@),
            match r {
                Ok(done) => {
                    &&& done.len() == runs.len()
                    &&& dumped_first(done@, old(db)@, self.all, runs.deep_view())
                    &&& final(db)@ == store_after(done@, old(db)@, self.all, runs.deep_view())
                },
                Err(stopped) => {
                    let k = stopped.done.len() as int;
                    let before = store_after(stopped.done@, old(db)@, self.all, runs.deep_view());
                    &&& k < runs.len()
                    &&& dumped_first(stopped.done@, old(db)@, self.all, runs.deep_view())
                    &&& match stopped.failure {
                        Failure::Session(error) => runs[k].session == Err::<Vec<Mailbox>, Error>(
                            error,
                        ) && final(db)@ == before,
                        Failure::File { error, mailboxes } => runs[k].session matches Ok(boxes)
                            && is_order(mailboxes.deep_view(), boxes.deep_view()) && self::stopped(
                            before,
                            final(db)@,
                            runs[k].name@,
                            self.all,
                            mailboxes.deep_view(),
                            boxes.deep_view(),
                        ),
                    }
                },
            },
    {
        proof {
            use_type_invariant(&*db);
        }
        let ghost views = runs.deep_view();
        let mut done: Vec<Dumped> = Vec::new();
        let mut i: usize = 0;
        assert(views.take(0) =~= Seq::empty());
        while i < runs.len()
            invariant
                i <= runs.len(),
                views == runs.deep_view(),
                db@.wf(),
                keeps(old(db)@, db@),
                done.len() == i,
                dumped_first(done@, old(db)@, self.all, views),
                db@ == store_after(done@, old(db)@, self.all, views),
            decreases runs.len() - i,
        {
            let ghost before = done@;
            let ghost orders = before.map_values(|did: Dumped| order_of(did));
            assert(views[i as int] == runs[i as int]@);
            match dump_account(runs[i].name.as_str(), db, self.all, &runs[i].session) {
                Ok(did) => {
                    let ghost order = order_of(did);
                    done.push(did);
                    proof {
                        let now = done@.map_values(|did: Dumped| order_of(did));
                        assert(now =~= orders.push(order));
                        assert(now.drop_last() =~= orders);
                        assert(views.take(i + 1).drop_last() =~= views.take(i as int));
                        assert(views.take(i + 1).last() == runs[i as int]@);
                        assert(now.take(i as int) =~= orders);
                        assert forall|k: int| 0 <= k < i + 1 implies dumps(
                            #[trigger] done[k],
                            dump_accounts(old(db)@, self.all, views.take(k), now.take(k)),
                            self.all,
                            views[k],
                        ) by {
                            if k < i {
                                assert(done[k] == before[k]);
                                assert(now.take(k) =~= orders.take(k));
                            }
                        }
                    }
                },
                Err(failure) => {
                    return Err(Stopped { done, failure });
                },
            }
            i += 1;
        }
        assert(views.take(i as int) =~= views);
        Ok(done)
    }
}

} // verus!
