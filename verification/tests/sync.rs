use ma::cfg::{Cfg, Db, Imap, ImapAccount};
use ma::cmd::fetch::{
    classify, fetch_account, fetch_mailbox, mailboxes, tally, AccountRun, Cmd, Mailbox,
    MailboxFetch, Outcome, Report, TaskEnd,
};
use ma::data::Storage;
use ma::fs::{find_files, Entry, FilePaths};
use ma::hash::sha256;
use ma::imap::{fetch_msgs, fetch_msgs_all, fetch_msgs_from, list_mailboxes, Error, Fetched, Msg};
use ma::text::truncate;

fn raw(n: u32) -> Vec<u8> {
    format!("Subject: message {}\n\nbody {}", n, n).into_bytes()
}

fn entry(uid: u32) -> Result<Fetched, Error> {
    Ok(Fetched { uid: Some(uid), message: uid, body: Some(raw(uid)) })
}

fn answer(uids: &[u32]) -> Result<Vec<Result<Fetched, Error>>, Error> {
    Ok(uids.iter().map(|uid| entry(*uid)).collect())
}

fn mailbox(name: &str, uids: &[u32]) -> Mailbox {
    Mailbox { name: name.to_string(), exists: Ok(uids.len() as u32), answer: answer(uids) }
}

fn account(ignore: &[&str]) -> ImapAccount {
    let mut account = ImapAccount::default();
    account.ignore_mailboxes = ignore.iter().map(|m| m.to_string()).collect();
    account
}

fn uids_of(msgs: &[Msg]) -> Vec<u32> {
    msgs.iter().map(|m| m.uid).collect()
}

#[test]
fn fetch_from_zero_is_refused() {
    assert!(matches!(fetch_msgs(Some(0)), Err(Error::UidIsZero)));
    assert!(matches!(fetch_msgs_from(0), Err(Error::UidIsZero)));
}

#[test]
fn fetch_range_is_written_with_a_star() {
    assert_eq!("1:*", fetch_msgs(None).unwrap().sequence_set());
    assert_eq!("1:*", fetch_msgs_all().unwrap().sequence_set());
    assert_eq!("5:*", fetch_msgs(Some(5)).unwrap().sequence_set());
    assert_eq!("4294967295:*", fetch_msgs_from(u32::MAX).unwrap().sequence_set());
    assert_eq!("120:*", fetch_msgs_from(120).unwrap().sequence_set());
    assert_eq!(7, fetch_msgs_from(7).unwrap().lo());
}

#[test]
fn fetch_from_five_over_one_three_five_seven() {
    let range = fetch_msgs(Some(5)).unwrap();
    // What is asked of the server: every message from 5 on.
    assert_eq!("5:*", range.sequence_set());
    let inside: Vec<u32> = [1, 3, 5, 7].into_iter().filter(|uid| range.contains(*uid)).collect();
    assert_eq!(vec![5, 7], inside);
    // What the server sends for that is taken as it comes.
    let msgs = range.msgs(&answer(&[5, 7]).unwrap());
    assert_eq!(vec![5, 7], uids_of(&msgs));
    assert_eq!(raw(5), msgs[0].raw);
}

#[test]
fn every_entry_with_uid_and_body_is_a_message() {
    let range = fetch_msgs(Some(5)).unwrap();
    let msgs = range.msgs(&answer(&[3, 9, 5]).unwrap());
    assert_eq!(vec![3, 9, 5], uids_of(&msgs));
    assert_eq!(
        Some(Msg { uid: 3, ord: 8, raw: raw(3) }),
        range.msg(Fetched { uid: Some(3), message: 8, body: Some(raw(3)) })
    );
}

#[test]
fn fetch_without_start_gives_every_message() {
    let range = fetch_msgs(None).unwrap();
    let msgs = range.msgs(&answer(&[1, 3, 5, 7]).unwrap());
    assert_eq!(vec![1, 3, 5, 7], uids_of(&msgs));
}

#[test]
fn entries_without_uid_or_body_and_failed_entries_are_dropped() {
    let range = fetch_msgs(None).unwrap();
    let fetches = vec![
        Ok(Fetched { uid: None, message: 1, body: Some(raw(1)) }),
        Ok(Fetched { uid: Some(2), message: 2, body: None }),
        Err(Error::TimedOut),
        Ok(Fetched { uid: Some(4), message: 9, body: Some(raw(4)) }),
    ];
    let msgs = range.msgs(&fetches);
    assert_eq!(vec![Msg { uid: 4, ord: 9, raw: raw(4) }], msgs);
    assert_eq!(None, range.msg(Fetched { uid: None, message: 1, body: Some(raw(1)) }));
    assert_eq!(
        Some(Msg { uid: 3, ord: 1, raw: raw(3) }),
        range.msg(Fetched { uid: Some(3), message: 1, body: Some(raw(3)) })
    );
}

#[test]
fn failed_names_of_a_listing_are_skipped() {
    let names = vec![
        Ok("INBOX".to_string()),
        Err(Error::Imap("bad name".to_string())),
        Ok("Sent".to_string()),
    ];
    assert_eq!(vec!["INBOX".to_string(), "Sent".to_string()], list_mailboxes(names));
}

#[test]
fn errors_have_their_texts() {
    assert_eq!("Bye", Error::Bye.message());
    assert_eq!("TimedOut", Error::TimedOut.message());
    assert_eq!("BadFolderPath: a/b", Error::BadFolderPath("a/b".to_string()).message());
    assert_eq!(
        "MsgInvalidMissingBody uid=42",
        Error::FetchInvalidMissingBody { uid: 42 }.message()
    );
    assert_eq!(
        "FetchInvalidMissingHeaders uid=0",
        Error::FetchInvalidMissingHeaders { uid: 0 }.message()
    );
    assert_eq!("FetchInvalidMissingUid", Error::FetchInvalidMissingUid.message());
    assert_eq!("UidIsZero", Error::UidIsZero.message());
    assert_eq!("Idle event channel hung-up", Error::IdleEventChannelHungUp.message());
    assert_eq!("MailParse: x", Error::MailParse("x".to_string()).message());
    assert_eq!("Imap error: y", Error::Imap("y".to_string()).message());
    assert_eq!("IO error: z", Error::Io("z".to_string()).message());
}

#[test]
fn mailboxes_are_those_not_ignored_sorted() {
    let listed = vec!["Sent", "INBOX", "Spam", "Archive", "Sent"]
        .into_iter()
        .map(|m| m.to_string())
        .collect();
    let names = mailboxes(&account(&["Spam"]), listed);
    assert_eq!(vec!["Archive", "INBOX", "Sent", "Sent"], names);
}

#[test]
fn first_fetch_takes_everything_and_moves_the_mark() {
    let mut db = Storage::new();
    let done = fetch_mailbox(&mut db, "acc", "INBOX", false, &answer(&[1, 3, 5, 7])).unwrap();
    assert_eq!(4, done.len());
    assert_eq!(4, db.count_messages());
    assert_eq!(Some(7), db.fetch_last_seen("acc", "INBOX"));
    // The mark read at the start is 1, so the first message does not move it.
    assert_eq!(vec![false, true, true, true], done.iter().map(|p| p.advanced).collect::<Vec<_>>());
    assert_eq!(vec![1, 2, 2, 2], done.iter().map(|p| p.inc).collect::<Vec<_>>());
    assert_eq!("message 1", done[0].subject);
    assert_eq!(sha256(&raw(1)), done[0].stored.hash);
}

#[test]
fn next_fetch_begins_with_the_mark() {
    let mut db = Storage::new();
    fetch_mailbox(&mut db, "acc", "INBOX", false, &answer(&[1, 3, 5])).unwrap();
    let done = fetch_mailbox(&mut db, "acc", "INBOX", false, &answer(&[5, 7, 9])).unwrap();
    // 5 is fetched again and is known; 7 and 9 are new.
    assert_eq!(3, done.len());
    assert_eq!(vec![false, true, true], done.iter().map(|p| p.stored.added).collect::<Vec<_>>());
    assert_eq!(vec![false, true, true], done.iter().map(|p| p.advanced).collect::<Vec<_>>());
    assert_eq!(5, db.count_messages());
    assert_eq!(Some(9), db.fetch_last_seen("acc", "INBOX"));
}

#[test]
fn fetching_everything_again_begins_with_one_and_keeps_the_mark() {
    let mut db = Storage::new();
    fetch_mailbox(&mut db, "acc", "INBOX", false, &answer(&[4, 6])).unwrap();
    let done = fetch_mailbox(&mut db, "acc", "INBOX", true, &answer(&[1, 4, 6])).unwrap();
    assert_eq!(3, done.len());
    assert_eq!(vec![false, false, false], done.iter().map(|p| p.advanced).collect::<Vec<_>>());
    assert_eq!(3, db.count_messages());
    assert_eq!(Some(6), db.fetch_last_seen("acc", "INBOX"));
}

#[test]
fn the_mark_never_goes_down_over_runs() {
    let mut db = Storage::new();
    let mut last = db.fetch_last_seen("acc", "INBOX");
    for uids in [&[2u32, 3][..], &[9, 5], &[], &[5, 9, 6], &[1]] {
        let _ = fetch_mailbox(&mut db, "acc", "INBOX", false, &answer(uids));
        let now = db.fetch_last_seen("acc", "INBOX");
        assert!(last <= now);
        last = now;
    }
    // Messages come in the order of the server: 9 and then 5 leaves the mark at 5.
    let mut other = Storage::new();
    fetch_mailbox(&mut other, "acc", "INBOX", false, &answer(&[9, 5])).unwrap();
    assert_eq!(Some(5), other.fetch_last_seen("acc", "INBOX"));
}

#[test]
fn a_failed_fetch_takes_nothing_in() {
    let mut db = Storage::new();
    let failed = fetch_mailbox(&mut db, "acc", "INBOX", false, &Err(Error::Bye));
    assert!(matches!(failed, Err(Error::Bye)));
    assert_eq!(0, db.count_messages());
    assert_eq!(None, db.fetch_last_seen("acc", "INBOX"));

    db.store_last_seen("acc", "Zero", 0);
    let refused = fetch_mailbox(&mut db, "acc", "Zero", false, &answer(&[1, 2]));
    assert!(matches!(refused, Err(Error::UidIsZero)));
    assert_eq!(0, db.count_messages());
}

#[test]
fn the_steps_of_a_fetch() {
    let mut db = Storage::new();
    db.store_last_seen("acc", "INBOX", 3);
    let mut fetch = MailboxFetch::begin(&db, "acc", "INBOX", false);
    assert_eq!((3, 3, 0), (fetch.last_seen_uid, fetch.first_uid, fetch.ord_prev));
    assert_eq!("3:*", fetch.range().unwrap().sequence_set());
    let done = fetch.msg(&mut db, "acc", "INBOX", &Msg { uid: 8, ord: 5, raw: raw(8) });
    assert!(done.advanced && done.stored.added);
    assert_eq!(5, done.inc);
    let back = fetch.msg(&mut db, "acc", "INBOX", &Msg { uid: 2, ord: 4, raw: b"no subject".to_vec() });
    assert!(!back.advanced);
    assert_eq!(0, back.inc);
    assert_eq!("", back.subject);
    assert_eq!(Some(8), db.fetch_last_seen("acc", "INBOX"));
    let all = MailboxFetch::begin(&db, "acc", "INBOX", true);
    assert_eq!((8, 1), (all.last_seen_uid, all.first_uid));
    let long = format!("Subject: {}\n\nx", "s".repeat(40)).into_bytes();
    let shown = fetch.msg(&mut db, "acc", "INBOX", &Msg { uid: 1, ord: 6, raw: long });
    assert_eq!(format!("{}...", "s".repeat(25)), shown.subject);
}

#[test]
fn an_account_is_fetched_mailbox_by_mailbox() {
    let mut db = Storage::new();
    let session = Ok(vec![
        mailbox("Sent", &[1, 2]),
        mailbox("Spam", &[3]),
        Mailbox { name: "Broken".to_string(), exists: Ok(0), answer: Err(Error::TimedOut) },
        mailbox("INBOX", &[4, 5, 6]),
    ]);
    let did = fetch_account("acc", &account(&["Spam"]), &mut db, false, &session).unwrap();
    assert_eq!(vec!["Broken", "INBOX", "Sent"], did.mailboxes);
    assert_eq!(vec![Some(0), Some(3), Some(2)], did.exists);
    assert!(did.fetched[0].is_err());
    assert_eq!(3, did.fetched[1].as_ref().unwrap().len());
    assert_eq!(5, db.count_messages());
    assert_eq!(Some(6), db.fetch_last_seen("acc", "INBOX"));
    assert_eq!(Some(2), db.fetch_last_seen("acc", "Sent"));
    assert_eq!(None, db.fetch_last_seen("acc", "Spam"));
}

#[test]
fn a_mailbox_that_cannot_be_counted_is_passed_over() {
    let mut db = Storage::new();
    let session = Ok(vec![
        Mailbox { name: "A".to_string(), exists: Err(Error::Bye), answer: answer(&[1]) },
        mailbox("B", &[2, 3]),
    ]);
    let did = fetch_account("acc", &account(&[]), &mut db, false, &session).unwrap();
    assert_eq!(vec!["A", "B"], did.mailboxes);
    assert_eq!(vec![None, Some(2)], did.exists);
    assert!(matches!(did.fetched[0], Err(Error::Bye)));
    assert_eq!(2, did.fetched[1].as_ref().unwrap().len());
    assert_eq!(2, db.count_messages());
    assert_eq!(None, db.fetch_last_seen("acc", "A"));
    assert_eq!(Some(3), db.fetch_last_seen("acc", "B"));
}

#[test]
fn an_account_fails_with_the_failure_of_its_session() {
    let mut db = Storage::new();
    let session = Err(Error::Imap("no login".to_string()));
    let failed = fetch_account("acc", &account(&[]), &mut db, false, &session);
    assert!(matches!(failed, Err(Error::Imap(text)) if text == "no login"));
    assert_eq!(0, db.count_messages());
    let long = "x".repeat(80);
    let reports = Cmd { all: false }.run(&mut db, &vec![run_of("B", Err(Error::Io(long)))]);
    assert_eq!(
        Outcome::Failed(format!("IO error: {}...", "x".repeat(40))),
        reports[0].outcome
    );
}

fn run_of(name: &str, session: Result<Vec<Mailbox>, Error>) -> AccountRun {
    AccountRun { name: name.to_string(), account: account(&[]), session }
}

#[test]
fn a_failing_account_does_not_disturb_another() {
    for order in [[0, 1], [1, 0]] {
        let mut runs = vec![
            run_of("A", Ok(vec![mailbox("INBOX", &[1, 2, 3])])),
            run_of("B", Err(Error::Io("connection refused".to_string()))),
        ];
        if order == [1, 0] {
            runs.reverse();
        }
        let mut db = Storage::new();
        let reports = Cmd { all: false }.run(&mut db, &runs);
        assert_eq!(2, reports.len());
        let of = |name: &str| reports.iter().find(|r| r.account == name).unwrap();
        assert_eq!(Outcome::Fetched, of("A").outcome);
        assert_eq!(Outcome::Failed("IO error: connection refused".to_string()), of("B").outcome);
        assert_eq!(3, db.count_messages());
        for n in 1..=3 {
            assert!(db.fetch_body(&sha256(&raw(n))).is_some());
        }
        assert_eq!(Some(3), db.fetch_last_seen("A", "INBOX"));
        let count = tally(&reports);
        assert_eq!((1, 1), (count.ok, count.failed));
    }
}

#[test]
fn two_accounts_with_the_same_message_store_it_once() {
    let runs = vec![
        run_of("A", Ok(vec![mailbox("INBOX", &[1, 2])])),
        run_of("B", Ok(vec![mailbox("INBOX", &[2, 3])])),
    ];
    let mut db = Storage::new();
    let reports = Cmd { all: false }.run(&mut db, &runs);
    assert!(reports.iter().all(|r| r.outcome == Outcome::Fetched));
    assert_eq!(3, db.count_messages());
    assert_eq!(Some(2), db.fetch_last_seen("A", "INBOX"));
    assert_eq!(Some(3), db.fetch_last_seen("B", "INBOX"));
}

#[test]
fn outcomes_by_how_the_task_ended() {
    assert_eq!(Outcome::Fetched, classify(TaskEnd::Returned(Ok(()))));
    assert_eq!(
        Outcome::Failed("bad".to_string()),
        classify(TaskEnd::Returned(Err("bad".to_string())))
    );
    assert_eq!(
        Outcome::Aborted("cancelled".to_string()),
        classify(TaskEnd::Cancelled("cancelled".to_string()))
    );
    let long = "p".repeat(60);
    assert_eq!(
        Outcome::Aborted(format!("{}...", "p".repeat(50))),
        classify(TaskEnd::Panicked(long))
    );
}

#[test]
fn tally_counts_by_outcome() {
    let report = |outcome| Report { account: "a".to_string(), outcome, mailboxes: Vec::new() };
    let reports = vec![
        report(Outcome::Fetched),
        report(Outcome::Failed("x".to_string())),
        report(Outcome::Aborted("y".to_string())),
        report(Outcome::Fetched),
    ];
    let count = tally(&reports);
    assert_eq!((2, 2), (count.ok, count.failed));
    let none = tally(&Vec::new());
    assert_eq!((0, 0), (none.ok, none.failed));
}

#[test]
fn truncate_cuts_after_max_characters() {
    assert_eq!("abc", truncate("abc", 3));
    assert_eq!("ab...", truncate("abc", 2));
    assert_eq!("...", truncate("abc", 0));
    assert_eq!("", truncate("", 0));
    assert_eq!("\u{e9}\u{e8}...", truncate("\u{e9}\u{e8}\u{ea}", 2));
}

#[test]
fn walk_goes_through_a_tree() {
    let mut walk: FilePaths<String> = find_files("root".to_string());
    let mut files = Vec::new();
    while let Some(path) = walk.pop() {
        let entry = match path.as_str() {
            "root" => Entry::Dir(vec!["root/a".to_string(), "root/d".to_string()]),
            "root/d" => Entry::Dir(vec!["root/d/b".to_string(), "root/d/pipe".to_string()]),
            "root/d/pipe" => Entry::Other,
            _ => Entry::File,
        };
        if let Some(file) = walk.found(path, entry) {
            files.push(file);
        }
    }
    assert_eq!(vec!["root/d/b", "root/a"], files);
    assert_eq!(None, walk.pop());
    let mut single = FilePaths::find(7u8);
    assert_eq!(Some(7), single.pop());
    assert_eq!(Some(7), single.found(7, Entry::File));
    assert_eq!(None, single.found(7, Entry::Other));
}

#[test]
fn configuration_defaults() {
    let account = ImapAccount::default();
    assert_eq!("", account.addr);
    assert_eq!(993, account.port);
    assert_eq!("", account.user);
    assert_eq!("", account.pass);
    assert!(account.ignore_mailboxes.is_empty());
    let imap = Imap::default();
    assert_eq!(1, imap.accounts.len());
    assert_eq!("default", imap.accounts[0].0);
    assert_eq!("ma.db", Db::default().file);
    let cfg = Cfg::default();
    assert_eq!("ma.db", cfg.db.file);
    assert_eq!("sqlite://ma.db?mode=rwc", cfg.db.url());
    assert_eq!("sqlite://dir/my.db?mode=rwc", Db { file: "dir/my.db".to_string() }.url());
}

#[test]
fn a_shown_account_hides_the_password() {
    let mut secret = account(&["Spam", "Trash"]);
    secret.addr = "imap.example.org".to_string();
    secret.user = "me".to_string();
    secret.pass = "hunter2".to_string();
    let shown = secret.fmt();
    assert_eq!("imap.example.org", shown.addr);
    assert_eq!(993, shown.port);
    assert_eq!("me", shown.user);
    assert_eq!("<XXXXX>", shown.pass);
    assert_eq!(vec!["Spam", "Trash"], shown.ignore_mailboxes);
    assert!(secret.ignores("Trash"));
    assert!(!secret.ignores("INBOX"));
}
