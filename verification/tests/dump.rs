use ma::archive::Archive;
use ma::object::Found;
use ma::cmd::dump::{dump_account, dump_mailbox, dump_msg, Cmd, Failure};
use ma::cmd::fetch::{AccountRun, Mailbox, MailboxFetch};
use ma::cfg::ImapAccount;
use ma::data::Storage;
use ma::file::{read_gz, write_as_gz};
use ma::hash::sha256;
use ma::imap::{Error, Fetched, Msg};
use ma::state::State;

fn raw(n: u32) -> Vec<u8> {
    format!("Subject: message {}\n\nbody {}", n, n).into_bytes()
}

fn answer(uids: &[u32]) -> Result<Vec<Result<Fetched, Error>>, Error> {
    Ok(uids
        .iter()
        .map(|uid| Ok(Fetched { uid: Some(*uid), message: *uid, body: Some(raw(*uid)) }))
        .collect())
}

fn mailbox(name: &str, uids: &[u32]) -> Mailbox {
    Mailbox { name: name.to_string(), exists: Ok(uids.len() as u32), answer: answer(uids) }
}

#[test]
fn dumping_a_message_takes_it_in_and_makes_its_file() {
    let mut db = Storage::new();
    let mut fetch = MailboxFetch::begin(&db, "acc", "INBOX", false);
    let msg = Msg { uid: 4, ord: 1, raw: raw(4) };
    let file = dump_msg(&mut fetch, &mut db, "acc", "INBOX", &msg).unwrap();
    let hash = sha256(&raw(4));
    assert_eq!(hash[..2].to_string(), file.dir);
    assert_eq!(format!("{}.eml.gz", hash), file.name);
    assert_eq!(raw(4), read_gz(&file.contents).unwrap());
    assert_ne!(raw(4), file.contents);
    assert_eq!(1, db.count_messages());
    assert_eq!(Some(4), db.fetch_last_seen("acc", "INBOX"));
}

#[test]
fn dumping_a_mailbox_gives_a_file_for_each_message_taken_in() {
    let mut db = Storage::new();
    db.store_last_seen("acc", "INBOX", 2);
    let files = dump_mailbox(&mut db, "acc", "INBOX", false, &answer(&[2, 3])).unwrap();
    assert_eq!(2, files.len());
    assert_eq!(raw(2), read_gz(&files[0].contents).unwrap());
    assert_eq!(raw(3), read_gz(&files[1].contents).unwrap());
    assert_eq!(Some(3), db.fetch_last_seen("acc", "INBOX"));
    let none = dump_mailbox(&mut db, "acc", "Other", false, &Err(Error::Bye)).unwrap();
    assert!(none.is_empty());
    assert_eq!(2, db.count_messages());
}

#[test]
fn dumping_an_account_goes_through_every_mailbox_sorted() {
    let mut db = Storage::new();
    let session = Ok(vec![mailbox("b", &[1]), mailbox("a", &[2, 3])]);
    let did = dump_account("acc", &mut db, false, &session).unwrap();
    assert_eq!(vec!["a", "b"], did.mailboxes);
    let raws: Vec<Vec<u8>> = did.files.iter().map(|f| read_gz(&f.contents).unwrap()).collect();
    assert_eq!(vec![raw(2), raw(3), raw(1)], raws);
    assert_eq!(3, db.count_messages());
}

#[test]
fn dumping_stops_at_the_first_account_that_fails() {
    let run = |name: &str, session| AccountRun {
        name: name.to_string(),
        account: ImapAccount::default(),
        session,
    };
    let runs = vec![
        run("one", Ok(vec![mailbox("INBOX", &[1])])),
        run("two", Err(Error::TimedOut)),
        run("three", Ok(vec![mailbox("INBOX", &[2])])),
    ];
    let mut db = Storage::new();
    let stopped = Cmd { all: false }.run(&mut db, &runs).unwrap_err();
    assert!(matches!(stopped.failure, Failure::Session(Error::TimedOut)));
    assert_eq!(1, stopped.done.len());
    assert_eq!(1, stopped.done[0].files.len());
    assert_eq!(1, db.count_messages());
    let uncounted = Ok(vec![
        Mailbox { name: "a".to_string(), exists: Err(Error::Bye), answer: answer(&[7]) },
        mailbox("b", &[8]),
    ]);
    let did = dump_account("acc", &mut db, false, &uncounted).unwrap();
    assert_eq!(vec!["a", "b"], did.mailboxes);
    assert_eq!(1, did.files.len());
    assert_eq!(raw(8), read_gz(&did.files[0].contents).unwrap());

    let mut fresh = Storage::new();
    let done = Cmd { all: true }
        .run(&mut fresh, &vec![run("one", Ok(vec![mailbox("b", &[1]), mailbox("a", &[2])]))])
        .unwrap();
    assert_eq!(1, done.len());
    assert_eq!(vec!["a", "b"], done[0].mailboxes);
    assert_eq!(2, done[0].files.len());
    assert_eq!(raw(2), read_gz(&done[0].files[0].contents).unwrap());
}

#[test]
fn marks_alone() {
    let mut state = State::new();
    assert_eq!(None, state.get("a", "m"));
    state.set("a", "m", 5);
    state.set("a", "n", 6);
    state.set("b", "m", 7);
    state.set("a", "m", 2);
    assert_eq!(Some(2), state.get("a", "m"));
    assert_eq!(Some(6), state.get("a", "n"));
    assert_eq!(Some(7), state.get("b", "m"));
    assert_eq!(None, state.get("m", "a"));
}

#[test]
fn archive_keeps_the_first_bytes_under_a_hash() {
    let mut archive = Archive::new();
    assert!(archive.store("k", b"A: 1\n\none").added);
    assert!(!archive.store("k", b"B: 2\n\ntwo").added);
    assert_eq!(1, archive.count_messages());
    assert_eq!(b"A: 1\n\none".to_vec(), archive.messages()[0].raw);
    let headers = archive.fetch_headers("k");
    assert_eq!(1, headers.len());
    assert_eq!("A", headers[0].name);
    assert_eq!(Some("one".to_string()), archive.fetch_body("k").unwrap().text);
    assert!(archive.contains("k"));
    assert!(!archive.contains("other"));
}

#[test]
fn import_and_insert_commands() {
    let gz = write_as_gz("x.eml", b"A: b\n\nc").unwrap();
    let files = vec![Found { name: "x.eml.gz".to_string(), contents: Some(gz.contents) }];
    let mut db = Storage::new();
    ma::cmd::import::Cmd { obj_dir: "objects".to_string() }.run(&mut db, &files);
    assert_eq!(1, db.count_messages());
    assert_eq!(sha256(b"A: b\n\nc"), db.fetch_messages()[0].hash);
    let mut archive = Archive::new();
    ma::cmd::insert::Cmd {}.run(&mut archive, &files);
    assert_eq!("x", archive.fetch_messages()[0].hash);
}
