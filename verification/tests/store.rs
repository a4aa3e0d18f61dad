use ma::archive::Archive;
use ma::object::Found;
use ma::data::{Body, Header, Msg, Storage};
use ma::file::{path_extension_append, read_gz, write_as_gz};
use ma::hash::{sha256, to_hex};

const MSG: &str = "Foo: bar\nBaz: qux\n\nHi";

fn expected_headers(msg_hash: &str) -> Vec<Header> {
    let mut headers = vec![
        Header {
            msg_hash: msg_hash.to_string(),
            name: "Baz".to_string(),
            value: "qux".to_string(),
        },
        Header {
            msg_hash: msg_hash.to_string(),
            name: "Foo".to_string(),
            value: "bar".to_string(),
        },
    ];
    headers.sort();
    headers
}

#[test]
fn archive_roundtrip() {
    let mut archive = Archive::new();
    let msg: &str = MSG;
    let msg_hash = sha256(msg.as_bytes());
    archive.store(&msg_hash, msg.as_bytes());

    let mut headers_actual: Vec<Header> = archive.fetch_headers(&msg_hash);
    headers_actual.sort();
    assert_eq!(expected_headers(&msg_hash), headers_actual);

    assert_eq!(
        Body {
            msg_hash: msg_hash.clone(),
            text: Some("Hi".to_string())
        },
        archive.fetch_body(&msg_hash).unwrap()
    );

    assert_eq!(
        vec![Msg {
            hash: msg_hash.clone(),
            raw: msg.as_bytes().to_vec(),
        }],
        archive.fetch_messages()
    );
}

#[test]
fn data_roundtrip() {
    let mut db = Storage::new();
    let msg: &str = MSG;
    let msg_hash = sha256(msg.as_bytes());
    db.store_msg(msg.as_bytes());

    let mut headers_actual: Vec<Header> = db.fetch_headers(&msg_hash);
    headers_actual.sort();
    assert_eq!(expected_headers(&msg_hash), headers_actual);

    assert_eq!(
        Body {
            msg_hash: msg_hash.clone(),
            text: Some("Hi".to_string())
        },
        db.fetch_body(&msg_hash).unwrap()
    );

    assert_eq!(
        vec![Msg {
            hash: msg_hash.clone(),
            raw: msg.as_bytes().to_vec(),
        }],
        db.fetch_messages()
    );

    let files = db.export().unwrap();
    assert_eq!(1, files.len());
    assert_eq!(msg_hash[..2].to_string(), files[0].dir);
    assert_eq!(format!("{}.eml.gz", msg_hash), files[0].name);

    let obj_bytes = read_gz(&files[0].contents).unwrap();
    assert_eq!(msg.as_bytes(), obj_bytes);

    let account = "foo";
    let mailbox = "bar";
    let uid: u32 = 1;
    db.store_last_seen(account, mailbox, uid);
    assert_eq!(uid, db.fetch_last_seen(account, mailbox).unwrap());
}

#[test]
fn sha256_of_known_input() {
    assert_eq!(
        "e3b0c44298fc1c149afbf4c8996fb92427ae41e4649b934ca495991b7852b855",
        sha256(b"")
    );
    assert_eq!(
        "ba7816bf8f01cfea414140de5dae2223b00361a396177a9cb410ff61f20015ad",
        sha256(b"abc")
    );
}

#[test]
fn hex_of_bytes() {
    assert_eq!("00ff10a9", to_hex(&[0x00, 0xff, 0x10, 0xa9]));
    assert_eq!("", to_hex(&[]));
}

#[test]
fn same_bytes_same_hash_other_bytes_other_hash() {
    assert_eq!(sha256(b"one"), sha256(b"one"));
    assert_ne!(sha256(b"one"), sha256(b"two"));
}

#[test]
fn ingest_twice_is_ingest_once() {
    let mut db = Storage::new();
    let first = db.store_msg(MSG.as_bytes());
    assert!(first.added);
    assert!(first.header_failure.is_none());
    let messages = db.fetch_messages();
    let headers = db.fetch_headers(&first.hash);
    let body = db.fetch_body(&first.hash);

    let second = db.store_msg(MSG.as_bytes());
    assert!(!second.added);
    assert_eq!(first.hash, second.hash);
    assert_eq!(1, db.count_messages());
    assert_eq!(messages, db.fetch_messages());
    assert_eq!(headers, db.fetch_headers(&first.hash));
    assert_eq!(body, db.fetch_body(&first.hash));
}

#[test]
fn ingest_scenario() {
    let mut db = Storage::new();
    assert_eq!(0, db.count_messages());
    let stored = db.store_msg(MSG.as_bytes());
    assert_eq!(1, db.count_messages());
    let messages = db.fetch_messages();
    assert_eq!(MSG.as_bytes(), &messages[0].raw[..]);
    let headers = db.fetch_headers(&stored.hash);
    assert_eq!(2, headers.len());
    assert_eq!(("Foo", "bar"), (headers[0].name.as_str(), headers[0].value.as_str()));
    assert_eq!(("Baz", "qux"), (headers[1].name.as_str(), headers[1].value.as_str()));
    assert_eq!(Some("Hi".to_string()), db.fetch_body(&stored.hash).unwrap().text);
}

#[test]
fn repeated_header_is_stored_once_and_same_name_is_kept() {
    let mut db = Storage::new();
    let raw = b"Received: a\nReceived: b\nReceived: a\nX: y\n\nbody";
    let stored = db.store_msg(raw);
    let headers = db.fetch_headers(&stored.hash);
    let pairs: Vec<(&str, &str)> = headers
        .iter()
        .map(|h| (h.name.as_str(), h.value.as_str()))
        .collect();
    assert_eq!(vec![("Received", "a"), ("Received", "b"), ("X", "y")], pairs);
}

#[test]
fn lookups_of_unknown_hash_are_empty() {
    let db = Storage::new();
    assert!(db.fetch_headers("nothing").is_empty());
    assert!(db.fetch_body("nothing").is_none());
    assert_eq!(None, db.fetch_last_seen("a", "b"));
}

#[test]
fn header_failure_keeps_the_message() {
    let mut db = Storage::new();
    let raw = b"Foo: bar\n\rrest";
    let stored = db.store_msg(raw);
    assert!(stored.added);
    assert!(stored.header_failure.is_some());
    assert_eq!(1, db.count_messages());
    assert!(db.fetch_headers(&stored.hash).is_empty());
}

#[test]
fn last_write_of_a_mark_wins() {
    let mut db = Storage::new();
    db.store_last_seen("acc", "INBOX", 9);
    db.store_last_seen("acc", "Sent", 2);
    db.store_last_seen("acc", "INBOX", 4);
    assert_eq!(Some(4), db.fetch_last_seen("acc", "INBOX"));
    assert_eq!(Some(2), db.fetch_last_seen("acc", "Sent"));
    assert_eq!(None, db.fetch_last_seen("other", "INBOX"));
}

#[test]
fn export_then_import_gives_the_store_back() {
    let mut db = Storage::new();
    db.store_msg(MSG.as_bytes());
    db.store_msg(b"Subject: two\n\nsecond");
    let files = db.export().unwrap();
    let found: Vec<Found> = files
        .into_iter()
        .map(|f| Found { name: f.name, contents: Some(f.contents) })
        .collect();

    let mut copy = Storage::new();
    copy.import(&found);
    assert_eq!(db.fetch_messages(), copy.fetch_messages());
    for msg in db.fetch_messages() {
        assert_eq!(db.fetch_headers(&msg.hash), copy.fetch_headers(&msg.hash));
        assert_eq!(db.fetch_body(&msg.hash), copy.fetch_body(&msg.hash));
    }
    copy.import(&found);
    assert_eq!(2, copy.count_messages());
}

#[test]
fn exported_counts_named_files_and_reads_those_that_decode() {
    let gz = write_as_gz("x.eml", b"A: b\n\nc").unwrap();
    assert_eq!("x.eml.gz", gz.path);
    let files = vec![
        Found { name: "x.eml.gz".to_string(), contents: Some(gz.contents.clone()) },
        Found { name: "notes.txt".to_string(), contents: Some(gz.contents.clone()) },
        Found { name: "broken.eml.gz".to_string(), contents: Some(b"no gzip".to_vec()) },
        Found { name: "gone.eml.gz".to_string(), contents: None },
        Found { name: ".eml.gz".to_string(), contents: Some(gz.contents) },
    ];
    let (n, msgs) = ma::data::exported(&files);
    assert_eq!(4, n);
    assert_eq!(
        vec![
            Msg { hash: "x".to_string(), raw: b"A: b\n\nc".to_vec() },
            Msg { hash: "".to_string(), raw: b"A: b\n\nc".to_vec() },
        ],
        msgs
    );
}

#[test]
fn dumped_hands_out_five_at_most() {
    let mut files = Vec::new();
    for i in 0..7 {
        let raw = format!("N: {}\n\nx", i);
        let gz = write_as_gz("m.eml", raw.as_bytes()).unwrap();
        files.push(Found { name: format!("{}.eml.gz", i), contents: Some(gz.contents) });
    }
    let msgs = ma::archive::dumped(&files);
    assert_eq!(5, msgs.len());
    assert_eq!("0", msgs[0].hash);
    assert_eq!("4", msgs[4].hash);
    let mut archive = Archive::new();
    archive.insert_dumped(&files);
    assert_eq!(5, archive.count_messages());
    assert!(archive.contains("3"));
    assert!(!archive.contains("5"));
}

#[test]
fn read_gz_refuses_what_is_no_gzip() {
    assert!(read_gz(b"plain").is_err());
}

#[test]
fn extension_is_appended_not_replaced() {
    assert_eq!("foo.txt.gz", path_extension_append("foo.txt", "gz"));
    assert_eq!("foo.gz", path_extension_append("foo", "gz"));
}

#[test]
fn a_message_without_text_has_no_body_row() {
    let mut db = Storage::new();
    let stored = db.store_msg(b"");
    assert!(stored.added);
    assert!(stored.header_failure.is_none());
    assert_eq!(1, db.count_messages());
    assert!(db.fetch_headers(&stored.hash).is_empty());
    assert!(db.fetch_body(&stored.hash).is_none());
}

#[test]
fn export_names_each_message_by_its_hash() {
    let mut db = Storage::new();
    let one = db.store_msg(b"A: 1\n\none");
    let two = db.store_msg(b"B: 2\n\ntwo");
    let files = db.export().unwrap();
    let again = db.export().unwrap();
    assert_eq!(2, files.len());
    for (file, stored) in files.iter().zip([&one, &two]) {
        assert_eq!(64, stored.hash.len());
        assert_eq!(stored.hash[..2], file.dir);
        assert_eq!(format!("{}.eml.gz", stored.hash), file.name);
    }
    let names = |files: &[ma::object::Exported]| -> Vec<(String, String)> {
        files.iter().map(|f| (f.dir.clone(), f.name.clone())).collect()
    };
    assert_eq!(names(&files), names(&again));
    assert!(ma::object::is_object(&files[0].name));
    assert!(!ma::object::is_object("notes.eml"));
}

#[test]
fn an_empty_store_exports_to_no_files() {
    let db = Storage::new();
    assert!(db.export().unwrap().is_empty());
}

#[test]
fn the_file_to_write_follows_what_compressing_gave() {
    let file = ma::file::gz_file("x.eml", Ok(vec![1, 2, 3])).unwrap();
    assert_eq!("x.eml.gz", file.path);
    assert_eq!(vec![1, 2, 3], file.contents);
    let failed = ma::file::gz_file("x.eml", Err(std::io::Error::other("disk gone")));
    assert_eq!("disk gone", failed.unwrap_err().reason);
}

#[test]
fn the_exported_file_follows_what_was_made() {
    let made = ma::file::GzFile { path: "abcd.eml.gz".to_string(), contents: vec![9] };
    let exported = ma::object::exported_from("ab".to_string(), Ok(made)).unwrap();
    assert_eq!("ab", exported.dir);
    assert_eq!("abcd.eml.gz", exported.name);
    assert_eq!(vec![9], exported.contents);
    let failure = ma::file::GzError { reason: "no".to_string() };
    let failed = ma::object::exported_from("ab".to_string(), Err(failure));
    assert_eq!("no", failed.unwrap_err().reason);
}

#[test]
fn an_export_is_all_files_or_the_first_failure() {
    let file = |name: &str| ma::object::Exported {
        dir: "ab".to_string(),
        name: name.to_string(),
        contents: Vec::new(),
    };
    let failure = |reason: &str| ma::file::GzError { reason: reason.to_string() };
    let all = ma::object::all_made(vec![Ok(file("one")), Ok(file("two"))]).unwrap();
    assert_eq!(vec!["one", "two"], all.iter().map(|f| f.name.as_str()).collect::<Vec<_>>());
    assert!(ma::object::all_made(Vec::new()).unwrap().is_empty());
    let first = ma::object::all_made(vec![
        Ok(file("one")),
        Err(failure("first")),
        Ok(file("three")),
        Err(failure("second")),
    ]);
    assert_eq!("first", first.unwrap_err().reason);
}

#[test]
fn rows_for_what_was_read_out_of_a_message() {
    let field = |name: &str, value: &str| (name.to_string(), value.to_string());
    let fields = Some(vec![field("Foo", "bar"), field("Baz", "qux"), field("Foo", "bar")]);
    let read = ma::archive::rows("h", &fields, Some("Hi".to_string()));
    let header = |name: &str, value: &str| Header {
        msg_hash: "h".to_string(),
        name: name.to_string(),
        value: value.to_string(),
    };
    assert_eq!(vec![header("Foo", "bar"), header("Baz", "qux")], read.headers);
    assert_eq!(vec![Body { msg_hash: "h".to_string(), text: Some("Hi".to_string()) }], read.bodies);
    let none = ma::archive::rows("h", &None, None);
    assert!(none.headers.is_empty() && none.bodies.is_empty());
}

#[test]
fn what_is_compressed_is_the_same_each_time() {
    let one = write_as_gz("m.eml", b"A: b\n\nc").unwrap();
    let two = write_as_gz("m.eml", b"A: b\n\nc").unwrap();
    assert_eq!(one.contents, two.contents);
    let mut db = Storage::new();
    db.store_msg(MSG.as_bytes());
    let first = db.export().unwrap();
    let second = db.export().unwrap();
    assert_eq!(first[0].contents, second[0].contents);
    assert_eq!(MSG.as_bytes(), &read_gz(&second[0].contents).unwrap()[..]);
}
