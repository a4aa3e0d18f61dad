use ma::cmd::analyze::routes::{host_class, name_class_of, trace, Hop, Host, Route};
use ma::cmd::analyze::senders::{
    analyze, graphs, msg_sender_addresses, section, Addr, Address, Graph, Group, Link, Other,
};

fn name(text: &str) -> Option<Host> {
    Some(Host::Name(text.to_string()))
}

#[test]
fn classes_of_hosts() {
    assert_eq!("unknown", host_class(None, false));
    assert_eq!("unknown", host_class(None, true));
    assert_eq!("name:private", host_class(name("localhost"), true));
    assert_eq!("name:private", host_class(name(""), false));
    assert_eq!("name:pub=mail.example.org", host_class(name("  Mail.Example.ORG "), false));
    assert_eq!("name:pub=example.org", host_class(name("  Mail.Example.ORG "), true));
    assert_eq!("name:pub=example.org", host_class(name("example.org"), true));
    assert_eq!("name:pub=a.", host_class(name("a."), true));
    assert_eq!("name:pub=.", host_class(name("x.."), true));
    let v4 = || Some(Host::V4 { first: 192, text: "192.168.0.1".to_string() });
    assert_eq!("ipv4=192.168.0.1", host_class(v4(), false));
    assert_eq!("ipv4=192.x.x.x", host_class(v4(), true));
    let v6 = || Some(Host::V6 { first: 32, text: "2001:db8::1".to_string() });
    assert_eq!("ipv6=2001:db8::1", host_class(v6(), false));
    assert_eq!("ipv6=32:x:x:x:x:x:x:x:x:x:x:x:x:x:x:x", host_class(v6(), true));
}

#[test]
fn routes_are_counted() {
    let hop = |from: &str, by: &str| Hop { from: name(from), by: name(by) };
    let hops = vec![
        hop("a.one.org", "b.two.org"),
        hop("c.one.org", "two.org"),
        hop("a.one.org", "b.two.org"),
        hop("x.three.org", "b.two.org"),
        Hop { from: None, by: name("b.two.org") },
        hop("y.three.org", "z.two.org"),
        hop("one.org", "two.org"),
    ];
    let found = trace(true, hops);
    let route = |src: &str, dst: &str, count| Route {
        src: src.to_string(),
        dst: dst.to_string(),
        count,
    };
    assert_eq!(
        vec![
            route("name:pub=one.org", "name:pub=two.org", 4),
            route("name:pub=three.org", "name:pub=two.org", 2),
            route("unknown", "name:pub=two.org", 1),
        ],
        found.routes
    );
    assert_eq!(4, found.max);
    assert!(found.routes[0].is_drawn());
    assert!(!found.routes[2].is_drawn());

    let single = trace(false, vec![hop("a.x", "b.x"), hop("b.x", "c.x")]);
    assert_eq!(0, single.max);
    assert_eq!(2, single.routes.len());
    let none = trace(false, Vec::new());
    assert_eq!((0, 0), (none.routes.len(), none.max));
}

fn addr(name: Option<&str>, address: Option<&str>) -> Addr {
    Addr { name: name.map(|n| n.to_string()), address: address.map(|a| a.to_string()) }
}

fn pair(name: &str, address: &str) -> (String, String) {
    (name.to_string(), address.to_string())
}

#[test]
fn senders_are_the_addresses_with_name_and_address() {
    let fields = vec![
        Address::List(vec![
            addr(Some("Ann"), Some("ann@example.org")),
            addr(None, Some("nobody@example.org")),
            addr(Some("Bob"), None),
        ]),
        Address::Group(vec![
            Group { name: Some("team".to_string()), addresses: vec![addr(Some("Cy"), Some("cy@example.org"))] },
            Group { name: None, addresses: vec![addr(None, None), addr(Some("Di"), Some("di@example.org"))] },
        ]),
        Address::List(Vec::new()),
    ];
    assert_eq!(
        vec![pair("Ann", "ann@example.org"), pair("Cy", "cy@example.org"), pair("Di", "di@example.org")],
        msg_sender_addresses(&fields)
    );
}

#[test]
fn a_key_is_linked_from_its_second_sight_on() {
    let mut graph = Graph::new();
    assert!(graph.get("Ann").is_none());
    graph.link("Ann", "a@x");
    assert_eq!(Some(&Vec::<String>::new()), graph.get("Ann"));
    graph.link("Bob", "b@x");
    graph.link("Ann", "a@y");
    graph.link("Ann", "a@y");
    graph.link("Ann", "a@x");
    assert_eq!(Some(&vec!["a@y".to_string(), "a@x".to_string()]), graph.get("Ann"));
    assert_eq!(vec!["Ann", "Bob"], graph.keys());
}

#[test]
fn contacts_of_senders() {
    let senders = vec![
        pair("Bob", "b@x"),
        pair("Ann", "a@x"),
        pair("Ann", "a@x"),
        pair("Ann", "a@y"),
        pair("Al", "a@x"),
        pair("Al", "a@x"),
    ];
    let contacts = analyze(&senders, 10);
    let keys: Vec<&str> = contacts.by_name.iter().map(|e| e.key.as_str()).collect();
    assert_eq!(vec!["Al", "Ann", "Bob"], keys);
    // `a@x` was seen with Ann, Ann again, Al and Al again: it is linked to Ann and Al.
    let other = |count, key: &str| Other { count, key: key.to_string() };
    assert_eq!(
        vec![Link { count: 2, to: "a@x".to_string(), others: vec![other(2, "Ann")] }],
        contacts.by_name[0].links
    );
    assert_eq!(
        vec![
            Link { count: 2, to: "a@x".to_string(), others: vec![other(2, "Al")] },
            Link { count: 1, to: "a@y".to_string(), others: Vec::new() },
        ],
        contacts.by_name[1].links
    );
    assert!(contacts.by_name[2].links.is_empty());
    let addrs: Vec<&str> = contacts.by_addr.iter().map(|e| e.key.as_str()).collect();
    assert_eq!(vec!["a@x", "a@y", "b@x"], addrs);
    assert_eq!(
        vec![
            Link { count: 2, to: "Ann".to_string(), others: vec![other(1, "a@y")] },
            Link { count: 2, to: "Al".to_string(), others: Vec::new() },
        ],
        contacts.by_addr[0].links
    );

    // With a threshold of 2, `a@x` goes with too many names and is left out.
    let strict = analyze(&senders, 2);
    assert!(strict.by_name[0].links.is_empty());
    assert_eq!(1, strict.by_name[1].links.len());
    assert_eq!("a@y", strict.by_name[1].links[0].to);

    let (there, back) = graphs(&senders);
    assert_eq!(contacts.by_name, section(&there, &back, 10));
    assert_eq!(contacts.by_addr, section(&back, &there, 10));
}

#[test]
fn classes_of_names() {
    assert_eq!("name:private", name_class_of("localhost", false));
    assert_eq!("name:pub=a.b.example.org", name_class_of("a.b.example.org", false));
    assert_eq!("name:pub=example.org", name_class_of("a.b.example.org", true));
    assert_eq!("name:pub= Mail.Org", name_class_of(" Mail.Org", false));
}
