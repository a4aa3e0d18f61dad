//! Senders: which names go with which addresses in the `From` fields of
//! the messages, and how firmly.

use crate::text::{sort_strings, sorted, str_eq};
use vstd::prelude::*;

verus! {

/// One address of a field: a name and an address, each where it is given.
pub struct Addr {
    pub name: Option<String>,
    pub address: Option<String>,
}

pub struct AddrView {
    pub name: Option<Seq<char>>,
    pub address: Option<Seq<char>>,
}

impl View for Addr {
    type V = AddrView;

    open spec fn view(&self) -> AddrView {
        AddrView { name: self.name.deep_view(), address: self.address.deep_view() }
    }
}

impl DeepView for Addr {
    type V = AddrView;

    open spec fn deep_view(&self) -> AddrView {
        self@
    }
}

/// A group of addresses under one name.
pub struct Group {
    pub name: Option<String>,
    pub addresses: Vec<Addr>,
}

/// The value of an address field: a list of addresses or a list of groups.
pub enum Address {
    List(Vec<Addr>),
    Group(Vec<Group>),
}

/// The name and the address of `addr`, where it has both.
pub open spec fn named(addr: AddrView) -> Option<(Seq<char>, Seq<char>)> {
    match (addr.name, addr.address) {
        (Some(name), Some(address)) => Some((name, address)),
        _ => None,
    }
}

/// The names and addresses of those of `addrs` that have both.
pub open spec fn named_of(addrs: Seq<AddrView>) -> Seq<(Seq<char>, Seq<char>)> {
    addrs.filter_map(|addr: AddrView| named(addr))
}

/// The names and addresses of the groups, one group after the other.
pub open spec fn named_of_groups(groups: Seq<Group>) -> Seq<(Seq<char>, Seq<char>)>
    decreases groups.len(),
{
    if groups.len() == 0 {
        Seq::empty()
    } else {
        named_of_groups(groups.drop_last()) + named_of(groups.last().addresses.deep_view())
    }
}

/// The names and addresses of one field.
pub open spec fn named_of_field(field: Address) -> Seq<(Seq<char>, Seq<char>)> {
    match field {
        Address::List(addrs) => named_of(addrs.deep_view()),
        Address::Group(groups) => named_of_groups(groups@),
    }
}

/// The names and addresses of the fields, one field after the other.
pub open spec fn senders_of(fields: Seq<Address>) -> Seq<(Seq<char>, Seq<char>)>
    decreases fields.len(),
{
    if fields.len() == 0 {
        Seq::empty()
    } else {
        senders_of(fields.drop_last()) + named_of_field(fields.last())
    }
}

/// Adds to `out` the names and addresses of those of `addrs` that have
/// both.
fn push_named(out: &mut Vec<(String, String)>, addrs: &Vec<Addr>)
    ensures
        final(out).deep_view() == old(out).deep_view() + named_of(addrs.deep_view()),
{
    let ghost all = addrs.deep_view();
    let ghost pick = |addr: AddrView| named(addr);
    let ghost start = out.deep_view();
    let mut i: usize = 0;
    assert(all.take(0).filter_map(pick) =~= Seq::empty());
    assert(out.deep_view() =~= start + all.take(0).filter_map(pick));
    while i < addrs.len()
        invariant
            i <= addrs.len(),
            all == addrs.deep_view(),
            pick == |addr: AddrView| named(addr),
            out.deep_view() == start + all.take(i as int).filter_map(pick),
        decreases addrs.len() - i,
    {
        let ghost before = out.deep_view();
        proof {
            all.lemma_filter_map_take_succ(pick, i as int);
            assert(all[i as int] == addrs[i as int]@);
        }
        match (&addrs[i].name, &addrs[i].address) {
            (Some(name), Some(address)) => {
                out.push((name.clone(), address.clone()));
                assert(out.deep_view() =~= before.push((name@, address@)));
            },
            _ => {},
        }
        i += 1;
        assert(out.deep_view() =~= start + all.take(i as int).filter_map(pick));
    }
    assert(all.take(i as int) =~= all);
}

/// The senders that the `From` fields of a message name: of every address
/// that has both a name and an address, the two.
pub fn msg_sender_addresses(fields: &Vec<Address>) -> (senders: Vec<(String, String)>)
    ensures
        senders.deep_view() == senders_of(fields@),
{
    let mut senders: Vec<(String, String)> = Vec::new();
    let mut i: usize = 0;
    assert(fields@.take(0) =~= Seq::empty());
    assert(senders.deep_view() =~= senders_of(fields@.take(0)));
    while i < fields.len()
        invariant
            i <= fields.len(),
            senders.deep_view() == senders_of(fields@.take(i as int)),
        decreases fields.len() - i,
    {
        assert(fields@.take(i + 1).drop_last() =~= fields@.take(i as int));
        assert(fields@.take(i + 1).last() == fields[i as int]);
        match &fields[i] {
            Address::List(addrs) => {
                push_named(&mut senders, addrs);
            },
            Address::Group(groups) => {
                let ghost start = senders.deep_view();
                let mut g: usize = 0;
                assert(groups@.take(0) =~= Seq::empty());
                assert(senders.deep_view() =~= start + named_of_groups(groups@.take(0)));
                while g < groups.len()
                    invariant
                        g <= groups.len(),
                        senders.deep_view() == start + named_of_groups(groups@.take(g as int)),
                    decreases groups.len() - g,
                {
                    assert(groups@.take(g + 1).drop_last() =~= groups@.take(g as int));
                    assert(groups@.take(g + 1).last() == groups[g as int]);
                    push_named(&mut senders, &groups[g].addresses);
                    g += 1;
                    assert(senders.deep_view() =~= start + named_of_groups(groups@.take(g as int)));
                }
                assert(groups@.take(g as int) =~= groups@);
            },
        }
        i += 1;
    }
    assert(fields@.take(i as int) =~= fields@);
    senders
}

/// A key with what it is linked to, each thing once, in the order linked.
pub struct Node {
    pub key: String,
    pub links: Vec<String>,
}

pub struct NodeView {
    pub key: Seq<char>,
    pub links: Seq<Seq<char>>,
}

impl View for Node {
    type V = NodeView;

    open spec fn view(&self) -> NodeView {
        NodeView { key: self.key@, links: self.links.deep_view() }
    }
}

impl DeepView for Node {
    type V = NodeView;

    open spec fn deep_view(&self) -> NodeView {
        self@
    }
}

/// `graph` has a node for `key`.
pub open spec fn has_key(graph: Seq<NodeView>, key: Seq<char>) -> bool {
    exists|i: int| 0 <= i < graph.len() && (#[trigger] graph[i]).key == key
}

/// Where the node for `key` stands.
pub open spec fn index_of_key(graph: Seq<NodeView>, key: Seq<char>) -> int {
    choose|i: int| 0 <= i < graph.len() && (#[trigger] graph[i]).key == key
}

/// What `key` is linked to; nothing where it has no node.
pub open spec fn links_of(graph: Seq<NodeView>, key: Seq<char>) -> Seq<Seq<char>> {
    if has_key(graph, key) {
        graph[index_of_key(graph, key)].links
    } else {
        Seq::empty()
    }
}

/// No key has two nodes.
pub open spec fn unique_keys(graph: Seq<NodeView>) -> bool {
    forall|i: int, j: int| 0 <= i < j < graph.len() ==> graph[i].key != graph[j].key
}

/// The graph after `key` was seen with `value`: a key seen for the first
/// time gets a node without links, a key seen again is linked to the
/// value, unless it is linked to it already.
pub open spec fn linked(graph: Seq<NodeView>, key: Seq<char>, value: Seq<char>) -> Seq<NodeView> {
    if has_key(graph, key) {
        let i = index_of_key(graph, key);
        if graph[i].links.contains(value) {
            graph
        } else {
            graph.update(i, NodeView { key, links: graph[i].links.push(value) })
        }
    } else {
        graph.push(NodeView { key, links: Seq::empty() })
    }
}

/// The graph of the pairs, seen one after the other.
pub open spec fn graph_of(pairs: Seq<(Seq<char>, Seq<char>)>) -> Seq<NodeView>
    decreases pairs.len(),
{
    if pairs.len() == 0 {
        Seq::empty()
    } else {
        linked(graph_of(pairs.drop_last()), pairs.last().0, pairs.last().1)
    }
}

/// The pairs the other way round.
pub open spec fn swapped(pairs: Seq<(Seq<char>, Seq<char>)>) -> Seq<(Seq<char>, Seq<char>)> {
    pairs.map_values(|pair: (Seq<char>, Seq<char>)| (pair.1, pair.0))
}

/// Linking keeps the keys apart.
pub proof fn lemma_linked_unique(graph: Seq<NodeView>, key: Seq<char>, value: Seq<char>)
    requires
        unique_keys(graph),
    ensures
        unique_keys(linked(graph, key, value)),
{
    let after = linked(graph, key, value);
    if has_key(graph, key) {
        let i = index_of_key(graph, key);
        assert forall|a: int, b: int| 0 <= a < b < after.len() implies after[a].key
            != after[b].key by {
            assert(after[a].key == graph[a].key);
            assert(after[b].key == graph[b].key);
        }
    } else {
        assert forall|a: int, b: int| 0 <= a < b < after.len() implies after[a].key
            != after[b].key by {
            if b < graph.len() {
            } else {
                assert(graph[a].key != key);
            }
        }
    }
}

/// Keys with what each is linked to.
pub struct Graph {
    nodes: Vec<Node>,
}

impl View for Graph {
    type V = Seq<NodeView>;

    closed spec fn view(&self) -> Seq<NodeView> {
        self.nodes.deep_view()
    }
}

/// Whether `texts` holds `text`.
fn holds(texts: &Vec<String>, text: &str) -> (held: bool)
    ensures
        held == texts.deep_view().contains(text@),
{
    let mut i: usize = 0;
    while i < texts.len()
        invariant
            i <= texts.len(),
            forall|k: int| 0 <= k < i ==> texts.deep_view()[k] != text@,
        decreases texts.len() - i,
    {
        assert(texts.deep_view()[i as int] == texts[i as int]@);
        if str_eq(texts[i].as_str(), text) {
            return true;
        }
        i += 1;
    }
    false
}

impl Graph {
    #[verifier::type_invariant]
    spec fn keys_apart(self) -> bool {
        unique_keys(self.nodes.deep_view())
    }

    /// A graph without nodes.
    pub fn new() -> (graph: Graph)
        ensures
            graph@ == Seq::<NodeView>::empty(),
    {
        let graph = Graph { nodes: Vec::new() };
        assert(graph@ =~= Seq::<NodeView>::empty());
        graph
    }

    /// Where the node for `key` stands.
    fn position(nodes: &Vec<Node>, key: &str) -> (found: Option<usize>)
        requires
            unique_keys(nodes.deep_view()),
        ensures
            match found {
                Some(i) => i < nodes.len() && has_key(nodes.deep_view(), key@) && i == index_of_key(
                    nodes.deep_view(),
                    key@,
                ),
                None => !has_key(nodes.deep_view(), key@),
            },
    {
        let ghost graph = nodes.deep_view();
        let mut i: usize = 0;
        while i < nodes.len()
            invariant
                i <= nodes.len(),
                graph == nodes.deep_view(),
                unique_keys(graph),
                forall|k: int| 0 <= k < i ==> (#[trigger] graph[k]).key != key@,
            decreases nodes.len() - i,
        {
            assert(graph[i as int] == nodes[i as int]@);
            if str_eq(nodes[i].key.as_str(), key) {
                assert(graph[i as int].key == key@);
                assert(index_of_key(graph, key@) == i) by {
                    let j = index_of_key(graph, key@);
                    if j != i {
                        if j < i {
                            assert(graph[j].key != graph[i as int].key);
                        } else {
                            assert(graph[i as int].key != graph[j].key);
                        }
                    }
                }
                return Some(i);
            }
            i += 1;
        }
        None
    }

    /// Takes in that `key` was seen with `value`.
    pub fn link(&mut self, key: &str, value: &str)
        ensures
            final(self)@ == linked(old(self)@, key@, value@),
    {
        proof {
            use_type_invariant(&*self);
            lemma_linked_unique(self@, key@, value@);
        }
        let mut nodes: Vec<Node> = Vec::new();
        std::mem::swap(&mut nodes, &mut self.nodes);
        let ghost before = nodes.deep_view();
        match Graph::position(&nodes, key) {
            Some(i) => {
                assert(before[i as int] == nodes[i as int]@);
                if !holds(&nodes[i].links, value) {
                    let mut node = nodes.remove(i);
                    let ghost links = node.links.deep_view();
                    node.links.push(value.to_owned());
                    assert(node.links.deep_view() =~= links.push(value@));
                    nodes.insert(i, node);
                    assert(nodes.deep_view() =~= before.update(
                        i as int,
                        NodeView { key: key@, links: before[i as int].links.push(value@) },
                    ));
                }
            },
            None => {
                let node = Node { key: key.to_owned(), links: Vec::new() };
                assert(node.links.deep_view() =~= Seq::<Seq<char>>::empty());
                nodes.push(node);
                assert(nodes.deep_view() =~= before.push(
                    NodeView { key: key@, links: Seq::empty() },
                ));
            },
        }
        self.nodes = nodes;
    }

    /// What `key` is linked to; `None` where it has no node.
    pub fn get(&self, key: &str) -> (links: Option<&Vec<String>>)
        ensures
            match links {
                Some(found) => has_key(self@, key@) && found.deep_view() == links_of(self@, key@),
                None => !has_key(self@, key@),
            },
    {
        proof {
            use_type_invariant(self);
        }
        match Graph::position(&self.nodes, key) {
            Some(i) => {
                assert(self@[i as int] == self.nodes[i as int]@);
                Some(&self.nodes[i].links)
            },
            None => None,
        }
    }

    /// The keys, in the order they were first seen.
    pub fn keys(&self) -> (keys: Vec<String>)
        ensures
            keys.deep_view() == self@.map_values(|node: NodeView| node.key),
    {
        let ghost all = self@.map_values(|node: NodeView| node.key);
        let mut keys: Vec<String> = Vec::new();
        let mut i: usize = 0;
        while i < self.nodes.len()
            invariant
                i <= self.nodes.len(),
                all == self@.map_values(|node: NodeView| node.key),
                keys.deep_view() == all.take(i as int),
            decreases self.nodes.len() - i,
        {
            let ghost before = keys.deep_view();
            assert(self@[i as int] == self.nodes[i as int]@);
            keys.push(self.nodes[i].key.clone());
            assert(keys.deep_view() =~= before.push(self.nodes[i as int].key@));
            i += 1;
            assert(keys.deep_view() =~= all.take(i as int));
        }
        assert(all.take(i as int) =~= all);
        keys
    }
}

/// The graph of the pairs, seen one after the other, and the graph of the
/// pairs the other way round.
pub fn graphs(pairs: &Vec<(String, String)>) -> (both: (Graph, Graph))
    ensures
        both.0@ == graph_of(pairs.deep_view()),
        both.1@ == graph_of(swapped(pairs.deep_view())),
{
    let ghost all = pairs.deep_view();
    let mut there = Graph::new();
    let mut back = Graph::new();
    let mut i: usize = 0;
    assert(all.take(0) =~= Seq::empty());
    assert(swapped(all).take(0) =~= Seq::empty());
    while i < pairs.len()
        invariant
            i <= pairs.len(),
            all == pairs.deep_view(),
            there@ == graph_of(all.take(i as int)),
            back@ == graph_of(swapped(all).take(i as int)),
        decreases pairs.len() - i,
    {
        assert(all[i as int] == (pairs[i as int].0@, pairs[i as int].1@));
        assert(all.take(i + 1).drop_last() =~= all.take(i as int));
        assert(all.take(i + 1).last() == all[i as int]);
        assert(swapped(all).take(i + 1).drop_last() =~= swapped(all).take(i as int));
        assert(swapped(all).take(i + 1).last() == (all[i as int].1, all[i as int].0));
        there.link(pairs[i].0.as_str(), pairs[i].1.as_str());
        back.link(pairs[i].1.as_str(), pairs[i].0.as_str());
        i += 1;
    }
    assert(all.take(i as int) =~= all);
    assert(swapped(all).take(i as int) =~= swapped(all));
    (there, back)
}

/// How firmly `key` and `value` go together: one for `key` being linked
/// to `value` in the first graph, one for `value` being linked to `key` in
/// the second.
pub open spec fn count_of(
    first: Seq<NodeView>,
    second: Seq<NodeView>,
    key: Seq<char>,
    value: Seq<char>,
) -> nat {
    let there: nat = if links_of(first, key).contains(value) {
        1
    } else {
        0
    };
    let back: nat = if links_of(second, value).contains(key) {
        1
    } else {
        0
    };
    there + back
}

/// Another key that shares a link, with how firmly it goes with it.
#[derive(Debug, PartialEq, Eq)]
pub struct Other {
    pub count: usize,
    pub key: String,
}

pub struct OtherView {
    pub count: usize,
    pub key: Seq<char>,
}

impl View for Other {
    type V = OtherView;

    open spec fn view(&self) -> OtherView {
        OtherView { count: self.count, key: self.key@ }
    }
}

impl DeepView for Other {
    type V = OtherView;

    open spec fn deep_view(&self) -> OtherView {
        self@
    }
}

/// What a key is linked to, with how firmly the two go together and with
/// the other keys that are linked to the same.
#[derive(Debug, PartialEq, Eq)]
pub struct Link {
    pub count: usize,
    pub to: String,
    pub others: Vec<Other>,
}

pub struct LinkView {
    pub count: usize,
    pub to: Seq<char>,
    pub others: Seq<OtherView>,
}

impl View for Link {
    type V = LinkView;

    open spec fn view(&self) -> LinkView {
        LinkView { count: self.count, to: self.to@, others: self.others.deep_view() }
    }
}

impl DeepView for Link {
    type V = LinkView;

    open spec fn deep_view(&self) -> LinkView {
        self@
    }
}

/// A key with its links.
#[derive(Debug, PartialEq, Eq)]
pub struct Entry {
    pub key: String,
    pub links: Vec<Link>,
}

/// The entry of another key `candidate` under the link from `key` to
/// `value`: none for `key` itself.
pub open spec fn other_of(
    first: Seq<NodeView>,
    second: Seq<NodeView>,
    key: Seq<char>,
    value: Seq<char>,
    candidate: Seq<char>,
) -> Option<OtherView> {
    if candidate != key {
        Some(OtherView { count: count_of(first, second, candidate, value) as usize, key: candidate })
    } else {
        None
    }
}

/// The entry of the link from `key` to `value`: none where `value` is
/// noisy, that is linked to as many keys as the threshold or more.
pub open spec fn link_of(
    first: Seq<NodeView>,
    second: Seq<NodeView>,
    noise_threshold: usize,
    key: Seq<char>,
    value: Seq<char>,
) -> Option<LinkView> {
    if has_key(second, value) && links_of(second, value).len() < noise_threshold {
        Some(
            LinkView {
                count: count_of(first, second, key, value) as usize,
                to: value,
                others: links_of(second, value).filter_map(
                    |candidate: Seq<char>| other_of(first, second, key, value, candidate),
                ),
            },
        )
    } else {
        None
    }
}

/// The links under `key`.
pub open spec fn entry_links(
    first: Seq<NodeView>,
    second: Seq<NodeView>,
    noise_threshold: usize,
    key: Seq<char>,
) -> Seq<LinkView> {
    links_of(first, key).filter_map(
        |value: Seq<char>| link_of(first, second, noise_threshold, key, value),
    )
}

/// The keys of the entries.
pub open spec fn keys_of(entries: Seq<Entry>) -> Seq<Seq<char>> {
    entries.map_values(|entry: Entry| entry.key@)
}

/// `entries` is the section of the first graph: an entry for each of its
/// keys, sorted by key, each with its links.
pub open spec fn is_section(
    entries: Seq<Entry>,
    first: Seq<NodeView>,
    second: Seq<NodeView>,
    noise_threshold: usize,
) -> bool {
    &&& sorted(keys_of(entries))
    &&& keys_of(entries).to_multiset() == first.map_values(|node: NodeView| node.key).to_multiset()
    &&& forall|i: int|
        0 <= i < entries.len() ==> (#[trigger] entries[i]).links.deep_view() == entry_links(
            first,
            second,
            noise_threshold,
            entries[i].key@,
        )
}

/// How firmly `key` and `value` go together.
fn count(first: &Graph, second: &Graph, key: &str, value: &str) -> (n: usize)
    ensures
        n == count_of(first@, second@, key@, value@),
{
    let there: usize = match first.get(key) {
        Some(links) => if holds(links, value) {
            1
        } else {
            0
        },
        None => 0,
    };
    let back: usize = match second.get(value) {
        Some(links) => if holds(links, key) {
            1
        } else {
            0
        },
        None => 0,
    };
    there + back
}

/// The other keys under the link from `key` to `value`.
fn others(first: &Graph, second: &Graph, key: &str, value: &str, candidates: &Vec<String>) -> (found:
    Vec<Other>)
    ensures
        found.deep_view() == candidates.deep_view().filter_map(
            |candidate: Seq<char>| other_of(first@, second@, key@, value@, candidate),
        ),
{
    let ghost all = candidates.deep_view();
    let ghost pick = |candidate: Seq<char>| other_of(first@, second@, key@, value@, candidate);
    let mut found: Vec<Other> = Vec::new();
    let mut i: usize = 0;
    assert(all.take(0).filter_map(pick) =~= Seq::empty());
    while i < candidates.len()
        invariant
            i <= candidates.len(),
            all == candidates.deep_view(),
            pick == |candidate: Seq<char>| other_of(first@, second@, key@, value@, candidate),
            found.deep_view() == all.take(i as int).filter_map(pick),
        decreases candidates.len() - i,
    {
        let ghost before = found.deep_view();
        proof {
            all.lemma_filter_map_take_succ(pick, i as int);
            assert(all[i as int] == candidates[i as int]@);
        }
        let candidate = &candidates[i];
        if !str_eq(candidate.as_str(), key) {
            let n = count(first, second, candidate.as_str(), value);
            found.push(Other { count: n, key: candidate.clone() });
            assert(found.deep_view() =~= before.push(OtherView { count: n, key: candidate@ }));
        }
        i += 1;
        assert(found.deep_view() =~= all.take(i as int).filter_map(pick));
    }
    assert(all.take(i as int) =~= all);
    found
}

/// The links under `key`.
fn links(first: &Graph, second: &Graph, noise_threshold: usize, key: &str) -> (found: Vec<Link>)
    ensures
        found.deep_view() == entry_links(first@, second@, noise_threshold, key@),
{
    let mut found: Vec<Link> = Vec::new();
    let values = match first.get(key) {
        Some(values) => values,
        None => {
            assert(found.deep_view() =~= entry_links(first@, second@, noise_threshold, key@));
            return found;
        },
    };
    let ghost all = values.deep_view();
    let ghost pick = |value: Seq<char>| link_of(first@, second@, noise_threshold, key@, value);
    let mut i: usize = 0;
    assert(all.take(0).filter_map(pick) =~= Seq::empty());
    while i < values.len()
        invariant
            i <= values.len(),
            all == values.deep_view(),
            pick == |value: Seq<char>| link_of(first@, second@, noise_threshold, key@, value),
            found.deep_view() == all.take(i as int).filter_map(pick),
        decreases values.len() - i,
    {
        let ghost before = found.deep_view();
        proof {
            all.lemma_filter_map_take_succ(pick, i as int);
            assert(all[i as int] == values[i as int]@);
        }
        let value = &values[i];
        match second.get(value.as_str()) {
            Some(candidates) => {
                if candidates.len() < noise_threshold {
                    let n = count(first, second, key, value.as_str());
                    let link = Link {
                        count: n,
                        to: value.clone(),
                        others: others(first, second, key, value.as_str(), candidates),
                    };
                    let ghost view = link@;
                    found.push(link);
                    assert(found.deep_view() =~= before.push(view));
                }
            },
            None => {},
        }
        i += 1;
        assert(found.deep_view() =~= all.take(i as int).filter_map(pick));
    }
    assert(all.take(i as int) =~= all);
    found
}

/// The section of the first graph: an entry for each of its keys, sorted
/// by key, each with its links.
pub fn section(first: &Graph, second: &Graph, noise_threshold: usize) -> (entries: Vec<Entry>)
    ensures
        is_section(entries@, first@, second@, noise_threshold),
{
    let mut keys = first.keys();
    sort_strings(&mut keys);
    let ghost order = keys.deep_view();
    let mut entries: Vec<Entry> = Vec::new();
    let mut i: usize = 0;
    while i < keys.len()
        invariant
            i <= keys.len(),
            order == keys.deep_view(),
            keys_of(entries@) == order.take(i as int),
            forall|k: int|
                0 <= k < entries.len() ==> (#[trigger] entries[k]).links.deep_view() == entry_links(
                    first@,
                    second@,
                    noise_threshold,
                    entries[k].key@,
                ),
        decreases keys.len() - i,
    {
        let ghost before = entries@;
        assert(order[i as int] == keys[i as int]@);
        let entry = Entry {
            key: keys[i].clone(),
            links: links(first, second, noise_threshold, keys[i].as_str()),
        };
        assert(entry.key@ == order[i as int]);
        entries.push(entry);
        assert(keys_of(entries@) =~= keys_of(before).push(order[i as int]));
        i += 1;
        assert(keys_of(entries@) =~= order.take(i as int));
        assert forall|k: int| 0 <= k < entries.len() implies (#[trigger] entries[k]).links.deep_view()
            == entry_links(first@, second@, noise_threshold, entries[k].key@) by {
            if k < before.len() {
                assert(entries[k] == before[k]);
            }
        }
    }
    assert(order.take(i as int) =~= order);
    entries
}

/// Which names go with which addresses, and which addresses with which
/// names.
pub struct Contacts {
    /// For each name the addresses it goes with.
    pub by_name: Vec<Entry>,
    /// For each address the names it goes with.
    pub by_addr: Vec<Entry>,
}

/// Reads the names and addresses of senders into contacts. A name or an
/// address that goes with as many others as the threshold or more is
/// noisy, and is left out of the links.
pub fn analyze(senders: &Vec<(String, String)>, noise_threshold: usize) -> (contacts: Contacts)
    ensures
        is_section(
            contacts.by_name@,
            graph_of(senders.deep_view()),
            graph_of(swapped(senders.deep_view())),
            noise_threshold,
        ),
        is_section(
            contacts.by_addr@,
            graph_of(swapped(senders.deep_view())),
            graph_of(senders.deep_view()),
            noise_threshold,
        ),
{
    let (name2addrs, addr2names) = graphs(senders);
    let by_name = section(&name2addrs, &addr2names, noise_threshold);
    let by_addr = section(&addr2names, &name2addrs, noise_threshold);
    Contacts { by_name, by_addr }
}

} // verus!
