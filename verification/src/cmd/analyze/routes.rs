//! Routes: how often mail went from one class of hosts to another, read
//! off the hops that the messages record.

use crate::seqs::{distinct, lemma_distinct};
use crate::text::{
    chars_of, decimal, lowercased, push_chars, push_decimal, str_eq, to_lowercase, trim, trimmed,
};
use vstd::prelude::*;
use vstd::string::StringExecFns;

verus! {

/// A host as a hop names it.
pub enum Host {
    /// By name.
    Name(String),
    /// By an address of four bytes: the first of them, and the address as
    /// it is written.
    V4 { first: u8, text: String },
    /// By an address of sixteen bytes: the first of them, and the address
    /// as it is written.
    V6 { first: u8, text: String },
}

pub enum HostView {
    Name(Seq<char>),
    V4 { first: u8, text: Seq<char> },
    V6 { first: u8, text: Seq<char> },
}

impl View for Host {
    type V = HostView;

    open spec fn view(&self) -> HostView {
        match self {
            Host::Name(name) => HostView::Name(name@),
            Host::V4 { first, text } => HostView::V4 { first: *first, text: text@ },
            Host::V6 { first, text } => HostView::V6 { first: *first, text: text@ },
        }
    }
}

impl DeepView for Host {
    type V = HostView;

    open spec fn deep_view(&self) -> HostView {
        self@
    }
}

/// Where the last dot of `name` before `end` stands; -1 where there is
/// none.
pub open spec fn last_dot(name: Seq<char>, end: int) -> int
    decreases end,
{
    if end <= 0 {
        -1
    } else if name[end - 1] == '.' {
        end - 1
    } else {
        last_dot(name, end - 1)
    }
}

/// The class of a host with the name `name`: private where the name has no
/// dot, else public, under its last two labels where classes are reduced
/// and under the whole name where they are not.
pub open spec fn name_class(name: Seq<char>, reduce: bool) -> Seq<char> {
    let dot = last_dot(name, name.len() as int);
    if dot < 0 {
        "name:private"@
    } else if reduce {
        "name:pub="@ + name.skip(last_dot(name, dot) + 1)
    } else {
        "name:pub="@ + name
    }
}

/// The class of a host: of a name, the class of the name trimmed and in
/// lower case; of an address, the address, reduced to its first byte where
/// classes are reduced.
pub open spec fn class_of(host: Option<HostView>, reduce: bool) -> Seq<char> {
    match host {
        None => "unknown"@,
        Some(HostView::Name(name)) => name_class(lowercased(trimmed(name)), reduce),
        Some(HostView::V4 { first, text }) => if reduce {
            "ipv4="@ + decimal(first as nat) + ".x.x.x"@
        } else {
            "ipv4="@ + text
        },
        Some(HostView::V6 { first, text }) => if reduce {
            "ipv6="@ + decimal(first as nat) + ":x:x:x:x:x:x:x:x:x:x:x:x:x:x:x"@
        } else {
            "ipv6="@ + text
        },
    }
}

/// Looks for the last dot before `end`.
fn find_last_dot(name: &Vec<char>, end: usize) -> (dot: Option<usize>)
    requires
        end <= name.len(),
    ensures
        match dot {
            Some(i) => i < end && i == last_dot(name@, end as int),
            None => last_dot(name@, end as int) == -1,
        },
{
    let mut i: usize = end;
    while i > 0
        invariant
            i <= end <= name.len(),
            last_dot(name@, end as int) == last_dot(name@, i as int),
        decreases i,
    {
        if name[i - 1] == '.' {
            return Some(i - 1);
        }
        i -= 1;
    }
    None
}

/// The class of a host with the name `name`, which is trimmed and in lower
/// case already.
pub fn name_class_of(name: &str, reduce: bool) -> (class: String)
    ensures
        class@ == name_class(name@, reduce),
{
    let chars = chars_of(name);
    match find_last_dot(&chars, chars.len()) {
        None => "name:private".to_owned(),
        Some(dot) => {
            let mut class = "name:pub=".to_owned();
            if reduce {
                let from = match find_last_dot(&chars, dot) {
                    Some(before) => before + 1,
                    None => 0,
                };
                push_chars(&mut class, &chars, from);
            } else {
                class.append(name);
            }
            class
        },
    }
}

/// The class of the host `host`.
pub fn host_class(host: Option<Host>, reduce: bool) -> (class: String)
    ensures
        class@ == class_of(host.deep_view(), reduce),
{
    match host {
        None => "unknown".to_owned(),
        Some(Host::Name(name)) => {
            let name = to_lowercase(trim(name.as_str()).as_str());
            name_class_of(name.as_str(), reduce)
        },
        Some(Host::V4 { first, text }) => {
            let mut class = "ipv4=".to_owned();
            if reduce {
                push_decimal(&mut class, first as u32);
                class.append(".x.x.x");
                assert(class@ =~= "ipv4="@ + decimal(first as nat) + ".x.x.x"@);
            } else {
                class.append(text.as_str());
            }
            class
        },
        Some(Host::V6 { first, text }) => {
            let mut class = "ipv6=".to_owned();
            if reduce {
                push_decimal(&mut class, first as u32);
                class.append(":x:x:x:x:x:x:x:x:x:x:x:x:x:x:x");
                assert(class@ =~= "ipv6="@ + decimal(first as nat)
                    + ":x:x:x:x:x:x:x:x:x:x:x:x:x:x:x"@);
            } else {
                class.append(text.as_str());
            }
            class
        },
    }
}

/// One hop of a message: the host it came from and the host that took it.
pub struct Hop {
    pub from: Option<Host>,
    pub by: Option<Host>,
}

pub struct HopView {
    pub from: Option<HostView>,
    pub by: Option<HostView>,
}

impl View for Hop {
    type V = HopView;

    open spec fn view(&self) -> HopView {
        HopView { from: self.from.deep_view(), by: self.by.deep_view() }
    }
}

impl DeepView for Hop {
    type V = HopView;

    open spec fn deep_view(&self) -> HopView {
        self@
    }
}

/// A route: the class of hosts mail came from, the class that took it, and
/// how often.
#[derive(Debug, PartialEq, Eq)]
pub struct Route {
    pub src: String,
    pub dst: String,
    pub count: usize,
}

impl Route {
    /// The two classes of the route.
    pub open spec fn ends(self) -> (Seq<char>, Seq<char>) {
        (self.src@, self.dst@)
    }

    /// Whether the route is drawn: a route taken once is not.
    pub fn is_drawn(&self) -> (drawn: bool)
        ensures
            drawn == (self.count > 1),
    {
        self.count > 1
    }
}

/// The route of a hop.
pub open spec fn route_of(hop: HopView, reduce: bool) -> (Seq<char>, Seq<char>) {
    (class_of(hop.from, reduce), class_of(hop.by, reduce))
}

/// Being the route `route`.
pub open spec fn is_route(route: (Seq<char>, Seq<char>)) -> spec_fn((Seq<char>, Seq<char>)) -> bool {
    |other: (Seq<char>, Seq<char>)| other == route
}

/// How often `route` occurs among `routes`.
pub open spec fn times(routes: Seq<(Seq<char>, Seq<char>)>, route: (Seq<char>, Seq<char>)) -> nat {
    routes.filter(is_route(route)).len()
}

/// The routes found, and the highest count among those taken more than
/// once; 0 where none was.
pub struct Routes {
    pub routes: Vec<Route>,
    pub max: usize,
}

impl Routes {
    /// The two classes of each route.
    pub open spec fn ends(self) -> Seq<(Seq<char>, Seq<char>)> {
        self.routes@.map_values(|route: Route| route.ends())
    }

    /// The routes are those of `all`, each once, in the order they first
    /// occur, each with the number of times it occurs; and `max` is the
    /// highest count among the routes that occur more than once.
    pub open spec fn counts(self, all: Seq<(Seq<char>, Seq<char>)>) -> bool {
        &&& self.ends() == distinct(all)
        &&& forall|i: int|
            0 <= i < self.routes.len() ==> (#[trigger] self.routes[i]).count == times(
                all,
                self.routes[i].ends(),
            )
        &&& forall|i: int|
            0 <= i < self.routes.len() && (#[trigger] self.routes[i]).count > 1
                ==> self.routes[i].count <= self.max
        &&& self.max != 0 ==> self.max > 1 && exists|i: int|
            0 <= i < self.routes.len() && (#[trigger] self.routes[i]).count == self.max
    }
}

/// Looks for the route from `src` to `dst`.
fn find_route(routes: &Vec<Route>, src: &str, dst: &str) -> (found: Option<usize>)
    ensures
        match found {
            Some(i) => i < routes.len() && routes[i as int].ends() == (src@, dst@),
            None => forall|k: int| 0 <= k < routes.len() ==> (#[trigger] routes[k]).ends() != (src@, dst@),
        },
{
    let mut i: usize = 0;
    while i < routes.len()
        invariant
            i <= routes.len(),
            forall|k: int| 0 <= k < i ==> (#[trigger] routes[k]).ends() != (src@, dst@),
        decreases routes.len() - i,
    {
        if str_eq(routes[i].src.as_str(), src) && str_eq(routes[i].dst.as_str(), dst) {
            return Some(i);
        }
        i += 1;
    }
    None
}

/// Counts the routes of the hops.
pub fn trace(reduce: bool, hops: Vec<Hop>) -> (found: Routes)
    ensures
        found.counts(hops.deep_view().map_values(|hop: HopView| route_of(hop, reduce))),
{
    let ghost all = hops.deep_view().map_values(|hop: HopView| route_of(hop, reduce));
    let mut found = Routes { routes: Vec::new(), max: 0 };
    let n = hops.len();
    proof {
        assert(all.take(0) =~= Seq::empty());
        assert(found.ends() =~= distinct(all.take(0)));
    }
    for hop in it: hops
        invariant
            it.seq().len() == all.len(),
            all.len() == n,
            forall|k: int| 0 <= k < all.len() ==> route_of((#[trigger] it.seq()[k])@, reduce) == all[k],
            found.counts(all.take(it.index() as int)),
            forall|i: int| 0 <= i < found.routes.len() ==> (#[trigger] found.routes[i]).count <= it.index(),
    {
        let ghost k = it.index() as int;
        let ghost seen = all.take(k);
        let ghost route = all[k];
        let ghost before = found;
        let Hop { from, by } = hop;
        let dst = host_class(by, reduce);
        let src = host_class(from, reduce);
        assert((src@, dst@) == route);
        proof {
            assert(all.take(k + 1).drop_last() =~= seen);
            assert(all.take(k + 1).last() == route);
            lemma_distinct(seen);
            assert forall|other: (Seq<char>, Seq<char>)| times(all.take(k + 1), other) == times(
                seen,
                other,
            ) + if other == route {
                1nat
            } else {
                0nat
            } by {
                crate::seqs::lemma_filter_next(all, k, is_route(other));
            }
        }
        match find_route(&found.routes, src.as_str(), dst.as_str()) {
            Some(j) => {
                let count = found.routes[j].count + 1;
                found.routes.set(j, Route { src, dst, count });
                if count > found.max {
                    found.max = count;
                }
                proof {
                    assert(before.ends()[j as int] == route);
                    assert(distinct(seen).contains(route));
                    assert(seen.contains(route));
                    assert(count > 1) by {
                        let i = choose|i: int| 0 <= i < seen.len() && seen[i] == route;
                        seen.lemma_filter_contains(is_route(route), i);
                    }
                    assert(found.ends() =~= before.ends());
                    assert forall|i: int| 0 <= i < found.routes.len() implies (
                    #[trigger] found.routes[i]).count == times(
                        all.take(k + 1),
                        found.routes[i].ends(),
                    ) by {
                        if i != j {
                            assert(found.routes[i] == before.routes[i]);
                            assert(before.ends()[i] == before.routes[i].ends());
                            assert(distinct(seen).no_duplicates());
                            assert(before.ends()[i] != before.ends()[j as int]);
                        }
                    }
                    assert forall|i: int|
                        0 <= i < found.routes.len() && (#[trigger] found.routes[i]).count
                            > 1 implies found.routes[i].count <= found.max by {
                        if i != j {
                            assert(found.routes[i] == before.routes[i]);
                        }
                    }
                    if found.max != 0 {
                        if count > before.max {
                            assert(found.routes[j as int].count == found.max);
                        } else {
                            let w = choose|w: int|
                                0 <= w < before.routes.len() && (#[trigger] before.routes[w]).count
                                    == before.max;
                            if w == j {
                                assert(false);
                            }
                            assert(found.routes[w] == before.routes[w]);
                        }
                    }
                }
            },
            None => {
                proof {
                    assert(!distinct(seen).contains(route)) by {
                        if distinct(seen).contains(route) {
                            let i = choose|i: int|
                                0 <= i < distinct(seen).len() && distinct(seen)[i] == route;
                            assert(before.ends()[i] == before.routes[i].ends());
                        }
                    }
                    assert(!seen.contains(route));
                    assert(times(seen, route) == 0) by {
                        assert forall|i: int| 0 <= i < seen.len() implies #[trigger] seen[i]
                            != route by {
                            assert(seen.contains(seen[i]));
                        }
                        crate::seqs::lemma_filter_none(seen, is_route(route));
                    }
                }
                found.routes.push(Route { src, dst, count: 1 });
                proof {
                    assert(found.ends() =~= before.ends().push(route));
                    assert forall|i: int| 0 <= i < found.routes.len() implies (
                    #[trigger] found.routes[i]).count == times(
                        all.take(k + 1),
                        found.routes[i].ends(),
                    ) by {
                        if i < before.routes.len() {
                            assert(found.routes[i] == before.routes[i]);
                            assert(before.ends()[i] == before.routes[i].ends());
                            assert(distinct(seen).contains(before.ends()[i]));
                        }
                    }
                    assert forall|i: int|
                        0 <= i < found.routes.len() && (#[trigger] found.routes[i]).count
                            > 1 implies found.routes[i].count <= found.max by {
                        if i < before.routes.len() {
                            assert(found.routes[i] == before.routes[i]);
                        }
                    }
                    if found.max != 0 {
                        let w = choose|w: int|
                            0 <= w < before.routes.len() && (#[trigger] before.routes[w]).count
                                == before.max;
                        assert(found.routes[w] == before.routes[w]);
                    }
                }
            },
        }
    }
    assert(all.take(all.len() as int) =~= all);
    found
}

} // verus!
