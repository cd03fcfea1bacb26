//! The forwarding table: routes grouped by prefix length, longest first.

use std::collections::HashMap;
use vstd::prelude::*;

use crate::bucket::{
    bucket, lemma_bucket_empty, lemma_bucket_holds, lemma_bucket_push,
    lemma_first_in_bucket_forwards,
};
use crate::cidr::{lemma_zero_prefix_contains_all, Cidr};
use crate::interface::Interface;
use crate::lookup::{
    covers, gives_way, lemma_selected, lemma_some_route_forwards, lookup, selected, Entry,
};

verus! {

/// A longest-prefix-match forwarding table. Its view is the sequence of the
/// routes added so far, oldest first.
pub struct RoutingTable {
    /// The prefix lengths in use, longest first.
    prefixes: Vec<u8>,
    /// For each prefix length in use, its routes in the order they were added.
    table: HashMap<u8, Vec<Entry>>,
    /// Every route added, oldest first.
    routes: Ghost<Seq<Entry>>,
}

impl View for RoutingTable {
    type V = Seq<Entry>;

    closed spec fn view(&self) -> Seq<Entry> {
        self.routes@
    }
}

impl RoutingTable {
    /// The prefix lengths in use, in the order in which a lookup tries them.
    pub closed spec fn prefix_lengths(&self) -> Seq<u8> {
        self.prefixes@
    }

    /// The routes as the table holds them: for each prefix length in use, its
    /// routes in the order in which a lookup tries them.
    pub closed spec fn buckets(&self) -> Map<u8, Seq<Entry>> {
        Map::new(|p: u8| self.table@.contains_key(p), |p: u8| self.table@[p]@)
    }

    /// How the table is laid out. The prefix lengths in use are strictly
    /// descending and are the keys of the buckets. Each bucket holds the
    /// routes of its length in the order they were added, at least one. Every
    /// route has its length in use.
    pub open spec fn laid_out(&self) -> bool {
        &&& strictly_descending(self.prefix_lengths())
        &&& forall|p: u8| self.prefix_lengths().contains(p) <==> self.buckets().contains_key(p)
        &&& forall|p: u8| #[trigger]
            self.buckets().contains_key(p) ==> self.buckets()[p].len() > 0 && self.buckets()[p]
                == bucket(self@, p)
        &&& forall|i: int|
            0 <= i < self@.len() ==> self.buckets().contains_key(
                #[trigger] self@[i].net.spec_prefix(),
            )
    }

    /// The layout of [`RoutingTable::laid_out`], stated over the fields.
    #[verifier::type_invariant]
    spec fn inv(self) -> bool {
        &&& strictly_descending(self.prefixes@)
        &&& forall|p: u8| self.prefixes@.contains(p) <==> self.table@.contains_key(p)
        &&& forall|p: u8| #[trigger]
            self.table@.contains_key(p) ==> self.table@[p]@.len() > 0 && self.table@[p]@ == bucket(
                self.routes@,
                p,
            )
        &&& forall|i: int|
            0 <= i < self.routes@.len() ==> self.table@.contains_key(
                #[trigger] self.routes@[i].net.spec_prefix(),
            )
    }

    /// What holds of the fields holds of what the table shows of them.
    proof fn lemma_laid_out(self)
        requires
            self.inv(),
        ensures
            self.laid_out(),
    {
        assert forall|p: u8| self.buckets().contains_key(p) == self.table@.contains_key(p) by {}
    }

    /// An empty table.
    pub fn new() -> (r: RoutingTable)
        ensures
            r@ == Seq::<Entry>::empty(),
            r.prefix_lengths() == Seq::<u8>::empty(),
            r.buckets() == Map::<u8, Seq<Entry>>::empty(),
            r.laid_out(),
    {
        let r = RoutingTable {
            prefixes: Vec::new(),
            table: HashMap::new(),
            routes: Ghost(Seq::empty()),
        };
        proof {
            r.lemma_laid_out();
            assert(r.buckets() =~= Map::<u8, Seq<Entry>>::empty());
        }
        r
    }

    /// Adds a route for `net` through `interface`, by way of `gw` where one is
    /// given. The route is not compared with those already there: one that
    /// repeats or overlaps an earlier route is kept, behind it.
    pub fn add_route(&mut self, net: Cidr, gw: Option<u32>, interface: Interface)
        ensures
            final(self)@ == old(self)@.push(Entry { net, gw, interface }),
            final(self).laid_out(),
    {
        let mut taken = RoutingTable::new();
        std::mem::swap(self, &mut taken);
        proof {
            use_type_invariant(&taken);
        }
        let RoutingTable { prefixes, table, routes } = taken;
        let mut prefixes = prefixes;
        let mut table = table;
        let prefix = net.prefix();
        let entry = Entry { net, gw, interface };
        let ghost grown = routes@.push(entry);
        proof {
            assert forall|p: u8| bucket(grown, p) == if p == prefix {
                bucket(routes@, p).push(entry)
            } else {
                bucket(routes@, p)
            } by {
                lemma_bucket_push(routes@, entry, p);
            }
        }
        if !table.contains_key(&prefix) {
            proof {
                lemma_bucket_empty(routes@, prefix);
            }
            insert_descending(&mut prefixes, prefix);
            let mut entries = Vec::new();
            entries.push(entry);
            table.insert(prefix, entries);
            assert(table@[prefix]@ =~= bucket(grown, prefix));
        } else {
            let mut entries = table.remove(&prefix).unwrap();
            entries.push(entry);
            table.insert(prefix, entries);
        }
        *self = RoutingTable { prefixes, table, routes: Ghost(grown) };
        proof {
            self.lemma_laid_out();
        }
    }

    /// The gateway and interface of the route that forwards `ip`: the most
    /// specific route that contains `ip`, and among equally specific ones the
    /// one added first. `None` where no route contains `ip`. The table stays
    /// as it is.
    pub fn route(&self, ip: u32) -> (r: Option<(Option<u32>, Interface)>)
        ensures
            r == lookup(self@, ip),
    {
        proof {
            use_type_invariant(self);
        }
        let ghost routes = self.routes@;
        let mut k: usize = 0;
        while k < self.prefixes.len()
            invariant
                k <= self.prefixes@.len(),
                routes == self.routes@,
                self.inv(),
                forall|j: int, a: int|
                    0 <= a < k && #[trigger] covers(routes, j, ip) ==> routes[j].net.spec_prefix()
                        != #[trigger] self.prefixes@[a],
            decreases self.prefixes@.len() - k,
        {
            let prefix = self.prefixes[k];
            assert(self.prefixes@.contains(prefix));
            let entries = self.table.get(&prefix).unwrap();
            match first_match(entries, ip) {
                Some(n) => {
                    proof {
                        assert forall|j: int| #[trigger] covers(routes, j, ip) implies routes[j].net.spec_prefix()
                            <= prefix by {
                            self.lemma_prefix_in_use(j);
                        }
                        lemma_first_in_bucket_forwards(routes, ip, prefix, n as int);
                    }
                    let entry = &entries[n];
                    return Some((entry.gw, entry.interface.clone()));
                },
                None => {
                    proof {
                        assert forall|j: int| #[trigger] covers(routes, j, ip) implies routes[j].net.spec_prefix()
                            != prefix by {
                            lemma_bucket_holds(routes, j);
                        }
                    }
                },
            }
            k += 1;
        }
        proof {
            assert forall|j: int| !covers(routes, j, ip) by {
                if covers(routes, j, ip) {
                    self.lemma_prefix_in_use(j);
                }
            }
        }
        None
    }

    /// The prefix length of each route is one of the lengths in use: the place
    /// returned holds it.
    proof fn lemma_prefix_in_use(self, j: int) -> (a: int)
        requires
            self.inv(),
            0 <= j < self.routes@.len(),
        ensures
            0 <= a < self.prefixes@.len(),
            self.prefixes@[a] == self.routes@[j].net.spec_prefix(),
    {
        let q = self.routes@[j].net.spec_prefix();
        assert(self.table@.contains_key(q));
        assert(self.prefixes@.contains(q));
        choose|a: int| 0 <= a < self.prefixes@.len() && self.prefixes@[a] == q
    }
}

/// Each element of `v` is greater than every later one.
pub open spec fn strictly_descending(v: Seq<u8>) -> bool {
    forall|a: int, b: int| 0 <= a < b < v.len() ==> v[a] > v[b]
}

/// Puts `x` into the strictly descending `v` at the place that keeps it so.
fn insert_descending(v: &mut Vec<u8>, x: u8)
    requires
        strictly_descending(old(v)@),
        !old(v)@.contains(x),
    ensures
        strictly_descending(final(v)@),
        forall|y: u8| final(v)@.contains(y) <==> old(v)@.contains(y) || y == x,
{
    let mut at: usize = 0;
    while at < v.len() && v[at] > x
        invariant
            at <= v@.len(),
            v@ == old(v)@,
            forall|a: int| 0 <= a < at ==> v@[a] > x,
        decreases v@.len() - at,
    {
        at += 1;
    }
    v.insert(at, x);
    proof {
        let before = old(v)@;
        let after = v@;
        assert forall|b: int| at <= b < before.len() implies before[b] < x by {
            assert(before.contains(before[b]));
        }
        assert forall|y: u8| after.contains(y) <==> before.contains(y) || y == x by {
            if after.contains(y) {
                let a = choose|a: int| 0 <= a < after.len() && after[a] == y;
                assert(a > at ==> before[a - 1] == y);
            }
            if before.contains(y) {
                let a = choose|a: int| 0 <= a < before.len() && before[a] == y;
                assert(after[if a < at { a } else { a + 1 }] == y);
            }
            if y == x {
                assert(after[at as int] == y);
            }
        }
    }
}

/// The first place of `entries` whose network contains `ip`.
fn first_match(entries: &Vec<Entry>, ip: u32) -> (r: Option<usize>)
    ensures
        match r {
            Some(n) => {
                &&& n < entries@.len()
                &&& entries@[n as int].net.spec_contains(ip)
                &&& forall|m: int| 0 <= m < n ==> !(#[trigger] entries@[m]).net.spec_contains(ip)
            },
            None => forall|m: int|
                0 <= m < entries@.len() ==> !(#[trigger] entries@[m]).net.spec_contains(ip),
        },
{
    let mut n: usize = 0;
    while n < entries.len()
        invariant
            n <= entries@.len(),
            forall|m: int| 0 <= m < n ==> !(#[trigger] entries@[m]).net.spec_contains(ip),
        decreases entries@.len() - n,
    {
        if entries[n].net.contains(ip) {
            return Some(n);
        }
        n += 1;
    }
    None
}

/// An address is forwarded exactly when some route contains it: one that no
/// route contains gets `None`.
pub proof fn lemma_unrouted_iff_uncovered(t: RoutingTable, ip: u32)
    ensures
        lookup(t@, ip) is None <==> forall|i: int| !covers(t@, i, ip),
{
    if exists|i: int| covers(t@, i, ip) {
        let i = choose|i: int| covers(t@, i, ip);
        let k = lemma_some_route_forwards(t@, ip, i);
        lemma_selected(t@, ip, k);
    }
}

/// Longest prefix match: where two routes contain `ip`, the less specific one
/// never forwards it, whichever was added first. The route that does is at
/// least as specific as the more specific of the two.
pub proof fn lemma_longest_prefix_wins(t: RoutingTable, ip: u32, i: int, j: int)
    requires
        covers(t@, i, ip),
        covers(t@, j, ip),
        t@[i].net.spec_prefix() > t@[j].net.spec_prefix(),
    ensures
        selected(t@, ip) is Some,
        selected(t@, ip) != Some(j),
        t@[selected(t@, ip).unwrap()].net.spec_prefix() >= t@[i].net.spec_prefix(),
{
    let k = lemma_some_route_forwards(t@, ip, i);
    lemma_selected(t@, ip, k);
    assert(gives_way(t@, i, k));
}

/// Among the routes that contain `ip`, the one more specific than every other
/// forwards it, whichever was added first.
pub proof fn lemma_most_specific_forwards(t: RoutingTable, ip: u32, i: int)
    requires
        covers(t@, i, ip),
        forall|j: int|
            #[trigger] covers(t@, j, ip) && j != i ==> t@[j].net.spec_prefix()
                < t@[i].net.spec_prefix(),
    ensures
        lookup(t@, ip) == Some((t@[i].gw, t@[i].interface)),
{
    lemma_selected(t@, ip, i);
}

/// Ties go to the earlier route: of two equally specific routes that contain
/// `ip`, the one added later never forwards it, and where a route of that
/// length forwards `ip`, none of that length that contains `ip` was added
/// before it.
pub proof fn lemma_earlier_of_equals_wins(t: RoutingTable, ip: u32, i: int, j: int)
    requires
        covers(t@, i, ip),
        covers(t@, j, ip),
        t@[i].net.spec_prefix() == t@[j].net.spec_prefix(),
        i < j,
    ensures
        selected(t@, ip) is Some,
        selected(t@, ip) != Some(j),
        t@[selected(t@, ip).unwrap()].net.spec_prefix() == t@[i].net.spec_prefix() ==> selected(
            t@,
            ip,
        ).unwrap() <= i,
{
    let k = lemma_some_route_forwards(t@, ip, i);
    lemma_selected(t@, ip, k);
    assert(gives_way(t@, i, k));
    assert(gives_way(t@, j, k));
}

/// A route of prefix length 0 is a default route: with one in the table every
/// address is forwarded, and an address that no more specific route contains
/// goes to the default route added first.
pub proof fn lemma_default_route(t: RoutingTable, ip: u32, i: int)
    requires
        0 <= i < t@.len(),
        t@[i].net.spec_prefix() == 0,
    ensures
        covers(t@, i, ip),
        lookup(t@, ip) is Some,
        (forall|j: int| #[trigger] covers(t@, j, ip) ==> t@[j].net.spec_prefix() == 0) ==> {
            let k = selected(t@, ip).unwrap();
            &&& k <= i
            &&& t@[k].net.spec_prefix() == 0
            &&& forall|j: int| 0 <= j < k ==> (#[trigger] t@[j]).net.spec_prefix() != 0
        },
{
    lemma_zero_prefix_contains_all(t@[i].net, ip);
    assert(covers(t@, i, ip));
    let k = lemma_some_route_forwards(t@, ip, i);
    lemma_selected(t@, ip, k);
    assert(gives_way(t@, i, k));
    if forall|j: int| #[trigger] covers(t@, j, ip) ==> t@[j].net.spec_prefix() == 0 {
        assert forall|j: int| 0 <= j < k implies (#[trigger] t@[j]).net.spec_prefix() != 0 by {
            if t@[j].net.spec_prefix() == 0 {
                lemma_zero_prefix_contains_all(t@[j].net, ip);
                assert(covers(t@, j, ip));
                assert(gives_way(t@, j, k));
            }
        }
    }
}

/// A lookup depends on the routes and the address alone, and leaves the table
/// as it is: two results for the same address on the same table are equal.
pub proof fn lemma_lookup_repeats(
    t: RoutingTable,
    ip: u32,
    first: Option<(Option<u32>, Interface)>,
    second: Option<(Option<u32>, Interface)>,
)
    requires
        first == lookup(t@, ip),
        second == lookup(t@, ip),
    ensures
        first == second,
{
}

} // verus!
