//! What a lookup returns, stated over the routes in the order they were added.

use vstd::prelude::*;

use crate::cidr::Cidr;
use crate::interface::Interface;

verus! {

/// One routing rule: a network, the gateway to forward to (`None` where the
/// network is directly attached) and the interface to send through.
pub struct Entry {
    pub net: Cidr,
    pub gw: Option<u32>,
    pub interface: Interface,
}

/// Route `i` of `routes` contains `ip`.
pub open spec fn covers(routes: Seq<Entry>, i: int, ip: u32) -> bool {
    0 <= i < routes.len() && routes[i].net.spec_contains(ip)
}

/// Route `j` gives way to route `i`: it is less specific, or as specific and
/// not added earlier.
pub open spec fn gives_way(routes: Seq<Entry>, j: int, i: int) -> bool {
    let pj = routes[j].net.spec_prefix();
    let pi = routes[i].net.spec_prefix();
    pj < pi || (pj == pi && i <= j)
}

/// Route `i` is the one that forwards `ip`: it contains `ip`, and every route
/// that contains `ip` gives way to it.
pub open spec fn selects(routes: Seq<Entry>, ip: u32, i: int) -> bool {
    &&& covers(routes, i, ip)
    &&& forall|j: int| #[trigger] covers(routes, j, ip) ==> gives_way(routes, j, i)
}

/// The index of the route that forwards `ip`, or `None` where there is none.
pub open spec fn selected(routes: Seq<Entry>, ip: u32) -> Option<int> {
    if exists|i: int| selects(routes, ip, i) {
        Some(choose|i: int| selects(routes, ip, i))
    } else {
        None
    }
}

/// The gateway and interface of the route that forwards `ip`, or `None` where
/// there is none.
pub open spec fn lookup(routes: Seq<Entry>, ip: u32) -> Option<(Option<u32>, Interface)> {
    match selected(routes, ip) {
        Some(i) => Some((routes[i].gw, routes[i].interface)),
        None => None,
    }
}

/// At most one route forwards an address.
pub proof fn lemma_selects_unique(routes: Seq<Entry>, ip: u32, i: int, j: int)
    requires
        selects(routes, ip, i),
        selects(routes, ip, j),
    ensures
        i == j,
{
}

/// The route that forwards `ip` is the one that a lookup returns.
pub proof fn lemma_selected(routes: Seq<Entry>, ip: u32, i: int)
    requires
        selects(routes, ip, i),
    ensures
        selected(routes, ip) == Some(i),
        lookup(routes, ip) == Some((routes[i].gw, routes[i].interface)),
{
    lemma_selects_unique(routes, ip, i, choose|i: int| selects(routes, ip, i));
}

/// Where some route contains `ip`, one route forwards it: the one returned.
pub proof fn lemma_some_route_forwards(routes: Seq<Entry>, ip: u32, i: int) -> (k: int)
    requires
        covers(routes, i, ip),
    ensures
        selects(routes, ip, k),
    decreases routes.len(),
{
    let rest = routes.drop_last();
    let last = routes.len() - 1;
    if exists|j: int| covers(rest, j, ip) {
        let j = choose|j: int| covers(rest, j, ip);
        let best = lemma_some_route_forwards(rest, ip, j);
        let k = if covers(routes, last, ip) && routes[last].net.spec_prefix()
            > routes[best].net.spec_prefix() {
            last
        } else {
            best
        };
        assert forall|j: int| #[trigger] covers(routes, j, ip) implies gives_way(routes, j, k) by {
            if j < last {
                assert(covers(rest, j, ip));
            }
        }
        k
    } else {
        assert forall|j: int| #[trigger] covers(routes, j, ip) implies gives_way(routes, j, last) by {
            if j < last {
                assert(covers(rest, j, ip));
            }
        }
        assert(covers(routes, last, ip)) by {
            if i < last {
                assert(covers(rest, i, ip));
            }
        }
        last
    }
}

} // verus!
