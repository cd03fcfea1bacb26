//! Routes grouped by prefix length: how the groups follow from the order in
//! which routes are added, and how a lookup reads them.

use vstd::prelude::*;

use crate::lookup::{covers, gives_way, lemma_selected, lookup, Entry};

verus! {

/// The routes of prefix length `p`, in the order of `routes`.
pub open spec fn bucket(routes: Seq<Entry>, p: u8) -> Seq<Entry> {
    routes.filter(|e: Entry| e.net.spec_prefix() == p)
}

/// How the last route of `routes` enters its bucket.
proof fn lemma_bucket_last(routes: Seq<Entry>, p: u8)
    requires
        routes.len() > 0,
    ensures
        bucket(routes, p) == if routes.last().net.spec_prefix() == p {
            bucket(routes.drop_last(), p).push(routes.last())
        } else {
            bucket(routes.drop_last(), p)
        },
{
    reveal(Seq::filter);
}

/// How a bucket grows when a route is added.
pub proof fn lemma_bucket_push(routes: Seq<Entry>, e: Entry, p: u8)
    ensures
        bucket(routes.push(e), p) == if e.net.spec_prefix() == p {
            bucket(routes, p).push(e)
        } else {
            bucket(routes, p)
        },
{
    assert(routes.push(e).drop_last() =~= routes);
    lemma_bucket_last(routes.push(e), p);
}

/// Every route stands in the bucket of its prefix length, at the place
/// returned.
pub proof fn lemma_bucket_holds(routes: Seq<Entry>, j: int) -> (m: int)
    requires
        0 <= j < routes.len(),
    ensures
        0 <= m < bucket(routes, routes[j].net.spec_prefix()).len(),
        bucket(routes, routes[j].net.spec_prefix())[m] == routes[j],
    decreases routes.len(),
{
    let p = routes[j].net.spec_prefix();
    lemma_bucket_last(routes, p);
    if j == routes.len() - 1 {
        bucket(routes.drop_last(), p).len() as int
    } else {
        lemma_bucket_holds(routes.drop_last(), j)
    }
}

/// Place `n` of a bucket holds the route returned, and the routes of that
/// prefix length added before it stand at earlier places of the bucket.
pub proof fn lemma_bucket_source(routes: Seq<Entry>, p: u8, n: int) -> (i: int)
    requires
        0 <= n < bucket(routes, p).len(),
    ensures
        0 <= i < routes.len(),
        routes[i] == bucket(routes, p)[n],
        routes[i].net.spec_prefix() == p,
        forall|j: int|
            0 <= j < i && (#[trigger] routes[j]).net.spec_prefix() == p ==> exists|m: int|
                0 <= m < n && #[trigger] bucket(routes, p)[m] == routes[j],
    decreases routes.len(),
{
    let rest = routes.drop_last();
    let last = routes.len() - 1;
    lemma_bucket_last(routes, p);
    if routes.last().net.spec_prefix() == p && n == bucket(rest, p).len() {
        assert forall|j: int|
            0 <= j < last && (#[trigger] routes[j]).net.spec_prefix() == p implies exists|m: int|
            0 <= m < n && #[trigger] bucket(routes, p)[m] == routes[j] by {
            let m = lemma_bucket_holds(rest, j);
            assert(bucket(routes, p)[m] == routes[j]);
        }
        last
    } else {
        let i = lemma_bucket_source(rest, p, n);
        assert forall|j: int|
            0 <= j < i && (#[trigger] routes[j]).net.spec_prefix() == p implies exists|m: int|
            0 <= m < n && #[trigger] bucket(routes, p)[m] == routes[j] by {
            let m = choose|m: int| 0 <= m < n && #[trigger] bucket(rest, p)[m] == rest[j];
            assert(bucket(routes, p)[m] == routes[j]);
        }
        i
    }
}

/// A prefix length that no route has leaves its bucket empty.
pub proof fn lemma_bucket_empty(routes: Seq<Entry>, p: u8)
    requires
        forall|i: int| 0 <= i < routes.len() ==> (#[trigger] routes[i]).net.spec_prefix() != p,
    ensures
        bucket(routes, p).len() == 0,
{
    if bucket(routes, p).len() > 0 {
        lemma_bucket_source(routes, p, 0);
    }
}

/// The first route of bucket `p` that contains `ip` forwards it, where no
/// more specific route contains `ip`.
pub proof fn lemma_first_in_bucket_forwards(routes: Seq<Entry>, ip: u32, p: u8, n: int)
    requires
        0 <= n < bucket(routes, p).len(),
        bucket(routes, p)[n].net.spec_contains(ip),
        forall|m: int| 0 <= m < n ==> !(#[trigger] bucket(routes, p)[m]).net.spec_contains(ip),
        forall|j: int| #[trigger] covers(routes, j, ip) ==> routes[j].net.spec_prefix() <= p,
    ensures
        lookup(routes, ip) == Some((bucket(routes, p)[n].gw, bucket(routes, p)[n].interface)),
{
    let i = lemma_bucket_source(routes, p, n);
    assert forall|j: int| #[trigger] covers(routes, j, ip) implies gives_way(routes, j, i) by {
        if routes[j].net.spec_prefix() == p && j < i {
            let m = choose|m: int| 0 <= m < n && #[trigger] bucket(routes, p)[m] == routes[j];
            assert(!bucket(routes, p)[m].net.spec_contains(ip));
        }
    }
    lemma_selected(routes, ip, i);
}

} // verus!
