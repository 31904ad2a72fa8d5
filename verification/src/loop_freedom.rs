//! Why two neighbours never route to an origin through each other.
//!
//! A node only takes a route whose metric lies under its feasibility
//! distance, and what a node advertises never lies under its own. So along
//! every selected hop the feasibility distance falls, and it cannot fall both
//! ways between two nodes.
//!
//! The argument is an invariant of a pair of nodes, [`loop_guard`]. Two nodes
//! that have heard nothing yet guard each other
//! ([`lemma_fresh_nodes_guard`]). The guard is kept when either of them
//! recomputes its routes ([`lemma_update_routes_keeps_loop_guard`]), when
//! either of them handles a packet that the other has sent, or any packet of
//! a third node ([`lemma_handle_packet_keeps_loop_guard`]), and when the host
//! changes what a link costs ([`lemma_link_metrics_keep_loop_guard`]). What a
//! node sends is faithful to its own route
//! ([`lemma_full_update_sends_faithfully`],
//! [`lemma_handle_packet_sends_faithfully`]), stays so while it travels
//! ([`lemma_faithful_moved_on`]) and can be delivered when it arrives
//! ([`lemma_faithful_packet_deliverable`]). Two nodes that guard each other do not
//! route through each other ([`lemma_no_two_node_loop`]), and where every
//! node on a path is guarded by the next, the path never comes back to where
//! it began ([`lemma_no_loop`]).
//!
//! The argument needs three things of the network. The sequence numbers
//! that are about for an origin lie within half a turn of the cycle, so
//! that they are ordered. No advertised metric is the largest finite one,
//! at which sums saturate and a hop no longer adds to the metric. And a
//! node has one link to each neighbour.
use crate::concepts::neighbour::NeighbourView;
use crate::concepts::packet::{Message, MessageOf, Packet, RouteUpdate, Wire};
use crate::concepts::route::{ExternalRoute, Route};
use crate::framework::{PacketOf, RoutingSystem, SignedSource};
use crate::laws::{
    adverts_keyed, lemma_after_update_frame, lemma_batch_sends_nothing,
    lemma_retract_lost_pointwise, lemma_seqno_request_frame, lemma_sweep_links_keeps,
    lemma_update_routes_distinct, offer_at, origins_keyed,
};
use crate::model::{
    broadcast, clamp_links, clamped, feasible, offer, origin_of, retract_lost, retraction,
    retraction_wires, seqno_of, stored, withdrawn, RouterView, Selection, UpdateAction,
};
use crate::table::{
    distinct_keys, lemma_position, lemma_position_of_entry, lemma_position_push,
    lemma_position_same_keys, lemma_position_update, position,
};
use crate::util::{less_than, metric_sum, seqno_distance, INF};
use vstd::prelude::*;

verus! {

/// The place of `seqno` in the window that starts at `base`.
#[verifier::opaque]
pub open spec fn rank(base: u16, seqno: u16) -> int {
    seqno_distance(base, seqno)
}

/// Two sequence numbers at the same place are the same, and within half a
/// turn of the cycle the earlier one has the lower place.
pub proof fn lemma_rank(base: u16, x: u16, y: u16)
    ensures
        0 <= rank(base, x) < 65536,
        rank(base, x) == rank(base, y) ==> x == y,
        rank(base, x) < 32768 && rank(base, y) < 32768 ==> (less_than(x, y) <==> rank(base, x)
            < rank(base, y)),
{
    reveal(rank);
}

/// The selected route to `x`, if there is one.
pub open spec fn route_for<T: RoutingSystem>(
    routes: Seq<(T::NodeAddress, Route<T>)>,
    x: T::NodeAddress,
) -> Option<Route<T>> {
    match position(routes, x) {
        Some(i) => Some(routes[i].1),
        None => None,
    }
}

/// What the neighbour at position `l` last advertised for `x`, if anything.
pub open spec fn advert_from<T: RoutingSystem>(
    links: Seq<(T::Link, NeighbourView<T>)>,
    l: int,
    x: T::NodeAddress,
) -> Option<ExternalRoute<T>> {
    match position(links[l].1.routes, x) {
        Some(r) => Some(links[l].1.routes[r].1),
        None => None,
    }
}

/// The position of the link to the neighbour `neigh`, if there is one.
pub open spec fn link_to<T: RoutingSystem>(
    links: Seq<(T::Link, NeighbourView<T>)>,
    neigh: T::NodeAddress,
) -> Option<int> {
    if exists|l: int| 0 <= l < links.len() && (#[trigger] links[l]).1.addr == neigh {
        Some(choose|l: int| 0 <= l < links.len() && (#[trigger] links[l]).1.addr == neigh)
    } else {
        None
    }
}

/// What the neighbour `neigh` last advertised for `x`, if anything.
pub open spec fn held_from<T: RoutingSystem>(
    links: Seq<(T::Link, NeighbourView<T>)>,
    neigh: T::NodeAddress,
    x: T::NodeAddress,
) -> Option<ExternalRoute<T>> {
    match link_to(links, neigh) {
        Some(l) => advert_from(links, l, x),
        None => None,
    }
}

/// An advertisement under `seqno` at `metric` is faithful to the route of
/// its sender: the sender has a route, the advertisement is not ahead of it,
/// and where both are under the same sequence number the advertised metric
/// is not under the sender's feasibility distance.
pub open spec fn faithful<T: RoutingSystem>(
    seqno: u16,
    metric: u16,
    route: Option<Route<T>>,
    base: u16,
) -> bool {
    match route {
        Some(r) => rank(base, seqno) <= rank(base, seqno_of::<T>(r.source)) && (seqno
            == seqno_of::<T>(r.source) ==> metric >= r.fd),
        None => false,
    }
}

/// What is held of a neighbour about `x` is faithful to `route`, the route
/// of that neighbour.
pub open spec fn held_faithfully<T: RoutingSystem>(
    held: Option<ExternalRoute<T>>,
    route: Option<Route<T>>,
    base: u16,
) -> bool {
    match held {
        Some(e) => faithful(seqno_of::<T>(e.source), e.metric, route, base),
        None => true,
    }
}

/// A route that runs through the neighbour `via` is backed by what that
/// neighbour advertised: `via` has advertised `x` under the route's sequence
/// number or a later one.
pub open spec fn backed<T: RoutingSystem>(
    route: Option<Route<T>>,
    via: T::NodeAddress,
    held: Option<ExternalRoute<T>>,
    base: u16,
) -> bool {
    match route {
        Some(r) => r.next_hop == via ==> match held {
            Some(e) => rank(base, seqno_of::<T>(r.source)) <= rank(base, seqno_of::<T>(e.source)),
            None => false,
        },
        None => true,
    }
}

/// A live route through the neighbour `via` runs downhill: under the same
/// sequence number its feasibility distance lies above that of `next`, the
/// route of `via`.
pub open spec fn downhill<T: RoutingSystem>(
    route: Option<Route<T>>,
    via: T::NodeAddress,
    next: Option<Route<T>>,
) -> bool {
    match (route, next) {
        (Some(r), Some(n)) => r.next_hop == via && r.metric < INF && seqno_of::<T>(r.source)
            == seqno_of::<T>(n.source) ==> r.fd > n.fd,
        _ => true,
    }
}

/// A route has moved on from `start` to `now`: it is still there, its
/// sequence number is not before the one it had, and under the same sequence
/// number its feasibility distance has not grown.
pub open spec fn moved_on<T: RoutingSystem>(
    start: Option<Route<T>>,
    now: Option<Route<T>>,
    base: u16,
) -> bool {
    match start {
        Some(s) => match now {
            Some(n) => rank(base, seqno_of::<T>(s.source)) <= rank(base, seqno_of::<T>(n.source))
                && (seqno_of::<T>(s.source) == seqno_of::<T>(n.source) ==> n.fd <= s.fd),
            None => false,
        },
        None => true,
    }
}

/// The route is sound by itself: its sequence number lies in the window and
/// its feasibility distance is not above its metric.
pub open spec fn sound<T: RoutingSystem>(route: Option<Route<T>>, base: u16) -> bool {
    match route {
        Some(r) => rank(base, seqno_of::<T>(r.source)) < 32768 && r.fd <= r.metric,
        None => true,
    }
}

/// An advertisement that the proof can reason about: its sequence number
/// lies in the window, and its metric is unreachable or under saturation.
pub open spec fn plain<T: RoutingSystem>(ext: ExternalRoute<T>, base: u16) -> bool {
    rank(base, seqno_of::<T>(ext.source)) < 32768 && (ext.metric == INF || ext.metric < INF - 1)
}

/// What the selection keeps of the route to `x` while the neighbours make
/// their offers.
pub open spec fn guarded<T: RoutingSystem>(
    route: Option<Route<T>>,
    via: T::NodeAddress,
    held: Option<ExternalRoute<T>>,
    next: Option<Route<T>>,
    start: Option<Route<T>>,
    base: u16,
) -> bool {
    &&& sound(route, base)
    &&& backed(route, via, held, base)
    &&& downhill(route, via, next)
    &&& moved_on(start, route, base)
}

/// The route to an origin after a neighbour offered its advertisement for
/// that origin.
pub open spec fn offered<T: RoutingSystem>(
    route: Option<Route<T>>,
    link: T::Link,
    neigh: T::NodeAddress,
    cost: u16,
    ext: ExternalRoute<T>,
) -> Option<Route<T>> {
    let metric = metric_sum(cost, ext.metric);
    let fresh = Route {
        source: ext.source,
        metric,
        fd: metric,
        link,
        next_hop: neigh,
        retracted: false,
    };
    match route {
        Some(r) => match feasible(r, seqno_of::<T>(ext.source), metric) {
            Some(fd) => Some(fresh),
            None => if r.next_hop != neigh {
                Some(r)
            } else if metric > r.fd {
                Some(withdrawn(r))
            } else {
                Some(Route { metric, fd: metric, retracted: false, ..r })
            },
        },
        None => if metric != INF {
            Some(fresh)
        } else {
            None
        },
    }
}

/// An offer for `x` keeps the route to `x` guarded.
proof fn lemma_offered_guarded<T: RoutingSystem>(
    route: Option<Route<T>>,
    link: T::Link,
    neigh: T::NodeAddress,
    cost: u16,
    ext: ExternalRoute<T>,
    via: T::NodeAddress,
    held: Option<ExternalRoute<T>>,
    next: Option<Route<T>>,
    start: Option<Route<T>>,
    base: u16,
)
    requires
        cost >= 1,
        plain(ext, base),
        neigh == via ==> held == Some(ext),
        held_faithfully(held, next, base),
        guarded(route, via, held, next, start, base),
    ensures
        guarded(offered(route, link, neigh, cost, ext), via, held, next, start, base),
{
    let metric = metric_sum(cost, ext.metric);
    let e = seqno_of::<T>(ext.source);
    assert(ext.metric != INF ==> metric > ext.metric);
    match route {
        Some(r) => {
            let s = seqno_of::<T>(r.source);
            lemma_rank(base, s, e);
            lemma_rank(base, e, s);
            match start {
                Some(st) => {
                    lemma_rank(base, seqno_of::<T>(st.source), s);
                    lemma_rank(base, seqno_of::<T>(st.source), e);
                },
                None => {},
            }
            match next {
                Some(n) => {
                    lemma_rank(base, seqno_of::<T>(n.source), e);
                    lemma_rank(base, seqno_of::<T>(n.source), s);
                },
                None => {},
            }
        },
        None => {},
    }
}

/// An offer changes the route to `x` only if it is an offer for `x`, and
/// then as `offered` says.
proof fn lemma_offer_route_for<T: RoutingSystem>(
    sel: Selection<T>,
    address: T::NodeAddress,
    link: T::Link,
    neigh: T::NodeAddress,
    cost: u16,
    origin: T::NodeAddress,
    ext: ExternalRoute<T>,
    x: T::NodeAddress,
)
    requires
        x != address,
    ensures
        route_for(offer(sel, address, link, neigh, cost, origin, ext).routes, x) == if origin == x {
            offered(route_for(sel.routes, x), link, neigh, cost, ext)
        } else {
            route_for(sel.routes, x)
        },
{
    let after = offer(sel, address, link, neigh, cost, origin, ext).routes;
    lemma_position(sel.routes, origin);
    lemma_position(sel.routes, x);
    if origin != address {
        match position(sel.routes, origin) {
            Some(i) => {
                lemma_position_update(sel.routes, i, after[i].1, x);
                if after != sel.routes {
                    assert(after == sel.routes.update(i, (sel.routes[i].0, after[i].1)));
                } else {
                    assert(after[i] == sel.routes[i]);
                }
            },
            None => {
                if after != sel.routes {
                    let added = after[sel.routes.len() as int];
                    assert(after == sel.routes.push(added));
                    lemma_position_push(sel.routes, origin, added.1, x);
                }
            },
        }
    }
}

/// What the proof asks of the links of a router: no neighbour occurs twice,
/// no origin occurs twice in what a neighbour advertised, and every
/// advertisement for `x` is plain.
pub open spec fn orderly<T: RoutingSystem>(
    links: Seq<(T::Link, NeighbourView<T>)>,
    x: T::NodeAddress,
    base: u16,
) -> bool {
    &&& forall|l: int, k: int|
        0 <= l < links.len() && 0 <= k < links.len() && (#[trigger] links[l]).1.addr
            == (#[trigger] links[k]).1.addr ==> l == k
    &&& forall|l: int| 0 <= l < links.len() ==> distinct_keys((#[trigger] links[l]).1.routes)
    &&& forall|l: int|
        0 <= l < links.len() ==> match #[trigger] advert_from(links, l, x) {
            Some(e) => plain(e, base),
            None => true,
        }
}

/// Among orderly links the link to a neighbour is the one that has its
/// address.
proof fn lemma_link_to<T: RoutingSystem>(
    links: Seq<(T::Link, NeighbourView<T>)>,
    l: int,
    x: T::NodeAddress,
    base: u16,
)
    requires
        orderly(links, x, base),
        0 <= l < links.len(),
    ensures
        link_to(links, links[l].1.addr) == Some(l),
{
    let neigh = links[l].1.addr;
    let k = choose|k: int| 0 <= k < links.len() && (#[trigger] links[k]).1.addr == neigh;
    assert(links[l].1.addr == links[k].1.addr);
}

/// One offer keeps the route to `x` guarded.
proof fn lemma_offer_guarded<T: RoutingSystem>(
    sel: Selection<T>,
    address: T::NodeAddress,
    links: Seq<(T::Link, NeighbourView<T>)>,
    l: int,
    r: int,
    x: T::NodeAddress,
    via: T::NodeAddress,
    next: Option<Route<T>>,
    start: Option<Route<T>>,
    base: u16,
)
    requires
        0 <= l < links.len(),
        0 <= r < links[l].1.routes.len(),
        x != address,
        orderly(links, x, base),
        held_faithfully(held_from(links, via, x), next, base),
        guarded(route_for(sel.routes, x), via, held_from(links, via, x), next, start, base),
    ensures
        guarded(
            route_for(offer_at(sel, address, links, l, r).routes, x),
            via,
            held_from(links, via, x),
            next,
            start,
            base,
        ),
{
    let origin = links[l].1.routes[r].0;
    let ext = links[l].1.routes[r].1;
    lemma_offer_route_for(
        sel,
        address,
        links[l].0,
        links[l].1.addr,
        clamped(links[l].1.metric),
        origin,
        ext,
        x,
    );
    if origin == x {
        lemma_position_of_entry(links[l].1.routes, r);
        assert(advert_from(links, l, x) == Some(ext));
        lemma_link_to(links, l, x, base);
        lemma_offered_guarded(
            route_for(sel.routes, x),
            links[l].0,
            links[l].1.addr,
            clamped(links[l].1.metric),
            ext,
            via,
            held_from(links, via, x),
            next,
            start,
            base,
        );
    }
}

/// Raising the metrics of zero changes neither who the neighbours are nor
/// what they advertised.
proof fn lemma_clamp_links_held<T: RoutingSystem>(
    links: Seq<(T::Link, NeighbourView<T>)>,
    via: T::NodeAddress,
    x: T::NodeAddress,
    base: u16,
)
    requires
        orderly(links, x, base),
    ensures
        orderly(clamp_links(links), x, base),
        held_from(clamp_links(links), via, x) == held_from(links, via, x),
{
    let raised = clamp_links(links);
    assert forall|l: int| 0 <= l < links.len() implies advert_from(raised, l, x)
        == advert_from(links, l, x) && (#[trigger] raised[l]).1.addr == links[l].1.addr
        && raised[l].1.routes == links[l].1.routes by {}
    assert forall|l: int, k: int|
        0 <= l < raised.len() && 0 <= k < raised.len() && (#[trigger] raised[l]).1.addr
            == (#[trigger] raised[k]).1.addr implies l == k by {
        assert(links[l].1.addr == links[k].1.addr);
    }
    assert forall|l: int| 0 <= l < raised.len() implies match #[trigger] advert_from(
        raised,
        l,
        x,
    ) {
        Some(e) => plain(e, base),
        None => true,
    } by {
        assert(advert_from(raised, l, x) == advert_from(links, l, x));
    }
    match link_to(links, via) {
        Some(l) => {
            assert(raised[l].1.addr == via);
            lemma_link_to(raised, l, x, base);
        },
        None => {
            if link_to(raised, via).is_some() {
                let k = link_to(raised, via).unwrap();
                assert(links[k].1.addr == via);
            }
        },
    }
}

/// Recomputing the routes keeps the route to `x` guarded against the
/// neighbour `via`, whose own route to `x` is `next`, and lets it move on.
pub proof fn lemma_update_routes_guarded<T: RoutingSystem>(
    s: RouterView<T>,
    x: T::NodeAddress,
    via: T::NodeAddress,
    next: Option<Route<T>>,
    base: u16,
)
    requires
        x != s.address,
        orderly(s.links, x, base),
        held_faithfully(held_from(s.links, via, x), next, base),
        sound(route_for(s.routes, x), base),
        backed(route_for(s.routes, x), via, held_from(s.links, via, x), base),
        downhill(route_for(s.routes, x), via, next),
    ensures
        orderly(s.update_routes().links, x, base),
        held_from(s.update_routes().links, via, x) == held_from(s.links, via, x),
        guarded(
            route_for(s.update_routes().routes, x),
            via,
            held_from(s.links, via, x),
            next,
            route_for(s.routes, x),
            base,
        ),
{
    let held = held_from(s.links, via, x);
    let begin = route_for(s.routes, x);
    let start = retract_lost(s.routes, s.links, s.routes.len());
    lemma_retract_lost_pointwise(s.routes, s.links, s.routes.len());
    lemma_position_same_keys(start.routes, s.routes, x);
    lemma_position(s.routes, x);
    match begin {
        Some(b) => {
            lemma_rank(base, seqno_of::<T>(b.source), seqno_of::<T>(b.source));
        },
        None => {},
    }
    assert(guarded(route_for(start.routes, x), via, held, next, begin, base));
    let inv = |sel: Selection<T>| guarded(route_for(sel.routes, x), via, held, next, begin, base);
    assert forall|sel: Selection<T>, l: int, r: int|
        0 <= l < s.links.len() && 0 <= r < s.links[l].1.routes.len() && inv(sel) implies inv(
        #[trigger] offer_at(sel, s.address, s.links, l, r),
    ) by {
        lemma_offer_guarded(sel, s.address, s.links, l, r, x, via, next, begin, base);
    }
    lemma_sweep_links_keeps(inv, start, s.address, s.links, s.links.len());
    lemma_clamp_links_held(s.links, via, x, base);
}

/// The node `a` is protected against routing to `x` in a circle through its
/// neighbour `b`: what it holds of `b` is faithful to the route of `b`, a
/// route through `b` is backed by what `b` advertised, and a live route
/// through `b` runs downhill.
pub open spec fn protects<T: RoutingSystem>(
    a: RouterView<T>,
    b: RouterView<T>,
    x: T::NodeAddress,
    base: u16,
) -> bool {
    let route = route_for(a.routes, x);
    let next = route_for(b.routes, x);
    let held = held_from(a.links, b.address, x);
    &&& sound(route, base)
    &&& held_faithfully(held, next, base)
    &&& backed(route, b.address, held, base)
    &&& downhill(route, b.address, next)
}

/// Two nodes guard each other against a loop on the way to `x`, which is
/// neither of them.
pub open spec fn loop_guard<T: RoutingSystem>(
    a: RouterView<T>,
    b: RouterView<T>,
    x: T::NodeAddress,
    base: u16,
) -> bool {
    &&& x != a.address
    &&& x != b.address
    &&& orderly(a.links, x, base)
    &&& orderly(b.links, x, base)
    &&& protects(a, b, x, base)
    &&& protects(b, a, x, base)
}

/// The node `a` routes to `x` through the node `b`: it has a live route
/// whose next hop is `b`.
pub open spec fn routes_through<T: RoutingSystem>(
    a: RouterView<T>,
    b: RouterView<T>,
    x: T::NodeAddress,
) -> bool {
    match route_for(a.routes, x) {
        Some(r) => r.next_hop == b.address && r.metric < INF,
        None => false,
    }
}

/// A node that routes to `x` through a neighbour that guards it is not ahead
/// of that neighbour, and under the same sequence number its feasibility
/// distance lies above the neighbour's.
pub proof fn lemma_hop_runs_downhill<T: RoutingSystem>(
    a: RouterView<T>,
    b: RouterView<T>,
    x: T::NodeAddress,
    base: u16,
)
    requires
        protects(a, b, x, base),
        routes_through(a, b, x),
    ensures
        route_for(b.routes, x).is_some(),
        rank(base, seqno_of::<T>(route_for(a.routes, x).unwrap().source)) <= rank(
            base,
            seqno_of::<T>(route_for(b.routes, x).unwrap().source),
        ),
        seqno_of::<T>(route_for(a.routes, x).unwrap().source) == seqno_of::<T>(
            route_for(b.routes, x).unwrap().source,
        ) ==> route_for(a.routes, x).unwrap().fd > route_for(b.routes, x).unwrap().fd,
{
}

/// Two nodes that guard each other do not route to `x` through each other,
/// under whatever sequence numbers.
pub proof fn lemma_no_two_node_loop<T: RoutingSystem>(
    a: RouterView<T>,
    b: RouterView<T>,
    x: T::NodeAddress,
    base: u16,
)
    requires
        loop_guard(a, b, x, base),
    ensures
        !(routes_through(a, b, x) && routes_through(b, a, x)),
{
    if routes_through(a, b, x) && routes_through(b, a, x) {
        lemma_hop_runs_downhill(a, b, x, base);
        lemma_hop_runs_downhill(b, a, x, base);
        lemma_rank(
            base,
            seqno_of::<T>(route_for(a.routes, x).unwrap().source),
            seqno_of::<T>(route_for(b.routes, x).unwrap().source),
        );
    }
}

/// The nodes of `path` route to `x` one through the next, each guarded by
/// the next.
pub open spec fn guarded_path<T: RoutingSystem>(
    path: Seq<RouterView<T>>,
    x: T::NodeAddress,
    base: u16,
) -> bool {
    forall|i: int|
        0 <= i < path.len() - 1 ==> protects(#[trigger] path[i], path[i + 1], x, base)
            && routes_through(path[i], path[i + 1], x)
}

/// Along a guarded path the sequence numbers do not go back.
proof fn lemma_path_ranks<T: RoutingSystem>(
    path: Seq<RouterView<T>>,
    x: T::NodeAddress,
    base: u16,
    i: int,
    j: int,
)
    requires
        guarded_path(path, x, base),
        0 <= i <= j < path.len(),
        route_for(path[i].routes, x).is_some(),
    ensures
        route_for(path[j].routes, x).is_some(),
        rank(base, seqno_of::<T>(route_for(path[i].routes, x).unwrap().source)) <= rank(
            base,
            seqno_of::<T>(route_for(path[j].routes, x).unwrap().source),
        ),
    decreases j - i,
{
    if i < j {
        lemma_path_ranks(path, x, base, i, j - 1);
        assert(protects(path[j - 1], path[j], x, base));
        lemma_hop_runs_downhill(path[j - 1], path[j], x, base);
    }
}

/// Along a guarded path whose ends are under the same sequence number the
/// feasibility distance falls.
proof fn lemma_path_falls<T: RoutingSystem>(
    path: Seq<RouterView<T>>,
    x: T::NodeAddress,
    base: u16,
    j: int,
)
    requires
        guarded_path(path, x, base),
        0 < j < path.len(),
        route_for(path[0].routes, x).is_some(),
        route_for(path[j].routes, x).is_some(),
        seqno_of::<T>(route_for(path[0].routes, x).unwrap().source) == seqno_of::<T>(
            route_for(path[j].routes, x).unwrap().source,
        ),
    ensures
        route_for(path[0].routes, x).unwrap().fd > route_for(path[j].routes, x).unwrap().fd,
    decreases j,
{
    lemma_path_ranks(path, x, base, 0, j - 1);
    lemma_path_ranks(path, x, base, j - 1, j);
    let first = seqno_of::<T>(route_for(path[0].routes, x).unwrap().source);
    let before = seqno_of::<T>(route_for(path[j - 1].routes, x).unwrap().source);
    lemma_rank(base, first, before);
    assert(protects(path[j - 1], path[j], x, base));
    lemma_hop_runs_downhill(path[j - 1], path[j], x, base);
    if j > 1 {
        lemma_path_falls(path, x, base, j - 1);
    }
}

/// No guarded path leads back to where it began: the routes of nodes that
/// guard each other form no loop, of whatever length.
pub proof fn lemma_no_loop<T: RoutingSystem>(
    path: Seq<RouterView<T>>,
    x: T::NodeAddress,
    base: u16,
)
    requires
        path.len() >= 2,
        guarded_path(path, x, base),
    ensures
        path.last() != path[0],
{
    if path.last() == path[0] {
        let end = path.len() - 1;
        assert(routes_through(path[0], path[1], x));
        lemma_path_ranks(path, x, base, 0, end);
        lemma_path_falls(path, x, base, end);
    }
}

/// What was faithful to the route of its sender stays faithful as that route
/// moves on, and a route through the sender that ran downhill still does.
proof fn lemma_moved_on_keeps<T: RoutingSystem>(
    route: Option<Route<T>>,
    via: T::NodeAddress,
    held: Option<ExternalRoute<T>>,
    next: Option<Route<T>>,
    moved: Option<Route<T>>,
    base: u16,
)
    requires
        held_faithfully(held, next, base),
        backed(route, via, held, base),
        downhill(route, via, next),
        moved_on(next, moved, base),
    ensures
        held_faithfully(held, moved, base),
        downhill(route, via, moved),
{
    match (held, next, moved) {
        (Some(e), Some(n), Some(m)) => {
            let es = seqno_of::<T>(e.source);
            let ns = seqno_of::<T>(n.source);
            let ms = seqno_of::<T>(m.source);
            lemma_rank(base, es, ns);
            lemma_rank(base, es, ms);
            lemma_rank(base, ns, ms);
            match route {
                Some(r) => {
                    let rs = seqno_of::<T>(r.source);
                    lemma_rank(base, rs, es);
                    lemma_rank(base, rs, ns);
                    lemma_rank(base, rs, ms);
                },
                None => {},
            }
        },
        _ => {},
    }
}

/// An advertisement stays faithful to the route of its sender as that route
/// moves on: what is on its way when the sender recomputes its routes can
/// still be delivered.
pub proof fn lemma_faithful_moved_on<T: RoutingSystem>(
    seqno: u16,
    metric: u16,
    route: Option<Route<T>>,
    moved: Option<Route<T>>,
    base: u16,
)
    requires
        faithful(seqno, metric, route, base),
        moved_on(route, moved, base),
    ensures
        faithful(seqno, metric, moved, base),
{
    match (route, moved) {
        (Some(n), Some(m)) => {
            lemma_rank(base, seqno, seqno_of::<T>(n.source));
            lemma_rank(base, seqno, seqno_of::<T>(m.source));
            lemma_rank(base, seqno_of::<T>(n.source), seqno_of::<T>(m.source));
        },
        _ => {},
    }
}

/// Two nodes that guard each other still do so after one of them has
/// recomputed its routes, and the route of that node has moved on.
pub proof fn lemma_update_routes_keeps_loop_guard<T: RoutingSystem>(
    a: RouterView<T>,
    b: RouterView<T>,
    x: T::NodeAddress,
    base: u16,
)
    requires
        loop_guard(a, b, x, base),
    ensures
        loop_guard(a.update_routes(), b, x, base),
        moved_on(route_for(a.routes, x), route_for(a.update_routes().routes, x), base),
{
    let next = route_for(b.routes, x);
    lemma_update_routes_guarded(a, x, b.address, next, base);
    lemma_moved_on_keeps(
        next,
        a.address,
        held_from(b.links, a.address, x),
        route_for(a.routes, x),
        route_for(a.update_routes().routes, x),
        base,
    );
}

/// The advertisement for `x` among `adverts`, if there is one.
pub open spec fn advert_for<T: RoutingSystem>(
    adverts: Seq<(T::NodeAddress, ExternalRoute<T>)>,
    x: T::NodeAddress,
) -> Option<ExternalRoute<T>> {
    match position(adverts, x) {
        Some(r) => Some(adverts[r].1),
        None => None,
    }
}

/// New advertisements of one neighbour change what is held of that
/// neighbour and of no other.
proof fn lemma_with_adverts<T: RoutingSystem>(
    s: RouterView<T>,
    l: int,
    adverts: Seq<(T::NodeAddress, ExternalRoute<T>)>,
    via: T::NodeAddress,
    x: T::NodeAddress,
    base: u16,
)
    requires
        orderly(s.links, x, base),
        0 <= l < s.links.len(),
        distinct_keys(adverts),
        match advert_for(adverts, x) {
            Some(e) => plain(e, base),
            None => true,
        },
    ensures
        orderly(s.with_adverts(l, adverts).links, x, base),
        held_from(s.with_adverts(l, adverts).links, via, x) == if s.links[l].1.addr == via {
            advert_for(adverts, x)
        } else {
            held_from(s.links, via, x)
        },
{
    let after = s.with_adverts(l, adverts).links;
    assert forall|k: int| 0 <= k < after.len() implies (#[trigger] after[k]).1.addr
        == s.links[k].1.addr && advert_from(after, k, x) == if k == l {
        advert_for(adverts, x)
    } else {
        advert_from(s.links, k, x)
    } by {}
    assert forall|k: int, j: int|
        0 <= k < after.len() && 0 <= j < after.len() && (#[trigger] after[k]).1.addr
            == (#[trigger] after[j]).1.addr implies k == j by {
        assert(s.links[k].1.addr == s.links[j].1.addr);
    }
    assert forall|k: int| 0 <= k < after.len() implies distinct_keys(
        (#[trigger] after[k]).1.routes,
    ) by {
        if k != l {
            assert(distinct_keys(s.links[k].1.routes));
        }
    }
    assert forall|k: int| 0 <= k < after.len() implies match #[trigger] advert_from(after, k, x) {
        Some(e) => plain(e, base),
        None => true,
    } by {
        if k != l {
            assert(advert_from(after, k, x) == advert_from(s.links, k, x));
        }
    }
    match link_to(s.links, via) {
        Some(k) => {
            assert(after[k].1.addr == via);
            lemma_link_to(after, k, x, base);
            lemma_link_to(s.links, l, x, base);
        },
        None => {
            if link_to(after, via).is_some() {
                let k = link_to(after, via).unwrap();
                assert(s.links[k].1.addr == via);
            }
        },
    }
}

/// Putting an entry into a table in which no key occurs twice leaves it so.
proof fn lemma_put_distinct<T: RoutingSystem>(
    adverts: Seq<(T::NodeAddress, ExternalRoute<T>)>,
    origin: T::NodeAddress,
    entry: ExternalRoute<T>,
)
    requires
        distinct_keys(adverts),
    ensures
        match position(adverts, origin) {
            Some(r) => distinct_keys(adverts.update(r, (adverts[r].0, entry))),
            None => distinct_keys(adverts.push((origin, entry))),
        },
{
    lemma_position(adverts, origin);
    match position(adverts, origin) {
        Some(r) => {
            let after = adverts.update(r, (adverts[r].0, entry));
            assert forall|i: int, j: int| 0 <= i < j < after.len() implies (#[trigger] after[i]).0
                != (#[trigger] after[j]).0 by {
                assert(adverts[i].0 != adverts[j].0);
            }
        },
        None => {
            let after = adverts.push((origin, entry));
            assert forall|i: int, j: int| 0 <= i < j < after.len() implies (#[trigger] after[i]).0
                != (#[trigger] after[j]).0 by {
                if j < adverts.len() {
                    assert(adverts[i].0 != adverts[j].0);
                } else {
                    assert(adverts[i].0 != origin);
                }
            }
        },
    }
}

/// Whether `link` is the link of the node `s` to the neighbour `to`.
pub open spec fn leads_to<T: RoutingSystem>(
    s: RouterView<T>,
    link: T::Link,
    to: T::NodeAddress,
) -> bool {
    match position(s.links, link) {
        Some(l) => s.links[l].1.addr == to,
        None => false,
    }
}

/// Whether `update` may be handed to a node without harm to the guard
/// between it and its neighbour: an update on `x` is plain, and one that
/// comes from that neighbour is faithful to `route`, the neighbour's route,
/// as everything is that the neighbour has sent.
pub open spec fn deliverable<T: RoutingSystem>(
    update: RouteUpdate<SignedSource<T>>,
    from_neighbour: bool,
    route: Option<Route<T>>,
    x: T::NodeAddress,
    base: u16,
) -> bool {
    origin_of::<T>(update.source) == x ==> {
        &&& plain(stored::<T>(update), base)
        &&& from_neighbour ==> faithful(
            seqno_of::<T>(update.source),
            update.metric,
            route,
            base,
        )
    }
}

/// Two nodes that guard each other still do so after one of them has stored
/// an update that was deliverable.
pub proof fn lemma_after_update_keeps_loop_guard<T: RoutingSystem>(
    a: RouterView<T>,
    b: RouterView<T>,
    update: RouteUpdate<SignedSource<T>>,
    link: T::Link,
    neigh: T::NodeAddress,
    x: T::NodeAddress,
    base: u16,
)
    requires
        loop_guard(a, b, x, base),
        deliverable(update, leads_to(b, link, a.address), route_for(a.routes, x), x, base),
    ensures
        loop_guard(a, b.after_update(update, link, neigh), x, base),
        b.after_update(update, link, neigh).routes == b.routes,
        b.after_update(update, link, neigh).address == b.address,
        leads_to(b.after_update(update, link, neigh), link, a.address) == leads_to(
            b,
            link,
            a.address,
        ),
{
    lemma_after_update_frame(b, update, link, neigh);
    lemma_position_same_keys(b.links, b.after_update(update, link, neigh).links, link);
    lemma_position(b.links, link);
    let after = b.after_update(update, link, neigh);
    let origin = origin_of::<T>(update.source);
    let entry = stored::<T>(update);
    if after != b {
        lemma_position(b.links, link);
        let l = position(b.links, link).unwrap();
        let adverts = b.links[l].1.routes;
        lemma_position(adverts, origin);
        lemma_put_distinct::<T>(adverts, origin, entry);
        let changed = match position(adverts, origin) {
            Some(r) => adverts.update(r, (adverts[r].0, entry)),
            None => adverts.push((origin, entry)),
        };
        assert(after == b.with_adverts(l, changed));
        match position(adverts, origin) {
            Some(r) => {
                lemma_position_update(adverts, r, entry, x);
            },
            None => {
                lemma_position_push(adverts, origin, entry, x);
            },
        }
        lemma_position(adverts, x);
        lemma_position(changed, x);
        assert(advert_for::<T>(changed, x) == if origin == x {
            Some(entry)
        } else {
            advert_for::<T>(adverts, x)
        });
        assert(advert_for::<T>(adverts, x) == advert_from(b.links, l, x));
        lemma_with_adverts(b, l, changed, a.address, x, base);
        lemma_link_to(b.links, l, x, base);
        if origin == x && b.links[l].1.addr == a.address {
            match route_for(b.routes, x) {
                Some(r) => {
                    lemma_rank(base, seqno_of::<T>(update.source), seqno_of::<T>(r.source));
                    lemma_position(b.routes, x);
                },
                None => {},
            }
        }
    }
}

/// Whether every update in `packet` is deliverable.
pub open spec fn packet_deliverable<T: RoutingSystem>(
    packet: PacketOf<T>,
    from_neighbour: bool,
    route: Option<Route<T>>,
    x: T::NodeAddress,
    base: u16,
) -> bool {
    match packet {
        Packet::UrgentRouteUpdate(update) => deliverable(update, from_neighbour, route, x, base),
        Packet::BatchRouteUpdate { routes } => forall|i: int|
            0 <= i < routes@.len() ==> deliverable(
                #[trigger] routes@[i],
                from_neighbour,
                route,
                x,
                base,
            ),
        Packet::SeqnoRequest { .. } => true,
    }
}

/// Two nodes that guard each other still do so after one of them has stored
/// the first `n` updates of a batch, all of them deliverable.
proof fn lemma_after_batch_keeps_loop_guard<T: RoutingSystem>(
    a: RouterView<T>,
    b: RouterView<T>,
    updates: Seq<RouteUpdate<SignedSource<T>>>,
    link: T::Link,
    neigh: T::NodeAddress,
    n: nat,
    x: T::NodeAddress,
    base: u16,
)
    requires
        loop_guard(a, b, x, base),
        n <= updates.len(),
        forall|i: int|
            0 <= i < n ==> deliverable(
                #[trigger] updates[i],
                leads_to(b, link, a.address),
                route_for(a.routes, x),
                x,
                base,
            ),
    ensures
        loop_guard(a, b.after_batch(updates, link, neigh, n), x, base),
        b.after_batch(updates, link, neigh, n).routes == b.routes,
        b.after_batch(updates, link, neigh, n).address == b.address,
        leads_to(b.after_batch(updates, link, neigh, n), link, a.address) == leads_to(
            b,
            link,
            a.address,
        ),
    decreases n,
{
    if n > 0 {
        lemma_after_batch_keeps_loop_guard(a, b, updates, link, neigh, (n - 1) as nat, x, base);
        let before = b.after_batch(updates, link, neigh, (n - 1) as nat);
        assert(deliverable(
            updates[n - 1],
            leads_to(b, link, a.address),
            route_for(a.routes, x),
            x,
            base,
        ));
        lemma_after_update_keeps_loop_guard(a, before, updates[n - 1], link, neigh, x, base);
    }
}

/// Handling a packet keeps the guard between two nodes.
///
/// Let two nodes guard each other, and let one of them handle a packet in
/// which every update is deliverable: over the link to the other node comes
/// only what that node has sent. Then the two still guard each other.
pub proof fn lemma_handle_packet_keeps_loop_guard<T: RoutingSystem>(
    a: RouterView<T>,
    b: RouterView<T>,
    packet: PacketOf<T>,
    link: T::Link,
    neigh: T::NodeAddress,
    x: T::NodeAddress,
    base: u16,
)
    requires
        loop_guard(a, b, x, base),
        packet_deliverable(
            packet,
            leads_to(b, link, a.address),
            route_for(a.routes, x),
            x,
            base,
        ),
    ensures
        loop_guard(a, b.handle_packet(packet, link, neigh), x, base),
        b.handle_packet(packet, link, neigh).routes == b.routes,
{
    let after = b.handle_packet(packet, link, neigh);
    match packet {
        Packet::UrgentRouteUpdate(update) => {
            lemma_after_update_keeps_loop_guard(a, b, update, link, neigh, x, base);
            let stored = b.after_update(update, link, neigh);
            assert(after.links == stored.links && after.routes == stored.routes && after.address
                == stored.address);
            assert(protects(stored, a, x, base));
            assert(protects(a, stored, x, base));
        },
        Packet::BatchRouteUpdate { routes } => {
            lemma_after_batch_keeps_loop_guard(
                a,
                b,
                routes@,
                link,
                neigh,
                routes@.len(),
                x,
                base,
            );
        },
        Packet::SeqnoRequest { source, seqno } => {
            lemma_seqno_request_frame(b, source, seqno);
        },
    }
}

/// Whether `message` holds the update `update`.
pub open spec fn says<A, S>(message: Message<A, S>, update: RouteUpdate<S>) -> bool {
    match message {
        Message::UrgentRouteUpdate(held) => held == update,
        Message::BatchRouteUpdate { routes } => routes.contains(update),
        Message::SeqnoRequest { source, seqno } => false,
    }
}

/// Whatever `message` says about `x` is faithful to `route`.
pub open spec fn message_faithful<T: RoutingSystem>(
    message: MessageOf<T>,
    x: T::NodeAddress,
    route: Option<Route<T>>,
    base: u16,
) -> bool {
    forall|update: RouteUpdate<SignedSource<T>>|
        #[trigger] says(message, update) && origin_of::<T>(update.source) == x ==> faithful(
            seqno_of::<T>(update.source),
            update.metric,
            route,
            base,
        )
}

/// Whatever `wires` say about `x` is faithful to `route`.
pub open spec fn wires_faithful<T: RoutingSystem>(
    wires: Seq<Wire<T>>,
    x: T::NodeAddress,
    route: Option<Route<T>>,
    base: u16,
) -> bool {
    forall|i: int|
        0 <= i < wires.len() ==> message_faithful((#[trigger] wires[i]).message, x, route, base)
}

/// A faithful message is faithful on every wire of its broadcast, and
/// faithful wires stay so when more are queued behind them.
proof fn lemma_wires_faithful_broadcast<T: RoutingSystem>(
    wires: Seq<Wire<T>>,
    links: Seq<(T::Link, NeighbourView<T>)>,
    message: MessageOf<T>,
    x: T::NodeAddress,
    route: Option<Route<T>>,
    base: u16,
)
    requires
        wires_faithful(wires, x, route, base),
        message_faithful(message, x, route, base),
    ensures
        wires_faithful(wires + broadcast(links, message), x, route, base),
{
    let all = wires + broadcast(links, message);
    assert forall|i: int| 0 <= i < all.len() implies message_faithful(
        (#[trigger] all[i]).message,
        x,
        route,
        base,
    ) by {
        if i < wires.len() {
            assert(all[i] == wires[i]);
        } else {
            assert(all[i] == broadcast(links, message)[i - wires.len()]);
        }
    }
}

/// The source of a route that is withdrawn now or was withdrawn before is
/// not ahead of the route as it is now.
pub open spec fn behind<T: RoutingSystem>(
    source: SignedSource<T>,
    x: T::NodeAddress,
    route: Option<Route<T>>,
    base: u16,
) -> bool {
    origin_of::<T>(source) == x ==> match route {
        Some(r) => rank(base, seqno_of::<T>(source)) <= rank(base, seqno_of::<T>(r.source)),
        None => false,
    }
}

/// The retractions of sources that are behind the route are faithful to it.
proof fn lemma_retraction_wires_faithful<T: RoutingSystem>(
    links: Seq<(T::Link, NeighbourView<T>)>,
    sources: Seq<SignedSource<T>>,
    n: nat,
    x: T::NodeAddress,
    route: Option<Route<T>>,
    base: u16,
)
    requires
        n <= sources.len(),
        forall|k: int| 0 <= k < n ==> behind::<T>(#[trigger] sources[k], x, route, base),
    ensures
        wires_faithful(retraction_wires(links, sources, n), x, route, base),
    decreases n,
{
    if n > 0 {
        lemma_retraction_wires_faithful(links, sources, (n - 1) as nat, x, route, base);
        assert(behind::<T>(sources[n - 1], x, route, base));
        lemma_wires_faithful_broadcast(
            retraction_wires(links, sources, (n - 1) as nat),
            links,
            retraction::<T>(sources[n - 1]),
            x,
            route,
            base,
        );
    }
}

/// What the selection keeps of the route to `x` and of the retractions it
/// has noted while the neighbours make their offers.
pub open spec fn trailing<T: RoutingSystem>(
    sel: Selection<T>,
    x: T::NodeAddress,
    base: u16,
) -> bool {
    &&& origins_keyed(sel.routes)
    &&& sound(route_for(sel.routes, x), base)
    &&& forall|k: int|
        0 <= k < sel.retractions.len() ==> behind::<T>(
            #[trigger] sel.retractions[k],
            x,
            route_for(sel.routes, x),
            base,
        )
}

/// An offer never lets the route to its origin fall behind: the route stays
/// sound and its sequence number does not go back.
proof fn lemma_offered_moves_on<T: RoutingSystem>(
    route: Option<Route<T>>,
    link: T::Link,
    neigh: T::NodeAddress,
    cost: u16,
    ext: ExternalRoute<T>,
    base: u16,
)
    requires
        sound(route, base),
        plain(ext, base),
    ensures
        sound(offered(route, link, neigh, cost, ext), base),
        moved_on(route, offered(route, link, neigh, cost, ext), base),
{
    match route {
        Some(r) => {
            lemma_rank(base, seqno_of::<T>(r.source), seqno_of::<T>(ext.source));
            lemma_rank(base, seqno_of::<T>(ext.source), seqno_of::<T>(r.source));
        },
        None => {},
    }
}

/// One offer keeps the retractions behind the route to `x`.
proof fn lemma_offer_trailing<T: RoutingSystem>(
    sel: Selection<T>,
    address: T::NodeAddress,
    links: Seq<(T::Link, NeighbourView<T>)>,
    l: int,
    r: int,
    x: T::NodeAddress,
    base: u16,
)
    requires
        0 <= l < links.len(),
        0 <= r < links[l].1.routes.len(),
        x != address,
        orderly(links, x, base),
        adverts_keyed(links),
        trailing(sel, x, base),
    ensures
        trailing(offer_at(sel, address, links, l, r), x, base),
{
    let origin = links[l].1.routes[r].0;
    let ext = links[l].1.routes[r].1;
    let after = offer_at(sel, address, links, l, r);
    let before = route_for(sel.routes, x);
    let now = route_for(after.routes, x);
    lemma_offer_route_for(
        sel,
        address,
        links[l].0,
        links[l].1.addr,
        clamped(links[l].1.metric),
        origin,
        ext,
        x,
    );
    lemma_position(sel.routes, origin);
    lemma_position(sel.routes, x);
    assert(origin_of::<T>(ext.source) == origin);
    assert(origins_keyed(after.routes)) by {
        assert forall|i: int| 0 <= i < after.routes.len() implies origin_of::<T>(
            (#[trigger] after.routes[i]).1.source,
        ) == after.routes[i].0 by {
            if i < sel.routes.len() {
                assert(origin_of::<T>(sel.routes[i].1.source) == sel.routes[i].0);
            }
        }
    }
    if origin == x {
        lemma_position_of_entry(links[l].1.routes, r);
        assert(advert_from(links, l, x) == Some(ext));
        lemma_offered_moves_on(
            before,
            links[l].0,
            links[l].1.addr,
            clamped(links[l].1.metric),
            ext,
            base,
        );
    } else {
        match before {
            Some(b) => {
                lemma_rank(base, seqno_of::<T>(b.source), seqno_of::<T>(b.source));
            },
            None => {},
        }
    }
    assert forall|k: int| 0 <= k < after.retractions.len() implies behind::<T>(
        #[trigger] after.retractions[k],
        x,
        now,
        base,
    ) by {
        if k < sel.retractions.len() {
            assert(after.retractions[k] == sel.retractions[k]);
            assert(behind::<T>(sel.retractions[k], x, before, base));
        } else {
            let i = position(sel.routes, origin).unwrap();
            assert(after.retractions[k] == sel.routes[i].1.source);
            assert(origin_of::<T>(sel.routes[i].1.source) == sel.routes[i].0);
        }
    }
}

/// The sources noted while routes on lost links are withdrawn are sources
/// of those routes, which keep them.
proof fn lemma_retract_lost_trailing<T: RoutingSystem>(
    routes: Seq<(T::NodeAddress, Route<T>)>,
    links: Seq<(T::Link, NeighbourView<T>)>,
    n: nat,
    x: T::NodeAddress,
    base: u16,
)
    requires
        n <= routes.len(),
        origins_keyed(routes),
        distinct_keys(routes),
    ensures
        forall|k: int|
            0 <= k < retract_lost(routes, links, n).retractions.len() ==> behind::<T>(
                #[trigger] retract_lost(routes, links, n).retractions[k],
                x,
                route_for(routes, x),
                base,
            ),
    decreases n,
{
    if n > 0 {
        lemma_retract_lost_trailing(routes, links, (n - 1) as nat, x, base);
        let before = retract_lost(routes, links, (n - 1) as nat);
        let after = retract_lost(routes, links, n);
        let source = routes[n - 1].1.source;
        assert(origin_of::<T>(source) == routes[n - 1].0);
        if origin_of::<T>(source) == x {
            lemma_position_of_entry(routes, n - 1);
        }
        assert forall|k: int| 0 <= k < after.retractions.len() implies behind::<T>(
            #[trigger] after.retractions[k],
            x,
            route_for(routes, x),
            base,
        ) by {
            if k < before.retractions.len() {
                assert(after.retractions[k] == before.retractions[k]);
            }
        }
    }
}

/// What a node sends when it recomputes its routes is faithful to its route
/// to `x` as it is afterwards.
pub proof fn lemma_update_routes_sends_faithfully<T: RoutingSystem>(
    s: RouterView<T>,
    x: T::NodeAddress,
    base: u16,
)
    requires
        x != s.address,
        orderly(s.links, x, base),
        adverts_keyed(s.links),
        origins_keyed(s.routes),
        distinct_keys(s.routes),
        sound(route_for(s.routes, x), base),
    ensures
        exists|sent: Seq<Wire<T>>|
            s.update_routes().outbound == s.outbound + sent && #[trigger] wires_faithful(
                sent,
                x,
                route_for(s.update_routes().routes, x),
                base,
            ),
        origins_keyed(s.update_routes().routes),
        sound(route_for(s.update_routes().routes, x), base),
{
    let start = retract_lost(s.routes, s.links, s.routes.len());
    lemma_retract_lost_pointwise(s.routes, s.links, s.routes.len());
    lemma_retract_lost_trailing(s.routes, s.links, s.routes.len(), x, base);
    lemma_position_same_keys(start.routes, s.routes, x);
    lemma_position(s.routes, x);
    assert(origins_keyed(start.routes)) by {
        assert forall|i: int| 0 <= i < start.routes.len() implies origin_of::<T>(
            (#[trigger] start.routes[i]).1.source,
        ) == start.routes[i].0 by {
            assert(origin_of::<T>(s.routes[i].1.source) == s.routes[i].0);
        }
    }
    assert(trailing(start, x, base)) by {
        assert forall|k: int| 0 <= k < start.retractions.len() implies behind::<T>(
            #[trigger] start.retractions[k],
            x,
            route_for(start.routes, x),
            base,
        ) by {
            assert(behind::<T>(start.retractions[k], x, route_for(s.routes, x), base));
        }
    }
    let inv = |sel: Selection<T>| trailing(sel, x, base);
    assert forall|sel: Selection<T>, l: int, r: int|
        0 <= l < s.links.len() && 0 <= r < s.links[l].1.routes.len() && inv(sel) implies inv(
        #[trigger] offer_at(sel, s.address, s.links, l, r),
    ) by {
        lemma_offer_trailing(sel, s.address, s.links, l, r, x, base);
    }
    lemma_sweep_links_keeps(inv, start, s.address, s.links, s.links.len());
    let sel = s.selection();
    let sent = retraction_wires(s.links, sel.retractions, sel.retractions.len());
    lemma_retraction_wires_faithful(
        s.links,
        sel.retractions,
        sel.retractions.len(),
        x,
        route_for(sel.routes, x),
        base,
    );
    assert(wires_faithful(sent, x, route_for(s.update_routes().routes, x), base));
}

/// The full table and every announcement of a node are faithful to its
/// route to `x`, under whatever pair of its own the node stands in them.
pub proof fn lemma_adverts_faithful<T: RoutingSystem>(
    s: RouterView<T>,
    own: SignedSource<T>,
    x: T::NodeAddress,
    base: u16,
)
    requires
        x != s.address,
        origin_of::<T>(own) == s.address,
        origins_keyed(s.routes),
        distinct_keys(s.routes),
        sound(route_for(s.routes, x), base),
    ensures
        message_faithful(s.batch(own), x, route_for(s.routes, x), base),
        forall|origin: T::NodeAddress|
            s.announcement(origin, own).is_some() ==> message_faithful(
                (#[trigger] s.announcement(origin, own)).unwrap(),
                x,
                route_for(s.routes, x),
                base,
            ),
{
    let route = route_for(s.routes, x);
    assert forall|i: int|
        0 <= i < s.routes.len() && origin_of::<T>(s.route_update(i).source) == x implies faithful(
        seqno_of::<T>(s.route_update(i).source),
        (#[trigger] s.route_update(i)).metric,
        route,
        base,
    ) by {
        assert(origin_of::<T>(s.routes[i].1.source) == s.routes[i].0);
        lemma_position_of_entry(s.routes, i);
    }
    assert forall|update: RouteUpdate<SignedSource<T>>|
        #[trigger] says(s.batch(own), update) && origin_of::<T>(update.source)
            == x implies faithful(seqno_of::<T>(update.source), update.metric, route, base) by {
        let all = s.batch(own)->BatchRouteUpdate_routes;
        let i = choose|i: int| 0 <= i < all.len() && all[i] == update;
        if i < s.routes.len() {
            assert(all[i] == s.route_update(i));
        }
    }
    assert forall|origin: T::NodeAddress|
        s.announcement(origin, own).is_some() implies message_faithful(
        (#[trigger] s.announcement(origin, own)).unwrap(),
        x,
        route,
        base,
    ) by {
        lemma_position(s.routes, origin);
    }
}

/// The requests that a node sends for starved routes say nothing about any
/// route, so they are faithful.
proof fn lemma_starvation_wires_faithful<T: RoutingSystem>(
    s: RouterView<T>,
    n: nat,
    x: T::NodeAddress,
    route: Option<Route<T>>,
    base: u16,
)
    requires
        n <= s.routes.len(),
    ensures
        wires_faithful(s.starvation_wires(n), x, route, base),
    decreases n,
{
    if n > 0 {
        lemma_starvation_wires_faithful(s, (n - 1) as nat, x, route, base);
        match s.starvation_request(n - 1) {
            Some(message) => {
                lemma_wires_faithful_broadcast(
                    s.starvation_wires((n - 1) as nat),
                    s.links,
                    message,
                    x,
                    route,
                    base,
                );
            },
            None => {},
        }
    }
}

/// The announcements of a node are faithful to its route to `x`.
proof fn lemma_announcement_wires_faithful<T: RoutingSystem>(
    s: RouterView<T>,
    n: nat,
    own: SignedSource<T>,
    x: T::NodeAddress,
    base: u16,
)
    requires
        n <= s.broadcast_route_for.len(),
        x != s.address,
        origin_of::<T>(own) == s.address,
        origins_keyed(s.routes),
        distinct_keys(s.routes),
        sound(route_for(s.routes, x), base),
    ensures
        wires_faithful(s.announcement_wires(n, own), x, route_for(s.routes, x), base),
    decreases n,
{
    if n > 0 {
        lemma_announcement_wires_faithful(s, (n - 1) as nat, own, x, base);
        lemma_adverts_faithful(s, own, x, base);
        let origin = s.broadcast_route_for[n - 1];
        match s.announcement(origin, own) {
            Some(message) => {
                lemma_wires_faithful_broadcast(
                    s.announcement_wires((n - 1) as nat, own),
                    s.links,
                    message,
                    x,
                    route_for(s.routes, x),
                    base,
                );
            },
            None => {},
        }
    }
}

/// Faithful wires queued behind faithful wires are faithful wires.
proof fn lemma_wires_faithful_add<T: RoutingSystem>(
    first: Seq<Wire<T>>,
    second: Seq<Wire<T>>,
    x: T::NodeAddress,
    route: Option<Route<T>>,
    base: u16,
)
    requires
        wires_faithful(first, x, route, base),
        wires_faithful(second, x, route, base),
    ensures
        wires_faithful(first + second, x, route, base),
{
    let all = first + second;
    assert forall|i: int| 0 <= i < all.len() implies message_faithful(
        (#[trigger] all[i]).message,
        x,
        route,
        base,
    ) by {
        if i < first.len() {
            assert(all[i] == first[i]);
        } else {
            assert(all[i] == second[i - first.len()]);
        }
    }
}

/// Everything that a node sends in a full tick is faithful to its route to
/// `x` as it is after the tick, under whatever pairs of its own the node
/// stands in its full table and announces itself. So is all that it sends
/// in a light update, which is part of it.
pub proof fn lemma_full_update_sends_faithfully<T: RoutingSystem>(
    s: RouterView<T>,
    listed: SignedSource<T>,
    announced: SignedSource<T>,
    x: T::NodeAddress,
    base: u16,
)
    requires
        x != s.address,
        origin_of::<T>(listed) == s.address,
        origin_of::<T>(announced) == s.address,
        orderly(s.links, x, base),
        adverts_keyed(s.links),
        origins_keyed(s.routes),
        distinct_keys(s.routes),
        sound(route_for(s.routes, x), base),
    ensures
        s.full_update(listed, announced).routes == s.update_routes().routes,
        exists|sent: Seq<Wire<T>>|
            s.full_update(listed, announced).outbound == s.outbound + sent
                && #[trigger] wires_faithful(
                sent,
                x,
                route_for(s.full_update(listed, announced).routes, x),
                base,
            ),
{
    lemma_update_routes_sends_faithfully(s, x, base);
    let first = s.update_routes();
    let route = route_for(first.routes, x);
    let retractions = choose|sent: Seq<Wire<T>>|
        first.outbound == s.outbound + sent && #[trigger] wires_faithful(sent, x, route, base);
    lemma_update_routes_distinct(s);
    let second = first.solve_starvation();
    let requests = first.starvation_wires(first.routes.len());
    lemma_starvation_wires_faithful(first, first.routes.len(), x, route, base);
    let third = second.broadcast_routes(listed);
    lemma_adverts_faithful(second, listed, x, base);
    let table = broadcast(second.links, second.batch(listed));
    let nothing = Seq::<Wire<T>>::empty();
    lemma_wires_faithful_broadcast(nothing, second.links, second.batch(listed), x, route, base);
    assert(nothing + table =~= table);
    let last = third.broadcast_seqno_updates(announced);
    let announcements = third.announcement_wires(third.broadcast_route_for.len(), announced);
    lemma_announcement_wires_faithful(
        third,
        third.broadcast_route_for.len(),
        announced,
        x,
        base,
    );
    lemma_wires_faithful_add(retractions, requests, x, route, base);
    lemma_wires_faithful_add(retractions + requests, table, x, route, base);
    lemma_wires_faithful_add(retractions + requests + table, announcements, x, route, base);
    let sent = retractions + requests + table + announcements;
    assert(last.outbound =~= s.outbound + sent);
    assert(last == s.full_update(listed, announced));
    assert(wires_faithful(sent, x, route_for(s.full_update(listed, announced).routes, x), base));
}

/// Everything that a node sends when it handles a packet is faithful to
/// its route to `x`: the retraction that it passes on is not ahead of its
/// own route, and requests say nothing about any route.
pub proof fn lemma_handle_packet_sends_faithfully<T: RoutingSystem>(
    s: RouterView<T>,
    packet: PacketOf<T>,
    link: T::Link,
    neigh: T::NodeAddress,
    x: T::NodeAddress,
    base: u16,
)
    requires
        x != s.address,
        sound(route_for(s.routes, x), base),
        packet matches Packet::UrgentRouteUpdate(update) ==> origin_of::<T>(update.source) == x
            ==> rank(base, seqno_of::<T>(update.source)) < 32768,
    ensures
        exists|sent: Seq<Wire<T>>|
            s.handle_packet(packet, link, neigh).outbound == s.outbound + sent
                && #[trigger] wires_faithful(sent, x, route_for(s.routes, x), base),
{
    let route = route_for(s.routes, x);
    let after = s.handle_packet(packet, link, neigh);
    let nothing = Seq::<Wire<T>>::empty();
    assert(wires_faithful(nothing, x, route, base));
    assert(s.outbound + nothing =~= s.outbound);
    match packet {
        Packet::UrgentRouteUpdate(update) => {
            lemma_after_update_frame(s, update, link, neigh);
            let next = s.after_update(update, link, neigh);
            match s.update_action(update, link, neigh) {
                UpdateAction::Retraction => {
                    let message = retraction::<T>(update.source);
                    let sent = broadcast(next.links, message);
                    if origin_of::<T>(update.source) == x {
                        lemma_position(s.routes, x);
                        let r = route.unwrap();
                        lemma_rank(base, seqno_of::<T>(r.source), seqno_of::<T>(update.source));
                    }
                    assert(message_faithful(message, x, route, base));
                    lemma_wires_faithful_broadcast(nothing, next.links, message, x, route, base);
                    assert(nothing + sent =~= sent);
                    assert(after.outbound == s.outbound + sent);
                    assert(wires_faithful(sent, x, route, base));
                },
                _ => {
                    assert(after.outbound == s.outbound + nothing);
                },
            }
        },
        Packet::BatchRouteUpdate { routes } => {
            lemma_batch_sends_nothing(s, routes@, link, neigh, routes@.len());
            assert(after.outbound == s.outbound + nothing);
        },
        Packet::SeqnoRequest { source, seqno } => {
            let message: MessageOf<T> = Message::SeqnoRequest { source, seqno };
            let sent = broadcast(s.links, message);
            lemma_wires_faithful_broadcast(nothing, s.links, message, x, route, base);
            assert(nothing + sent =~= sent);
            if after.outbound != s.outbound {
                assert(after.outbound == s.outbound + sent);
                assert(wires_faithful(sent, x, route, base));
            } else {
                assert(after.outbound == s.outbound + nothing);
            }
        },
    }
}

/// Two nodes guard each other whichever of them is named first.
pub proof fn lemma_loop_guard_symmetric<T: RoutingSystem>(
    a: RouterView<T>,
    b: RouterView<T>,
    x: T::NodeAddress,
    base: u16,
)
    ensures
        loop_guard(a, b, x, base) == loop_guard(b, a, x, base),
{
}

/// Two nodes that have no route and have heard nothing yet guard each
/// other, whatever their links are, so long as no neighbour occurs twice
/// among them.
pub proof fn lemma_fresh_nodes_guard<T: RoutingSystem>(
    a: RouterView<T>,
    b: RouterView<T>,
    x: T::NodeAddress,
    base: u16,
)
    requires
        x != a.address,
        x != b.address,
        a.routes.len() == 0,
        b.routes.len() == 0,
        forall|l: int| 0 <= l < a.links.len() ==> (#[trigger] a.links[l]).1.routes.len() == 0,
        forall|l: int| 0 <= l < b.links.len() ==> (#[trigger] b.links[l]).1.routes.len() == 0,
        forall|l: int, k: int|
            0 <= l < a.links.len() && 0 <= k < a.links.len() && (#[trigger] a.links[l]).1.addr
                == (#[trigger] a.links[k]).1.addr ==> l == k,
        forall|l: int, k: int|
            0 <= l < b.links.len() && 0 <= k < b.links.len() && (#[trigger] b.links[l]).1.addr
                == (#[trigger] b.links[k]).1.addr ==> l == k,
    ensures
        loop_guard(a, b, x, base),
{
    assert forall|l: int| 0 <= l < a.links.len() implies (#[trigger] advert_from(
        a.links,
        l,
        x,
    )).is_none() by {
        assert(a.links[l].1.routes.len() == 0);
    }
    assert forall|l: int| 0 <= l < b.links.len() implies (#[trigger] advert_from(
        b.links,
        l,
        x,
    )).is_none() by {
        assert(b.links[l].1.routes.len() == 0);
    }
    assert forall|l: int| 0 <= l < a.links.len() implies distinct_keys(
        (#[trigger] a.links[l]).1.routes,
    ) by {}
    assert forall|l: int| 0 <= l < b.links.len() implies distinct_keys(
        (#[trigger] b.links[l]).1.routes,
    ) by {}
    assert(held_from(a.links, b.address, x).is_none()) by {
        if link_to(a.links, b.address).is_some() {
            let l = link_to(a.links, b.address).unwrap();
            assert(advert_from(a.links, l, x).is_none());
        }
    }
    assert(held_from(b.links, a.address, x).is_none()) by {
        if link_to(b.links, a.address).is_some() {
            let l = link_to(b.links, a.address).unwrap();
            assert(advert_from(b.links, l, x).is_none());
        }
    }
}

/// A change of link metrics by the host keeps the guard between two nodes:
/// the guard does not depend on what the links cost.
pub proof fn lemma_link_metrics_keep_loop_guard<T: RoutingSystem>(
    a: RouterView<T>,
    changed: RouterView<T>,
    b: RouterView<T>,
    x: T::NodeAddress,
    base: u16,
)
    requires
        loop_guard(a, b, x, base),
        changed.address == a.address,
        changed.routes == a.routes,
        changed.links.len() == a.links.len(),
        forall|l: int|
            0 <= l < a.links.len() ==> (#[trigger] changed.links[l]).0 == a.links[l].0
                && changed.links[l].1.addr == a.links[l].1.addr && changed.links[l].1.routes
                == a.links[l].1.routes,
    ensures
        loop_guard(changed, b, x, base),
{
    assert forall|l: int| 0 <= l < a.links.len() implies #[trigger] advert_from(changed.links, l, x)
        == advert_from(a.links, l, x) by {
        assert(changed.links[l].1.routes == a.links[l].1.routes);
    }
    assert(orderly(changed.links, x, base)) by {
        let links = changed.links;
        assert forall|l: int, k: int|
            0 <= l < links.len() && 0 <= k < links.len() && (#[trigger] links[l]).1.addr
                == (#[trigger] links[k]).1.addr implies l == k by {
            assert(a.links[l].1.addr == a.links[k].1.addr);
        }
        assert forall|l: int| 0 <= l < changed.links.len() implies distinct_keys(
            (#[trigger] changed.links[l]).1.routes,
        ) by {
            assert(distinct_keys(a.links[l].1.routes));
        }
        assert forall|l: int| 0 <= l < changed.links.len() implies match #[trigger] advert_from(
            changed.links,
            l,
            x,
        ) {
            Some(e) => plain(e, base),
            None => true,
        } by {
            assert(advert_from(changed.links, l, x) == advert_from(a.links, l, x));
        }
    }
    assert(held_from(changed.links, b.address, x) == held_from(a.links, b.address, x)) by {
        match link_to(a.links, b.address) {
            Some(l) => {
                assert(changed.links[l].1.addr == b.address);
                lemma_link_to(changed.links, l, x, base);
            },
            None => {
                if link_to(changed.links, b.address).is_some() {
                    let k = link_to(changed.links, b.address).unwrap();
                    assert(a.links[k].1.addr == b.address);
                }
            },
        }
    }
}

/// Whether every update on `x` in `packet` is plain.
pub open spec fn packet_plain<T: RoutingSystem>(
    packet: PacketOf<T>,
    x: T::NodeAddress,
    base: u16,
) -> bool {
    match packet {
        Packet::UrgentRouteUpdate(update) => origin_of::<T>(update.source) == x ==> plain(
            stored::<T>(update),
            base,
        ),
        Packet::BatchRouteUpdate { routes } => forall|i: int|
            0 <= i < routes@.len() && origin_of::<T>((#[trigger] routes@[i]).source) == x
                ==> plain(stored::<T>(routes@[i]), base),
        Packet::SeqnoRequest { source, seqno } => true,
    }
}

/// A packet that reads as a faithful message is deliverable: what a node
/// has sent can be handed to its neighbour.
pub proof fn lemma_faithful_packet_deliverable<T: RoutingSystem>(
    packet: PacketOf<T>,
    from_neighbour: bool,
    route: Option<Route<T>>,
    x: T::NodeAddress,
    base: u16,
)
    requires
        packet_plain::<T>(packet, x, base),
        from_neighbour ==> message_faithful(packet@, x, route, base),
    ensures
        packet_deliverable(packet, from_neighbour, route, x, base),
{
    match packet {
        Packet::UrgentRouteUpdate(update) => {
            if from_neighbour {
                assert(says(packet@, update));
            }
        },
        Packet::BatchRouteUpdate { routes } => {
            assert forall|i: int| 0 <= i < routes@.len() implies deliverable(
                #[trigger] routes@[i],
                from_neighbour,
                route,
                x,
                base,
            ) by {
                if from_neighbour {
                    assert(says(packet@, routes@[i]));
                }
            }
        },
        Packet::SeqnoRequest { source, seqno } => {},
    }
}

} // verus!
