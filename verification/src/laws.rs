//! What holds of the protocol in every state: the invariants of the route
//! table and the answers that nodes owe each other.
use crate::concepts::neighbour::NeighbourView;
use crate::concepts::packet::{Message, Packet, RouteUpdate};
use crate::concepts::route::{ExternalRoute, Route, Source};
use crate::feedback::RoutingWarning;
use crate::framework::{MACSignature, PacketOf, RoutingSystem, SignedSource};
use crate::model::{
    broadcast, clamp_links, clamped, feasible, link_lost, logged, offer, origin_of,
    retract_lost, seqno_of, stored, sweep_links, sweep_neighbour, withdrawn, zero_metric_log,
    RouterView, Selection,
};
use crate::table::{
    distinct_keys, lemma_position, lemma_position_of_entry, lemma_position_same_keys, position,
};
use crate::util::{less_than, metric_sum, seqno_distance, INF};
use vstd::prelude::*;

verus! {

/// The selection after the neighbour at position `l` of `links` offered its
/// advertisement at position `r`.
pub open spec fn offer_at<T: RoutingSystem>(
    sel: Selection<T>,
    address: T::NodeAddress,
    links: Seq<(T::Link, NeighbourView<T>)>,
    l: int,
    r: int,
) -> Selection<T> {
    offer(
        sel,
        address,
        links[l].0,
        links[l].1.addr,
        clamped(links[l].1.metric),
        links[l].1.routes[r].0,
        links[l].1.routes[r].1,
    )
}

/// What holds of a selection and is kept by every single offer is kept by a
/// neighbour's offers up to any point.
pub proof fn lemma_sweep_neighbour_keeps<T: RoutingSystem>(
    inv: spec_fn(Selection<T>) -> bool,
    sel: Selection<T>,
    address: T::NodeAddress,
    links: Seq<(T::Link, NeighbourView<T>)>,
    l: int,
    n: nat,
)
    requires
        inv(sel),
        0 <= l < links.len(),
        n <= links[l].1.routes.len(),
        forall|s: Selection<T>, r: int|
            0 <= r < links[l].1.routes.len() && inv(s) ==> inv(
                #[trigger] offer_at(s, address, links, l, r),
            ),
    ensures
        inv(sweep_neighbour(sel, address, links[l].0, links[l].1, n)),
    decreases n,
{
    if n > 0 {
        lemma_sweep_neighbour_keeps(inv, sel, address, links, l, (n - 1) as nat);
        let before = sweep_neighbour(sel, address, links[l].0, links[l].1, (n - 1) as nat);
        assert(sweep_neighbour(sel, address, links[l].0, links[l].1, n) == offer_at(
            before,
            address,
            links,
            l,
            n - 1,
        ));
    }
}

/// What holds of a selection and is kept by every single offer is kept by
/// the offers of all neighbours up to any point.
pub proof fn lemma_sweep_links_keeps<T: RoutingSystem>(
    inv: spec_fn(Selection<T>) -> bool,
    sel: Selection<T>,
    address: T::NodeAddress,
    links: Seq<(T::Link, NeighbourView<T>)>,
    n: nat,
)
    requires
        inv(sel),
        n <= links.len(),
        forall|s: Selection<T>, l: int, r: int|
            0 <= l < links.len() && 0 <= r < links[l].1.routes.len() && inv(s) ==> inv(
                #[trigger] offer_at(s, address, links, l, r),
            ),
    ensures
        inv(sweep_links(sel, address, links, n)),
    decreases n,
{
    if n > 0 {
        lemma_sweep_links_keeps(inv, sel, address, links, (n - 1) as nat);
        let before = sweep_links(sel, address, links, (n - 1) as nat);
        lemma_sweep_neighbour_keeps(
            inv,
            before,
            address,
            links,
            n - 1,
            links[n - 1].1.routes.len(),
        );
    }
}

/// Withdrawing the routes on lost links keeps every route in its place and
/// either leaves it as it was or withdraws it.
pub proof fn lemma_retract_lost_pointwise<T: RoutingSystem>(
    routes: Seq<(T::NodeAddress, Route<T>)>,
    links: Seq<(T::Link, NeighbourView<T>)>,
    n: nat,
)
    requires
        n <= routes.len(),
    ensures
        retract_lost(routes, links, n).routes.len() == routes.len(),
        forall|k: int|
            0 <= k < routes.len() ==> {
                let after = #[trigger] retract_lost(routes, links, n).routes[k];
                &&& after.0 == routes[k].0
                &&& after.1 == if k < n && link_lost(links, routes[k].1.link) {
                    withdrawn(routes[k].1)
                } else {
                    routes[k].1
                }
            },
    decreases n,
{
    if n > 0 {
        lemma_retract_lost_pointwise(routes, links, (n - 1) as nat);
        let before = retract_lost(routes, links, (n - 1) as nat);
        assert(before.routes[n - 1] == routes[n - 1]);
    }
}

/// Every route that is not withdrawn keeps its metric at or above its
/// feasibility distance.
pub open spec fn fd_bounded<T: RoutingSystem>(routes: Seq<(T::NodeAddress, Route<T>)>) -> bool {
    forall|i: int|
        0 <= i < routes.len() && !(#[trigger] routes[i]).1.retracted ==> routes[i].1.fd
            <= routes[i].1.metric
}

/// One offer keeps every metric at or above its feasibility distance.
pub proof fn lemma_offer_fd_bounded<T: RoutingSystem>(
    sel: Selection<T>,
    address: T::NodeAddress,
    link: T::Link,
    neigh: T::NodeAddress,
    cost: u16,
    origin: T::NodeAddress,
    ext: ExternalRoute<T>,
)
    requires
        fd_bounded(sel.routes),
    ensures
        fd_bounded(offer(sel, address, link, neigh, cost, origin, ext).routes),
{
    lemma_position(sel.routes, origin);
    let after = offer(sel, address, link, neigh, cost, origin, ext).routes;
    assert forall|i: int|
        0 <= i < after.len() && !(#[trigger] after[i]).1.retracted implies after[i].1.fd
        <= after[i].1.metric by {
        if i < sel.routes.len() {
            assert(after[i] == sel.routes[i] || position(sel.routes, origin) == Some(i));
        }
    }
}

/// Recomputing the routes keeps every metric that is not withdrawn at or
/// above its feasibility distance.
pub proof fn lemma_update_routes_fd_bounded<T: RoutingSystem>(s: RouterView<T>)
    requires
        fd_bounded(s.routes),
    ensures
        fd_bounded(s.update_routes().routes),
{
    let start = retract_lost(s.routes, s.links, s.routes.len());
    lemma_retract_lost_pointwise(s.routes, s.links, s.routes.len());
    assert(fd_bounded(start.routes)) by {
        let kept = start.routes;
        assert forall|i: int|
            0 <= i < kept.len() && !(#[trigger] kept[i]).1.retracted implies kept[i].1.fd
            <= kept[i].1.metric by {
            assert(start.routes[i].1 == s.routes[i].1);
        }
    }
    let inv = |sel: Selection<T>| fd_bounded(sel.routes);
    assert forall|sel: Selection<T>, l: int, r: int|
        0 <= l < s.links.len() && 0 <= r < s.links[l].1.routes.len() && inv(sel) implies inv(
        #[trigger] offer_at(sel, s.address, s.links, l, r),
    ) by {
        lemma_offer_fd_bounded(
            sel,
            s.address,
            s.links[l].0,
            s.links[l].1.addr,
            clamped(s.links[l].1.metric),
            s.links[l].1.routes[r].0,
            s.links[l].1.routes[r].1,
        );
    }
    lemma_sweep_links_keeps(inv, start, s.address, s.links, s.links.len());
}

/// The link of `route` is a link of the router, and its next hop is the
/// neighbour on that link.
pub open spec fn route_anchored<T: RoutingSystem>(
    route: Route<T>,
    links: Seq<(T::Link, NeighbourView<T>)>,
) -> bool {
    match position(links, route.link) {
        Some(l) => links[l].1.addr == route.next_hop,
        None => false,
    }
}

/// Every route runs over a link of the router to the neighbour on that link.
pub open spec fn anchored<T: RoutingSystem>(
    routes: Seq<(T::NodeAddress, Route<T>)>,
    links: Seq<(T::Link, NeighbourView<T>)>,
) -> bool {
    forall|i: int| 0 <= i < routes.len() ==> route_anchored((#[trigger] routes[i]).1, links)
}

/// Both link tables hold the same neighbours on the same links.
pub open spec fn same_neighbours<T: RoutingSystem>(
    a: Seq<(T::Link, NeighbourView<T>)>,
    b: Seq<(T::Link, NeighbourView<T>)>,
) -> bool {
    &&& a.len() == b.len()
    &&& forall|l: int|
        0 <= l < a.len() ==> (#[trigger] a[l]).0 == b[l].0 && a[l].1.addr == b[l].1.addr
}

/// Routes that are anchored in a link table are anchored in every link table
/// with the same neighbours on the same links.
pub proof fn lemma_anchored_same_neighbours<T: RoutingSystem>(
    routes: Seq<(T::NodeAddress, Route<T>)>,
    a: Seq<(T::Link, NeighbourView<T>)>,
    b: Seq<(T::Link, NeighbourView<T>)>,
)
    requires
        anchored(routes, a),
        same_neighbours(a, b),
    ensures
        anchored(routes, b),
{
    assert forall|i: int| 0 <= i < routes.len() implies route_anchored(
        (#[trigger] routes[i]).1,
        b,
    ) by {
        lemma_position_same_keys(a, b, routes[i].1.link);
        lemma_position(a, routes[i].1.link);
        assert(route_anchored(routes[i].1, a));
    }
}

/// An offer made over a link of the router in the name of the neighbour on
/// that link keeps the routes anchored.
pub proof fn lemma_offer_anchored<T: RoutingSystem>(
    sel: Selection<T>,
    address: T::NodeAddress,
    links: Seq<(T::Link, NeighbourView<T>)>,
    l: int,
    r: int,
)
    requires
        anchored(sel.routes, links),
        distinct_keys(links),
        0 <= l < links.len(),
    ensures
        anchored(offer_at(sel, address, links, l, r).routes, links),
{
    let origin = links[l].1.routes[r].0;
    lemma_position(sel.routes, origin);
    lemma_position_of_entry(links, l);
    let after = offer_at(sel, address, links, l, r).routes;
    assert forall|i: int| 0 <= i < after.len() implies route_anchored(
        (#[trigger] after[i]).1,
        links,
    ) by {
        if i < sel.routes.len() {
            assert(route_anchored(sel.routes[i].1, links));
            assert(after[i] == sel.routes[i] || position(sel.routes, origin) == Some(i));
        }
    }
}

/// Recomputing the routes keeps them anchored: where every route ran over a
/// link of the router to the neighbour on it, every route does so afterwards.
pub proof fn lemma_update_routes_anchored<T: RoutingSystem>(s: RouterView<T>)
    requires
        distinct_keys(s.links),
        anchored(s.routes, s.links),
    ensures
        anchored(s.update_routes().routes, s.update_routes().links),
{
    let start = retract_lost(s.routes, s.links, s.routes.len());
    lemma_retract_lost_pointwise(s.routes, s.links, s.routes.len());
    assert(anchored(start.routes, s.links)) by {
        assert forall|i: int| 0 <= i < start.routes.len() implies route_anchored(
            (#[trigger] start.routes[i]).1,
            s.links,
        ) by {
            assert(route_anchored(s.routes[i].1, s.links));
        }
    }
    let inv = |sel: Selection<T>| anchored(sel.routes, s.links);
    assert forall|sel: Selection<T>, l: int, r: int|
        0 <= l < s.links.len() && 0 <= r < s.links[l].1.routes.len() && inv(sel) implies inv(
        #[trigger] offer_at(sel, s.address, s.links, l, r),
    ) by {
        lemma_offer_anchored(sel, s.address, s.links, l, r);
    }
    lemma_sweep_links_keeps(inv, start, s.address, s.links, s.links.len());
    lemma_anchored_same_neighbours(s.update_routes().routes, s.links, clamp_links(s.links));
}

/// Storing an update leaves the routes, the node's own sequence number and
/// everything that is queued or marked alone, and keeps the same neighbours
/// on the same links at the same cost.
pub proof fn lemma_after_update_frame<T: RoutingSystem>(
    s: RouterView<T>,
    update: RouteUpdate<SignedSource<T>>,
    link: T::Link,
    neigh: T::NodeAddress,
)
    ensures
        ({
            let after = s.after_update(update, link, neigh);
            &&& after == RouterView { links: after.links, ..s }
            &&& same_neighbours(s.links, after.links)
            &&& forall|l: int|
                0 <= l < s.links.len() ==> (#[trigger] after.links[l]).1.metric
                    == s.links[l].1.metric
        }),
{
    lemma_position(s.links, link);
}

/// Storing the updates of a batch leaves the routes, the node's own sequence
/// number and everything that is queued or marked alone: a batch causes no
/// packet and no announcement.
pub proof fn lemma_batch_sends_nothing<T: RoutingSystem>(
    s: RouterView<T>,
    updates: Seq<RouteUpdate<SignedSource<T>>>,
    link: T::Link,
    neigh: T::NodeAddress,
    n: nat,
)
    ensures
        ({
            let after = s.after_batch(updates, link, neigh, n);
            &&& after == RouterView { links: after.links, ..s }
            &&& after.outbound == s.outbound
            &&& after.broadcast_route_for == s.broadcast_route_for
            &&& same_neighbours(s.links, after.links)
        }),
    decreases n,
{
    if n > 0 {
        lemma_batch_sends_nothing(s, updates, link, neigh, (n - 1) as nat);
        let before = s.after_batch(updates, link, neigh, (n - 1) as nat);
        lemma_after_update_frame(before, updates[n - 1], link, neigh);
        let after = before.after_update(updates[n - 1], link, neigh);
        assert forall|l: int| 0 <= l < s.links.len() implies (#[trigger] s.links[l]).0
            == after.links[l].0 && s.links[l].1.addr == after.links[l].1.addr by {
            assert(before.links[l].0 == after.links[l].0);
        }
    }
}

/// Handling a packet never touches the routes: it leaves them and this
/// node's address as they are and keeps the same neighbours on the same
/// links. Routes change only when they are recomputed.
pub proof fn lemma_handle_packet_frame<T: RoutingSystem>(
    s: RouterView<T>,
    packet: PacketOf<T>,
    link: T::Link,
    neigh: T::NodeAddress,
)
    ensures
        s.handle_packet(packet, link, neigh).routes == s.routes,
        s.handle_packet(packet, link, neigh).address == s.address,
        same_neighbours(s.links, s.handle_packet(packet, link, neigh).links),
{
    match packet {
        Packet::UrgentRouteUpdate(update) => {
            lemma_after_update_frame(s, update, link, neigh);
        },
        Packet::BatchRouteUpdate { routes } => {
            lemma_batch_sends_nothing(s, routes@, link, neigh, routes@.len());
        },
        Packet::SeqnoRequest { source, seqno } => {
            lemma_seqno_request_frame(s, source, seqno);
        },
    }
}

/// Whether the neighbour on `link` is already known to advertise exactly
/// what `update` says.
pub open spec fn holds<T: RoutingSystem>(
    s: RouterView<T>,
    update: RouteUpdate<SignedSource<T>>,
    link: T::Link,
) -> bool {
    match position(s.links, link) {
        Some(l) => match position(s.links[l].1.routes, origin_of::<T>(update.source)) {
            Some(r) => s.links[l].1.routes[r].1 == stored::<T>(update),
            None => false,
        },
        None => false,
    }
}

/// A batch that says what the router already holds of that neighbour changes
/// nothing at all: the state afterwards is the state before, so no packet
/// goes out. What such a batch says about the router itself does not count,
/// since that is never stored: a full table of a neighbour always holds it.
pub proof fn lemma_known_batch_changes_nothing<T: RoutingSystem>(
    s: RouterView<T>,
    updates: Seq<RouteUpdate<SignedSource<T>>>,
    link: T::Link,
    neigh: T::NodeAddress,
    n: nat,
)
    requires
        n <= updates.len(),
        forall|i: int|
            0 <= i < n ==> origin_of::<T>((#[trigger] updates[i]).source) == s.address || holds(
                s,
                updates[i],
                link,
            ),
    ensures
        s.after_batch(updates, link, neigh, n) == s,
    decreases n,
{
    if n > 0 {
        lemma_known_batch_changes_nothing(s, updates, link, neigh, (n - 1) as nat);
        let update = updates[n - 1];
        if origin_of::<T>(update.source) != s.address {
            assert(holds(s, update, link));
            lemma_position(s.links, link);
            let l = position(s.links, link).unwrap();
            let adverts = s.links[l].1.routes;
            lemma_position(adverts, origin_of::<T>(update.source));
            let r = position(adverts, origin_of::<T>(update.source)).unwrap();
            assert(adverts.update(r, (adverts[r].0, stored::<T>(update))) =~= adverts);
            assert(s.links.update(
                l,
                (s.links[l].0, NeighbourView { routes: adverts, ..s.links[l].1 }),
            ) =~= s.links);
        }
    }
}

/// Handling a request for a sequence number leaves the routes and the links
/// alone.
pub proof fn lemma_seqno_request_frame<T: RoutingSystem>(
    s: RouterView<T>,
    origin: T::NodeAddress,
    seqno: u16,
)
    ensures
        s.after_seqno_request(origin, seqno).routes == s.routes,
        s.after_seqno_request(origin, seqno).links == s.links,
        s.after_seqno_request(origin, seqno).address == s.address,
{
}

/// A node that is asked for the sequence number that it knows of an origin
/// announces its route to that origin to every neighbour at the next
/// opportunity, once, under that sequence number, and nothing else. What
/// it announces of another node carries the signed origin pair that the
/// route holds; what it announces of itself carries `own`, its own pair.
pub proof fn lemma_seqno_request_answered<T: RoutingSystem>(
    s: RouterView<T>,
    origin: T::NodeAddress,
    cur: u16,
    own: SignedSource<T>,
)
    requires
        s.seqno_for(origin) == Some(cur),
        s.broadcast_route_for.len() == 0,
        origin == s.address ==> own.signed() == (Source { addr: s.address, seqno: s.seqno }),
    ensures
        ({
            let after = s.after_seqno_request(origin, cur).broadcast_seqno_updates(own);
            &&& s.announcement(origin, own) matches Some(Message::UrgentRouteUpdate(update))
            &&& seqno_of::<T>(update.source) == cur
            &&& origin == s.address || origins_keyed(s.routes) ==> origin_of::<T>(update.source)
                == origin
            &&& update.source == if origin == s.address {
                own
            } else {
                s.routes[position(s.routes, origin).unwrap()].1.source
            }
            &&& after == s.sending(broadcast(s.links, Message::UrgentRouteUpdate(update)))
        }),
{
    let marked = s.after_seqno_request(origin, cur);
    assert(marked == s.announcing(origin));
    assert(!s.broadcast_route_for.contains(origin));
    assert(marked.broadcast_route_for =~= seq![origin]);
    lemma_position(s.routes, origin);
    assert(marked.announcement_wires(0, own) =~= Seq::empty());
    let message = s.announcement(origin, own).unwrap();
    assert(marked.announcement(origin, own) == s.announcement(origin, own));
    assert(marked.announcement_wires(1, own) =~= broadcast(s.links, message)) by {
        assert(marked.broadcast_route_for[0] == origin);
        assert(marked.announcement_wires(1, own) == marked.announcement_wires(0, own) + broadcast(
            marked.links,
            message,
        ));
    }
    let after = marked.broadcast_seqno_updates(own);
    assert(after.broadcast_route_for =~= s.broadcast_route_for);
    assert(after =~= s.sending(broadcast(s.links, message)));
}

/// Every route is filed under the origin that its source names.
pub open spec fn origins_keyed<T: RoutingSystem>(routes: Seq<(T::NodeAddress, Route<T>)>) -> bool {
    forall|i: int|
        0 <= i < routes.len() ==> origin_of::<T>((#[trigger] routes[i]).1.source) == routes[i].0
}

/// Every advertisement of every neighbour is filed under the origin that
/// its source names.
pub open spec fn adverts_keyed<T: RoutingSystem>(links: Seq<(T::Link, NeighbourView<T>)>) -> bool {
    forall|l: int, r: int|
        0 <= l < links.len() && 0 <= r < links[l].1.routes.len() ==> origin_of::<T>(
            (#[trigger] links[l].1.routes[r]).1.source,
        ) == links[l].1.routes[r].0
}

/// Storing an update files it under the origin that its source names.
pub proof fn lemma_after_update_keyed<T: RoutingSystem>(
    s: RouterView<T>,
    update: RouteUpdate<SignedSource<T>>,
    link: T::Link,
    neigh: T::NodeAddress,
)
    requires
        adverts_keyed(s.links),
    ensures
        adverts_keyed(s.after_update(update, link, neigh).links),
{
    lemma_position(s.links, link);
    let after = s.after_update(update, link, neigh).links;
    match position(s.links, link) {
        Some(at) => {
            lemma_position(s.links[at].1.routes, origin_of::<T>(update.source));
            assert forall|l: int, r: int|
                0 <= l < after.len() && 0 <= r < after[l].1.routes.len() implies origin_of::<T>(
                (#[trigger] after[l].1.routes[r]).1.source,
            ) == after[l].1.routes[r].0 by {
                if l != at {
                    assert(after[l] == s.links[l]);
                    assert(origin_of::<T>(s.links[l].1.routes[r].1.source)
                        == s.links[l].1.routes[r].0);
                } else if r < s.links[at].1.routes.len() {
                    assert(origin_of::<T>(s.links[l].1.routes[r].1.source)
                        == s.links[l].1.routes[r].0);
                }
            }
        },
        None => {},
    }
}

/// Recomputing the routes files every route under the origin that its
/// source names, where the advertisements were filed so.
pub proof fn lemma_update_routes_keyed<T: RoutingSystem>(s: RouterView<T>)
    requires
        origins_keyed(s.routes),
        adverts_keyed(s.links),
    ensures
        origins_keyed(s.update_routes().routes),
        adverts_keyed(s.update_routes().links),
{
    let start = retract_lost(s.routes, s.links, s.routes.len());
    lemma_retract_lost_pointwise(s.routes, s.links, s.routes.len());
    assert(origins_keyed(start.routes)) by {
        assert forall|i: int| 0 <= i < start.routes.len() implies origin_of::<T>(
            (#[trigger] start.routes[i]).1.source,
        ) == start.routes[i].0 by {
            assert(origin_of::<T>(s.routes[i].1.source) == s.routes[i].0);
        }
    }
    let inv = |sel: Selection<T>| origins_keyed(sel.routes);
    assert forall|sel: Selection<T>, l: int, r: int|
        0 <= l < s.links.len() && 0 <= r < s.links[l].1.routes.len() && inv(sel) implies inv(
        #[trigger] offer_at(sel, s.address, s.links, l, r),
    ) by {
        let origin = s.links[l].1.routes[r].0;
        lemma_position(sel.routes, origin);
        assert(origin_of::<T>(s.links[l].1.routes[r].1.source) == origin);
        let after = offer_at(sel, s.address, s.links, l, r).routes;
        assert forall|i: int| 0 <= i < after.len() implies origin_of::<T>(
            (#[trigger] after[i]).1.source,
        ) == after[i].0 by {
            if i < sel.routes.len() {
                assert(origin_of::<T>(sel.routes[i].1.source) == sel.routes[i].0);
                assert(after[i] == sel.routes[i] || position(sel.routes, origin) == Some(i));
            }
        }
    }
    lemma_sweep_links_keeps(inv, start, s.address, s.links, s.links.len());
    let after = s.update_routes().links;
    assert forall|l: int, r: int|
        0 <= l < after.len() && 0 <= r < after[l].1.routes.len() implies origin_of::<T>(
        (#[trigger] after[l].1.routes[r]).1.source,
    ) == after[l].1.routes[r].0 by {
        assert(origin_of::<T>(s.links[l].1.routes[r].1.source) == s.links[l].1.routes[r].0);
    }
}

/// One offer never moves the sequence number of a selected route backwards:
/// every route stays in its place, and its sequence number afterwards is not
/// before the one it had.
pub proof fn lemma_offer_never_regresses<T: RoutingSystem>(
    sel: Selection<T>,
    address: T::NodeAddress,
    link: T::Link,
    neigh: T::NodeAddress,
    cost: u16,
    origin: T::NodeAddress,
    ext: ExternalRoute<T>,
)
    ensures
        ({
            let after = offer(sel, address, link, neigh, cost, origin, ext);
            &&& after.routes.len() >= sel.routes.len()
            &&& forall|i: int|
                0 <= i < sel.routes.len() ==> (#[trigger] after.routes[i]).0 == sel.routes[i].0
                    && !less_than(
                    seqno_of::<T>(after.routes[i].1.source),
                    seqno_of::<T>(sel.routes[i].1.source),
                )
        }),
{
    lemma_position(sel.routes, origin);
    let after = offer(sel, address, link, neigh, cost, origin, ext);
    assert forall|i: int| 0 <= i < sel.routes.len() implies (#[trigger] after.routes[i]).0
        == sel.routes[i].0 && !less_than(
        seqno_of::<T>(after.routes[i].1.source),
        seqno_of::<T>(sel.routes[i].1.source),
    ) by {
        assert(after.routes[i] == sel.routes[i] || position(sel.routes, origin) == Some(i));
    }
}

/// `seqno` lies less than half a turn ahead of `base`.
pub open spec fn within(base: u16, seqno: u16) -> bool {
    seqno_distance(base, seqno) < 32768
}

/// The sequence numbers that the router holds of each origin, in its routes
/// and in what its neighbours advertised, all lie within half a turn of the
/// cycle, starting at `base` of that origin.
pub open spec fn seqnos_within<T: RoutingSystem>(
    s: RouterView<T>,
    base: spec_fn(T::NodeAddress) -> u16,
) -> bool {
    &&& forall|i: int|
        0 <= i < s.routes.len() ==> within(
            base((#[trigger] s.routes[i]).0),
            seqno_of::<T>(s.routes[i].1.source),
        )
    &&& forall|l: int, r: int|
        0 <= l < s.links.len() && 0 <= r < s.links[l].1.routes.len() ==> within(
            base((#[trigger] s.links[l].1.routes[r]).0),
            seqno_of::<T>(s.links[l].1.routes[r].1.source),
        )
}

/// The routes of `sel` continue those of `start`: each of them is still in
/// its place, with a sequence number within the window of its origin that
/// is not before the one it started with.
pub open spec fn continues<T: RoutingSystem>(
    sel: Selection<T>,
    start: Seq<(T::NodeAddress, Route<T>)>,
    base: spec_fn(T::NodeAddress) -> u16,
) -> bool {
    &&& sel.routes.len() >= start.len()
    &&& forall|i: int|
        0 <= i < start.len() ==> {
            let now = seqno_of::<T>((#[trigger] sel.routes[i]).1.source);
            &&& sel.routes[i].0 == start[i].0
            &&& within(base(start[i].0), now)
            &&& seqno_distance(base(start[i].0), seqno_of::<T>(start[i].1.source))
                <= seqno_distance(base(start[i].0), now)
        }
}

/// Within half a turn of the cycle the sequence numbers are ordered by their
/// distance from the start of the window.
pub proof fn lemma_window_order(base: u16, x: u16, y: u16)
    requires
        within(base, x),
        within(base, y),
    ensures
        less_than(x, y) <==> seqno_distance(base, x) < seqno_distance(base, y),
{
}

/// One offer lets the routes continue those that the selection started
/// with, where the offered sequence number lies within the window of its
/// origin.
proof fn lemma_offer_continues<T: RoutingSystem>(
    sel: Selection<T>,
    start: Seq<(T::NodeAddress, Route<T>)>,
    base: spec_fn(T::NodeAddress) -> u16,
    address: T::NodeAddress,
    link: T::Link,
    neigh: T::NodeAddress,
    cost: u16,
    origin: T::NodeAddress,
    ext: ExternalRoute<T>,
)
    requires
        continues(sel, start, base),
        within(base(origin), seqno_of::<T>(ext.source)),
    ensures
        continues(offer(sel, address, link, neigh, cost, origin, ext), start, base),
{
    lemma_position(sel.routes, origin);
    let after = offer(sel, address, link, neigh, cost, origin, ext);
    assert forall|i: int| 0 <= i < start.len() implies {
        let now = seqno_of::<T>((#[trigger] after.routes[i]).1.source);
        &&& after.routes[i].0 == start[i].0
        &&& within(base(start[i].0), now)
        &&& seqno_distance(base(start[i].0), seqno_of::<T>(start[i].1.source)) <= seqno_distance(
            base(start[i].0),
            now,
        )
    } by {
        let was = seqno_of::<T>(sel.routes[i].1.source);
        let now = seqno_of::<T>(after.routes[i].1.source);
        assert(sel.routes[i].0 == start[i].0);
        assert(within(base(start[i].0), was));
        if after.routes[i] != sel.routes[i] {
            assert(position(sel.routes, origin) == Some(i));
            assert(origin == start[i].0);
            if now != was {
                assert(now == seqno_of::<T>(ext.source));
                assert(!less_than(now, was));
                lemma_window_order(base(origin), now, was);
            }
        }
    }
}

/// Between two ticks no selected route moves to an earlier sequence number.
///
/// Where the sequence numbers that the router holds of each origin lie
/// within half a turn of the cycle, every route that was there before the
/// routes were recomputed is there afterwards, for the same origin, and its
/// sequence number is not before the one it had.
pub proof fn lemma_update_routes_never_regresses<T: RoutingSystem>(
    s: RouterView<T>,
    base: spec_fn(T::NodeAddress) -> u16,
)
    requires
        seqnos_within(s, base),
    ensures
        s.update_routes().routes.len() >= s.routes.len(),
        forall|i: int|
            0 <= i < s.routes.len() ==> (#[trigger] s.update_routes().routes[i]).0
                == s.routes[i].0 && !less_than(
                seqno_of::<T>(s.update_routes().routes[i].1.source),
                seqno_of::<T>(s.routes[i].1.source),
            ),
{
    let start = retract_lost(s.routes, s.links, s.routes.len());
    lemma_retract_lost_pointwise(s.routes, s.links, s.routes.len());
    assert(continues(start, s.routes, base)) by {
        assert forall|i: int| 0 <= i < s.routes.len() implies {
            let now = seqno_of::<T>((#[trigger] start.routes[i]).1.source);
            &&& start.routes[i].0 == s.routes[i].0
            &&& within(base(s.routes[i].0), now)
            &&& seqno_distance(base(s.routes[i].0), seqno_of::<T>(s.routes[i].1.source))
                <= seqno_distance(base(s.routes[i].0), now)
        } by {
            assert(within(base(s.routes[i].0), seqno_of::<T>(s.routes[i].1.source)));
        }
    }
    let inv = |sel: Selection<T>| continues(sel, s.routes, base);
    assert forall|sel: Selection<T>, l: int, r: int|
        0 <= l < s.links.len() && 0 <= r < s.links[l].1.routes.len() && inv(sel) implies inv(
        #[trigger] offer_at(sel, s.address, s.links, l, r),
    ) by {
        assert(within(
            base(s.links[l].1.routes[r].0),
            seqno_of::<T>(s.links[l].1.routes[r].1.source),
        ));
        lemma_offer_continues(
            sel,
            s.routes,
            base,
            s.address,
            s.links[l].0,
            s.links[l].1.addr,
            clamped(s.links[l].1.metric),
            s.links[l].1.routes[r].0,
            s.links[l].1.routes[r].1,
        );
    }
    lemma_sweep_links_keeps(inv, start, s.address, s.links, s.links.len());
    let after = s.update_routes();
    assert(continues(s.selection(), s.routes, base));
    assert forall|i: int| 0 <= i < s.routes.len() implies (#[trigger] after.routes[i]).0
        == s.routes[i].0 && !less_than(
        seqno_of::<T>(after.routes[i].1.source),
        seqno_of::<T>(s.routes[i].1.source),
    ) by {
        let was = seqno_of::<T>(s.routes[i].1.source);
        let now = seqno_of::<T>(s.selection().routes[i].1.source);
        assert(within(base(s.routes[i].0), was));
        assert(within(base(s.routes[i].0), now));
        lemma_window_order(base(s.routes[i].0), now, was);
    }
}

/// A route that comes back to the node it was learnt from is infeasible.
///
/// Let a node hold a route with feasibility distance `route.fd` and advertise
/// it at the metric `advertised`, which is finite, below saturation and not
/// under that distance. A neighbour takes the route over a link of cost
/// `cost_there` and advertises it back over a link of cost `cost_back`.
/// Unless the sequence number has advanced in between, the node finds that
/// offer infeasible: its metric lies above the node's feasibility distance.
pub proof fn lemma_no_return_route<T: RoutingSystem>(
    route: Route<T>,
    advertised: u16,
    cost_there: u16,
    cost_back: u16,
    seqno: u16,
)
    requires
        route.fd <= advertised,
        advertised < INF - 1,
        !less_than(seqno_of::<T>(route.source), seqno),
    ensures
        feasible(
            route,
            seqno,
            metric_sum(clamped(cost_back), metric_sum(clamped(cost_there), advertised)),
        ).is_none(),
        metric_sum(clamped(cost_back), metric_sum(clamped(cost_there), advertised)) > route.fd,
{
}

/// No route leads to the node `address` itself.
pub open spec fn no_self_route<T: RoutingSystem>(
    routes: Seq<(T::NodeAddress, Route<T>)>,
    address: T::NodeAddress,
) -> bool {
    forall|i: int| 0 <= i < routes.len() ==> (#[trigger] routes[i]).0 != address
}

/// Recomputing the routes never makes a route to this node itself.
pub proof fn lemma_update_routes_no_self_route<T: RoutingSystem>(s: RouterView<T>)
    requires
        no_self_route(s.routes, s.address),
    ensures
        no_self_route(s.update_routes().routes, s.address),
{
    let start = retract_lost(s.routes, s.links, s.routes.len());
    lemma_retract_lost_pointwise(s.routes, s.links, s.routes.len());
    assert(no_self_route(start.routes, s.address)) by {
        assert forall|i: int| 0 <= i < start.routes.len() implies (#[trigger] start.routes[i]).0
            != s.address by {
            assert(s.routes[i].0 != s.address);
        }
    }
    let inv = |sel: Selection<T>| no_self_route(sel.routes, s.address);
    assert forall|sel: Selection<T>, l: int, r: int|
        0 <= l < s.links.len() && 0 <= r < s.links[l].1.routes.len() && inv(sel) implies inv(
        #[trigger] offer_at(sel, s.address, s.links, l, r),
    ) by {
        let origin = s.links[l].1.routes[r].0;
        lemma_position(sel.routes, origin);
        let after = offer_at(sel, s.address, s.links, l, r).routes;
        assert forall|i: int| 0 <= i < after.len() implies (#[trigger] after[i]).0
            != s.address by {
            if i < sel.routes.len() {
                assert(sel.routes[i].0 != s.address);
            }
        }
    }
    lemma_sweep_links_keeps(inv, start, s.address, s.links, s.links.len());
}

/// A candidate under a later sequence number is feasible whatever its
/// metric. Since the first sequence number of the cycle is later than the
/// last, a route under the last gives way to one under the first.
pub proof fn lemma_later_seqno_is_feasible<T: RoutingSystem>(
    route: Route<T>,
    seqno: u16,
    metric: u16,
)
    requires
        less_than(seqno_of::<T>(route.source), seqno),
    ensures
        feasible(route, seqno, metric) == Some(metric),
{
}

/// A link metric of zero is warned of once: the log gains exactly one
/// warning for each link whose metric is zero, naming that link, and none
/// where no metric is zero.
pub proof fn lemma_zero_metric_log<T: RoutingSystem>(
    warnings: Seq<RoutingWarning<T>>,
    links: Seq<(T::Link, NeighbourView<T>)>,
    n: nat,
)
    requires
        0 < n <= links.len(),
    ensures
        zero_metric_log(warnings, links, n) == if links[n - 1].1.metric == 0 {
            logged(
                zero_metric_log(warnings, links, (n - 1) as nat),
                RoutingWarning::MetricIsZero { link: links[n - 1].0 },
                T::MAX_WARN_LENGTH as nat,
            )
        } else {
            zero_metric_log(warnings, links, (n - 1) as nat)
        },
        (forall|l: int| 0 <= l < n ==> (#[trigger] links[l]).1.metric != 0) ==> zero_metric_log(
            warnings,
            links,
            n,
        ) == warnings,
    decreases n,
{
    if n > 1 {
        lemma_zero_metric_log(warnings, links, (n - 1) as nat);
    }
}

/// Once the routes were recomputed no link has a metric of zero, so that
/// recomputing them again warns of none: each zero is warned of exactly once.
pub proof fn lemma_zero_metric_warned_once<T: RoutingSystem>(s: RouterView<T>)
    ensures
        forall|l: int|
            0 <= l < s.links.len() ==> (#[trigger] s.update_routes().links[l]).1.metric
                == clamped(s.links[l].1.metric) && s.update_routes().links[l].1.metric >= 1,
        s.update_routes().update_routes().warnings == s.update_routes().warnings,
{
    let once = s.update_routes();
    if once.links.len() > 0 {
        lemma_zero_metric_log(once.warnings, once.links, once.links.len());
    }
}

/// Recomputing the routes keeps the route table a table: no origin occurs
/// twice in it.
pub proof fn lemma_update_routes_distinct<T: RoutingSystem>(s: RouterView<T>)
    requires
        distinct_keys(s.routes),
    ensures
        distinct_keys(s.update_routes().routes),
{
    let start = retract_lost(s.routes, s.links, s.routes.len());
    lemma_retract_lost_pointwise(s.routes, s.links, s.routes.len());
    assert(distinct_keys(start.routes)) by {
        assert forall|i: int, j: int| 0 <= i < j < start.routes.len() implies (
        #[trigger] start.routes[i]).0 != (#[trigger] start.routes[j]).0 by {
            assert(s.routes[i].0 != s.routes[j].0);
        }
    }
    let inv = |sel: Selection<T>| distinct_keys(sel.routes);
    assert forall|sel: Selection<T>, l: int, r: int|
        0 <= l < s.links.len() && 0 <= r < s.links[l].1.routes.len() && inv(sel) implies inv(
        #[trigger] offer_at(sel, s.address, s.links, l, r),
    ) by {
        let origin = s.links[l].1.routes[r].0;
        lemma_position(sel.routes, origin);
        let after = offer_at(sel, s.address, s.links, l, r).routes;
        assert forall|i: int, j: int| 0 <= i < j < after.len() implies (#[trigger] after[i]).0
            != (#[trigger] after[j]).0 by {
            if j < sel.routes.len() {
                assert(sel.routes[i].0 != sel.routes[j].0);
            } else {
                assert(sel.routes[i].0 != origin);
            }
        }
    }
    lemma_sweep_links_keeps(inv, start, s.address, s.links, s.links.len());
}

} // verus!
