//! The router: the state of one node and the operations that drive it.
use crate::concepts::neighbour::{Neighbour, NeighbourView};
use crate::concepts::packet::{Message, OutboundPacket, Packet, RouteUpdate, Wire};
use crate::concepts::route::{ExternalRoute, Route, Source};
use crate::feedback::{RoutingError, RoutingWarning};
use crate::framework::{
    MACSignature, MACSystem, PacketOf, RootData, RootKey, RoutingSystem, SignedPacket,
    SignedSource,
};
use crate::laws::{
    anchored, fd_bounded, lemma_handle_packet_frame, lemma_update_routes_anchored,
    lemma_update_routes_fd_bounded, same_neighbours,
};
use crate::model::{
    broadcast, clamp_links, clamped, feasible, link_lost, logged, offer, packet_accepted,
    retract_lost, retraction, retraction_wires, seqno_of, stored, sweep_links, sweep_neighbour,
    update_accepted, zero_metric_log, RouterView, Selection, UpdateAction,
};
use crate::table::{
    distinct_keys, lemma_position, lemma_position_of_entry, lemma_position_same_keys, position,
    put, Table,
};
use crate::util::{increment, increment_by, seqno_less_than, sum_inf};
use std::collections::VecDeque;
use vstd::prelude::*;

pub use crate::util::INF;

verus! {

/// The routing state of one node.
pub struct Router<T: RoutingSystem> {
    /// The direct neighbours, by link. The host adds a neighbour when a link
    /// comes up, keeps its metric current and removes it when the link is gone
    /// for good.
    pub links: Table<T::Link, Neighbour<T>>,
    /// The selected route to each known origin.
    pub routes: Table<T::NodeAddress, Route<T>>,
    /// This node's own address.
    pub address: T::NodeAddress,
    /// The latest sequence number requested onward, by origin.
    pub seqno_requests: Table<T::NodeAddress, u16>,
    /// The origins whose route is announced at the next update.
    pub broadcast_route_for: Table<T::NodeAddress, ()>,
    /// The packets that wait for the transport, which drains them.
    pub outbound_packets: Vec<OutboundPacket<T>>,
    /// This node's own sequence number.
    pub seqno: u16,
    /// Signs what this node sends and validates what it receives.
    pub mac_sys: T::MACSystem,
    /// Warnings, oldest first; the host drains them.
    pub warnings: VecDeque<RoutingWarning<T>>,
}

/// The neighbours of a link table, each with its advertisements as a sequence.
pub open spec fn links_view<T: RoutingSystem>(links: Seq<(T::Link, Neighbour<T>)>) -> Seq<
    (T::Link, NeighbourView<T>),
> {
    Seq::new(links.len(), |i: int| (links[i].0, links[i].1@))
}

/// The keys of a table.
pub open spec fn keys_of<K, V>(entries: Seq<(K, V)>) -> Seq<K> {
    Seq::new(entries.len(), |i: int| entries[i].0)
}

/// Outbound packets as they read to the transport.
pub open spec fn wires<T: RoutingSystem>(packets: Seq<OutboundPacket<T>>) -> Seq<Wire<T>> {
    Seq::new(packets.len(), |i: int| packets[i]@)
}

impl<T: RoutingSystem> View for Router<T> {
    type V = RouterView<T>;

    open spec fn view(&self) -> RouterView<T> {
        RouterView {
            address: self.address,
            seqno: self.seqno,
            links: links_view::<T>(self.links@),
            routes: self.routes@,
            seqno_requests: self.seqno_requests@,
            broadcast_route_for: keys_of(self.broadcast_route_for@),
            outbound: wires::<T>(self.outbound_packets@),
            warnings: self.warnings@,
        }
    }
}

/// A link is found in the view of a link table exactly where it stands in
/// the table.
pub proof fn lemma_links_view_position<T: RoutingSystem>(
    links: Seq<(T::Link, Neighbour<T>)>,
    link: T::Link,
)
    ensures
        position(links_view::<T>(links), link) == position(links, link),
{
    lemma_position_same_keys(links_view::<T>(links), links, link);
}

/// No link occurs twice in the view of a link table.
pub proof fn lemma_links_view_distinct<T: RoutingSystem>(links: Seq<(T::Link, Neighbour<T>)>)
    requires
        distinct_keys(links),
    ensures
        distinct_keys(links_view::<T>(links)),
{
    assert forall|i: int, j: int| 0 <= i < j < links.len() implies (#[trigger] links_view::<T>(
        links,
    )[i]).0 != (#[trigger] links_view::<T>(links)[j]).0 by {
        assert(links[i].0 != links[j].0);
    }
}

/// Adds `warning` to the log and drops the oldest warnings beyond the limit.
fn log_warning<T: RoutingSystem>(
    warnings: &mut VecDeque<RoutingWarning<T>>,
    warning: RoutingWarning<T>,
)
    ensures
        final(warnings)@ == logged(old(warnings)@, warning, T::MAX_WARN_LENGTH as nat),
{
    let ghost all = warnings@.push(warning);
    warnings.push_back(warning);
    assert(warnings@ =~= all.subrange(0, all.len() as int));
    while warnings.len() > T::MAX_WARN_LENGTH
        invariant
            warnings@.len() <= all.len(),
            warnings@.len() == all.len() || warnings@.len() >= T::MAX_WARN_LENGTH,
            warnings@ == all.subrange(all.len() - warnings@.len(), all.len() as int),
        decreases warnings@.len(),
    {
        let _ = warnings.pop_front();
        assert(warnings@ =~= all.subrange(all.len() - warnings@.len(), all.len() as int));
    }
    assert(all.len() <= T::MAX_WARN_LENGTH ==> warnings@ =~= all);
}

/// The queue has only grown: the packets that were queued before are still
/// there, each as it was, signature and all, in front of those queued since.
pub open spec fn queue_kept<T: RoutingSystem>(
    before: Seq<OutboundPacket<T>>,
    after: Seq<OutboundPacket<T>>,
) -> bool {
    &&& before.len() <= after.len()
    &&& after.subrange(0, before.len() as int) == before
}

/// Every packet queued since `before` is valid as a packet of `address`.
pub open spec fn queued_as<T: RoutingSystem>(
    mac_sys: T::MACSystem,
    address: T::NodeAddress,
    before: Seq<OutboundPacket<T>>,
    after: Seq<OutboundPacket<T>>,
) -> bool {
    forall|j: int|
        before.len() <= j < after.len() ==> mac_sys.packet_valid(
            &(#[trigger] after[j]).packet,
            &address,
        )
}

/// Every packet queued since `before` is valid as a packet of the same
/// nodes as `packet`, of which it is a copy.
pub open spec fn queued_like<T: RoutingSystem>(
    mac_sys: T::MACSystem,
    packet: SignedPacket<T>,
    before: Seq<OutboundPacket<T>>,
    after: Seq<OutboundPacket<T>>,
) -> bool {
    forall|j: int, subject: T::NodeAddress|
        before.len() <= j < after.len() ==> #[trigger] mac_sys.packet_valid(
            &after[j].packet,
            &subject,
        ) == mac_sys.packet_valid(&packet, &subject)
}

/// A queue that has grown twice has grown.
pub proof fn lemma_queue_grows<T: RoutingSystem>(
    mac_sys: T::MACSystem,
    address: T::NodeAddress,
    first: Seq<OutboundPacket<T>>,
    second: Seq<OutboundPacket<T>>,
    third: Seq<OutboundPacket<T>>,
)
    requires
        queue_kept(first, second),
        queue_kept(second, third),
        queued_as::<T>(mac_sys, address, first, second),
        queued_as::<T>(mac_sys, address, second, third),
    ensures
        queue_kept(first, third),
        queued_as::<T>(mac_sys, address, first, third),
{
    assert forall|j: int| 0 <= j < second.len() implies third[j] == second[j] by {
        assert(third.subrange(0, second.len() as int)[j] == second[j]);
    }
    assert forall|j: int| 0 <= j < first.len() implies second[j] == first[j] by {
        assert(second.subrange(0, first.len() as int)[j] == first[j]);
    }
    assert(third.subrange(0, first.len() as int) =~= first);
    assert forall|j: int| first.len() <= j < third.len() implies mac_sys.packet_valid(
        &(#[trigger] third[j]).packet,
        &address,
    ) by {
        if j < second.len() {
            assert(third[j] == second[j]);
            assert(mac_sys.packet_valid(&second[j].packet, &address));
        }
    }
}

/// A queue in which nothing was queued for the transport to read is the
/// queue as it was.
pub proof fn lemma_queue_same<T: RoutingSystem>(
    before: Seq<OutboundPacket<T>>,
    after: Seq<OutboundPacket<T>>,
)
    requires
        queue_kept(before, after),
        wires::<T>(after).len() == wires::<T>(before).len(),
    ensures
        after == before,
{
    assert(after.subrange(0, before.len() as int) =~= after);
}

/// Queues one copy of `packet` for every neighbour.
fn queue_broadcast<T: RoutingSystem>(
    outbound: &mut Vec<OutboundPacket<T>>,
    links: &Table<T::Link, Neighbour<T>>,
    mac_sys: &T::MACSystem,
    packet: &SignedPacket<T>,
)
    ensures
        wires::<T>(final(outbound)@) == wires::<T>(old(outbound)@) + broadcast(
            links_view::<T>(links@),
            packet.signed()@,
        ),
        queue_kept(old(outbound)@, final(outbound)@),
        queued_like::<T>(*mac_sys, *packet, old(outbound)@, final(outbound)@),
{
    let ghost start = outbound@;
    let ghost before = wires::<T>(outbound@);
    let ghost all = broadcast(links_view::<T>(links@), packet.signed()@);
    let n = links.len();
    let mut i: usize = 0;
    assert(start.subrange(0, start.len() as int) =~= start);
    while i < n
        invariant
            i <= n,
            n == links@.len(),
            all == broadcast(links_view::<T>(links@), packet.signed()@),
            wires::<T>(outbound@) == before + all.take(i as int),
            queue_kept(start, outbound@),
            queued_like::<T>(*mac_sys, *packet, start, outbound@),
        decreases n - i,
    {
        let link = links.key_at(i).duplicate();
        let dest = links.value_at(i).addr.duplicate();
        let copy = mac_sys.copy_packet(packet);
        let ghost queued = outbound@;
        outbound.push(OutboundPacket { link, dest, packet: copy });
        proof {
            assert(links_view::<T>(links@)[i as int].1.addr == dest);
            assert(outbound@[queued.len() as int]@ == all[i as int]);
            assert(wires::<T>(queued) == before + all.take(i as int));
            assert forall|j: int| 0 <= j < queued.len() implies #[trigger] wires::<T>(
                outbound@,
            )[j] == wires::<T>(queued)[j] by {}
            let target = before + all.take(i + 1);
            assert(all.len() == n);
            assert(wires::<T>(queued).len() == queued.len());
            assert(all.take(i as int).len() == i);
            assert(queued.len() == before.len() + i);
            assert forall|j: int| 0 <= j < target.len() implies wires::<T>(outbound@)[j]
                == target[j] by {
                if j < queued.len() {
                    assert(wires::<T>(outbound@)[j] == wires::<T>(queued)[j]);
                    assert((before + all.take(i as int))[j] == target[j]);
                }
            }
            assert(wires::<T>(outbound@) =~= target);
            assert forall|j: int| 0 <= j < queued.len() implies outbound@[j] == queued[j] by {}
            assert forall|j: int| 0 <= j < start.len() implies queued[j] == start[j] by {
                assert(queued.subrange(0, start.len() as int)[j] == start[j]);
            }
            assert(outbound@.subrange(0, start.len() as int) =~= start);
            assert forall|j: int, subject: T::NodeAddress|
                start.len() <= j < outbound@.len() implies #[trigger] mac_sys.packet_valid(
                &outbound@[j].packet,
                &subject,
            ) == mac_sys.packet_valid(packet, &subject) by {
                if j < queued.len() {
                    assert(outbound@[j] == queued[j]);
                }
            }
        }
        i += 1;
    }
    assert(all.take(n as int) =~= all);
}

/// Whether the route `new_route`, at the composed metric `metric`, may
/// replace `selected_route`; if so, the new feasibility distance.
///
/// A candidate under an earlier sequence number never may. One under the
/// same or a later sequence number may where its metric lies under the
/// feasibility distance, where its sequence number is later, or where its
/// metric is the feasibility distance and the selected route is withdrawn.
pub fn is_feasible<T: RoutingSystem>(
    selected_route: &Route<T>,
    new_route: &ExternalRoute<T>,
    metric: u16,
) -> (r: Option<u16>)
    ensures
        r == feasible(*selected_route, seqno_of::<T>(new_route.source), metric),
{
    let fd = selected_route.fd;
    let s = selected_route.source.data().seqno;
    let n = new_route.source.data().seqno;
    if seqno_less_than(n, s) {
        return None;
    }
    if metric < fd || seqno_less_than(s, n) || (metric == fd && selected_route.metric == INF) {
        return Some(metric);
    }
    None
}

/// Withdraws every route whose link is gone or down, and notes the sources
/// whose retraction is still to be announced.
fn retract_lost_routes<T: RoutingSystem>(
    routes: &mut Table<T::NodeAddress, Route<T>>,
    links: &Table<T::Link, Neighbour<T>>,
    retractions: &mut Vec<SignedSource<T>>,
)
    requires
        old(retractions)@.len() == 0,
    ensures
        (Selection::<T> { routes: final(routes)@, retractions: final(retractions)@ })
            == retract_lost(old(routes)@, links_view::<T>(links@), old(routes)@.len()),
{
    let ghost start = routes@;
    let ghost lv = links_view::<T>(links@);
    let n = routes.len();
    let mut i: usize = 0;
    assert(retractions@ =~= Seq::empty());
    while i < n
        invariant
            i <= n,
            n == start.len(),
            routes@.len() == n,
            lv == links_view::<T>(links@),
            forall|k: int| i <= k < n ==> routes@[k] == start[k],
            (Selection::<T> { routes: routes@, retractions: retractions@ }) == retract_lost(
                start,
                lv,
                i as nat,
            ),
        decreases n - i,
    {
        let lost = match links.get(&routes.value_at(i).link) {
            Some(neighbour) => neighbour.metric == INF,
            None => true,
        };
        proof {
            lemma_links_view_position::<T>(links@, start[i as int].1.link);
            lemma_position(links@, start[i as int].1.link);
            assert(lost == link_lost(lv, start[i as int].1.link));
        }
        if lost {
            let route = routes.value_at_mut(i);
            route.metric = INF;
            if !route.retracted {
                retractions.push(route.source.duplicate());
            }
            route.retracted = true;
        }
        proof {
            let after = retract_lost(start, lv, (i + 1) as nat);
            assert(routes@ =~= after.routes);
            assert(retractions@ =~= after.retractions);
        }
        i += 1;
    }
}

/// Lets one neighbour offer one of its advertisements to the selection.
fn offer_route<T: RoutingSystem>(
    routes: &mut Table<T::NodeAddress, Route<T>>,
    retractions: &mut Vec<SignedSource<T>>,
    address: &T::NodeAddress,
    link: &T::Link,
    neigh: &T::NodeAddress,
    cost: u16,
    origin: &T::NodeAddress,
    ext: &ExternalRoute<T>,
)
    ensures
        (Selection::<T> { routes: final(routes)@, retractions: final(retractions)@ }) == offer(
            Selection { routes: old(routes)@, retractions: old(retractions)@ },
            *address,
            *link,
            *neigh,
            cost,
            *origin,
            *ext,
        ),
{
    let ghost after = offer(
        Selection::<T> { routes: routes@, retractions: retractions@ },
        *address,
        *link,
        *neigh,
        cost,
        *origin,
        *ext,
    );
    if origin.same(address) {
        return ;
    }
    let metric = sum_inf(cost, ext.metric);
    match routes.index_of(origin) {
        Some(i) => {
            let table_route = routes.value_at_mut(i);
            match is_feasible::<T>(table_route, ext, metric) {
                Some(new_fd) => {
                    table_route.metric = metric;
                    table_route.source = ext.source.duplicate();
                    table_route.fd = new_fd;
                    table_route.link = link.duplicate();
                    table_route.next_hop = neigh.duplicate();
                    table_route.retracted = false;
                },
                None => {
                    if table_route.next_hop.same(neigh) {
                        if metric > table_route.fd {
                            table_route.metric = INF;
                            if !table_route.retracted {
                                retractions.push(table_route.source.duplicate());
                            }
                            table_route.retracted = true;
                        } else {
                            table_route.metric = metric;
                            table_route.fd = metric;
                            table_route.retracted = false;
                        }
                    }
                },
            }
        },
        None => {
            if metric != INF {
                let route = Route {
                    source: ext.source.duplicate(),
                    metric,
                    fd: metric,
                    link: link.duplicate(),
                    next_hop: neigh.duplicate(),
                    retracted: false,
                };
                let _ = routes.insert(origin.duplicate(), route);
            }
        },
    }
    proof {
        assert(routes@ =~= after.routes);
        assert(retractions@ =~= after.retractions);
    }
}

/// Lets every neighbour offer all that it advertised, in the order of the
/// links and of each neighbour's advertisements.
fn sweep_neighbours<T: RoutingSystem>(
    routes: &mut Table<T::NodeAddress, Route<T>>,
    retractions: &mut Vec<SignedSource<T>>,
    address: &T::NodeAddress,
    links: &Table<T::Link, Neighbour<T>>,
)
    ensures
        (Selection::<T> { routes: final(routes)@, retractions: final(retractions)@ })
            == sweep_links(
            Selection { routes: old(routes)@, retractions: old(retractions)@ },
            *address,
            links_view::<T>(links@),
            links@.len(),
        ),
{
    let ghost start = Selection::<T> { routes: routes@, retractions: retractions@ };
    let ghost lv = links_view::<T>(links@);
    let n = links.len();
    let mut i: usize = 0;
    while i < n
        invariant
            i <= n,
            n == links@.len(),
            lv == links_view::<T>(links@),
            (Selection::<T> { routes: routes@, retractions: retractions@ }) == sweep_links(
                start,
                *address,
                lv,
                i as nat,
            ),
        decreases n - i,
    {
        let link = links.key_at(i);
        let neighbour = links.value_at(i);
        let cost = if neighbour.metric == 0 {
            1
        } else {
            neighbour.metric
        };
        let ghost base = Selection::<T> { routes: routes@, retractions: retractions@ };
        let m = neighbour.routes.len();
        let mut j: usize = 0;
        while j < m
            invariant
                j <= m,
                m == neighbour.routes@.len(),
                cost == clamped(neighbour.metric),
                (Selection::<T> { routes: routes@, retractions: retractions@ })
                    == sweep_neighbour(base, *address, *link, neighbour@, j as nat),
            decreases m - j,
        {
            offer_route::<T>(
                routes,
                retractions,
                address,
                link,
                &neighbour.addr,
                cost,
                neighbour.routes.key_at(j),
                neighbour.routes.value_at(j),
            );
            j += 1;
        }
        assert(lv[i as int] == (*link, neighbour@));
        i += 1;
    }
}

/// Raises every link metric of zero to 1 and logs a warning for each.
fn clamp_zero_metrics<T: RoutingSystem>(
    links: &mut Table<T::Link, Neighbour<T>>,
    warnings: &mut VecDeque<RoutingWarning<T>>,
)
    ensures
        links_view::<T>(final(links)@) == clamp_links(links_view::<T>(old(links)@)),
        final(warnings)@ == zero_metric_log(
            old(warnings)@,
            links_view::<T>(old(links)@),
            old(links)@.len(),
        ),
{
    let ghost start = links@;
    let ghost lv = links_view::<T>(links@);
    let ghost log = warnings@;
    let n = links.len();
    let mut i: usize = 0;
    while i < n
        invariant
            i <= n,
            n == start.len(),
            links@.len() == n,
            lv == links_view::<T>(start),
            forall|k: int| i <= k < n ==> links@[k] == start[k],
            forall|k: int| 0 <= k < i ==> links_view::<T>(links@)[k] == clamp_links(lv)[k],
            warnings@ == zero_metric_log(log, lv, i as nat),
        decreases n - i,
    {
        if links.value_at(i).metric == 0 {
            let link = links.key_at(i).duplicate();
            log_warning::<T>(warnings, RoutingWarning::MetricIsZero { link });
            let neighbour = links.value_at_mut(i);
            neighbour.metric = 1;
        }
        proof {
            assert(lv[i as int] == (start[i as int].0, start[i as int].1@));
            assert(links_view::<T>(links@)[i as int] == clamp_links(lv)[i as int]);
            assert forall|k: int| 0 <= k < i implies links_view::<T>(links@)[k] == clamp_links(
                lv,
            )[k] by {}
        }
        i += 1;
    }
    assert(links_view::<T>(links@) =~= clamp_links(lv));
}

/// A broadcast reaches the same neighbours over the same links whatever the
/// metrics of the links are.
pub proof fn lemma_retraction_wires_clamped<T: RoutingSystem>(
    links: Seq<(T::Link, NeighbourView<T>)>,
    sources: Seq<SignedSource<T>>,
    n: nat,
)
    ensures
        retraction_wires(clamp_links(links), sources, n) == retraction_wires(links, sources, n),
    decreases n,
{
    if n > 0 {
        lemma_retraction_wires_clamped(links, sources, (n - 1) as nat);
        assert(broadcast(clamp_links(links), retraction::<T>(sources[n - 1])) =~= broadcast(
            links,
            retraction::<T>(sources[n - 1]),
        ));
    }
}

/// One advertisement for each selected route, in the order of the table.
fn route_adverts<T: RoutingSystem>(routes: &Table<T::NodeAddress, Route<T>>) -> (adverts: Vec<
    RouteUpdate<SignedSource<T>>,
>)
    ensures
        adverts@.len() == routes@.len(),
        forall|i: int|
            0 <= i < routes@.len() ==> (#[trigger] adverts@[i]) == (RouteUpdate {
                source: routes@[i].1.source,
                metric: routes@[i].1.metric,
            }),
{
    let mut adverts: Vec<RouteUpdate<SignedSource<T>>> = Vec::new();
    let n = routes.len();
    let mut i: usize = 0;
    while i < n
        invariant
            i <= n,
            n == routes@.len(),
            adverts@.len() == i,
            forall|k: int|
                0 <= k < i ==> (#[trigger] adverts@[k]) == (RouteUpdate {
                    source: routes@[k].1.source,
                    metric: routes@[k].1.metric,
                }),
        decreases n - i,
    {
        let route = routes.value_at(i);
        adverts.push(RouteUpdate { source: route.source.duplicate(), metric: route.metric });
        i += 1;
    }
    adverts
}

/// Under whose pair this node announces itself makes no difference to the
/// announcements of other origins.
pub proof fn lemma_announcement_wires_own<T: RoutingSystem>(
    s: RouterView<T>,
    n: nat,
    own: SignedSource<T>,
    other: SignedSource<T>,
)
    requires
        n <= s.broadcast_route_for.len(),
        forall|k: int| 0 <= k < n ==> #[trigger] s.broadcast_route_for[k] != s.address,
    ensures
        s.announcement_wires(n, own) == s.announcement_wires(n, other),
    decreases n,
{
    if n > 0 {
        lemma_announcement_wires_own(s, (n - 1) as nat, own, other);
        assert(s.broadcast_route_for[n - 1] != s.address);
    }
}

/// Putting a key into a set of keys adds it at the end unless it is there.
pub proof fn lemma_keys_of_put<K>(entries: Seq<(K, ())>, key: K)
    ensures
        keys_of(entries).contains(key) <==> position(entries, key).is_some(),
        keys_of(put(entries, key, ())) == if keys_of(entries).contains(key) {
            keys_of(entries)
        } else {
            keys_of(entries).push(key)
        },
{
    lemma_position(entries, key);
    match position(entries, key) {
        Some(i) => {
            assert(keys_of(entries)[i] == key);
            assert(keys_of(put(entries, key, ())) =~= keys_of(entries));
        },
        None => {
            assert forall|j: int| 0 <= j < entries.len() implies keys_of(entries)[j] != key by {
                assert(entries[j].0 != key);
            }
            assert(keys_of(put(entries, key, ())) =~= keys_of(entries).push(key));
        },
    }
}

impl<T: RoutingSystem> Router<T> {
    /// A router for the node `address`, with no links and no routes yet, at
    /// sequence number zero.
    pub fn new(address: T::NodeAddress) -> (router: Self)
        ensures
            router@ == (RouterView::<T> {
                address,
                seqno: 0,
                links: Seq::empty(),
                routes: Seq::empty(),
                seqno_requests: Seq::empty(),
                broadcast_route_for: Seq::empty(),
                outbound: Seq::empty(),
                warnings: Seq::empty(),
            }),
            router.links@.len() == 0,
            router.routes@.len() == 0,
            router.seqno_requests@.len() == 0,
            router.broadcast_route_for@.len() == 0,
            router.outbound_packets@.len() == 0,
    {
        let router = Router {
            links: Table::new(),
            routes: Table::new(),
            address,
            seqno_requests: Table::new(),
            broadcast_route_for: Table::new(),
            outbound_packets: Vec::new(),
            seqno: 0,
            mac_sys: <T::MACSystem as Default>::default(),
            warnings: VecDeque::new(),
        };
        assert(router@.links =~= Seq::empty());
        assert(router@.broadcast_route_for =~= Seq::empty());
        assert(router@.outbound =~= Seq::empty());
        router
    }

    /// Adds a warning to the log; when the log is full, the oldest is dropped.
    fn warn(&mut self, warning: RoutingWarning<T>)
        ensures
            final(self)@ == (RouterView {
                warnings: logged(old(self)@.warnings, warning, T::MAX_WARN_LENGTH as nat),
                ..old(self)@
            }),
            final(self).mac_sys == old(self).mac_sys,
            final(self).outbound_packets@ == old(self).outbound_packets@,
    {
        log_warning::<T>(&mut self.warnings, warning);
    }

    /// Queues one copy of `packet` for every neighbour, in the order of the
    /// links. Each copy holds what `packet` holds, every update with the
    /// signature it has there, and is valid as a packet of the same nodes.
    /// What was queued before stays as it was.
    pub fn write_broadcast_packet(&mut self, packet: &SignedPacket<T>)
        ensures
            final(self)@ == old(self)@.sending(broadcast(old(self)@.links, packet.signed()@)),
            final(self).mac_sys == old(self).mac_sys,
            old(self).outbound_packets@.len() <= final(self).outbound_packets@.len(),
            final(self).outbound_packets@.subrange(0, old(self).outbound_packets@.len() as int)
                == old(self).outbound_packets@,
            queued_like::<T>(
                old(self).mac_sys,
                *packet,
                old(self).outbound_packets@,
                final(self).outbound_packets@,
            ),
            final(self)@.outbound.len() == old(self)@.outbound.len()
                ==> final(self).outbound_packets@ == old(self).outbound_packets@,
    {
        queue_broadcast::<T>(&mut self.outbound_packets, &self.links, &self.mac_sys, packet);
        proof {
            if self@.outbound.len() == old(self)@.outbound.len() {
                lemma_queue_same::<T>(old(self).outbound_packets@, self.outbound_packets@);
            }
        }
    }

    /// Signs `packet` as this node's and queues one copy of it for every
    /// neighbour.
    fn send(&mut self, packet: PacketOf<T>)
        ensures
            final(self)@ == old(self)@.sending(broadcast(old(self)@.links, packet@)),
            final(self).mac_sys == old(self).mac_sys,
            queue_kept(old(self).outbound_packets@, final(self).outbound_packets@),
            queued_as::<T>(
                old(self).mac_sys,
                old(self).address,
                old(self).outbound_packets@,
                final(self).outbound_packets@,
            ),
    {
        let signed = self.mac_sys.sign_packet(packet, &self.address);
        self.write_broadcast_packet(&signed);
    }

    /// Sends a retraction of `source` to every neighbour.
    fn write_retraction_for(&mut self, source: SignedSource<T>)
        ensures
            final(self)@ == old(self)@.sending(
                broadcast(old(self)@.links, retraction::<T>(source)),
            ),
            final(self).mac_sys == old(self).mac_sys,
            queue_kept(old(self).outbound_packets@, final(self).outbound_packets@),
            queued_as::<T>(
                old(self).mac_sys,
                old(self).address,
                old(self).outbound_packets@,
                final(self).outbound_packets@,
            ),
    {
        self.send(Packet::UrgentRouteUpdate(RouteUpdate { source, metric: INF }));
    }

    /// Recomputes the routes from what the neighbours have advertised.
    ///
    /// Routes over lost links are withdrawn. Then every neighbour offers each
    /// of its advertisements: a feasible one replaces the selected route; one
    /// from the selected next hop updates the route or, where it went beyond
    /// the feasibility distance, withdraws it; one for an unknown origin
    /// creates a route. Link metrics of zero are raised to 1 with a warning.
    /// Every newly withdrawn route is announced to all neighbours.
    ///
    /// Each announcement carries the signed origin pair that the withdrawn
    /// route holds and is signed as this node's own; the packets that waited
    /// in the queue stay as they were.
    ///
    /// Two invariants of the route table are kept: the metric of a route
    /// that is not withdrawn never lies below its feasibility distance, and
    /// every route runs over a link of this router to the neighbour on it.
    pub fn update_routes(&mut self)
        ensures
            final(self)@ == old(self)@.update_routes(),
            final(self).mac_sys == old(self).mac_sys,
            old(self).outbound_packets@.len() <= final(self).outbound_packets@.len(),
            final(self).outbound_packets@.subrange(0, old(self).outbound_packets@.len() as int)
                == old(self).outbound_packets@,
            queued_as::<T>(
                old(self).mac_sys,
                old(self).address,
                old(self).outbound_packets@,
                final(self).outbound_packets@,
            ),
            final(self)@.outbound.len() == old(self)@.outbound.len()
                ==> final(self).outbound_packets@ == old(self).outbound_packets@,
            fd_bounded(old(self)@.routes) ==> fd_bounded(final(self)@.routes),
            anchored(old(self)@.routes, old(self)@.links) ==> anchored(
                final(self)@.routes,
                final(self)@.links,
            ),
    {
        let _ = self.links.len();
        proof {
            lemma_links_view_distinct::<T>(self.links@);
            if fd_bounded(self@.routes) {
                lemma_update_routes_fd_bounded(self@);
            }
            if anchored(self@.routes, self@.links) {
                lemma_update_routes_anchored(self@);
            }
        }
        let mut retractions: Vec<SignedSource<T>> = Vec::new();
        retract_lost_routes::<T>(&mut self.routes, &self.links, &mut retractions);
        sweep_neighbours::<T>(&mut self.routes, &mut retractions, &self.address, &self.links);
        clamp_zero_metrics::<T>(&mut self.links, &mut self.warnings);
        let ghost mid = self@;
        let ghost queue = self.outbound_packets@;
        let n = retractions.len();
        let mut k: usize = 0;
        assert(self@ =~= mid.sending(retraction_wires(mid.links, retractions@, 0)));
        assert(queue.subrange(0, queue.len() as int) =~= queue);
        while k < n
            invariant
                k <= n,
                n == retractions@.len(),
                self.mac_sys == old(self).mac_sys,
                self.address == old(self).address,
                queue == old(self).outbound_packets@,
                queue_kept(queue, self.outbound_packets@),
                queued_as::<T>(self.mac_sys, self.address, queue, self.outbound_packets@),
                self@ == mid.sending(retraction_wires(mid.links, retractions@, k as nat)),
            decreases n - k,
        {
            let ghost sent = retraction_wires(mid.links, retractions@, k as nat);
            let ghost next = broadcast(mid.links, retraction::<T>(retractions@[k as int]));
            let ghost queued = self.outbound_packets@;
            self.write_retraction_for(retractions[k].duplicate());
            proof {
                assert(self@.outbound =~= mid.outbound + (sent + next));
                lemma_queue_grows::<T>(
                    self.mac_sys,
                    self.address,
                    queue,
                    queued,
                    self.outbound_packets@,
                );
            }
            k += 1;
        }
        proof {
            lemma_retraction_wires_clamped::<T>(old(self)@.links, retractions@, n as nat);
            assert(self@ =~= old(self)@.update_routes());
        }
        proof {
            if self@.outbound.len() == old(self)@.outbound.len() {
                lemma_queue_same::<T>(old(self).outbound_packets@, self.outbound_packets@);
            }
        }
    }

    /// Asks the network for a later sequence number of every starved origin:
    /// for each route whose metric is `INF`, a request for the sequence
    /// number after the current one goes to every neighbour, signed as this
    /// node's own. The packets that waited in the queue stay as they were.
    pub fn solve_starvation(&mut self)
        ensures
            final(self)@ == old(self)@.solve_starvation(),
            final(self).mac_sys == old(self).mac_sys,
            old(self).outbound_packets@.len() <= final(self).outbound_packets@.len(),
            final(self).outbound_packets@.subrange(0, old(self).outbound_packets@.len() as int)
                == old(self).outbound_packets@,
            queued_as::<T>(
                old(self).mac_sys,
                old(self).address,
                old(self).outbound_packets@,
                final(self).outbound_packets@,
            ),
            final(self)@.outbound.len() == old(self)@.outbound.len()
                ==> final(self).outbound_packets@ == old(self).outbound_packets@,
    {
        let ghost start = self@;
        let ghost queue = self.outbound_packets@;
        let n = self.routes.len();
        let mut i: usize = 0;
        assert(self@ =~= start.sending(start.starvation_wires(0)));
        assert(queue.subrange(0, queue.len() as int) =~= queue);
        while i < n
            invariant
                i <= n,
                n == start.routes.len(),
                start == old(self)@,
                self.mac_sys == old(self).mac_sys,
                self.address == old(self).address,
                queue == old(self).outbound_packets@,
                queue_kept(queue, self.outbound_packets@),
                queued_as::<T>(self.mac_sys, self.address, queue, self.outbound_packets@),
                distinct_keys(start.routes),
                self@ == start.sending(start.starvation_wires(i as nat)),
            decreases n - i,
        {
            let ghost sent = start.starvation_wires(i as nat);
            let ghost queued = self.outbound_packets@;
            if self.routes.value_at(i).metric == INF {
                let origin = self.routes.key_at(i).duplicate();
                proof {
                    lemma_position_of_entry(start.routes, i as int);
                }
                match self.get_seqno_for(&origin) {
                    Some(seqno) => {
                        self.send(
                            Packet::SeqnoRequest { source: origin, seqno: increment_by(seqno, 1) },
                        );
                        proof {
                            assert(self@.outbound =~= start.outbound + (sent + broadcast(
                                start.links,
                                start.starvation_request(i as int).unwrap(),
                            )));
                            lemma_queue_grows::<T>(
                                self.mac_sys,
                                self.address,
                                queue,
                                queued,
                                self.outbound_packets@,
                            );
                        }
                    },
                    None => {
                        assert(false);
                    },
                }
            }
            i += 1;
        }
        proof {
            if self@.outbound.len() == old(self)@.outbound.len() {
                lemma_queue_same::<T>(old(self).outbound_packets@, self.outbound_packets@);
            }
        }
    }

    /// Sends the full table to every neighbour: one batch update that holds
    /// every selected route, with the signed origin pair that the route
    /// holds, and this node itself at distance zero, under its own pair,
    /// which it signs for the occasion.
    pub fn broadcast_routes(&mut self)
        ensures
            exists|own: SignedSource<T>|
                old(self)@.signs(old(self).mac_sys, own) && final(self)@
                    == #[trigger] old(self)@.broadcast_routes(own),
            final(self).mac_sys == old(self).mac_sys,
            old(self).outbound_packets@.len() <= final(self).outbound_packets@.len(),
            final(self).outbound_packets@.subrange(0, old(self).outbound_packets@.len() as int)
                == old(self).outbound_packets@,
            queued_as::<T>(
                old(self).mac_sys,
                old(self).address,
                old(self).outbound_packets@,
                final(self).outbound_packets@,
            ),
            final(self)@.outbound.len() == old(self)@.outbound.len()
                ==> final(self).outbound_packets@ == old(self).outbound_packets@,
    {
        let mut adverts = route_adverts::<T>(&self.routes);
        let own = self.mac_sys.sign_source(
            Source { addr: self.address.duplicate(), seqno: self.seqno },
            &self.address,
        );
        let ghost signed = own;
        adverts.push(RouteUpdate { source: own, metric: 0 });
        let data: PacketOf<T> = Packet::BatchRouteUpdate { routes: adverts };
        proof {
            assert(data@->BatchRouteUpdate_routes =~= self@.batch(signed)->BatchRouteUpdate_routes);
            assert(self@.signs(self.mac_sys, signed));
        }
        self.send(data);
        assert(self@ == old(self)@.broadcast_routes(signed));
        proof {
            if self@.outbound.len() == old(self)@.outbound.len() {
                lemma_queue_same::<T>(old(self).outbound_packets@, self.outbound_packets@);
            }
        }
    }

    /// The urgent update that announces the current route to `addr`, signed
    /// as a packet of this node: for its own address this node itself at
    /// distance zero, under its own pair, which it signs for the occasion;
    /// else the selected route with the signed origin pair that it holds, if
    /// there is such a route.
    fn create_seqno_packet(&self, addr: &T::NodeAddress) -> (r: Option<SignedPacket<T>>)
        ensures
            match r {
                Some(packet) => {
                    &&& self.mac_sys.packet_valid(&packet, &self.address)
                    &&& if *addr == self.address {
                        packet.signed()@ matches Message::UrgentRouteUpdate(update)
                            && update.metric == 0 && self@.signs(self.mac_sys, update.source)
                    } else {
                        match position(self@.routes, *addr) {
                            Some(i) => packet.signed()@ == self@.announcement(
                                *addr,
                                self@.routes[i].1.source,
                            ).unwrap(),
                            None => false,
                        }
                    }
                },
                None => *addr != self.address && position(self@.routes, *addr).is_none(),
            },
    {
        if addr.same(&self.address) {
            let own = self.mac_sys.sign_source(
                Source { addr: self.address.duplicate(), seqno: self.seqno },
                &self.address,
            );
            return Some(
                self.mac_sys.sign_packet(
                    Packet::UrgentRouteUpdate(RouteUpdate { source: own, metric: 0 }),
                    &self.address,
                ),
            );
        }
        match self.routes.index_of(addr) {
            Some(i) => {
                let route = self.routes.value_at(i);
                Some(
                    self.mac_sys.sign_packet(
                        Packet::UrgentRouteUpdate(
                            RouteUpdate { source: route.source.duplicate(), metric: route.metric },
                        ),
                        &self.address,
                    ),
                )
            },
            None => None,
        }
    }

    /// Announces the current route to every marked origin to all neighbours
    /// and clears the marks. An origin without a route is skipped. Where this
    /// node itself is marked, it announces itself under its own pair, which
    /// it signs for the occasion.
    ///
    /// Call this after `update_routes`, so that what is announced is current.
    pub fn broadcast_seqno_updates(&mut self)
        ensures
            exists|own: SignedSource<T>|
                old(self)@.announces_as(old(self).mac_sys, own) && final(self)@
                    == #[trigger] old(self)@.broadcast_seqno_updates(own),
            final(self).mac_sys == old(self).mac_sys,
            old(self).outbound_packets@.len() <= final(self).outbound_packets@.len(),
            final(self).outbound_packets@.subrange(0, old(self).outbound_packets@.len() as int)
                == old(self).outbound_packets@,
            queued_as::<T>(
                old(self).mac_sys,
                old(self).address,
                old(self).outbound_packets@,
                final(self).outbound_packets@,
            ),
            final(self)@.outbound.len() == old(self)@.outbound.len()
                ==> final(self).outbound_packets@ == old(self).outbound_packets@,
    {
        let ghost start = self@;
        let ghost queue = self.outbound_packets@;
        let ghost mut own: SignedSource<T> = arbitrary();
        let ghost mut at: int = -1;
        let ghost marks = self.broadcast_route_for@;
        let n = self.broadcast_route_for.len();
        let mut i: usize = 0;
        assert(self@ =~= start.sending(start.announcement_wires(0, own)));
        assert(queue.subrange(0, queue.len() as int) =~= queue);
        while i < n
            invariant
                i <= n,
                n == start.broadcast_route_for.len(),
                start == old(self)@,
                self.mac_sys == old(self).mac_sys,
                self.address == old(self).address,
                queue == old(self).outbound_packets@,
                queue_kept(queue, self.outbound_packets@),
                queued_as::<T>(self.mac_sys, self.address, queue, self.outbound_packets@),
                distinct_keys(marks),
                start.broadcast_route_for == keys_of(marks),
                -1 <= at < i,
                at >= 0 ==> start.broadcast_route_for[at] == start.address && start.signs(
                    self.mac_sys,
                    own,
                ),
                at < 0 ==> forall|k: int|
                    0 <= k < i ==> #[trigger] start.broadcast_route_for[k] != start.address,
                self@ == start.sending(start.announcement_wires(i as nat, own)),
            decreases n - i,
        {
            let ghost queued = self.outbound_packets@;
            let origin = self.broadcast_route_for.key_at(i).duplicate();
            assert(origin == start.broadcast_route_for[i as int]);
            match self.create_seqno_packet(&origin) {
                Some(packet) => {
                    proof {
                        if origin == start.address {
                            if at >= 0 {
                                assert(keys_of(marks)[at] == marks[at].0);
                                assert(keys_of(marks)[i as int] == marks[i as int].0);
                                assert(marks[at].0 == marks[i as int].0);
                            }
                            let fresh = packet.signed()@->UrgentRouteUpdate_0.source;
                            lemma_announcement_wires_own::<T>(start, i as nat, own, fresh);
                            own = fresh;
                            at = i as int;
                        }
                        assert(start.announcement(origin, own) == Some(packet.signed()@));
                    }
                    let ghost sent = start.announcement_wires(i as nat, own);
                    self.write_broadcast_packet(&packet);
                    proof {
                        assert(self@.outbound =~= start.outbound + (sent + broadcast(
                            start.links,
                            start.announcement(origin, own).unwrap(),
                        )));
                        lemma_queue_grows::<T>(
                            self.mac_sys,
                            self.address,
                            queue,
                            queued,
                            self.outbound_packets@,
                        );
                    }
                },
                None => {},
            }
            i += 1;
        }
        self.broadcast_route_for = Table::new();
        proof {
            assert(self@.broadcast_route_for =~= Seq::empty());
            assert(self@ == start.broadcast_seqno_updates(own));
            assert(start.announces_as(self.mac_sys, own));
        }
        proof {
            if self@.outbound.len() == old(self)@.outbound.len() {
                lemma_queue_same::<T>(old(self).outbound_packets@, self.outbound_packets@);
            }
        }
    }

    /// Brings the routes up to date and announces the marked origins; the
    /// full table is not sent.
    pub fn update(&mut self)
        ensures
            exists|own: SignedSource<T>|
                old(self)@.announces_as(old(self).mac_sys, own) && final(self)@
                    == #[trigger] old(self)@.update(own),
            final(self).mac_sys == old(self).mac_sys,
            old(self).outbound_packets@.len() <= final(self).outbound_packets@.len(),
            final(self).outbound_packets@.subrange(0, old(self).outbound_packets@.len() as int)
                == old(self).outbound_packets@,
            queued_as::<T>(
                old(self).mac_sys,
                old(self).address,
                old(self).outbound_packets@,
                final(self).outbound_packets@,
            ),
            final(self)@.outbound.len() == old(self)@.outbound.len()
                ==> final(self).outbound_packets@ == old(self).outbound_packets@,
    {
        let ghost queue = self.outbound_packets@;
        self.update_routes();
        let ghost mid = self@;
        let ghost queued = self.outbound_packets@;
        self.broadcast_seqno_updates();
        proof {
            let own = choose|own: SignedSource<T>|
                mid.announces_as(self.mac_sys, own) && self@
                    == #[trigger] mid.broadcast_seqno_updates(own);
            assert(self@ == old(self)@.update(own));
            assert(old(self)@.announces_as(self.mac_sys, own));
            lemma_queue_grows::<T>(
                self.mac_sys,
                self.address,
                queue,
                queued,
                self.outbound_packets@,
            );
        }
        proof {
            if self@.outbound.len() == old(self)@.outbound.len() {
                lemma_queue_same::<T>(old(self).outbound_packets@, self.outbound_packets@);
            }
        }
    }

    /// One full tick: brings the routes up to date, asks for later sequence
    /// numbers of starved origins, sends the full table to every neighbour and
    /// announces the marked origins.
    pub fn full_update(&mut self)
        ensures
            exists|listed: SignedSource<T>, announced: SignedSource<T>|
                old(self)@.signs(old(self).mac_sys, listed) && old(self)@.announces_as(
                    old(self).mac_sys,
                    announced,
                ) && final(self)@ == #[trigger] old(self)@.full_update(listed, announced),
            final(self).mac_sys == old(self).mac_sys,
            old(self).outbound_packets@.len() <= final(self).outbound_packets@.len(),
            final(self).outbound_packets@.subrange(0, old(self).outbound_packets@.len() as int)
                == old(self).outbound_packets@,
            queued_as::<T>(
                old(self).mac_sys,
                old(self).address,
                old(self).outbound_packets@,
                final(self).outbound_packets@,
            ),
            final(self)@.outbound.len() == old(self)@.outbound.len()
                ==> final(self).outbound_packets@ == old(self).outbound_packets@,
    {
        let ghost first = self.outbound_packets@;
        self.update_routes();
        let ghost second = self.outbound_packets@;
        self.solve_starvation();
        let ghost third = self.outbound_packets@;
        let ghost asked = self@;
        self.broadcast_routes();
        let ghost fourth = self.outbound_packets@;
        let ghost told = self@;
        self.broadcast_seqno_updates();
        proof {
            let listed = choose|own: SignedSource<T>|
                asked.signs(self.mac_sys, own) && told == #[trigger] asked.broadcast_routes(own);
            let announced = choose|own: SignedSource<T>|
                told.announces_as(self.mac_sys, own) && self@
                    == #[trigger] told.broadcast_seqno_updates(own);
            assert(self@ == old(self)@.full_update(listed, announced));
            assert(old(self)@.signs(self.mac_sys, listed));
            assert(old(self)@.announces_as(self.mac_sys, announced));
            lemma_queue_grows::<T>(self.mac_sys, self.address, first, second, third);
            lemma_queue_grows::<T>(self.mac_sys, self.address, first, third, fourth);
            lemma_queue_grows::<T>(
                self.mac_sys,
                self.address,
                first,
                fourth,
                self.outbound_packets@,
            );
        }
        proof {
            if self@.outbound.len() == old(self)@.outbound.len() {
                lemma_queue_same::<T>(old(self).outbound_packets@, self.outbound_packets@);
            }
        }
    }

    /// Marks `origin` for announcement at the next update.
    fn announce(&mut self, origin: T::NodeAddress)
        ensures
            final(self)@ == old(self)@.announcing(origin),
            final(self).mac_sys == old(self).mac_sys,
            final(self).outbound_packets@ == old(self).outbound_packets@,
    {
        proof {
            lemma_keys_of_put(self.broadcast_route_for@, origin);
        }
        let _ = self.broadcast_route_for.insert(origin, ());
    }

    /// Whether the signature of the origin on `update` is valid. An update on
    /// this node itself is never looked at and passes.
    fn validate_update(&self, update: &RouteUpdate<SignedSource<T>>) -> (ok: bool)
        ensures
            ok == update_accepted::<T>(self.mac_sys, self.address, *update),
    {
        let origin = &update.source.data().addr;
        origin.same(&self.address) || self.mac_sys.validate_source(&update.source, origin)
    }

    /// Stores `update`, received over `link` from `neigh`, with what that
    /// neighbour advertised, and says what it calls for.
    fn store_update(
        &mut self,
        update: &RouteUpdate<SignedSource<T>>,
        link: &T::Link,
        neigh: &T::NodeAddress,
    ) -> (action: UpdateAction)
        ensures
            action == old(self)@.update_action(*update, *link, *neigh),
            final(self)@ == old(self)@.after_update(*update, *link, *neigh),
            final(self).mac_sys == old(self).mac_sys,
            final(self).outbound_packets@ == old(self).outbound_packets@,
    {
        let source = update.source.data();
        let origin = &source.addr;
        if origin.same(&self.address) {
            return UpdateAction::NoAction;
        }
        let mut advance = false;
        match self.get_seqno_for(origin) {
            Some(known) => {
                if seqno_less_than(source.seqno, known) {
                    return UpdateAction::NoAction;
                } else if seqno_less_than(known, source.seqno) {
                    advance = true;
                }
            },
            None => {},
        }
        let selected = match self.routes.get(origin) {
            Some(route) => route.next_hop.same(neigh),
            None => false,
        };
        assert(selected == self@.selects(*origin, *neigh));
        let mut withdrawal = false;
        proof {
            lemma_links_view_position::<T>(self.links@, *link);
        }
        match self.links.index_of(link) {
            Some(l) => {
                let ghost before = self.links@;
                let neighbour = self.links.value_at_mut(l);
                let ghost adverts = neighbour.routes@;
                let entry = ExternalRoute {
                    source: update.source.duplicate(),
                    metric: update.metric,
                    retracted: update.metric == INF,
                };
                match neighbour.routes.index_of(origin) {
                    Some(r) => {
                        withdrawal = update.metric == INF && selected
                            && !neighbour.routes.value_at(r).retracted;
                        let _ = neighbour.routes.insert(origin.duplicate(), entry);
                        assert(neighbour.routes@ =~= adverts.update(
                            r as int,
                            (adverts[r as int].0, stored::<T>(*update)),
                        ));
                    },
                    None => {
                        if update.metric != INF || selected {
                            let _ = neighbour.routes.insert(origin.duplicate(), entry);
                        }
                    },
                }
                proof {
                    let expected = old(self)@.after_update(*update, *link, *neigh);
                    let at = l as int;
                    assert(links_view::<T>(before)[at] == (before[at].0, before[at].1@));
                    assert(self@.links =~= expected.links);
                }
            },
            None => {},
        }
        if advance {
            UpdateAction::SeqnoUpdate
        } else if withdrawal {
            UpdateAction::Retraction
        } else {
            UpdateAction::NoAction
        }
    }

    /// Handles one update, received over `link` from `neigh`: checks the
    /// signature of its origin, stores it with what that neighbour advertised
    /// and says what it calls for. Where the signature fails, nothing changes.
    fn handle_neighbour_route_update(
        &mut self,
        update: &RouteUpdate<SignedSource<T>>,
        link: &T::Link,
        neigh: &T::NodeAddress,
    ) -> (r: Result<UpdateAction, RoutingError<T>>)
        ensures
            final(self).mac_sys == old(self).mac_sys,
            final(self).outbound_packets@ == old(self).outbound_packets@,
            match r {
                Ok(action) => {
                    &&& update_accepted::<T>(old(self).mac_sys, old(self).address, *update)
                    &&& action == old(self)@.update_action(*update, *link, *neigh)
                    &&& final(self)@ == old(self)@.after_update(*update, *link, *neigh)
                },
                Err(e) => {
                    &&& !update_accepted::<T>(old(self).mac_sys, old(self).address, *update)
                    &&& e == (RoutingError::<T>::MACValidationFail { link: *link })
                    &&& final(self)@ == old(self)@
                },
            },
    {
        if !self.validate_update(update) {
            return Err(RoutingError::MACValidationFail { link: link.duplicate() });
        }
        Ok(self.store_update(update, link, neigh))
    }

    /// Handles one packet, received over `link` from the neighbour `neigh`.
    ///
    /// The packet is accepted where the sender's signature on it and the
    /// origin's signature on every update in it are valid. A packet that is
    /// not accepted is dropped: the result is the error and nothing changes.
    /// An accepted packet is handled by its kind: an urgent update is stored
    /// and acted on, the updates of a batch are stored one by one, a request
    /// for a sequence number is answered, passed on or dropped.
    ///
    /// The packets that waited in the queue stay as they were. What this
    /// handling queues behind them is signed as this node's own, and a
    /// retraction that is passed on carries the signed origin pair that it
    /// came with. A rejected packet and a batch queue nothing, nor does
    /// anything else that sends no message.
    pub fn handle_packet(
        &mut self,
        data: &SignedPacket<T>,
        link: &T::Link,
        neigh: &T::NodeAddress,
    ) -> (r: Result<(), RoutingError<T>>)
        ensures
            final(self).mac_sys == old(self).mac_sys,
            final(self)@.routes == old(self)@.routes,
            same_neighbours(old(self)@.links, final(self)@.links),
            match r {
                Ok(_) => {
                    &&& packet_accepted::<T>(old(self).mac_sys, old(self).address, *data, *neigh)
                    &&& final(self)@ == old(self)@.handle_packet(data.signed(), *link, *neigh)
                },
                Err(e) => {
                    &&& !packet_accepted::<T>(old(self).mac_sys, old(self).address, *data, *neigh)
                    &&& e == (RoutingError::<T>::MACValidationFail { link: *link })
                    &&& final(self)@ == old(self)@
                    &&& final(self).outbound_packets@ == old(self).outbound_packets@
                },
            },
            old(self).outbound_packets@.len() <= final(self).outbound_packets@.len(),
            final(self).outbound_packets@.subrange(0, old(self).outbound_packets@.len() as int)
                == old(self).outbound_packets@,
            queued_as::<T>(
                old(self).mac_sys,
                old(self).address,
                old(self).outbound_packets@,
                final(self).outbound_packets@,
            ),
            data.signed() is BatchRouteUpdate ==> final(self).outbound_packets@
                == old(self).outbound_packets@,
            final(self)@.outbound.len() == old(self)@.outbound.len()
                ==> final(self).outbound_packets@ == old(self).outbound_packets@,
    {
        let ghost queue = self.outbound_packets@;
        assert(queue.subrange(0, queue.len() as int) =~= queue);
        proof {
            lemma_handle_packet_frame(self@, data.signed(), *link, *neigh);
        }
        if !self.mac_sys.validate_packet(data, neigh) {
            return Err(RoutingError::MACValidationFail { link: link.duplicate() });
        }
        match data.data() {
            Packet::UrgentRouteUpdate(update) => {
                match self.handle_neighbour_route_update(update, link, neigh) {
                    Ok(UpdateAction::SeqnoUpdate) => {
                        self.announce(update.source.data().addr.duplicate());
                    },
                    Ok(UpdateAction::Retraction) => {
                        self.write_retraction_for(update.source.duplicate());
                    },
                    Ok(UpdateAction::NoAction) => {},
                    Err(e) => {
                        return Err(e);
                    },
                }
            },
            Packet::BatchRouteUpdate { routes } => {
                let n = routes.len();
                let mut i: usize = 0;
                while i < n
                    invariant
                        i <= n,
                        n == routes@.len(),
                        *self == *old(self),
                        data.signed() matches Packet::BatchRouteUpdate { routes: all } && all
                            == *routes,
                        self.mac_sys.packet_valid(data, neigh),
                        forall|k: int|
                            0 <= k < i ==> update_accepted::<T>(
                                self.mac_sys,
                                self.address,
                                #[trigger] routes@[k],
                            ),
                    decreases n - i,
                {
                    if !self.validate_update(&routes[i]) {
                        assert(!update_accepted::<T>(
                            self.mac_sys,
                            self.address,
                            routes@[i as int],
                        ));
                        return Err(RoutingError::MACValidationFail { link: link.duplicate() });
                    }
                    i += 1;
                }
                let mut j: usize = 0;
                while j < n
                    invariant
                        j <= n,
                        n == routes@.len(),
                        self.mac_sys == old(self).mac_sys,
                        self.outbound_packets@ == old(self).outbound_packets@,
                        self@ == old(self)@.after_batch(routes@, *link, *neigh, j as nat),
                    decreases n - j,
                {
                    let _ = self.store_update(&routes[j], link, neigh);
                    j += 1;
                }
            },
            Packet::SeqnoRequest { source, seqno } => {
                self.handle_seqno_request(source, *seqno);
            },
        }
        proof {
            if self@.outbound.len() == old(self)@.outbound.len() {
                lemma_queue_same::<T>(queue, self.outbound_packets@);
            }
        }
        Ok(())
    }

    /// Handles a request for sequence number `seqno` of `origin`.
    fn handle_seqno_request(&mut self, origin: &T::NodeAddress, seqno: u16)
        ensures
            final(self)@ == old(self)@.after_seqno_request(*origin, seqno),
            final(self).mac_sys == old(self).mac_sys,
            queue_kept(old(self).outbound_packets@, final(self).outbound_packets@),
            queued_as::<T>(
                old(self).mac_sys,
                old(self).address,
                old(self).outbound_packets@,
                final(self).outbound_packets@,
            ),
    {
        let ghost queue = self.outbound_packets@;
        assert(queue.subrange(0, queue.len() as int) =~= queue);
        match self.get_seqno_for(origin) {
            Some(known) => {
                if seqno_less_than(seqno, known) || known == seqno {
                    self.announce(origin.duplicate());
                } else if self.address.same(origin) {
                    let original = self.seqno;
                    increment(&mut self.seqno);
                    if seqno_less_than(self.seqno, seqno) && T::TRUST_RESYNC_SEQNO {
                        self.seqno = seqno;
                        self.warn(
                            RoutingWarning::DesynchronizedSeqno {
                                old_seqno: original,
                                new_seqno: seqno,
                            },
                        );
                    }
                    self.announce(self.address.duplicate());
                } else {
                    let requested = match self.seqno_requests.get(origin) {
                        Some(asked) => *asked,
                        None => 0,
                    };
                    if seqno_less_than(requested, seqno) {
                        let _ = self.seqno_requests.insert(origin.duplicate(), seqno);
                        self.send(Packet::SeqnoRequest { source: origin.duplicate(), seqno });
                    }
                }
            },
            None => {},
        }
    }

    /// The latest sequence number known for `addr`: this node's own for its
    /// own address, else that of the selected route, if there is one.
    pub fn get_seqno_for(&self, addr: &T::NodeAddress) -> (r: Option<u16>)
        ensures
            r == self@.seqno_for(*addr),
    {
        if addr.same(&self.address) {
            return Some(self.seqno);
        }
        match self.routes.get(addr) {
            Some(route) => Some(route.source.data().seqno),
            None => None,
        }
    }
}

/// A signing system that signs nothing and accepts everything, for networks
/// in which every node is trusted.
pub struct NoMACSystem {}

/// A signature that is only the value itself.
pub struct DummyMAC<V> {
    pub data: V,
}

impl Default for NoMACSystem {
    fn default() -> Self {
        NoMACSystem {  }
    }
}

impl<V> From<V> for DummyMAC<V> {
    fn from(value: V) -> (sig: Self) {
        DummyMAC { data: value }
    }
}

impl<V> vstd::std_specs::convert::FromSpecImpl<V> for DummyMAC<V> {
    open spec fn obeys_from_spec() -> bool {
        true
    }

    open spec fn from_spec(value: V) -> Self {
        DummyMAC { data: value }
    }
}

impl<V> MACSignature<V> for DummyMAC<V> {
    open spec fn signed(&self) -> V {
        self.data
    }

    fn data(&self) -> (d: &V) {
        &self.data
    }

    fn data_mut(&mut self) -> (d: &mut V) {
        &mut self.data
    }
}

impl<V: RootData> RootData for DummyMAC<V> {
    fn duplicate(&self) -> (c: Self) {
        DummyMAC { data: self.data.duplicate() }
    }
}

impl<A: RootData> MACSystem<A> for NoMACSystem {
    type SourceMAC = DummyMAC<Source<A>>;

    type PacketMAC = DummyMAC<Packet<A, DummyMAC<Source<A>>>>;

    open spec fn source_valid(&self, sig: &Self::SourceMAC, subject: &A) -> bool {
        true
    }

    open spec fn packet_valid(&self, sig: &Self::PacketMAC, subject: &A) -> bool {
        true
    }

    fn sign_source(&self, data: Source<A>, signer: &A) -> (sig: Self::SourceMAC) {
        DummyMAC { data }
    }

    fn sign_packet(&self, data: Packet<A, Self::SourceMAC>, signer: &A) -> (sig: Self::PacketMAC) {
        DummyMAC { data }
    }

    fn copy_packet(&self, sig: &Self::PacketMAC) -> (c: Self::PacketMAC) {
        DummyMAC { data: sig.data.duplicate() }
    }

    fn validate_source(&self, sig: &Self::SourceMAC, subject: &A) -> (ok: bool) {
        true
    }

    fn validate_packet(&self, sig: &Self::PacketMAC, subject: &A) -> (ok: bool) {
        true
    }
}

} // verus!
