//! The router as a mathematical state and the protocol as functions on it.
//!
//! Every operation of [`crate::router::Router`] is specified here as a function
//! from the state before to the state after.
use crate::concepts::neighbour::NeighbourView;
use crate::concepts::packet::{Message, MessageOf, Packet, RouteUpdate, Wire};
use crate::concepts::route::{ExternalRoute, Route, Source};
use crate::feedback::RoutingWarning;
use crate::framework::{
    MACSignature, MACSystem, PacketOf, RoutingSystem, SignedPacket, SignedSource,
};
use crate::table::{position, put};
use crate::util::{advanced, less_than, metric_sum, INF};
use vstd::prelude::*;

verus! {

/// The state of a router. Tables are sequences of entries in the order of
/// insertion; no key occurs twice in a table.
pub struct RouterView<T: RoutingSystem> {
    /// This node's own address.
    pub address: T::NodeAddress,
    /// This node's own sequence number.
    pub seqno: u16,
    /// The direct neighbours, by link.
    pub links: Seq<(T::Link, NeighbourView<T>)>,
    /// The selected route to each known origin.
    pub routes: Seq<(T::NodeAddress, Route<T>)>,
    /// The latest sequence number requested onward, by origin.
    pub seqno_requests: Seq<(T::NodeAddress, u16)>,
    /// The origins whose route is to be announced at the next opportunity.
    pub broadcast_route_for: Seq<T::NodeAddress>,
    /// The packets that wait for the transport: where each goes and what
    /// it holds, every update with the signature of its origin.
    pub outbound: Seq<Wire<T>>,
    /// The warnings that wait for the host, oldest first.
    pub warnings: Seq<RoutingWarning<T>>,
}

/// What an update from a neighbour calls for beyond storing it.
pub enum UpdateAction {
    /// The origin's sequence number went up: announce the route.
    SeqnoUpdate,
    /// The selected next hop withdrew the route: pass the retraction on.
    Retraction,
    NoAction,
}

/// The routes under selection and the sources whose retraction is still to
/// be announced, oldest first.
pub struct Selection<T: RoutingSystem> {
    pub routes: Seq<(T::NodeAddress, Route<T>)>,
    pub retractions: Seq<SignedSource<T>>,
}

/// The sequence number of a signed origin pair.
pub open spec fn seqno_of<T: RoutingSystem>(source: SignedSource<T>) -> u16 {
    source.signed().seqno
}

/// The origin of a signed origin pair.
pub open spec fn origin_of<T: RoutingSystem>(source: SignedSource<T>) -> T::NodeAddress {
    source.signed().addr
}

/// `message`, once for each neighbour, in the order of the links.
pub open spec fn broadcast<T: RoutingSystem>(
    links: Seq<(T::Link, NeighbourView<T>)>,
    message: MessageOf<T>,
) -> Seq<Wire<T>> {
    Seq::new(
        links.len(),
        |i: int| Wire { link: links[i].0, dest: links[i].1.addr, message },
    )
}

/// The urgent update that withdraws `source`.
pub open spec fn retraction<T: RoutingSystem>(source: SignedSource<T>) -> MessageOf<T> {
    Message::UrgentRouteUpdate(RouteUpdate { source, metric: INF })
}

/// The log after `warning` was added to it: where it holds more than `limit`
/// warnings, the oldest are dropped.
pub open spec fn logged<T: RoutingSystem>(
    warnings: Seq<RoutingWarning<T>>,
    warning: RoutingWarning<T>,
    limit: nat,
) -> Seq<RoutingWarning<T>> {
    let all = warnings.push(warning);
    if all.len() > limit {
        all.subrange(all.len() - limit, all.len() as int)
    } else {
        all
    }
}

/// Whether a candidate with sequence number `seqno` and composed metric
/// `metric` may replace `selected`, and if so, the new feasibility distance.
pub open spec fn feasible<T: RoutingSystem>(selected: Route<T>, seqno: u16, metric: u16) -> Option<
    u16,
> {
    let stored = seqno_of::<T>(selected.source);
    if less_than(seqno, stored) {
        None
    } else if metric < selected.fd || less_than(stored, seqno) || (metric == selected.fd
        && selected.metric == INF) {
        Some(metric)
    } else {
        None
    }
}

/// Whether the link of a route is gone or down.
pub open spec fn link_lost<T: RoutingSystem>(
    links: Seq<(T::Link, NeighbourView<T>)>,
    link: T::Link,
) -> bool {
    match position(links, link) {
        Some(i) => links[i].1.metric == INF,
        None => true,
    }
}

/// A route after it was withdrawn.
pub open spec fn withdrawn<T: RoutingSystem>(route: Route<T>) -> Route<T> {
    Route { metric: INF, retracted: true, ..route }
}

/// The selection after the first `n` routes were checked for a lost link.
pub open spec fn retract_lost<T: RoutingSystem>(
    routes: Seq<(T::NodeAddress, Route<T>)>,
    links: Seq<(T::Link, NeighbourView<T>)>,
    n: nat,
) -> Selection<T>
    decreases n,
{
    if n == 0 {
        Selection { routes, retractions: Seq::empty() }
    } else {
        let before = retract_lost(routes, links, (n - 1) as nat);
        let (origin, route) = routes[n - 1];
        if link_lost(links, route.link) {
            Selection {
                routes: before.routes.update(n - 1, (origin, withdrawn(route))),
                retractions: if route.retracted {
                    before.retractions
                } else {
                    before.retractions.push(route.source)
                },
            }
        } else {
            before
        }
    }
}

/// The cost of a link as the selection counts it: at least 1.
pub open spec fn clamped(metric: u16) -> u16 {
    if metric == 0 {
        1
    } else {
        metric
    }
}

/// The links with every metric of zero raised to 1.
pub open spec fn clamp_links<T: RoutingSystem>(links: Seq<(T::Link, NeighbourView<T>)>) -> Seq<
    (T::Link, NeighbourView<T>),
> {
    Seq::new(
        links.len(),
        |i: int| (links[i].0, NeighbourView { metric: clamped(links[i].1.metric), ..links[i].1 }),
    )
}

/// The log after a warning was added for each of the first `n` links whose
/// metric is zero.
pub open spec fn zero_metric_log<T: RoutingSystem>(
    warnings: Seq<RoutingWarning<T>>,
    links: Seq<(T::Link, NeighbourView<T>)>,
    n: nat,
) -> Seq<RoutingWarning<T>>
    decreases n,
{
    if n == 0 {
        warnings
    } else {
        let before = zero_metric_log(warnings, links, (n - 1) as nat);
        if links[n - 1].1.metric == 0 {
            logged(
                before,
                RoutingWarning::MetricIsZero { link: links[n - 1].0 },
                T::MAX_WARN_LENGTH as nat,
            )
        } else {
            before
        }
    }
}

/// The selection after the neighbour `neigh` on `link`, at link cost `cost`,
/// offered its advertisement `ext` for the origin `origin`.
pub open spec fn offer<T: RoutingSystem>(
    sel: Selection<T>,
    address: T::NodeAddress,
    link: T::Link,
    neigh: T::NodeAddress,
    cost: u16,
    origin: T::NodeAddress,
    ext: ExternalRoute<T>,
) -> Selection<T> {
    let metric = metric_sum(cost, ext.metric);
    if origin == address {
        sel
    } else {
        match position(sel.routes, origin) {
            Some(i) => {
                let route = sel.routes[i].1;
                match feasible(route, seqno_of::<T>(ext.source), metric) {
                    Some(fd) => Selection {
                        routes: sel.routes.update(
                            i,
                            (
                                sel.routes[i].0,
                                Route {
                                    source: ext.source,
                                    metric,
                                    fd,
                                    link,
                                    next_hop: neigh,
                                    retracted: false,
                                },
                            ),
                        ),
                        ..sel
                    },
                    None => if route.next_hop != neigh {
                        sel
                    } else if metric > route.fd {
                        Selection {
                            routes: sel.routes.update(i, (sel.routes[i].0, withdrawn(route))),
                            retractions: if route.retracted {
                                sel.retractions
                            } else {
                                sel.retractions.push(route.source)
                            },
                        }
                    } else {
                        Selection {
                            routes: sel.routes.update(
                                i,
                                (
                                    sel.routes[i].0,
                                    Route { metric, fd: metric, retracted: false, ..route },
                                ),
                            ),
                            ..sel
                        }
                    },
                }
            },
            None => if metric != INF {
                Selection {
                    routes: sel.routes.push(
                        (
                            origin,
                            Route {
                                source: ext.source,
                                metric,
                                fd: metric,
                                link,
                                next_hop: neigh,
                                retracted: false,
                            },
                        ),
                    ),
                    ..sel
                }
            } else {
                sel
            },
        }
    }
}

/// The selection after a neighbour offered the first `n` of its
/// advertisements.
pub open spec fn sweep_neighbour<T: RoutingSystem>(
    sel: Selection<T>,
    address: T::NodeAddress,
    link: T::Link,
    neighbour: NeighbourView<T>,
    n: nat,
) -> Selection<T>
    decreases n,
{
    if n == 0 {
        sel
    } else {
        offer(
            sweep_neighbour(sel, address, link, neighbour, (n - 1) as nat),
            address,
            link,
            neighbour.addr,
            clamped(neighbour.metric),
            neighbour.routes[n - 1].0,
            neighbour.routes[n - 1].1,
        )
    }
}

/// The selection after the first `n` neighbours offered all their
/// advertisements.
pub open spec fn sweep_links<T: RoutingSystem>(
    sel: Selection<T>,
    address: T::NodeAddress,
    links: Seq<(T::Link, NeighbourView<T>)>,
    n: nat,
) -> Selection<T>
    decreases n,
{
    if n == 0 {
        sel
    } else {
        sweep_neighbour(
            sweep_links(sel, address, links, (n - 1) as nat),
            address,
            links[n - 1].0,
            links[n - 1].1,
            links[n - 1].1.routes.len(),
        )
    }
}

/// The urgent updates that withdraw the first `n` of `sources`, each sent to
/// every neighbour.
pub open spec fn retraction_wires<T: RoutingSystem>(
    links: Seq<(T::Link, NeighbourView<T>)>,
    sources: Seq<SignedSource<T>>,
    n: nat,
) -> Seq<Wire<T>>
    decreases n,
{
    if n == 0 {
        Seq::empty()
    } else {
        retraction_wires(links, sources, (n - 1) as nat) + broadcast(
            links,
            retraction::<T>(sources[n - 1]),
        )
    }
}

impl<T: RoutingSystem> RouterView<T> {
    /// The latest sequence number known for `addr`: this node's own for its
    /// own address, else that of the selected route.
    pub open spec fn seqno_for(self, addr: T::NodeAddress) -> Option<u16> {
        if addr == self.address {
            Some(self.seqno)
        } else {
            match position(self.routes, addr) {
                Some(i) => Some(seqno_of::<T>(self.routes[i].1.source)),
                None => None,
            }
        }
    }

    /// The state with `wires` added to the outbound packets.
    pub open spec fn sending(self, wires: Seq<Wire<T>>) -> RouterView<T> {
        RouterView { outbound: self.outbound + wires, ..self }
    }

    /// The state with `origin` marked for announcement.
    pub open spec fn announcing(self, origin: T::NodeAddress) -> RouterView<T> {
        if self.broadcast_route_for.contains(origin) {
            self
        } else {
            RouterView { broadcast_route_for: self.broadcast_route_for.push(origin), ..self }
        }
    }

    /// The selection that `update_routes` arrives at: routes on lost links
    /// are withdrawn, then every neighbour offers what it advertised.
    pub open spec fn selection(self) -> Selection<T> {
        sweep_links(
            retract_lost(self.routes, self.links, self.routes.len()),
            self.address,
            self.links,
            self.links.len(),
        )
    }

    /// The state after the routes were recomputed.
    pub open spec fn update_routes(self) -> RouterView<T> {
        let sel = self.selection();
        RouterView {
            links: clamp_links(self.links),
            routes: sel.routes,
            outbound: self.outbound + retraction_wires(
                self.links,
                sel.retractions,
                sel.retractions.len(),
            ),
            warnings: zero_metric_log(self.warnings, self.links, self.links.len()),
            ..self
        }
    }

    /// The request for a later sequence number of the route at position `i`,
    /// if that route is starved.
    pub open spec fn starvation_request(self, i: int) -> Option<MessageOf<T>> {
        let (origin, route) = self.routes[i];
        if route.metric == INF {
            Some(
                Message::SeqnoRequest {
                    source: origin,
                    seqno: advanced(
                        if origin == self.address {
                            self.seqno
                        } else {
                            seqno_of::<T>(route.source)
                        },
                        1,
                    ),
                },
            )
        } else {
            None
        }
    }

    /// The requests for the starved among the first `n` routes, each sent to
    /// every neighbour.
    pub open spec fn starvation_wires(self, n: nat) -> Seq<Wire<T>>
        decreases n,
    {
        if n == 0 {
            Seq::empty()
        } else {
            let before = self.starvation_wires((n - 1) as nat);
            match self.starvation_request(n - 1) {
                Some(message) => before + broadcast(self.links, message),
                None => before,
            }
        }
    }

    /// The state after a request went out for every starved route.
    pub open spec fn solve_starvation(self) -> RouterView<T> {
        self.sending(self.starvation_wires(self.routes.len()))
    }

    /// Whether `own` is this node's own origin pair as it is now, signed by
    /// this node itself.
    pub open spec fn signs(self, mac_sys: T::MACSystem, own: SignedSource<T>) -> bool {
        &&& own.signed() == Source { addr: self.address, seqno: self.seqno }
        &&& mac_sys.source_valid(&own, &self.address)
    }

    /// Whether this node may announce itself under `own`: where it is marked
    /// for announcement, `own` is its own pair, signed by itself; where it is
    /// not, nothing is announced under `own`.
    pub open spec fn announces_as(self, mac_sys: T::MACSystem, own: SignedSource<T>) -> bool {
        self.broadcast_route_for.contains(self.address) ==> self.signs(mac_sys, own)
    }

    /// This node's own advertisement: itself at distance zero, under `own`,
    /// its signed origin pair.
    pub open spec fn own_update(self, own: SignedSource<T>) -> RouteUpdate<SignedSource<T>> {
        RouteUpdate { source: own, metric: 0 }
    }

    /// The advertisement of the selected route at position `i`: the signed
    /// origin pair of the route, as the route holds it, and its metric.
    pub open spec fn route_update(self, i: int) -> RouteUpdate<SignedSource<T>> {
        RouteUpdate { source: self.routes[i].1.source, metric: self.routes[i].1.metric }
    }

    /// The full table as one message: every selected route, then this node
    /// itself under `own`.
    pub open spec fn batch(self, own: SignedSource<T>) -> MessageOf<T> {
        Message::BatchRouteUpdate {
            routes: Seq::new(self.routes.len(), |i: int| self.route_update(i)).push(
                self.own_update(own),
            ),
        }
    }

    /// The state after the full table was sent to every neighbour, with
    /// `own` as this node's pair in it.
    pub open spec fn broadcast_routes(self, own: SignedSource<T>) -> RouterView<T> {
        self.sending(broadcast(self.links, self.batch(own)))
    }

    /// The urgent update that announces the current route to `origin`, if
    /// there is one; for this node itself, its own advertisement under `own`.
    pub open spec fn announcement(self, origin: T::NodeAddress, own: SignedSource<T>) -> Option<
        MessageOf<T>,
    > {
        if origin == self.address {
            Some(Message::UrgentRouteUpdate(self.own_update(own)))
        } else {
            match position(self.routes, origin) {
                Some(i) => Some(Message::UrgentRouteUpdate(self.route_update(i))),
                None => None,
            }
        }
    }

    /// The announcements for the first `n` marked origins, each sent to every
    /// neighbour.
    pub open spec fn announcement_wires(self, n: nat, own: SignedSource<T>) -> Seq<Wire<T>>
        decreases n,
    {
        if n == 0 {
            Seq::empty()
        } else {
            let before = self.announcement_wires((n - 1) as nat, own);
            match self.announcement(self.broadcast_route_for[n - 1], own) {
                Some(message) => before + broadcast(self.links, message),
                None => before,
            }
        }
    }

    /// The state after every marked origin was announced, this node itself
    /// under `own`.
    pub open spec fn broadcast_seqno_updates(self, own: SignedSource<T>) -> RouterView<T> {
        RouterView {
            broadcast_route_for: Seq::empty(),
            ..self.sending(self.announcement_wires(self.broadcast_route_for.len(), own))
        }
    }

    /// The state after a light update, in which this node announces itself
    /// under `own`.
    pub open spec fn update(self, own: SignedSource<T>) -> RouterView<T> {
        self.update_routes().broadcast_seqno_updates(own)
    }

    /// The state after a full tick, in which this node stands in the full
    /// table under `listed` and announces itself under `announced`.
    pub open spec fn full_update(
        self,
        listed: SignedSource<T>,
        announced: SignedSource<T>,
    ) -> RouterView<T> {
        self.update_routes().solve_starvation().broadcast_routes(listed).broadcast_seqno_updates(
            announced,
        )
    }
}

/// What a neighbour's table holds for an origin once `update` is stored.
pub open spec fn stored<T: RoutingSystem>(update: RouteUpdate<SignedSource<T>>) -> ExternalRoute<
    T,
> {
    ExternalRoute { source: update.source, metric: update.metric, retracted: update.metric == INF }
}

impl<T: RoutingSystem> RouterView<T> {
    /// Whether `neigh` is the selected next hop for `origin`.
    pub open spec fn selects(self, origin: T::NodeAddress, neigh: T::NodeAddress) -> bool {
        match position(self.routes, origin) {
            Some(i) => self.routes[i].1.next_hop == neigh,
            None => false,
        }
    }

    /// Whether an update for `source` is dropped unread: it speaks of this
    /// node itself, or its sequence number is before the one already known.
    pub open spec fn ignores(self, source: Source<T::NodeAddress>) -> bool {
        source.addr == self.address || match self.seqno_for(source.addr) {
            Some(known) => less_than(source.seqno, known),
            None => false,
        }
    }

    /// Whether an update for `source` brings a later sequence number than
    /// the one already known.
    pub open spec fn advances(self, source: Source<T::NodeAddress>) -> bool {
        match self.seqno_for(source.addr) {
            Some(known) => less_than(known, source.seqno),
            None => false,
        }
    }

    /// Whether `update`, received over `link` from `neigh`, withdraws a route
    /// that `neigh` had advertised, was not known as withdrawn, and is the
    /// selected one.
    pub open spec fn withdraws_selected(
        self,
        update: RouteUpdate<SignedSource<T>>,
        link: T::Link,
        neigh: T::NodeAddress,
    ) -> bool {
        let origin = origin_of::<T>(update.source);
        update.metric == INF && self.selects(origin, neigh) && match position(self.links, link) {
            Some(l) => match position(self.links[l].1.routes, origin) {
                Some(r) => !self.links[l].1.routes[r].1.retracted,
                None => false,
            },
            None => false,
        }
    }

    /// What `update`, received over `link` from `neigh`, calls for beyond
    /// storing it.
    pub open spec fn update_action(
        self,
        update: RouteUpdate<SignedSource<T>>,
        link: T::Link,
        neigh: T::NodeAddress,
    ) -> UpdateAction {
        let source = update.source.signed();
        if self.ignores(source) {
            UpdateAction::NoAction
        } else if self.advances(source) {
            UpdateAction::SeqnoUpdate
        } else if self.withdraws_selected(update, link, neigh) {
            UpdateAction::Retraction
        } else {
            UpdateAction::NoAction
        }
    }

    /// The state with `adverts` as the advertisements of the neighbour at
    /// position `l`.
    pub open spec fn with_adverts(
        self,
        l: int,
        adverts: Seq<(T::NodeAddress, ExternalRoute<T>)>,
    ) -> RouterView<T> {
        RouterView {
            links: self.links.update(
                l,
                (self.links[l].0, NeighbourView { routes: adverts, ..self.links[l].1 }),
            ),
            ..self
        }
    }

    /// The state after `update`, received over `link` from `neigh`, was
    /// stored with what that neighbour advertised.
    ///
    /// An update that is ignored, or that comes over an unknown link, changes
    /// nothing. An update for an origin that the neighbour advertised before
    /// replaces the entry. One for a new origin is added, unless it is a
    /// retraction from a neighbour that is not the selected next hop.
    pub open spec fn after_update(
        self,
        update: RouteUpdate<SignedSource<T>>,
        link: T::Link,
        neigh: T::NodeAddress,
    ) -> RouterView<T> {
        let origin = origin_of::<T>(update.source);
        if self.ignores(update.source.signed()) {
            self
        } else {
            match position(self.links, link) {
                Some(l) => {
                    let adverts = self.links[l].1.routes;
                    match position(adverts, origin) {
                        Some(r) => self.with_adverts(
                            l,
                            adverts.update(r, (adverts[r].0, stored(update))),
                        ),
                        None => if update.metric != INF || self.selects(origin, neigh) {
                            self.with_adverts(l, adverts.push((origin, stored(update))))
                        } else {
                            self
                        },
                    }
                },
                None => self,
            }
        }
    }

    /// The state after an urgent update was handled: it is stored; a later
    /// sequence number marks the origin for announcement; the withdrawal of
    /// the selected route is passed on to every neighbour.
    pub open spec fn after_urgent(
        self,
        update: RouteUpdate<SignedSource<T>>,
        link: T::Link,
        neigh: T::NodeAddress,
    ) -> RouterView<T> {
        let next = self.after_update(update, link, neigh);
        match self.update_action(update, link, neigh) {
            UpdateAction::SeqnoUpdate => next.announcing(origin_of::<T>(update.source)),
            UpdateAction::Retraction => next.sending(
                broadcast(next.links, retraction::<T>(update.source)),
            ),
            UpdateAction::NoAction => next,
        }
    }

    /// The state after the first `n` updates of a batch were stored.
    pub open spec fn after_batch(
        self,
        updates: Seq<RouteUpdate<SignedSource<T>>>,
        link: T::Link,
        neigh: T::NodeAddress,
        n: nat,
    ) -> RouterView<T>
        decreases n,
    {
        if n == 0 {
            self
        } else {
            self.after_batch(updates, link, neigh, (n - 1) as nat).after_update(
                updates[n - 1],
                link,
                neigh,
            )
        }
    }

    /// The sequence number of `origin` that was last requested onward; zero
    /// where none was.
    pub open spec fn requested(self, origin: T::NodeAddress) -> u16 {
        match position(self.seqno_requests, origin) {
            Some(i) => self.seqno_requests[i].1,
            None => 0,
        }
    }

    /// The state after this node answered a request for a sequence number of
    /// its own that it has not reached yet: it steps to the next one; where
    /// that is still short of the request and requests are trusted, it adopts
    /// the requested one and logs a warning. Either way it marks itself for
    /// announcement.
    pub open spec fn after_own_seqno_request(self, seqno: u16) -> RouterView<T> {
        let next = advanced(self.seqno, 1);
        if less_than(next, seqno) && T::TRUST_RESYNC_SEQNO {
            (RouterView {
                seqno,
                warnings: logged(
                    self.warnings,
                    RoutingWarning::DesynchronizedSeqno { old_seqno: self.seqno, new_seqno: seqno },
                    T::MAX_WARN_LENGTH as nat,
                ),
                ..self
            }).announcing(self.address)
        } else {
            (RouterView { seqno: next, ..self }).announcing(self.address)
        }
    }

    /// The state after a request for sequence number `seqno` of `origin` was
    /// handled.
    ///
    /// A request for an unknown origin is dropped. Where this node knows the
    /// requested sequence number or a later one, it marks the origin for
    /// announcement. A request for a later sequence number of this node
    /// itself makes it step forward. Any other request is passed on to every
    /// neighbour, unless one for the same or a later sequence number was
    /// passed on before.
    pub open spec fn after_seqno_request(self, origin: T::NodeAddress, seqno: u16) -> RouterView<
        T,
    > {
        match self.seqno_for(origin) {
            None => self,
            Some(known) => if less_than(seqno, known) || known == seqno {
                self.announcing(origin)
            } else if origin == self.address {
                self.after_own_seqno_request(seqno)
            } else if less_than(self.requested(origin), seqno) {
                (RouterView {
                    seqno_requests: put(self.seqno_requests, origin, seqno),
                    ..self
                }).sending(
                    broadcast(self.links, Message::SeqnoRequest { source: origin, seqno }),
                )
            } else {
                self
            },
        }
    }
}

/// Whether `mac_sys` accepts the signature of the origin on `update`. An
/// update on the node `address` itself is never looked at.
pub open spec fn update_accepted<T: RoutingSystem>(
    mac_sys: T::MACSystem,
    address: T::NodeAddress,
    update: RouteUpdate<SignedSource<T>>,
) -> bool {
    let origin = origin_of::<T>(update.source);
    origin == address || mac_sys.source_valid(&update.source, &origin)
}

/// Whether `mac_sys` accepts `packet` as one from `neigh`: the signature of
/// the sender on the packet and that of the origin on every update in it.
pub open spec fn packet_accepted<T: RoutingSystem>(
    mac_sys: T::MACSystem,
    address: T::NodeAddress,
    packet: SignedPacket<T>,
    neigh: T::NodeAddress,
) -> bool {
    mac_sys.packet_valid(&packet, &neigh) && match packet.signed() {
        Packet::UrgentRouteUpdate(update) => update_accepted::<T>(mac_sys, address, update),
        Packet::BatchRouteUpdate { routes } => forall|i: int|
            0 <= i < routes@.len() ==> update_accepted::<T>(
                mac_sys,
                address,
                #[trigger] routes@[i],
            ),
        Packet::SeqnoRequest { .. } => true,
    }
}

impl<T: RoutingSystem> RouterView<T> {
    /// The state after an accepted packet, received over `link` from `neigh`,
    /// was handled.
    pub open spec fn handle_packet(
        self,
        packet: PacketOf<T>,
        link: T::Link,
        neigh: T::NodeAddress,
    ) -> RouterView<T> {
        match packet {
            Packet::UrgentRouteUpdate(update) => self.after_urgent(update, link, neigh),
            Packet::BatchRouteUpdate { routes } => self.after_batch(
                routes@,
                link,
                neigh,
                routes@.len(),
            ),
            Packet::SeqnoRequest { source, seqno } => self.after_seqno_request(source, seqno),
        }
    }
}

} // verus!
