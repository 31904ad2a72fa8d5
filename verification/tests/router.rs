use root::concepts::neighbour::Neighbour;
use root::concepts::packet::{Packet, RouteUpdate};
use root::concepts::route::{ExternalRoute, Source};
use root::feedback::RoutingWarning;
use root::framework::RoutingSystem;
use root::router::{DummyMAC, NoMACSystem, Router, INF};
use root::table::Table;

struct Net;

impl RoutingSystem for Net {
    type NodeAddress = u32;
    type Link = i32;
    type MACSystem = NoMACSystem;
}

/// Keeps two warnings and does not trust requests for a far sequence number.
struct Wary;

impl RoutingSystem for Wary {
    const MAX_WARN_LENGTH: usize = 2;
    const TRUST_RESYNC_SEQNO: bool = false;
    type NodeAddress = u32;
    type Link = i32;
    type MACSystem = NoMACSystem;
}

type Sig = DummyMAC<Source<u32>>;
type Pkt = DummyMAC<Packet<u32, Sig>>;

fn source(addr: u32, seqno: u16) -> Sig {
    DummyMAC::from(Source { addr, seqno })
}

fn advert(addr: u32, seqno: u16, metric: u16) -> RouteUpdate<Sig> {
    RouteUpdate { source: source(addr, seqno), metric }
}

fn urgent(addr: u32, seqno: u16, metric: u16) -> Pkt {
    DummyMAC::from(Packet::UrgentRouteUpdate(advert(addr, seqno, metric)))
}

fn batch(items: &[(u32, u16, u16)]) -> Pkt {
    DummyMAC::from(Packet::BatchRouteUpdate {
        routes: items.iter().map(|(a, s, m)| advert(*a, *s, *m)).collect(),
    })
}

fn request(addr: u32, seqno: u16) -> Pkt {
    DummyMAC::from(Packet::SeqnoRequest { source: addr, seqno })
}

fn router<T: RoutingSystem<NodeAddress = u32, Link = i32>>(
    address: u32,
    links: &[(i32, u32, u16)],
) -> Router<T> {
    let mut router = Router::new(address);
    for (link, addr, metric) in links {
        let neighbour = Neighbour { addr: *addr, routes: Table::new(), metric: *metric };
        router.links.insert(*link, neighbour);
    }
    router
}

/// What a neighbour holds of an origin: (seqno, metric, retracted).
fn held(router: &Router<Net>, link: i32, origin: u32) -> Option<(u16, u16, bool)> {
    router
        .links
        .get(&link)
        .and_then(|n| n.routes.get(&origin))
        .map(|e| (e.source.data.seqno, e.metric, e.retracted))
}

/// The selected route to an origin: (seqno, metric, fd, link, next hop, retracted).
fn selected(router: &Router<Net>, origin: u32) -> Option<(u16, u16, u16, i32, u32, bool)> {
    router.routes.get(&origin).map(|r| {
        (r.source.data.seqno, r.metric, r.fd, r.link, r.next_hop, r.retracted)
    })
}

/// The outbound packets as (link, destination, what they say).
fn sent(router: &Router<Net>) -> Vec<(i32, u32, String)> {
    router
        .outbound_packets
        .iter()
        .map(|o| {
            let text = match &o.packet.data {
                Packet::UrgentRouteUpdate(u) => {
                    format!("urgent {} {} {}", u.source.data.addr, u.source.data.seqno, u.metric)
                }
                Packet::BatchRouteUpdate { routes } => {
                    let items: Vec<String> = routes
                        .iter()
                        .map(|u| {
                            format!("{} {} {}", u.source.data.addr, u.source.data.seqno, u.metric)
                        })
                        .collect();
                    format!("batch {}", items.join(", "))
                }
                Packet::SeqnoRequest { source, seqno } => format!("request {source} {seqno}"),
            };
            (o.link, o.dest, text)
        })
        .collect()
}

fn marked(router: &Router<Net>) -> Vec<u32> {
    (0..router.broadcast_route_for.len()).map(|i| *router.broadcast_route_for.key_at(i)).collect()
}

fn s(text: &str) -> String {
    text.to_string()
}

#[test]
fn new_router_is_empty() {
    let r: Router<Net> = Router::new(7);
    assert_eq!(r.address, 7);
    assert_eq!(r.seqno, 0);
    assert_eq!(r.links.len(), 0);
    assert_eq!(r.routes.len(), 0);
    assert_eq!(r.seqno_requests.len(), 0);
    assert_eq!(r.broadcast_route_for.len(), 0);
    assert!(r.outbound_packets.is_empty());
    assert!(r.warnings.is_empty());
}

#[test]
fn new_neighbour_is_down_until_measured() {
    let n: Neighbour<Net> = Neighbour::new(4);
    assert_eq!(n.addr, 4);
    assert_eq!(n.metric, INF);
    assert_eq!(n.routes.len(), 0);
}

#[test]
fn seqno_for_self_route_and_stranger() {
    let mut r: Router<Net> = router(1, &[(10, 2, 3)]);
    r.seqno = 12;
    r.handle_packet(&urgent(9, 5, 1), &10, &2).ok().unwrap();
    r.update_routes();
    assert_eq!(r.get_seqno_for(&1), Some(12));
    assert_eq!(r.get_seqno_for(&9), Some(5));
    assert_eq!(r.get_seqno_for(&8), None);
}

#[test]
fn broadcast_makes_one_copy_per_neighbour_in_link_order() {
    let mut r: Router<Net> = router(1, &[(30, 4, 1), (10, 2, 1), (20, 3, INF)]);
    r.write_broadcast_packet(&request(9, 4));
    assert_eq!(
        sent(&r),
        vec![(30, 4, s("request 9 4")), (10, 2, s("request 9 4")), (20, 3, s("request 9 4"))]
    );
}

#[test]
fn broadcast_without_neighbours_sends_nothing() {
    let mut r: Router<Net> = router(1, &[]);
    r.write_broadcast_packet(&request(9, 4));
    assert!(r.outbound_packets.is_empty());
}

#[test]
fn update_routes_installs_a_new_route() {
    let mut r: Router<Net> = router(1, &[(10, 2, 3)]);
    r.handle_packet(&urgent(9, 5, 4), &10, &2).ok().unwrap();
    r.update_routes();
    assert_eq!(selected(&r, 9), Some((5, 7, 7, 10, 2, false)));
    assert!(r.outbound_packets.is_empty());
}

#[test]
fn update_routes_makes_no_route_from_a_retraction() {
    let mut r: Router<Net> = router(1, &[(10, 2, 3)]);
    let entry = ExternalRoute { source: source(9, 5), metric: INF, retracted: true };
    r.links.get_mut(&10).unwrap().routes.insert(9, entry);
    r.update_routes();
    assert_eq!(selected(&r, 9), None);
}

#[test]
fn update_routes_makes_no_route_over_a_link_that_is_down() {
    let mut r: Router<Net> = router(1, &[(10, 2, INF)]);
    r.handle_packet(&urgent(9, 5, 4), &10, &2).ok().unwrap();
    r.update_routes();
    assert_eq!(selected(&r, 9), None);
}

#[test]
fn update_routes_never_routes_to_itself() {
    let mut r: Router<Net> = router(1, &[(10, 2, 3)]);
    let entry = ExternalRoute { source: source(1, 5), metric: 2, retracted: false };
    r.links.get_mut(&10).unwrap().routes.insert(1, entry);
    r.update_routes();
    assert_eq!(r.routes.len(), 0);
}

#[test]
fn update_routes_takes_the_better_of_two_offers() {
    let mut r: Router<Net> = router(1, &[(10, 2, 3), (20, 3, 1)]);
    r.handle_packet(&urgent(9, 5, 4), &10, &2).ok().unwrap();
    r.handle_packet(&urgent(9, 5, 2), &20, &3).ok().unwrap();
    r.update_routes();
    assert_eq!(selected(&r, 9), Some((5, 3, 3, 20, 3, false)));
}

#[test]
fn update_routes_keeps_the_route_against_a_worse_offer() {
    let mut r: Router<Net> = router(1, &[(10, 2, 1), (20, 3, 3)]);
    r.handle_packet(&urgent(9, 5, 2), &10, &2).ok().unwrap();
    r.handle_packet(&urgent(9, 5, 4), &20, &3).ok().unwrap();
    r.update_routes();
    assert_eq!(selected(&r, 9), Some((5, 3, 3, 10, 2, false)));
}

#[test]
fn update_routes_keeps_the_route_against_an_equal_offer() {
    let mut r: Router<Net> = router(1, &[(10, 2, 1), (20, 3, 1)]);
    r.handle_packet(&urgent(9, 5, 2), &10, &2).ok().unwrap();
    r.handle_packet(&urgent(9, 5, 2), &20, &3).ok().unwrap();
    r.update_routes();
    assert_eq!(selected(&r, 9), Some((5, 3, 3, 10, 2, false)));
}

#[test]
fn update_routes_follows_a_later_seqno_to_a_worse_metric() {
    let mut r: Router<Net> = router(1, &[(10, 2, 1), (20, 3, 1)]);
    r.handle_packet(&urgent(9, 5, 2), &10, &2).ok().unwrap();
    r.update_routes();
    r.handle_packet(&urgent(9, 6, 50), &20, &3).ok().unwrap();
    r.update_routes();
    assert_eq!(selected(&r, 9), Some((6, 51, 51, 20, 3, false)));
}

#[test]
fn update_routes_rejects_an_earlier_seqno_however_good() {
    let mut r: Router<Net> = router(1, &[(10, 2, 10), (20, 3, 1)]);
    r.handle_packet(&urgent(9, 5, 20), &10, &2).ok().unwrap();
    r.update_routes();
    let entry = ExternalRoute { source: source(9, 4), metric: 1, retracted: false };
    r.links.get_mut(&20).unwrap().routes.insert(9, entry);
    r.update_routes();
    assert_eq!(selected(&r, 9), Some((5, 30, 30, 10, 2, false)));
}

#[test]
fn route_with_last_seqno_is_superseded_by_first() {
    let mut r: Router<Net> = router(1, &[(10, 2, 1), (20, 3, 1)]);
    r.handle_packet(&urgent(9, 65535, 2), &10, &2).ok().unwrap();
    r.update_routes();
    assert_eq!(selected(&r, 9), Some((65535, 3, 3, 10, 2, false)));
    r.handle_packet(&urgent(9, 0, 40), &20, &3).ok().unwrap();
    assert_eq!(marked(&r), vec![9]);
    r.update_routes();
    assert_eq!(selected(&r, 9), Some((0, 41, 41, 20, 3, false)));
}

#[test]
fn selected_neighbour_may_worsen_up_to_the_feasibility_distance() {
    let mut r: Router<Net> = router(1, &[(10, 2, 5)]);
    r.handle_packet(&urgent(9, 5, 5), &10, &2).ok().unwrap();
    r.update_routes();
    assert_eq!(selected(&r, 9), Some((5, 10, 10, 10, 2, false)));
    // a better link: feasible, the distance shrinks
    r.links.get_mut(&10).unwrap().metric = 2;
    r.update_routes();
    assert_eq!(selected(&r, 9), Some((5, 7, 7, 10, 2, false)));
    // the same again: nothing changes, nothing is sent
    r.update_routes();
    assert_eq!(selected(&r, 9), Some((5, 7, 7, 10, 2, false)));
    assert!(r.outbound_packets.is_empty());
}

#[test]
fn selected_neighbour_beyond_the_feasibility_distance_is_retracted_once() {
    let mut r: Router<Net> = router(1, &[(10, 2, 2), (20, 3, 1)]);
    r.handle_packet(&urgent(9, 5, 5), &10, &2).ok().unwrap();
    r.update_routes();
    r.links.get_mut(&10).unwrap().metric = 3;
    r.update_routes();
    assert_eq!(selected(&r, 9), Some((5, INF, 7, 10, 2, true)));
    assert_eq!(sent(&r), vec![(10, 2, s("urgent 9 5 65535")), (20, 3, s("urgent 9 5 65535"))]);
    r.update_routes();
    assert_eq!(selected(&r, 9), Some((5, INF, 7, 10, 2, true)));
    assert_eq!(r.outbound_packets.len(), 2);
}

#[test]
fn retracted_route_is_readmitted_at_its_old_metric() {
    let mut r: Router<Net> = router(1, &[(10, 2, 2)]);
    r.handle_packet(&urgent(9, 5, 5), &10, &2).ok().unwrap();
    r.update_routes();
    r.links.get_mut(&10).unwrap().metric = 3;
    r.update_routes();
    assert_eq!(selected(&r, 9), Some((5, INF, 7, 10, 2, true)));
    r.links.get_mut(&10).unwrap().metric = 2;
    r.update_routes();
    assert_eq!(selected(&r, 9), Some((5, 7, 7, 10, 2, false)));
}

#[test]
fn link_that_goes_down_retracts_its_routes() {
    let mut r: Router<Net> = router(1, &[(10, 2, 2), (20, 3, 1)]);
    r.handle_packet(&batch(&[(9, 5, 5), (8, 1, 1)]), &10, &2).ok().unwrap();
    r.update_routes();
    r.links.get_mut(&10).unwrap().metric = INF;
    r.update_routes();
    assert_eq!(selected(&r, 9), Some((5, INF, 7, 10, 2, true)));
    assert_eq!(selected(&r, 8), Some((1, INF, 3, 10, 2, true)));
    assert_eq!(
        sent(&r),
        vec![
            (10, 2, s("urgent 9 5 65535")),
            (20, 3, s("urgent 9 5 65535")),
            (10, 2, s("urgent 8 1 65535")),
            (20, 3, s("urgent 8 1 65535")),
        ]
    );
}

#[test]
fn link_that_is_removed_retracts_its_routes() {
    let mut r: Router<Net> = router(1, &[(10, 2, 2), (20, 3, 1)]);
    r.handle_packet(&urgent(9, 5, 5), &10, &2).ok().unwrap();
    r.update_routes();
    assert!(r.links.remove(&10).is_some());
    r.update_routes();
    assert_eq!(selected(&r, 9), Some((5, INF, 7, 10, 2, true)));
    assert_eq!(sent(&r), vec![(20, 3, s("urgent 9 5 65535"))]);
    r.update_routes();
    assert_eq!(r.outbound_packets.len(), 1);
}

#[test]
fn zero_link_metric_is_raised_to_one_with_one_warning() {
    let mut r: Router<Net> = router(1, &[(10, 2, 0), (20, 3, 4)]);
    r.handle_packet(&urgent(9, 5, 5), &10, &2).ok().unwrap();
    r.update_routes();
    assert_eq!(r.links.get(&10).unwrap().metric, 1);
    assert_eq!(r.links.get(&20).unwrap().metric, 4);
    assert_eq!(selected(&r, 9), Some((5, 6, 6, 10, 2, false)));
    assert_eq!(r.warnings.len(), 1);
    assert!(matches!(r.warnings[0], RoutingWarning::MetricIsZero { link: 10 }));
    r.update_routes();
    assert_eq!(r.warnings.len(), 1);
    // the host sets zero again: accepted again, warned again
    r.links.get_mut(&10).unwrap().metric = 0;
    r.update_routes();
    assert_eq!(r.links.get(&10).unwrap().metric, 1);
    assert_eq!(r.warnings.len(), 2);
}

#[test]
fn nearly_infinite_link_gives_a_nearly_infinite_route() {
    let mut r: Router<Net> = router(1, &[(10, 2, INF - 1)]);
    r.handle_packet(&urgent(9, 5, 5), &10, &2).ok().unwrap();
    r.update_routes();
    assert_eq!(selected(&r, 9), Some((5, INF - 1, INF - 1, 10, 2, false)));
}

#[test]
fn urgent_update_is_stored_with_the_neighbour() {
    let mut r: Router<Net> = router(1, &[(10, 2, 3), (20, 3, 3)]);
    assert!(r.handle_packet(&urgent(9, 5, 4), &10, &2).is_ok());
    assert_eq!(held(&r, 10, 9), Some((5, 4, false)));
    assert_eq!(held(&r, 20, 9), None);
    assert!(r.outbound_packets.is_empty());
    assert!(marked(&r).is_empty());
    assert_eq!(r.routes.len(), 0);
}

#[test]
fn urgent_update_replaces_what_was_stored() {
    let mut r: Router<Net> = router(1, &[(10, 2, 3)]);
    r.handle_packet(&urgent(9, 5, 4), &10, &2).ok().unwrap();
    r.handle_packet(&urgent(9, 6, 8), &10, &2).ok().unwrap();
    assert_eq!(held(&r, 10, 9), Some((6, 8, false)));
    assert_eq!(r.links.get(&10).unwrap().routes.len(), 1);
}

#[test]
fn update_over_an_unknown_link_is_dropped() {
    let mut r: Router<Net> = router(1, &[(10, 2, 3)]);
    assert!(r.handle_packet(&urgent(9, 5, 4), &11, &2).is_ok());
    assert_eq!(held(&r, 10, 9), None);
    assert_eq!(r.links.len(), 1);
}

#[test]
fn update_about_this_node_is_ignored() {
    let mut r: Router<Net> = router(1, &[(10, 2, 3)]);
    assert!(r.handle_packet(&urgent(1, 5, 4), &10, &2).is_ok());
    assert_eq!(held(&r, 10, 1), None);
    assert!(marked(&r).is_empty());
}

#[test]
fn update_with_an_earlier_seqno_is_dropped() {
    let mut r: Router<Net> = router(1, &[(10, 2, 3), (20, 3, 3)]);
    r.handle_packet(&urgent(9, 5, 4), &10, &2).ok().unwrap();
    r.update_routes();
    assert!(r.handle_packet(&urgent(9, 4, 1), &20, &3).is_ok());
    assert_eq!(held(&r, 20, 9), None);
    assert!(marked(&r).is_empty());
}

#[test]
fn update_with_a_later_seqno_marks_the_origin() {
    let mut r: Router<Net> = router(1, &[(10, 2, 3), (20, 3, 3)]);
    r.handle_packet(&urgent(9, 5, 4), &10, &2).ok().unwrap();
    r.update_routes();
    r.handle_packet(&urgent(9, 6, 4), &20, &3).ok().unwrap();
    r.handle_packet(&urgent(9, 7, 4), &20, &3).ok().unwrap();
    assert_eq!(marked(&r), vec![9]);
    assert_eq!(held(&r, 20, 9), Some((7, 4, false)));
    assert!(r.outbound_packets.is_empty());
}

#[test]
fn retraction_by_the_selected_neighbour_is_passed_on() {
    let mut r: Router<Net> = router(1, &[(10, 2, 3), (20, 3, 3)]);
    r.handle_packet(&urgent(9, 5, 4), &10, &2).ok().unwrap();
    r.update_routes();
    r.handle_packet(&urgent(9, 5, INF), &10, &2).ok().unwrap();
    assert_eq!(held(&r, 10, 9), Some((5, INF, true)));
    assert_eq!(sent(&r), vec![(10, 2, s("urgent 9 5 65535")), (20, 3, s("urgent 9 5 65535"))]);
    // the same retraction again is not passed on again
    r.handle_packet(&urgent(9, 5, INF), &10, &2).ok().unwrap();
    assert_eq!(r.outbound_packets.len(), 2);
}

#[test]
fn retraction_by_another_neighbour_is_not_passed_on() {
    let mut r: Router<Net> = router(1, &[(10, 2, 3), (20, 3, 9)]);
    r.handle_packet(&urgent(9, 5, 4), &10, &2).ok().unwrap();
    r.handle_packet(&urgent(9, 5, 4), &20, &3).ok().unwrap();
    r.update_routes();
    r.handle_packet(&urgent(9, 5, INF), &20, &3).ok().unwrap();
    assert_eq!(held(&r, 20, 9), Some((5, INF, true)));
    assert!(r.outbound_packets.is_empty());
}

#[test]
fn retraction_of_an_unknown_origin_is_not_stored() {
    let mut r: Router<Net> = router(1, &[(10, 2, 3)]);
    r.handle_packet(&urgent(9, 5, INF), &10, &2).ok().unwrap();
    assert_eq!(held(&r, 10, 9), None);
    assert!(r.outbound_packets.is_empty());
}

#[test]
fn finite_update_after_a_retraction_clears_the_flag() {
    let mut r: Router<Net> = router(1, &[(10, 2, 3)]);
    r.handle_packet(&urgent(9, 5, 4), &10, &2).ok().unwrap();
    r.update_routes();
    r.handle_packet(&urgent(9, 5, INF), &10, &2).ok().unwrap();
    assert_eq!(held(&r, 10, 9), Some((5, INF, true)));
    r.handle_packet(&urgent(9, 5, 4), &10, &2).ok().unwrap();
    assert_eq!(held(&r, 10, 9), Some((5, 4, false)));
}

#[test]
fn batch_is_stored_and_causes_no_packet_and_no_mark() {
    let mut r: Router<Net> = router(1, &[(10, 2, 3), (20, 3, 3)]);
    r.handle_packet(&urgent(9, 5, 4), &10, &2).ok().unwrap();
    r.update_routes();
    let b = batch(&[(9, 6, INF), (8, 1, 2), (1, 0, 0), (7, 3, INF)]);
    assert!(r.handle_packet(&b, &10, &2).is_ok());
    assert_eq!(held(&r, 10, 9), Some((6, INF, true)));
    assert_eq!(held(&r, 10, 8), Some((1, 2, false)));
    assert_eq!(held(&r, 10, 1), None);
    assert_eq!(held(&r, 10, 7), None);
    assert!(r.outbound_packets.is_empty());
    assert!(marked(&r).is_empty());
    assert_eq!(selected(&r, 9), Some((5, 7, 7, 10, 2, false)));
}

#[test]
fn batch_that_says_what_is_known_changes_nothing() {
    let mut r: Router<Net> = router(1, &[(10, 2, 3)]);
    let b = batch(&[(9, 5, 4), (8, 1, 2)]);
    r.handle_packet(&b, &10, &2).ok().unwrap();
    r.update_routes();
    let routes_before: Vec<_> = [9, 8].iter().map(|o| selected(&r, *o)).collect();
    r.handle_packet(&b, &10, &2).ok().unwrap();
    r.update_routes();
    assert_eq!(held(&r, 10, 9), Some((5, 4, false)));
    assert_eq!(held(&r, 10, 8), Some((1, 2, false)));
    assert_eq!(r.links.get(&10).unwrap().routes.len(), 2);
    let routes_after: Vec<_> = [9, 8].iter().map(|o| selected(&r, *o)).collect();
    assert_eq!(routes_before, routes_after);
    assert!(r.outbound_packets.is_empty());
    assert!(marked(&r).is_empty());
}

#[test]
fn full_table_arriving_at_a_converged_neighbour_causes_no_packet() {
    let mut a: Router<Net> = router(1, &[(10, 2, 3)]);
    let mut b: Router<Net> = router(2, &[(10, 1, 3)]);
    for _ in 0..4 {
        a.full_update();
        b.full_update();
        for o in a.outbound_packets.drain(..) {
            b.handle_packet(&o.packet, &o.link, &1).ok().unwrap();
        }
        for o in b.outbound_packets.drain(..) {
            a.handle_packet(&o.packet, &o.link, &2).ok().unwrap();
        }
    }
    b.update();
    assert!(b.outbound_packets.is_empty());
    a.broadcast_routes();
    assert_eq!(a.outbound_packets.len(), 1);
    let table = a.outbound_packets.pop().unwrap();
    b.handle_packet(&table.packet, &table.link, &1).ok().unwrap();
    assert!(b.outbound_packets.is_empty());
    b.update();
    assert!(b.outbound_packets.is_empty());
}

#[test]
fn request_for_an_unknown_origin_is_dropped() {
    let mut r: Router<Net> = router(1, &[(10, 2, 3)]);
    assert!(r.handle_packet(&request(9, 4), &10, &2).is_ok());
    assert!(marked(&r).is_empty());
    assert!(r.outbound_packets.is_empty());
    assert_eq!(r.seqno_requests.len(), 0);
}

#[test]
fn request_for_the_known_seqno_is_answered_with_one_urgent_update() {
    let mut r: Router<Net> = router(1, &[(10, 2, 3), (20, 3, 1)]);
    r.handle_packet(&urgent(9, 5, 4), &10, &2).ok().unwrap();
    r.update_routes();
    r.handle_packet(&request(9, 5), &20, &3).ok().unwrap();
    assert_eq!(marked(&r), vec![9]);
    assert!(r.outbound_packets.is_empty());
    r.broadcast_seqno_updates();
    assert_eq!(sent(&r), vec![(10, 2, s("urgent 9 5 7")), (20, 3, s("urgent 9 5 7"))]);
    assert!(marked(&r).is_empty());
    r.broadcast_seqno_updates();
    assert_eq!(r.outbound_packets.len(), 2);
}

#[test]
fn request_for_an_earlier_seqno_is_answered_with_the_current_one() {
    let mut r: Router<Net> = router(1, &[(10, 2, 3)]);
    r.handle_packet(&urgent(9, 5, 4), &10, &2).ok().unwrap();
    r.update_routes();
    r.handle_packet(&request(9, 3), &10, &2).ok().unwrap();
    r.broadcast_seqno_updates();
    assert_eq!(sent(&r), vec![(10, 2, s("urgent 9 5 7"))]);
}

#[test]
fn request_for_own_current_seqno_is_answered_at_distance_zero() {
    let mut r: Router<Net> = router(1, &[(10, 2, 3)]);
    r.seqno = 8;
    r.handle_packet(&request(1, 8), &10, &2).ok().unwrap();
    assert_eq!(r.seqno, 8);
    r.broadcast_seqno_updates();
    assert_eq!(sent(&r), vec![(10, 2, s("urgent 1 8 0"))]);
}

#[test]
fn request_for_own_next_seqno_steps_forward() {
    let mut r: Router<Net> = router(1, &[(10, 2, 3)]);
    r.seqno = 8;
    r.handle_packet(&request(1, 9), &10, &2).ok().unwrap();
    assert_eq!(r.seqno, 9);
    assert!(r.warnings.is_empty());
    assert_eq!(marked(&r), vec![1]);
    r.update();
    assert_eq!(sent(&r), vec![(10, 2, s("urgent 1 9 0"))]);
}

#[test]
fn request_for_own_seqno_steps_across_the_wrap() {
    let mut r: Router<Net> = router(1, &[(10, 2, 3)]);
    r.seqno = 65535;
    r.handle_packet(&request(1, 0), &10, &2).ok().unwrap();
    assert_eq!(r.seqno, 0);
    assert!(r.warnings.is_empty());
}

#[test]
fn request_far_ahead_is_adopted_with_a_warning() {
    let mut r: Router<Net> = router(1, &[(10, 2, 3)]);
    r.seqno = 8;
    r.handle_packet(&request(1, 20), &10, &2).ok().unwrap();
    assert_eq!(r.seqno, 20);
    assert_eq!(r.warnings.len(), 1);
    assert!(matches!(
        r.warnings[0],
        RoutingWarning::DesynchronizedSeqno { old_seqno: 8, new_seqno: 20 }
    ));
    assert_eq!(marked(&r), vec![1]);
}

#[test]
fn request_far_ahead_is_not_adopted_without_trust() {
    let mut r: Router<Wary> = router(1, &[(10, 2, 3)]);
    r.seqno = 8;
    r.handle_packet(&request(1, 20), &10, &2).ok().unwrap();
    assert_eq!(r.seqno, 9);
    assert!(r.warnings.is_empty());
    assert_eq!(r.broadcast_route_for.len(), 1);
}

#[test]
fn request_for_a_later_seqno_of_another_is_passed_on_once() {
    let mut r: Router<Net> = router(1, &[(10, 2, 3), (20, 3, 1)]);
    r.handle_packet(&urgent(9, 5, 4), &10, &2).ok().unwrap();
    r.update_routes();
    r.handle_packet(&request(9, 6), &20, &3).ok().unwrap();
    assert_eq!(sent(&r), vec![(10, 2, s("request 9 6")), (20, 3, s("request 9 6"))]);
    assert_eq!(r.seqno_requests.get(&9), Some(&6));
    assert!(marked(&r).is_empty());
    // the same request again, and an earlier one, are dropped
    r.handle_packet(&request(9, 6), &10, &2).ok().unwrap();
    assert_eq!(r.outbound_packets.len(), 2);
    // a later one is passed on again
    r.handle_packet(&request(9, 7), &10, &2).ok().unwrap();
    assert_eq!(r.outbound_packets.len(), 4);
    assert_eq!(r.seqno_requests.get(&9), Some(&7));
    assert_eq!(r.seqno_requests.len(), 1);
}

#[test]
fn starved_route_asks_for_the_next_seqno() {
    let mut r: Router<Net> = router(1, &[(10, 2, 2), (20, 3, 1)]);
    r.handle_packet(&batch(&[(9, 65535, 5), (8, 3, 1)]), &10, &2).ok().unwrap();
    r.update_routes();
    r.solve_starvation();
    assert!(r.outbound_packets.is_empty());
    r.links.get_mut(&10).unwrap().metric = 3;
    r.update_routes();
    r.outbound_packets.clear();
    r.solve_starvation();
    assert_eq!(
        sent(&r),
        vec![
            (10, 2, s("request 9 0")),
            (20, 3, s("request 9 0")),
            (10, 2, s("request 8 4")),
            (20, 3, s("request 8 4")),
        ]
    );
}

#[test]
fn full_table_holds_every_route_and_this_node() {
    let mut r: Router<Net> = router(1, &[(10, 2, 2), (20, 3, 1)]);
    r.seqno = 3;
    r.handle_packet(&batch(&[(9, 5, 5), (8, 1, 1)]), &10, &2).ok().unwrap();
    r.update_routes();
    r.broadcast_routes();
    assert_eq!(
        sent(&r),
        vec![(10, 2, s("batch 9 5 7, 8 1 3, 1 3 0")), (20, 3, s("batch 9 5 7, 8 1 3, 1 3 0"))]
    );
}

#[test]
fn full_table_of_a_fresh_router_holds_only_this_node() {
    let mut r: Router<Net> = router(1, &[(10, 2, 2)]);
    r.broadcast_routes();
    assert_eq!(sent(&r), vec![(10, 2, s("batch 1 0 0"))]);
}

#[test]
fn marked_origin_without_a_route_is_skipped() {
    let mut r: Router<Net> = router(1, &[(10, 2, 2)]);
    r.broadcast_route_for.insert(9, ());
    r.broadcast_route_for.insert(1, ());
    r.broadcast_seqno_updates();
    assert_eq!(sent(&r), vec![(10, 2, s("urgent 1 0 0"))]);
    assert_eq!(r.broadcast_route_for.len(), 0);
}

#[test]
fn update_recomputes_and_announces_but_sends_no_table() {
    let mut r: Router<Net> = router(1, &[(10, 2, 2)]);
    r.handle_packet(&urgent(9, 5, 5), &10, &2).ok().unwrap();
    r.broadcast_route_for.insert(9, ());
    r.update();
    assert_eq!(selected(&r, 9), Some((5, 7, 7, 10, 2, false)));
    assert_eq!(sent(&r), vec![(10, 2, s("urgent 9 5 7"))]);
}

#[test]
fn full_update_runs_the_four_steps_in_order() {
    let mut r: Router<Net> = router(1, &[(10, 2, 2)]);
    r.handle_packet(&urgent(9, 5, 5), &10, &2).ok().unwrap();
    r.update_routes();
    r.links.get_mut(&10).unwrap().metric = 3;
    r.broadcast_route_for.insert(1, ());
    r.full_update();
    assert_eq!(
        sent(&r),
        vec![
            (10, 2, s("urgent 9 5 65535")),
            (10, 2, s("request 9 6")),
            (10, 2, s("batch 9 5 65535, 1 0 0")),
            (10, 2, s("urgent 1 0 0")),
        ]
    );
}

#[test]
fn warning_log_drops_the_oldest() {
    let mut r: Router<Wary> = router(1, &[(10, 2, 0), (20, 3, 0), (30, 4, 0)]);
    r.update_routes();
    assert_eq!(r.warnings.len(), 2);
    assert!(matches!(r.warnings[0], RoutingWarning::MetricIsZero { link: 20 }));
    assert!(matches!(r.warnings[1], RoutingWarning::MetricIsZero { link: 30 }));
}

#[test]
fn routes_keep_their_invariants_through_churn() {
    let mut r: Router<Net> = router(1, &[(10, 2, 2), (20, 3, 1), (30, 4, 7)]);
    let costs = [2u16, 9, INF, 1, 0, 3, INF - 1, 4];
    for (round, cost) in costs.iter().enumerate() {
        let seqno = (round / 3) as u16;
        r.handle_packet(&batch(&[(9, seqno, *cost), (8, seqno, 5)]), &10, &2).ok().unwrap();
        r.handle_packet(&batch(&[(9, seqno, 4), (7, 0, costs[(round + 3) % 8])]), &20, &3)
            .ok()
            .unwrap();
        r.links.get_mut(&30).unwrap().metric = *cost;
        r.handle_packet(&urgent(8, seqno, costs[(round + 5) % 8]), &30, &4).ok().unwrap();
        let before: Vec<(u32, u16)> = (0..r.routes.len())
            .map(|i| (*r.routes.key_at(i), r.routes.value_at(i).source.data.seqno))
            .collect();
        r.full_update();
        for (i, (origin, seqno_before)) in before.iter().enumerate() {
            assert_eq!(r.routes.key_at(i), origin);
            let now = r.routes.value_at(i).source.data.seqno;
            assert!(!root::util::seqno_less_than(now, *seqno_before));
        }
        for i in 0..r.routes.len() {
            let route = r.routes.value_at(i);
            assert_ne!(*r.routes.key_at(i), 1);
            if !route.retracted {
                assert!(route.fd <= route.metric);
            }
            let neighbour = r.links.get(&route.link).unwrap();
            assert_eq!(neighbour.addr, route.next_hop);
        }
    }
}

#[test]
fn error_says_what_happened() {
    let e: root::feedback::RoutingError<Net> =
        root::feedback::RoutingError::MACValidationFail { link: 3 };
    assert_eq!(e.message(), "Rejected packet over link, MAC Validation Failed.");
}
