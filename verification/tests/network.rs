use root::concepts::neighbour::Neighbour;
use root::framework::{RoutingSystem, SignedPacket};
use root::router::{NoMACSystem, Router, INF};
use root::table::Table;
use std::collections::BTreeMap;

/// A network of routers in one process; packets travel one hop per tick.
struct VirtualSystem {
    routers: Vec<Router<VirtualSystem>>,
    packets: BTreeMap<u32, Vec<(SignedPacket<VirtualSystem>, i32)>>,
}

impl RoutingSystem for VirtualSystem {
    type NodeAddress = u32;
    type Link = i32;
    type MACSystem = NoMACSystem;
}

fn id(name: &str) -> u32 {
    name.parse().unwrap()
}

impl VirtualSystem {
    fn create(nodes: &[&str], links: &[(i32, &str, &str, u16)]) -> VirtualSystem {
        let routers = nodes
            .iter()
            .map(|name| {
                let mut router = Router::new(id(name));
                for (lid, a, b, metric) in links {
                    if a == name || b == name {
                        let other = if a == name { b } else { a };
                        router.links.insert(
                            *lid,
                            Neighbour { addr: id(other), routes: Table::new(), metric: *metric },
                        );
                    }
                }
                router
            })
            .collect();
        VirtualSystem { routers, packets: BTreeMap::new() }
    }

    fn update_edge(&mut self, edge_id: i32, metric: u16) {
        for router in &mut self.routers {
            if let Some(edge) = router.links.get_mut(&edge_id) {
                edge.metric = metric;
            }
        }
    }

    fn router(&self, cur: &str) -> &Router<VirtualSystem> {
        self.routers
            .iter()
            .find(|r| r.address == id(cur))
            .unwrap_or_else(|| panic!("No node {cur} found"))
    }

    fn get_next_hop(&self, cur: &str, src: &str) -> String {
        self.router(cur)
            .routes
            .get(&id(src))
            .unwrap_or_else(|| panic!("No route found to {src}"))
            .next_hop
            .to_string()
    }

    fn get_metric_to(&self, cur: &str, src: &str) -> u16 {
        self.router(cur)
            .routes
            .get(&id(src))
            .unwrap_or_else(|| panic!("No route found to {src}"))
            .metric
    }

    fn flush_packets(&mut self) {
        for router in &mut self.routers {
            for packet in router.outbound_packets.drain(..) {
                self.packets.entry(packet.dest).or_default().push((packet.packet, packet.link));
            }
        }
    }

    fn tick(&mut self) {
        for (node, packets) in &self.packets {
            if let Some(router) = self.routers.iter_mut().find(|r| r.address == *node) {
                for (packet, link) in packets {
                    if let Some(neigh) = router.links.get(link).map(|n| n.addr) {
                        let _ = router.handle_packet(packet, link, &neigh);
                    }
                }
            }
        }
        self.packets.clear();
        for router in &mut self.routers {
            router.full_update();
        }
        self.flush_packets()
    }

    fn tick_n(&mut self, times: i32) {
        for _ in 0..times {
            self.tick();
        }
    }
}

fn vnet_simple_weighted() -> VirtualSystem {
    VirtualSystem::create(
        &["1", "2", "3", "4", "5"],
        &[
            (0, "1", "2", 2),
            (1, "1", "3", 1),
            (2, "2", "3", 4),
            (3, "2", "4", 5),
            (4, "3", "4", 100),
            (5, "3", "5", 8),
            (6, "4", "5", 1),
        ],
    )
}

fn vnet_fragile_network() -> VirtualSystem {
    VirtualSystem::create(
        &["1", "2", "3", "4", "5"],
        &[
            (0, "1", "2", 1),
            (1, "1", "3", 1),
            (2, "2", "3", 1),
            (3, "1", "4", 10),
            (4, "5", "4", 1),
            (5, "6", "4", 1),
            (6, "6", "5", 1),
        ],
    )
}

#[test]
fn retraction_link_down() {
    let mut network = vnet_simple_weighted();
    network.tick_n(10);

    network.update_edge(3, INF);
    network.tick_n(2);
    assert_eq!(network.get_metric_to("1", "5"), INF);
    assert_eq!(network.get_next_hop("1", "5"), "2");

    network.tick_n(3);
    assert_eq!(network.get_metric_to("1", "5"), 9);
    assert_eq!(network.get_next_hop("1", "5"), "3");
}

#[test]
fn link_recovery_inf_sum() {
    let mut network = vnet_fragile_network();
    network.tick_n(10);

    assert_eq!(network.get_metric_to("3", "5"), 12);
    assert_eq!(network.get_next_hop("3", "5"), "1");

    network.update_edge(3, 11);
    network.tick_n(2);
    assert_eq!(network.get_metric_to("3", "5"), INF);
    assert_eq!(network.get_next_hop("3", "5"), "1");

    network.tick_n(4);
    assert_eq!(network.get_metric_to("3", "5"), 13);
    assert_eq!(network.get_next_hop("3", "5"), "1");

    network.update_edge(3, INF - 1);
    network.tick_n(6);
    assert_eq!(network.get_metric_to("3", "5"), INF - 1);
}

#[test]
fn simple_weighted_graph() {
    let mut network = vnet_simple_weighted();
    network.tick_n(10);

    assert_eq!(network.get_next_hop("1", "5"), "2");
    assert_eq!(network.get_metric_to("1", "5"), 8);
    assert_eq!(network.get_next_hop("1", "3"), "3");

    assert_eq!(network.get_next_hop("3", "4"), "1");
    assert_eq!(network.get_metric_to("3", "4"), 8);
}

#[test]
fn route_optimizer() {
    let mut network = vnet_simple_weighted();
    network.tick_n(10);

    network.update_edge(5, 1);

    network.tick_n(2);

    assert_eq!(network.get_next_hop("1", "5"), "3");
    assert_eq!(network.get_metric_to("1", "5"), 2);
}

#[test]
fn seqno_request() {
    let mut network = vnet_simple_weighted();
    network.tick_n(10);

    network.update_edge(4, 1);
    network.tick_n(2);
    assert_eq!(network.get_metric_to("1", "5"), 3);
    assert_eq!(network.get_next_hop("1", "5"), "3");

    network.update_edge(4, 2);
    network.tick_n(2);
    assert_eq!(network.get_metric_to("1", "5"), INF);
    assert_eq!(network.get_next_hop("1", "5"), "3");

    network.tick_n(3);
    assert_eq!(network.get_metric_to("1", "5"), 4);
    assert_eq!(network.get_next_hop("1", "5"), "3");
}

/// A small generator of numbers that look random and are the same each run.
struct Numbers(u64);

impl Numbers {
    fn next(&mut self, below: u64) -> u64 {
        self.0 = self.0.wrapping_mul(6364136223846793005).wrapping_add(1442695040888963407);
        (self.0 >> 33) % below
    }
}

/// Follows the next hops from `from` towards `origin`; panics on a cycle.
fn follow(network: &VirtualSystem, from: u32, origin: u32) {
    let mut at = from;
    let mut steps = 0;
    while at != origin {
        let router = match network.routers.iter().find(|r| r.address == at) {
            Some(router) => router,
            None => return,
        };
        let route = match router.routes.get(&origin) {
            Some(route) => route,
            None => return,
        };
        if route.retracted || route.metric == INF {
            return;
        }
        at = route.next_hop;
        steps += 1;
        assert!(steps <= network.routers.len(), "routing loop from {from} to {origin}");
    }
}

fn assert_loop_free(network: &VirtualSystem) {
    for from in &network.routers {
        for i in 0..from.routes.len() {
            follow(network, from.address, *from.routes.key_at(i));
        }
    }
}

#[test]
fn no_routing_loop_under_churn() {
    let mut numbers = Numbers(7);
    let nodes: Vec<String> = (1..=12).map(|n| n.to_string()).collect();
    let names: Vec<&str> = nodes.iter().map(|n| n.as_str()).collect();
    let mut links: Vec<(i32, &str, &str, u16)> = Vec::new();
    // a ring, so that the graph is connected, and chords across it
    for i in 0..12 {
        links.push((i as i32, names[i], names[(i + 1) % 12], 1 + numbers.next(99) as u16));
    }
    while links.len() < 24 {
        let a = numbers.next(12) as usize;
        let b = numbers.next(12) as usize;
        if a != b {
            links.push((links.len() as i32, names[a], names[b], 1 + numbers.next(99) as u16));
        }
    }
    let mut network = VirtualSystem::create(&names, &links);
    network.tick_n(12);
    assert_loop_free(&network);
    for _ in 0..150 {
        let edge = numbers.next(24) as i32;
        let metric = if numbers.next(5) == 0 { INF } else { 1 + numbers.next(99) as u16 };
        network.update_edge(edge, metric);
        for _ in 0..2 {
            network.tick();
            assert_loop_free(&network);
        }
    }
}

#[test]
fn converged_routes_keep_their_invariants() {
    let mut network = vnet_simple_weighted();
    network.tick_n(10);
    network.update_edge(3, INF);
    network.tick_n(5);
    for router in &network.routers {
        for i in 0..router.routes.len() {
            let route = router.routes.value_at(i);
            assert_ne!(*router.routes.key_at(i), router.address);
            if !route.retracted {
                assert!(route.fd <= route.metric);
            }
            assert_eq!(router.links.get(&route.link).unwrap().addr, route.next_hop);
        }
    }
}

/// Whether `at` has a live route to `origin` whose next hop is `via`.
fn live_through(network: &VirtualSystem, at: &str, origin: &str, via: &str) -> bool {
    match network.router(at).routes.get(&id(origin)) {
        Some(route) => route.next_hop == id(via) && route.metric != INF,
        None => false,
    }
}

#[test]
fn two_neighbours_never_route_through_each_other() {
    // 1 and 2 are neighbours; 9 is reached through 3, which both can see
    let mut network = VirtualSystem::create(
        &["1", "2", "3", "9"],
        &[(0, "1", "2", 1), (1, "1", "3", 4), (2, "2", "3", 2), (3, "3", "9", 1)],
    );
    let steps: [(i32, u16); 8] =
        [(2, INF), (1, INF), (1, 3), (2, 1), (3, INF), (3, 2), (0, 9), (2, INF)];
    network.tick_n(6);
    assert_eq!(network.get_next_hop("1", "9"), "2");
    assert_eq!(network.get_next_hop("2", "9"), "3");
    for (edge, metric) in steps {
        network.update_edge(edge, metric);
        for _ in 0..6 {
            network.tick();
            let there = live_through(&network, "1", "9", "2");
            let back = live_through(&network, "2", "9", "1");
            assert!(!(there && back));
        }
    }
}
