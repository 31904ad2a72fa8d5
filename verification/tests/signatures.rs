use root::concepts::neighbour::Neighbour;
use root::concepts::packet::{Packet, RouteUpdate};
use root::concepts::route::{ExternalRoute, Route, Source};
use root::feedback::RoutingError;
use root::framework::{MACSignature, MACSystem, RootData, RoutingSystem};
use root::router::{is_feasible, DummyMAC, NoMACSystem, Router, INF};
use root::table::Table;

/// A value with the address of the node that claims to have signed it.
struct Stamped<V> {
    value: V,
    signer: u32,
}

impl<V> MACSignature<V> for Stamped<V> {
    fn signed(&self) -> V {
        unreachable!()
    }

    fn data(&self) -> &V {
        &self.value
    }

    fn data_mut(&mut self) -> &mut V {
        &mut self.value
    }
}

impl RootData for Stamped<Source<u32>> {
    fn duplicate(&self) -> Self {
        Stamped { value: self.value.duplicate(), signer: self.signer }
    }
}

/// Accepts a signature when it carries the address of its subject.
#[derive(Default)]
struct Stamps;

impl MACSystem<u32> for Stamps {
    type SourceMAC = Stamped<Source<u32>>;
    type PacketMAC = Stamped<Packet<u32, Stamped<Source<u32>>>>;

    fn source_valid(&self, sig: &Self::SourceMAC, subject: &u32) -> bool {
        sig.signer == *subject
    }

    fn packet_valid(&self, sig: &Self::PacketMAC, subject: &u32) -> bool {
        sig.signer == *subject
    }

    fn sign_source(&self, data: Source<u32>, signer: &u32) -> Self::SourceMAC {
        Stamped { value: data, signer: *signer }
    }

    fn sign_packet(&self, data: Packet<u32, Self::SourceMAC>, signer: &u32) -> Self::PacketMAC {
        Stamped { value: data, signer: *signer }
    }

    fn copy_packet(&self, sig: &Self::PacketMAC) -> Self::PacketMAC {
        Stamped { value: sig.value.duplicate(), signer: sig.signer }
    }

    fn validate_source(&self, sig: &Self::SourceMAC, subject: &u32) -> bool {
        self.source_valid(sig, subject)
    }

    fn validate_packet(&self, sig: &Self::PacketMAC, subject: &u32) -> bool {
        self.packet_valid(sig, subject)
    }
}

struct Signed;

impl RoutingSystem for Signed {
    type NodeAddress = u32;
    type Link = i32;
    type MACSystem = Stamps;
}

fn stamped_source(addr: u32, seqno: u16, signer: u32) -> Stamped<Source<u32>> {
    Stamped { value: Source { addr, seqno }, signer }
}

fn stamped_update(
    addr: u32,
    seqno: u16,
    metric: u16,
    signer: u32,
) -> RouteUpdate<Stamped<Source<u32>>> {
    RouteUpdate { source: stamped_source(addr, seqno, signer), metric }
}

fn router() -> Router<Signed> {
    let mut router = Router::new(1);
    router.links.insert(10, Neighbour { addr: 2, routes: Table::new(), metric: 3 });
    router
}

fn link_of(error: RoutingError<Signed>) -> i32 {
    match error {
        RoutingError::MACValidationFail { link } => link,
    }
}

#[test]
fn packet_with_a_forged_sender_is_rejected() {
    let mut r = router();
    let packet = Stamped {
        value: Packet::UrgentRouteUpdate(stamped_update(9, 5, 4, 9)),
        signer: 3,
    };
    let result = r.handle_packet(&packet, &10, &2);
    assert_eq!(link_of(result.err().unwrap()), 10);
    assert_eq!(r.links.get(&10).unwrap().routes.len(), 0);
    assert!(r.outbound_packets.is_empty());
}

#[test]
fn update_with_a_forged_origin_is_rejected() {
    let mut r = router();
    let packet = Stamped {
        value: Packet::UrgentRouteUpdate(stamped_update(9, 5, 4, 2)),
        signer: 2,
    };
    let result = r.handle_packet(&packet, &10, &2);
    assert_eq!(link_of(result.err().unwrap()), 10);
    assert_eq!(r.links.get(&10).unwrap().routes.len(), 0);
}

#[test]
fn batch_with_one_forged_origin_changes_nothing() {
    let mut r = router();
    let packet = Stamped {
        value: Packet::BatchRouteUpdate {
            routes: vec![
                stamped_update(9, 5, 4, 9),
                stamped_update(8, 1, 4, 7),
                stamped_update(7, 1, 4, 7),
            ],
        },
        signer: 2,
    };
    let result = r.handle_packet(&packet, &10, &2);
    assert_eq!(link_of(result.err().unwrap()), 10);
    assert_eq!(r.links.get(&10).unwrap().routes.len(), 0);
    assert_eq!(r.broadcast_route_for.len(), 0);
}

#[test]
fn forged_update_about_this_node_is_ignored_unread() {
    let mut r = router();
    let packet = Stamped {
        value: Packet::UrgentRouteUpdate(stamped_update(1, 5, 4, 99)),
        signer: 2,
    };
    assert!(r.handle_packet(&packet, &10, &2).is_ok());
    assert_eq!(r.links.get(&10).unwrap().routes.len(), 0);
}

#[test]
fn properly_signed_packets_are_accepted_and_sent_signed() {
    let mut r = router();
    let packet = Stamped {
        value: Packet::BatchRouteUpdate {
            routes: vec![stamped_update(9, 5, 4, 9), stamped_update(8, 1, 4, 8)],
        },
        signer: 2,
    };
    assert!(r.handle_packet(&packet, &10, &2).is_ok());
    assert_eq!(r.links.get(&10).unwrap().routes.len(), 2);
    r.full_update();
    assert_eq!(r.outbound_packets.len(), 1);
    let out = &r.outbound_packets[0];
    assert_eq!(out.packet.signer, 1);
    match &out.packet.value {
        Packet::BatchRouteUpdate { routes } => {
            let signers: Vec<u32> = routes.iter().map(|u| u.source.signer).collect();
            assert_eq!(signers, vec![9, 8, 1]);
        }
        _ => panic!("expected the full table"),
    }
}

#[test]
fn null_signatures_accept_everything() {
    let system = NoMACSystem::default();
    let sig = MACSystem::<u32>::sign_source(&system, Source { addr: 4, seqno: 2 }, &1);
    assert_eq!(sig.data.addr, 4);
    assert_eq!(sig.data.seqno, 2);
    assert!(MACSystem::<u32>::validate_source(&system, &sig, &77));
    let mut sig = DummyMAC::from(Source { addr: 4u32, seqno: 2 });
    sig.data_mut().seqno = 3;
    assert_eq!(sig.data().seqno, 3);
    assert_eq!(sig.duplicate().data.seqno, 3);
}

/// The outbound packets as (signer of the packet, what it holds, signer of
/// each origin pair in it).
fn queue(router: &Router<Signed>) -> Vec<(u32, String, Vec<u32>)> {
    router
        .outbound_packets
        .iter()
        .map(|o| match &o.packet.value {
            Packet::UrgentRouteUpdate(u) => {
                let pair = &u.source.value;
                let text = format!("urgent {} {} {}", pair.addr, pair.seqno, u.metric);
                (o.packet.signer, text, vec![u.source.signer])
            }
            Packet::BatchRouteUpdate { routes } => (
                o.packet.signer,
                format!("batch of {}", routes.len()),
                routes.iter().map(|u| u.source.signer).collect(),
            ),
            Packet::SeqnoRequest { source, seqno } => {
                (o.packet.signer, format!("request {source} {seqno}"), vec![])
            }
        })
        .collect()
}

#[test]
fn queued_packets_are_left_as_they_are() {
    let mut r = router();
    // a packet that some other node signed waits in the queue
    let waiting = Stamped { value: Packet::SeqnoRequest { source: 5, seqno: 2 }, signer: 77 };
    r.write_broadcast_packet(&waiting);
    let before = queue(&r);
    assert_eq!(before, vec![(77, "request 5 2".to_string(), vec![])]);

    let batch = Stamped {
        value: Packet::BatchRouteUpdate { routes: vec![stamped_update(9, 5, 4, 9)] },
        signer: 2,
    };
    r.handle_packet(&batch, &10, &2).ok().unwrap();
    assert_eq!(queue(&r), before);
    let forged = Stamped {
        value: Packet::UrgentRouteUpdate(stamped_update(8, 1, 1, 2)),
        signer: 2,
    };
    assert!(r.handle_packet(&forged, &10, &2).is_err());
    assert_eq!(queue(&r), before);
    let unknown = Stamped { value: Packet::SeqnoRequest { source: 6, seqno: 1 }, signer: 2 };
    r.handle_packet(&unknown, &10, &2).ok().unwrap();
    assert_eq!(queue(&r), before);

    r.full_update();
    r.update();
    r.solve_starvation();
    let after = queue(&r);
    assert_eq!(after[0], before[0]);
    assert!(after.len() > 1);
    // all that this node queued since is signed as its own
    assert!(after[1..].iter().all(|(signer, _, _)| *signer == 1));
}

#[test]
fn what_is_sent_carries_the_signature_of_the_origin() {
    let mut r = router();
    r.links.insert(20, Neighbour { addr: 3, routes: Table::new(), metric: 1 });
    let batch = Stamped {
        value: Packet::BatchRouteUpdate {
            routes: vec![stamped_update(9, 5, 4, 9), stamped_update(8, 1, 2, 8)],
        },
        signer: 2,
    };
    r.handle_packet(&batch, &10, &2).ok().unwrap();
    r.update_routes();
    // an announcement of a route, and one of this node itself
    r.broadcast_route_for.insert(8, ());
    r.broadcast_route_for.insert(1, ());
    r.broadcast_seqno_updates();
    assert_eq!(
        queue(&r),
        vec![
            (1, "urgent 8 1 5".to_string(), vec![8]),
            (1, "urgent 8 1 5".to_string(), vec![8]),
            (1, "urgent 1 0 0".to_string(), vec![1]),
            (1, "urgent 1 0 0".to_string(), vec![1]),
        ]
    );
    r.outbound_packets.clear();
    // a retraction of a route whose link went down
    r.links.get_mut(&10).unwrap().metric = INF;
    r.update_routes();
    assert_eq!(
        queue(&r),
        vec![
            (1, "urgent 9 5 65535".to_string(), vec![9]),
            (1, "urgent 9 5 65535".to_string(), vec![9]),
            (1, "urgent 8 1 65535".to_string(), vec![8]),
            (1, "urgent 8 1 65535".to_string(), vec![8]),
        ]
    );
    r.outbound_packets.clear();
    // a retraction that is passed on carries the signature it came with
    r.links.get_mut(&10).unwrap().metric = 3;
    let again = Stamped {
        value: Packet::UrgentRouteUpdate(stamped_update(9, 6, 4, 9)),
        signer: 2,
    };
    r.handle_packet(&again, &10, &2).ok().unwrap();
    r.update();
    r.outbound_packets.clear();
    let withdrawn = Stamped {
        value: Packet::UrgentRouteUpdate(stamped_update(9, 6, INF, 9)),
        signer: 2,
    };
    r.handle_packet(&withdrawn, &10, &2).ok().unwrap();
    assert_eq!(
        queue(&r),
        vec![
            (1, "urgent 9 6 65535".to_string(), vec![9]),
            (1, "urgent 9 6 65535".to_string(), vec![9]),
        ]
    );
}

#[test]
fn feasibility_is_decided_by_seqno_then_metric() {
    let selected = |metric: u16, fd: u16| -> Route<Signed> {
        Route {
            source: stamped_source(9, 5, 9),
            metric,
            fd,
            link: 10,
            next_hop: 2,
            retracted: metric == INF,
        }
    };
    let offer = |seqno: u16| -> ExternalRoute<Signed> {
        ExternalRoute { source: stamped_source(9, seqno, 9), metric: 0, retracted: false }
    };
    // under the same seqno only a metric under the feasibility distance passes
    assert_eq!(is_feasible(&selected(10, 10), &offer(5), 9), Some(9));
    assert_eq!(is_feasible(&selected(10, 10), &offer(5), 10), None);
    assert_eq!(is_feasible(&selected(12, 10), &offer(5), 11), None);
    // unless the selected route is withdrawn and the metric is that distance
    assert_eq!(is_feasible(&selected(INF, 10), &offer(5), 10), Some(10));
    assert_eq!(is_feasible(&selected(INF, 10), &offer(5), 11), None);
    // a later seqno passes at any metric, an earlier one at none
    assert_eq!(is_feasible(&selected(10, 10), &offer(6), 500), Some(500));
    assert_eq!(is_feasible(&selected(10, 10), &offer(4), 1), None);
}
