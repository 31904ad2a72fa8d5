//! What nodes send to each other.
use crate::framework::{MACSignature, RootData, RoutingSystem, SignedPacket, SignedSource};
use vstd::prelude::*;

verus! {

/// One advertisement: the signed origin pair and the sender's metric to it.
pub struct RouteUpdate<S> {
    /// The origin pair, signed by the origin.
    pub source: S,
    pub metric: u16,
}

/// The three messages of the protocol. `A` is the type of the node addresses,
/// `S` that of the signed origin pairs.
pub enum Packet<A, S> {
    /// A single, unscheduled update that is sent at once.
    UrgentRouteUpdate(RouteUpdate<S>),
    /// The full table, sent periodically to every neighbour.
    BatchRouteUpdate { routes: Vec<RouteUpdate<S>> },
    /// Asks for an update on `source` under sequence number `seqno` or later.
    SeqnoRequest { source: A, seqno: u16 },
}

/// What a packet holds: its kind and its updates in their order, each with
/// the signature of its origin.
pub enum Message<A, S> {
    UrgentRouteUpdate(RouteUpdate<S>),
    BatchRouteUpdate { routes: Seq<RouteUpdate<S>> },
    SeqnoRequest { source: A, seqno: u16 },
}

impl<A, S> View for Packet<A, S> {
    type V = Message<A, S>;

    open spec fn view(&self) -> Message<A, S> {
        match *self {
            Packet::UrgentRouteUpdate(update) => Message::UrgentRouteUpdate(update),
            Packet::BatchRouteUpdate { routes } => Message::BatchRouteUpdate { routes: routes@ },
            Packet::SeqnoRequest { source, seqno } => Message::SeqnoRequest { source, seqno },
        }
    }
}

impl<S: RootData> RootData for RouteUpdate<S> {
    fn duplicate(&self) -> (c: Self) {
        RouteUpdate { source: self.source.duplicate(), metric: self.metric }
    }
}

/// Both packets are of the same kind and hold the same updates, signatures
/// included, in the same order. That is to say that they hold the same.
pub open spec fn same_packet<A, S>(a: Packet<A, S>, b: Packet<A, S>) -> bool {
    match (a, b) {
        (Packet::UrgentRouteUpdate(u), Packet::UrgentRouteUpdate(v)) => u == v,
        (Packet::BatchRouteUpdate { routes: r }, Packet::BatchRouteUpdate { routes: q }) => r@
            == q@,
        (
            Packet::SeqnoRequest { source: s, seqno: n },
            Packet::SeqnoRequest { source: t, seqno: m },
        ) => s == t && n == m,
        _ => false,
    }
}

/// Two packets are the same packet exactly where they hold the same.
pub proof fn lemma_same_packet<A, S>(a: Packet<A, S>, b: Packet<A, S>)
    ensures
        same_packet(a, b) <==> a@ == b@,
{
}

impl<A: RootData, S: RootData> Packet<A, S> {
    /// A copy that holds the same.
    pub fn duplicate(&self) -> (c: Self)
        ensures
            same_packet(*self, c),
            c@ == self@,
    {
        match self {
            Packet::UrgentRouteUpdate(update) => Packet::UrgentRouteUpdate(update.duplicate()),
            Packet::BatchRouteUpdate { routes } => {
                let mut copy: Vec<RouteUpdate<S>> = Vec::new();
                let mut i: usize = 0;
                while i < routes.len()
                    invariant
                        i <= routes.len(),
                        copy@ == routes@.take(i as int),
                    decreases routes.len() - i,
                {
                    copy.push(routes[i].duplicate());
                    assert(copy@ =~= routes@.take(i + 1));
                    i += 1;
                }
                assert(copy@ == routes@) by {
                    assert(routes@.take(routes.len() as int) =~= routes@);
                }
                Packet::BatchRouteUpdate { routes: copy }
            },
            Packet::SeqnoRequest { source, seqno } => Packet::SeqnoRequest {
                source: source.duplicate(),
                seqno: *seqno,
            },
        }
    }
}

/// A packet on its way to a neighbour.
pub struct OutboundPacket<T: RoutingSystem> {
    /// Send over this link.
    pub link: T::Link,
    /// The neighbour at the other end.
    pub dest: T::NodeAddress,
    pub packet: SignedPacket<T>,
}

/// What the packets of a routing system hold.
pub type MessageOf<T> = Message<<T as RoutingSystem>::NodeAddress, SignedSource<T>>;

/// An outbound packet as the transport and the recipient read it: where it
/// goes and what it holds.
pub struct Wire<T: RoutingSystem> {
    pub link: T::Link,
    pub dest: T::NodeAddress,
    pub message: MessageOf<T>,
}

impl<T: RoutingSystem> View for OutboundPacket<T> {
    type V = Wire<T>;

    open spec fn view(&self) -> Wire<T> {
        Wire { link: self.link, dest: self.dest, message: self.packet.signed()@ }
    }
}

} // verus!
