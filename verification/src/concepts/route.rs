//! Origin pairs and the routes built on them.
use crate::framework::{RootData, RoutingSystem, SignedSource};
use vstd::prelude::*;

verus! {

/// An origin and the sequence number it was advertised under.
pub struct Source<A> {
    pub addr: A,
    pub seqno: u16,
}

impl<A: RootData> RootData for Source<A> {
    fn duplicate(&self) -> (c: Self) {
        Source { addr: self.addr.duplicate(), seqno: self.seqno }
    }
}

/// The route selected for an origin.
pub struct Route<T: RoutingSystem> {
    /// The origin and sequence number that this route is advertised for.
    pub source: SignedSource<T>,
    /// The metric along the next hop, `INF` for a retracted route.
    pub metric: u16,
    /// The feasibility distance: the lowest metric that this router has
    /// advertised for the origin under its current sequence number.
    pub fd: u16,
    /// The link that leads to the next hop.
    pub link: T::Link,
    /// The address of the next hop.
    pub next_hop: T::NodeAddress,
    /// Whether the retraction of this route has been announced already.
    pub retracted: bool,
}

/// What a neighbour last advertised for an origin.
pub struct ExternalRoute<T: RoutingSystem> {
    /// The origin and sequence number that the neighbour advertised.
    pub source: SignedSource<T>,
    /// The metric that the neighbour advertised, `INF` for a retraction.
    pub metric: u16,
    /// Set once the neighbour has advertised `INF`.
    pub retracted: bool,
}

} // verus!
