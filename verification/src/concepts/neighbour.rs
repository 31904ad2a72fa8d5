//! A direct neighbour and what it has advertised.
use crate::concepts::route::ExternalRoute;
use crate::framework::RoutingSystem;
use crate::table::Table;
use crate::util::INF;
use vstd::prelude::*;

verus! {

/// The node at the other end of a link.
pub struct Neighbour<T: RoutingSystem> {
    /// The neighbour's address on the routing network.
    pub addr: T::NodeAddress,
    /// The neighbour's latest advertisement for each origin.
    pub routes: Table<T::NodeAddress, ExternalRoute<T>>,
    /// The cost of the link to this neighbour; lower is better, `INF` when
    /// the link is down.
    pub metric: u16,
}

/// A neighbour with its advertisements as a sequence.
pub struct NeighbourView<T: RoutingSystem> {
    pub addr: T::NodeAddress,
    pub routes: Seq<(T::NodeAddress, ExternalRoute<T>)>,
    pub metric: u16,
}

impl<T: RoutingSystem> View for Neighbour<T> {
    type V = NeighbourView<T>;

    open spec fn view(&self) -> NeighbourView<T> {
        NeighbourView { addr: self.addr, routes: self.routes@, metric: self.metric }
    }
}

impl<T: RoutingSystem> Neighbour<T> {
    /// A neighbour that has advertised nothing yet. Its link counts as down
    /// until the host sets its metric.
    pub fn new(addr: T::NodeAddress) -> (n: Neighbour<T>)
        ensures
            n@ == (NeighbourView::<T> { addr, routes: Seq::empty(), metric: INF }),
    {
        Neighbour { addr, routes: Table::new(), metric: INF }
    }
}

} // verus!
