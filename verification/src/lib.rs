//! A loop-free distance-vector routing engine.
//!
//! Each node owns a [`router::Router`]: a table of links to its direct
//! neighbours, what every neighbour last advertised, and the route selected
//! for every known origin. Routes are only adopted when they are feasible and
//! the sequence numbers of an origin never run backwards, which keeps the
//! mesh free of forwarding loops while it reconverges.
pub mod concepts;
pub mod feedback;
pub mod framework;
pub mod laws;
pub mod loop_freedom;
pub mod model;
pub mod router;
pub mod table;
pub mod util;
