//! The records that the router keeps and exchanges.
pub mod neighbour;
pub mod packet;
pub mod route;
