//! A verified logistics core for a satellite network: nodes store typed
//! resource units, edges link nodes into an undirected graph, demands are
//! matched to stored units by breadth-first search, and matched units travel
//! their committed route hop by hop, revalidating it at every waypoint.

pub mod graph;
pub mod kind;
pub mod matcher;
pub mod supply;
pub mod timer;
pub mod transit;
pub mod world;
