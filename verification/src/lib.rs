//! Route computation over a road network: shortest-path search,
//! predecessor-chain reconstruction, multi-waypoint stitching, nearest-node
//! resolution and route-deviation detection.
//!
//! Distances are whole millimetres and coordinates are whole units of
//! 1e-7 degree, so every rule of the library is stated over integers. The
//! library fetches nothing and measures nothing itself: the caller hands it
//! nodes and distances, and it decides.
//!
//! * [`queue`], [`frontier`] and [`path`] hold the bookkeeping of a search:
//!   the priority queue, the best known costs with their predecessor links,
//!   and the walk back along those links.
//! * [`search`] is the engine over a network whose nodes are fetched on
//!   demand, as a state machine with a time budget; [`network`] proves what
//!   it finds when the store answers truthfully.
//! * [`graph`], [`edge_list`], [`dijkstra`] and [`reach`] are the same
//!   search over an edge list held in memory.
//! * [`resolver`], [`stitch`] and [`deviation`] snap waypoints to nodes,
//!   join the paths of consecutive segments, and tell whether a traveller
//!   has left a route.

pub mod deviation;
pub mod dijkstra;
pub mod edge_list;
pub mod error;
pub mod frontier;
pub mod graph;
pub mod network;
pub mod node;
pub mod path;
pub mod queue;
pub mod reach;
pub mod resolver;
pub mod search;
pub mod stitch;
