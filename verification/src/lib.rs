//! Routing over road maps.
//!
//! The library keeps the nodes, ways and edges of a map (`osm_graph`),
//! builds the edges by cutting each kept way at its junctions and weighing
//! the segments (`osm_reader`), finds shortest routes and loops through
//! waypoints (`route_calculation`, on the queue of `queue`), and turns the
//! edges of a route into a line of positions with instructions
//! (`instructions`). `graph` holds the records of a map, `tags` their tags.
//!
//! Every rule of the library is exact, because it reckons in whole numbers.
//! A position is a pair of integers in units of 1e-7 degree. A length is an
//! integer in a unit that the caller fixes, and so is a distance from a
//! place to a node: what is measured on the globe is measured by the caller
//! and handed in. The weight of an edge is in half units of length, so that
//! half a length is a whole number.

pub mod graph;
pub mod instructions;
pub mod osm_graph;
pub mod osm_reader;
pub mod queue;
pub mod route_calculation;
pub mod tags;
pub mod text;
