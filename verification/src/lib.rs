//! Road graph, vehicle profiles and A* routing for 50cc scooters and
//! licence-free cars, with every decision proved against its contract.

pub mod text;
pub mod graph;
pub mod profile;
pub mod queue;
pub mod routing;
pub mod spatial;
pub mod pbf;
pub mod api;
pub mod laws;
