//! Mycelium-inspired network routing.
//!
//! Network links are hyphae, junctions are nodes, packets are nutrients.
//! This crate holds the discrete part of the model: link topology, identifier
//! allocation, breadth-first route finding, pruning and rerouting, and packet
//! time-to-live bookkeeping.

pub mod hypha;
pub mod graph;
pub mod growth;
pub mod decay;
pub mod nutrient;

pub use hypha::Hypha;
pub use growth::Growth;
pub use nutrient::Nutrient;
pub use decay::reroute;
