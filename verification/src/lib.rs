//! Strategic economic and faction-war simulation.
//!
//! Everything important is real: no fake inventories, no spawned units, no
//! abstract market availability. Goods are provenance-bearing lots, money is
//! conserved, convoys carry real cargo, formations are assembled from real
//! assets. The world is deterministic: same seed and same ordered inputs
//! give the same state.

pub mod actors;
pub mod arith;
pub mod assets;
pub mod combat;
pub mod content;
pub mod convoys;
pub mod decimal;
pub mod error;
pub mod events;
pub mod faction_ai;
pub mod goods;
pub mod ids;
pub mod intel;
pub mod invariants;
pub mod locations;
pub mod markets;
pub mod production;
pub mod rng;
pub mod seed;
pub mod stockpiles;
pub mod storage;
pub mod table;
pub mod tiers;
pub mod time;
pub mod toe;
pub mod war;
pub mod world;

pub use error::SimError;
pub use world::World;
