//! Typed identifiers for every domain entity.
//!
//! Ids are plain `u64`s allocated deterministically by the world from a
//! single monotonic counter, so the same seed plus the same ordered inputs
//! allocate the same ids. They are newtyped so a `LotId` can never be used
//! where an `AssetId` is expected.

use vstd::prelude::*;

verus! {

/// Decision-making entity: faction, city authority, merc company, trader,
/// pirate polity, admin operator, player-class operator.
#[derive(Debug, Clone, Copy, PartialEq, Eq, Structural, PartialOrd, Ord, Hash)]
pub struct ActorId(pub u64);

/// Physical site: city, mine, refinery, factory site, warehouse, ruin.
#[derive(Debug, Clone, Copy, PartialEq, Eq, Structural, PartialOrd, Ord, Hash)]
pub struct LocationId(pub u64);

/// Definition of a fungible commodity (ore, armor plate, fuel, food).
#[derive(Debug, Clone, Copy, PartialEq, Eq, Structural, PartialOrd, Ord, Hash)]
pub struct CommodityId(pub u64);

/// A provenance-bearing physical batch of a commodity. Never an
/// originless pool.
#[derive(Debug, Clone, Copy, PartialEq, Eq, Structural, PartialOrd, Ord, Hash)]
pub struct LotId(pub u64);

/// A design (blueprint) for a serial asset of one exact model.
#[derive(Debug, Clone, Copy, PartialEq, Eq, Structural, PartialOrd, Ord, Hash)]
pub struct DesignId(pub u64);

/// An individual serial object with identity and history.
#[derive(Debug, Clone, Copy, PartialEq, Eq, Structural, PartialOrd, Ord, Hash)]
pub struct AssetId(pub u64);

/// Definition of a component type; compatibility is data.
#[derive(Debug, Clone, Copy, PartialEq, Eq, Structural, PartialOrd, Ord, Hash)]
pub struct ComponentDefId(pub u64);

/// An individual component instance with provenance.
#[derive(Debug, Clone, Copy, PartialEq, Eq, Structural, PartialOrd, Ord, Hash)]
pub struct ComponentId(pub u64);

/// A local physical market attached to a site.
#[derive(Debug, Clone, Copy, PartialEq, Eq, Structural, PartialOrd, Ord, Hash)]
pub struct MarketId(pub u64);

/// An offer to sell a specific real lot at a market.
#[derive(Debug, Clone, Copy, PartialEq, Eq, Structural, PartialOrd, Ord, Hash)]
pub struct SellListingId(pub u64);

/// An order to buy a quantity of a commodity, with funds escrowed.
#[derive(Debug, Clone, Copy, PartialEq, Eq, Structural, PartialOrd, Ord, Hash)]
pub struct BuyOrderId(pub u64);

/// A physical faction warehouse; possibly sequestered from open trade.
#[derive(Debug, Clone, Copy, PartialEq, Eq, Structural, PartialOrd, Ord, Hash)]
pub struct StockpileId(pub u64);

/// A production facility at a site.
#[derive(Debug, Clone, Copy, PartialEq, Eq, Structural, PartialOrd, Ord, Hash)]
pub struct FactoryId(pub u64);

/// A production recipe: exact inputs, outputs, duration, tooling.
#[derive(Debug, Clone, Copy, PartialEq, Eq, Structural, PartialOrd, Ord, Hash)]
pub struct RecipeId(pub u64);

/// A running or completed production job at a factory.
#[derive(Debug, Clone, Copy, PartialEq, Eq, Structural, PartialOrd, Ord, Hash)]
pub struct ProductionJobId(pub u64);

/// A travel route between two sites, measured in days.
#[derive(Debug, Clone, Copy, PartialEq, Eq, Structural, PartialOrd, Ord, Hash)]
pub struct RouteId(pub u64);

/// A convoy: real vehicles, real guards, real cargo.
#[derive(Debug, Clone, Copy, PartialEq, Eq, Structural, PartialOrd, Ord, Hash)]
pub struct ConvoyId(pub u64);

/// An immutable intel observation.
#[derive(Debug, Clone, Copy, PartialEq, Eq, Structural, PartialOrd, Ord, Hash)]
pub struct IntelId(pub u64);

/// A contract generated from the economy or the faction war.
#[derive(Debug, Clone, Copy, PartialEq, Eq, Structural, PartialOrd, Ord, Hash)]
pub struct ContractId(pub u64);

/// A Table of Organization & Equipment template (doctrine target).
#[derive(Debug, Clone, Copy, PartialEq, Eq, Structural, PartialOrd, Ord, Hash)]
pub struct ToeTemplateId(pub u64);

/// A formation assembled from real assets against a TO&E template.
#[derive(Debug, Clone, Copy, PartialEq, Eq, Structural, PartialOrd, Ord, Hash)]
pub struct FormationId(pub u64);

/// An entry in the append-only event/provenance log.
#[derive(Debug, Clone, Copy, PartialEq, Eq, Structural, PartialOrd, Ord, Hash)]
pub struct EventId(pub u64);

/// A standing TO&E doctrine goal a faction pursues.
#[derive(Debug, Clone, Copy, PartialEq, Eq, Structural, PartialOrd, Ord, Hash)]
pub struct FactionGoalId(pub u64);

} // verus!
