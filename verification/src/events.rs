//! The append-only event / provenance log.
//!
//! Every important change in the world is recorded as an event: creation,
//! split, merge, movement, ownership change, consumption, production, trade,
//! convoy activity, intel, TO&E assembly, combat, and explicit admin edits.

use crate::actors::Credits;
use crate::assets::ComponentCategory;
use crate::goods::LegalStatus;
use crate::ids::{ActorId, LocationId, CommodityId, LotId, DesignId, AssetId, ComponentDefId, ComponentId, MarketId, SellListingId, BuyOrderId, StockpileId, FactoryId, RecipeId, ProductionJobId, RouteId, ConvoyId, IntelId, ContractId, ToeTemplateId, FormationId, EventId, FactionGoalId};
use crate::locations::LocationRef;
use crate::time::DayQuarter;
use vstd::prelude::*;

verus! {

#[derive(Debug, Clone, PartialEq)]
pub struct Event {
    pub id: EventId,
    /// Monotonic sequence number, dense from 0.
    pub seq: u64,
    pub day: u64,
    pub quarter: DayQuarter,
    pub kind: EventKind,
}

#[derive(Debug, Clone, PartialEq)]
pub enum EventKind {
    WorldCreated { seed: u64 },
    DayAdvanced { day: u64 },
    ActorCreated { actor: ActorId, issued: Credits },
    LocationCreated { location: LocationId },
    RouteCreated { route: RouteId },
    CommodityDefined { commodity: CommodityId },
    DesignDefined { design: DesignId },
    ComponentDefDefined { def: ComponentDefId },
    LotCreated { lot: LotId, commodity: CommodityId, quantity: u64, owner: ActorId },
    LotSplit { parent: LotId, child: LotId, quantity: u64 },
    LotsMerged { sources: Vec<LotId>, result: LotId },
    LotMoved { lot: LotId, from: LocationRef, to: LocationRef },
    LotOwnerChanged { lot: LotId, from: ActorId, to: ActorId },
    LotConsumed { lot: LotId, job: ProductionJobId },
    /// Real goods destroyed by population consumption.
    GoodsConsumed { lot: LotId, commodity: CommodityId, owner: ActorId, quantity: u64 },
    MineYield { mine: LocationId, lot: LotId, quantity: u64 },
    /// Prospectors turned up a new, unclaimed mine.
    MineDiscovered { mine: LocationId },
    AssetCreated { asset: AssetId, design: DesignId, owner: ActorId },
    AssetMoved { asset: AssetId, from: LocationRef, to: LocationRef },
    AssetOwnerChanged { asset: AssetId, from: ActorId, to: ActorId },
    ComponentCreated { component: ComponentId, def: ComponentDefId, owner: ActorId },
    ComponentFitted { component: ComponentId, asset: AssetId, slot: u32 },
    ComponentFittedToFactory { component: ComponentId, factory: FactoryId, category: ComponentCategory },
    MarketCreated { market: MarketId },
    LotListed { listing: SellListingId, market: MarketId, lot: LotId, price_per_unit: Credits },
    ListingCancelled { listing: SellListingId },
    BuyOrderPlaced {
        order: BuyOrderId,
        buyer: ActorId,
        commodity: CommodityId,
        quantity: u64,
        limit_price_per_unit: Credits,
        escrow: Credits,
    },
    BuyOrderClosed { order: BuyOrderId, refunded: Credits },
    /// A real trade: real goods changed owner, real credits changed hands.
    TradeExecuted {
        listing: SellListingId,
        market: MarketId,
        seller: ActorId,
        buyer: ActorId,
        lot_delivered: LotId,
        quantity: u64,
        price_per_unit: Credits,
        total: Credits,
    },
    StockpileCreated { stockpile: StockpileId },
    FactoryCreated { factory: FactoryId },
    ToolingInstalled { factory: FactoryId, tooling: AssetId, cost: Credits, retooling_until: u64 },
    RecipeDefined { recipe: RecipeId },
    ProductionStarted { job: ProductionJobId, factory: FactoryId, recipe: RecipeId, consumed_lots: Vec<LotId> },
    ProductionCompleted {
        job: ProductionJobId,
        output_lots: Vec<LotId>,
        output_assets: Vec<AssetId>,
        output_components: Vec<ComponentId>,
    },
    ConvoyFormed { convoy: ConvoyId, at: LocationId },
    GuardAssigned { convoy: ConvoyId, asset: AssetId },
    CargoLotLoaded { convoy: ConvoyId, lot: LotId },
    CargoLotUnloaded { convoy: ConvoyId, lot: LotId, at: LocationId },
    CargoAssetLoaded { convoy: ConvoyId, asset: AssetId },
    CargoAssetUnloaded { convoy: ConvoyId, asset: AssetId, at: LocationId },
    ConvoyDeparted { convoy: ConvoyId, route: RouteId, arrives_day: u64 },
    ConvoyArrived { convoy: ConvoyId, at: LocationId },
    ConvoyDisbanded { convoy: ConvoyId, at: LocationId },
    IntelRecorded { intel: IntelId },
    IntelRelayed { source: IntelId, relayed: IntelId, via: ActorId },
    MisinformationPlanted { intel: IntelId, planter: Option<ActorId> },
    ContractIssued { contract: ContractId, employer: ActorId, escrow: Credits },
    ContractAccepted { contract: ContractId, contractor: ActorId },
    ContractCompleted { contract: ContractId, payout: Credits },
    ContractCancelled { contract: ContractId, refunded: Credits },
    SalvageSettled { contract: ContractId, contractor: ActorId, assets: Vec<AssetId>, lots: Vec<LotId> },
    IllegalSalvageFlagged { contract: ContractId, lot: LotId, legal_status: LegalStatus },
    ToeTemplateDefined { template: ToeTemplateId },
    FormationAssembled { formation: FormationId, template: ToeTemplateId, assets: Vec<AssetId> },
    FormationMarchOrdered { formation: FormationId, route: RouteId, arrives_day: u64 },
    FormationArrived { formation: FormationId, at: LocationId },
    /// A real battle resolved between two forces sharing a site.
    BattleResolved {
        site: LocationId,
        attacker: ActorId,
        defender: ActorId,
        attacker_won: bool,
        attacker_power: u64,
        defender_power: u64,
    },
    FactionGoalSet { goal: FactionGoalId, owner: ActorId, template: ToeTemplateId, site: LocationId },
    /// Faction procurement AI started real production toward a shortage.
    FactionProcurementStarted { goal: FactionGoalId, job: ProductionJobId },
    /// Faction procurement AI placed a real buy order for a missing input.
    FactionProcurementOrdered { goal: FactionGoalId, order: BuyOrderId, commodity: CommodityId },
    /// Explicit, auditable operator intervention.
    AdminEdit { operator: Option<ActorId>, description: String },
}

} // verus!
