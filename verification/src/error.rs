//! Simulation errors.
//!
//! Errors are how the "everything important is real" axiom bites: you cannot
//! list goods that are not physically at the market, load cargo that is not
//! at the convoy's site, consume inputs that do not exist, or spend money a
//! treasury does not hold.

use crate::assets::{AssetKind, ComponentCategory};
use crate::ids::{ActorId, LocationId, CommodityId, LotId, DesignId, AssetId, ComponentDefId, ComponentId, MarketId, SellListingId, BuyOrderId, StockpileId, FactoryId, RecipeId, ProductionJobId, RouteId, ConvoyId, IntelId, ContractId, ToeTemplateId, FormationId};
use crate::toe::ToeShortage;
use vstd::prelude::*;

verus! {

#[derive(Debug, Clone, PartialEq)]
pub enum SimError {
    UnknownActor(ActorId),
    UnknownLocation(LocationId),
    UnknownCommodity(CommodityId),
    UnknownLot(LotId),
    UnknownDesign(DesignId),
    UnknownAsset(AssetId),
    UnknownComponentDef(ComponentDefId),
    UnknownComponent(ComponentId),
    UnknownMarket(MarketId),
    UnknownListing(SellListingId),
    UnknownOrder(BuyOrderId),
    UnknownStockpile(StockpileId),
    UnknownFactory(FactoryId),
    UnknownRecipe(RecipeId),
    UnknownJob(ProductionJobId),
    UnknownRoute(RouteId),
    UnknownConvoy(ConvoyId),
    UnknownIntel(IntelId),
    UnknownContract(ContractId),
    UnknownToeTemplate(ToeTemplateId),
    UnknownFormation(FormationId),
    /// The acting actor does not own the thing it is trying to use.
    NotOwner { actor: ActorId },
    /// Two things that must be physically together are not.
    NotColocated,
    /// The lot is not in the `Active` state (it is listed, consumed, merged
    /// away, or depleted).
    LotNotActive(LotId),
    /// Zero or otherwise nonsensical quantity.
    InvalidQuantity,
    /// Real goods ran out: the offered lots do not cover the requirement.
    InsufficientQuantity { commodity: CommodityId, missing: u64 },
    /// Not enough loose components matching an accepted def were physically
    /// on hand to cover a recipe's requirement.
    InsufficientComponents { accepts: Vec<ComponentDefId>, missing: u32 },
    /// The treasury cannot cover the cost. Money is real too.
    InsufficientFunds { actor: ActorId, needed: i64, available: i64 },
    /// Arithmetic overflow in money or quantity math.
    Overflow,
    /// Component is not compatible with the target slot.
    IncompatibleComponent { component: ComponentId, asset: AssetId, slot: u32 },
    /// The slot already holds a component.
    SlotOccupied { asset: AssetId, slot: u32 },
    /// The location exists but is the wrong kind for this operation.
    InvalidLocationKind(LocationId),
    /// The asset exists but is the wrong kind.
    InvalidAssetKind(AssetId),
    /// Convoy is not at a site (it is en route or disbanded).
    ConvoyNotAtSite(ConvoyId),
    /// Formation is not at a site (it is already en route).
    FormationNotAtSite(FormationId),
    /// Factory tooling missing or bound to a different exact design.
    ToolingMismatch { factory: FactoryId },
    /// Goods in a sequestered stockpile cannot be freely traded.
    SequesteredStockpile(StockpileId),
    /// Lots cannot merge unless commodity, quality, legal status, owner and
    /// location all match.
    MergeMismatch(String),
    /// Seeding APIs only accept seed-class origins.
    InvalidOrigin(String),
    /// TO&E assembly failed: real assets are missing.
    ToeShortage(Vec<ToeShortage>),
    /// A design's declared component slots do not meet the per-kind rule
    /// (mechs: exactly 5; weapons/equipment: 5-6).
    InvalidSlotCount { kind: AssetKind, got: usize },
    /// A component's category does not fit the slot kind being targeted.
    WrongComponentCategory { component: ComponentId },
    /// A factory's fixed sub-system slot is already filled.
    FactorySlotOccupied { factory: FactoryId, category: ComponentCategory },
    /// A factory is missing sub-system components and cannot run.
    FactoryIncomplete { factory: FactoryId, missing: Vec<ComponentCategory> },
    /// The contract's objective is not actually true against live state yet.
    ContractNotFulfilled(ContractId),
    /// Salvage settlement would exceed the contract's tonnage cap.
    SalvageCapExceeded { contract: ContractId, requested: u64, cap: u64 },
    /// A tier outside the refinement ladder.
    InvalidTier(u8),
    /// Catch-all for state-machine violations.
    InvalidState(String),
}

/// An error of the expected kind: variants that carry only a free-text
/// message match on the variant; those that carry a list match on their
/// other fields (callers state the list separately); every other variant
/// matches on its exact value.
pub open spec fn error_matches(actual: SimError, expected: SimError) -> bool {
    match (actual, expected) {
        (SimError::InvalidState(_), SimError::InvalidState(_)) => true,
        (SimError::MergeMismatch(_), SimError::MergeMismatch(_)) => true,
        (SimError::InvalidOrigin(_), SimError::InvalidOrigin(_)) => true,
        (SimError::FactoryIncomplete { factory: a, .. }, SimError::FactoryIncomplete { factory: b, .. }) => a == b,
        (
            SimError::InsufficientComponents { missing: a, .. },
            SimError::InsufficientComponents { missing: b, .. },
        ) => a == b,
        (SimError::ToeShortage(_), SimError::ToeShortage(_)) => true,
        _ => actual == expected,
    }
}

/// A result of the expected shape: the same value, or an error of the
/// expected kind (see `error_matches`).
pub open spec fn outcome_matches<T>(actual: Result<T, SimError>, expected: Result<T, SimError>) -> bool {
    match (actual, expected) {
        (Ok(a), Ok(b)) => a == b,
        (Err(a), Err(b)) => error_matches(a, b),
        _ => false,
    }
}

/// Stand-in for "an `InvalidState` with some message".
pub open spec fn invalid_state() -> SimError {
    SimError::InvalidState(vstd::pervasive::arbitrary::<String>())
}

/// `quantity * price_per_unit` is representable as an `i64` credit amount.
pub open spec fn money_product_fits(quantity: u64, price_per_unit: i64) -> bool {
    &&& quantity <= i64::MAX
    &&& i64::MIN <= quantity * price_per_unit <= i64::MAX
}

/// Checked money math: `quantity * price_per_unit`.
pub(crate) fn mul_money(quantity: u64, price_per_unit: i64) -> (r: Result<i64, SimError>)
    ensures
        money_product_fits(quantity, price_per_unit) ==> r == Ok::<i64, SimError>(
            (quantity * price_per_unit) as i64,
        ),
        !money_product_fits(quantity, price_per_unit) ==> r == Err::<i64, SimError>(
            SimError::Overflow,
        ),
{
    if quantity > 0x7fff_ffff_ffff_ffffu64 {
        return Err(SimError::Overflow);
    }
    let q: i64 = quantity as i64;
    match q.checked_mul(price_per_unit) {
        Some(v) => Ok(v),
        None => Err(SimError::Overflow),
    }
}


/// The name of an asset kind, as written in messages.
pub open spec fn kind_label(k: AssetKind) -> Seq<char> {
    match k {
        AssetKind::Mech => "Mech"@,
        AssetKind::Vehicle => "Vehicle"@,
        AssetKind::Weapon => "Weapon"@,
        AssetKind::Equipment => "Equipment"@,
        AssetKind::FactoryTooling => "FactoryTooling"@,
        AssetKind::CargoContainer => "CargoContainer"@,
    }
}

/// The name of a component category, as written in messages.
pub open spec fn category_label(c: ComponentCategory) -> Seq<char> {
    match c {
        ComponentCategory::MechOrEquipment => "MechOrEquipment"@,
        ComponentCategory::FactoryLabor => "FactoryLabor"@,
        ComponentCategory::FactoryAssemblyLine => "FactoryAssemblyLine"@,
        ComponentCategory::FactoryPower => "FactoryPower"@,
        ComponentCategory::FactoryControl => "FactoryControl"@,
        ComponentCategory::FactoryQualityAssurance => "FactoryQualityAssurance"@,
    }
}

/// The items of a category list, separated by commas.
pub open spec fn category_items(v: Seq<ComponentCategory>) -> Seq<char>
    decreases v.len(),
{
    if v.len() == 0 {
        Seq::empty()
    } else if v.len() == 1 {
        category_label(v[0])
    } else {
        category_items(v.drop_last()) + ", "@ + category_label(v.last())
    }
}

/// `[a, b, ...]` of a list of categories.
pub open spec fn category_list_text(v: Seq<ComponentCategory>) -> Seq<char> {
    "["@ + category_items(v) + "]"@
}

/// One component definition as listed in messages.
pub open spec fn def_item(d: ComponentDefId) -> Seq<char> {
    "ComponentDefId("@ + crate::decimal::decimal(d.0 as nat) + ")"@
}

/// The items of a definition list, separated by commas.
pub open spec fn def_items(v: Seq<ComponentDefId>) -> Seq<char>
    decreases v.len(),
{
    if v.len() == 0 {
        Seq::empty()
    } else if v.len() == 1 {
        def_item(v[0])
    } else {
        def_items(v.drop_last()) + ", "@ + def_item(v.last())
    }
}

/// `[ComponentDefId(a), ...]` of a list of component definitions.
pub open spec fn def_list_text(v: Seq<ComponentDefId>) -> Seq<char> {
    "["@ + def_items(v) + "]"@
}

/// The name of an asset kind, as written in messages.
pub fn kind_name(k: AssetKind) -> (s: &'static str)
    ensures
        s@ == kind_label(k),
{
    match k {
        AssetKind::Mech => "Mech",
        AssetKind::Vehicle => "Vehicle",
        AssetKind::Weapon => "Weapon",
        AssetKind::Equipment => "Equipment",
        AssetKind::FactoryTooling => "FactoryTooling",
        AssetKind::CargoContainer => "CargoContainer",
    }
}

/// The name of a component category, as written in messages.
pub fn category_name(c: ComponentCategory) -> (s: &'static str)
    ensures
        s@ == category_label(c),
{
    match c {
        ComponentCategory::MechOrEquipment => "MechOrEquipment",
        ComponentCategory::FactoryLabor => "FactoryLabor",
        ComponentCategory::FactoryAssemblyLine => "FactoryAssemblyLine",
        ComponentCategory::FactoryPower => "FactoryPower",
        ComponentCategory::FactoryControl => "FactoryControl",
        ComponentCategory::FactoryQualityAssurance => "FactoryQualityAssurance",
    }
}

/// `[a, b, ...]` of a list of categories.
fn category_list(v: &Vec<ComponentCategory>) -> (s: String)
    ensures
        s@ == category_list_text(v@),
{
    let mut s = "[".to_owned();
    let mut i: usize = 0;
    while i < v.len()
        invariant
            i <= v@.len(),
            s@ == "["@ + category_items(v@.take(i as int)),
        decreases v@.len() - i,
    {
        proof {
            assert(v@.take(i + 1).drop_last() =~= v@.take(i as int));
            assert(v@.take(i + 1).last() == v@[i as int]);
        }
        if i > 0 {
            s = s.concat(", ");
        } else {
            proof {
                assert(v@.take(1) =~= seq![v@[0]]);
            }
        }
        s = s.concat(category_name(v[i]));
        i = i + 1;
    }
    proof {
        assert(v@.take(v@.len() as int) =~= v@);
    }
    s.concat("]")
}

/// `[ComponentDefId(a), ...]` of a list of component definitions.
fn def_list(v: &Vec<ComponentDefId>) -> (s: String)
    ensures
        s@ == def_list_text(v@),
{
    let mut s = "[".to_owned();
    let mut i: usize = 0;
    while i < v.len()
        invariant
            i <= v@.len(),
            s@ == "["@ + def_items(v@.take(i as int)),
        decreases v@.len() - i,
    {
        proof {
            assert(v@.take(i + 1).drop_last() =~= v@.take(i as int));
            assert(v@.take(i + 1).last() == v@[i as int]);
        }
        if i > 0 {
            s = s.concat(", ");
        } else {
            proof {
                assert(v@.take(1) =~= seq![v@[0]]);
            }
        }
        s = s.concat("ComponentDefId(").concat(crate::decimal::decimal_text(v[i].0).as_str()).concat(")");
        i = i + 1;
    }
    proof {
        assert(v@.take(v@.len() as int) =~= v@);
    }
    s.concat("]")
}

/// The human-readable line of an error.
pub open spec fn error_text(e: SimError) -> Seq<char> {
    match e {
        SimError::UnknownActor(id) => "unknown actor "@ + crate::locations::id_label("ActorId"@, id.0),
        SimError::UnknownLocation(id) => "unknown location "@ + crate::locations::id_label("LocationId"@, id.0),
        SimError::UnknownCommodity(id) => "unknown commodity "@ + crate::locations::id_label("CommodityId"@, id.0),
        SimError::UnknownLot(id) => "unknown lot "@ + crate::locations::id_label("LotId"@, id.0),
        SimError::UnknownDesign(id) => "unknown design "@ + crate::locations::id_label("DesignId"@, id.0),
        SimError::UnknownAsset(id) => "unknown asset "@ + crate::locations::id_label("AssetId"@, id.0),
        SimError::UnknownComponentDef(id) => "unknown component def "@ + crate::locations::id_label("ComponentDefId"@, id.0),
        SimError::UnknownComponent(id) => "unknown component "@ + crate::locations::id_label("ComponentId"@, id.0),
        SimError::UnknownMarket(id) => "unknown market "@ + crate::locations::id_label("MarketId"@, id.0),
        SimError::UnknownListing(id) => "unknown listing "@ + crate::locations::id_label("SellListingId"@, id.0),
        SimError::UnknownOrder(id) => "unknown buy order "@ + crate::locations::id_label("BuyOrderId"@, id.0),
        SimError::UnknownStockpile(id) => "unknown stockpile "@ + crate::locations::id_label("StockpileId"@, id.0),
        SimError::UnknownFactory(id) => "unknown factory "@ + crate::locations::id_label("FactoryId"@, id.0),
        SimError::UnknownRecipe(id) => "unknown recipe "@ + crate::locations::id_label("RecipeId"@, id.0),
        SimError::UnknownJob(id) => "unknown production job "@ + crate::locations::id_label("ProductionJobId"@, id.0),
        SimError::UnknownRoute(id) => "unknown route "@ + crate::locations::id_label("RouteId"@, id.0),
        SimError::UnknownConvoy(id) => "unknown convoy "@ + crate::locations::id_label("ConvoyId"@, id.0),
        SimError::UnknownIntel(id) => "unknown intel "@ + crate::locations::id_label("IntelId"@, id.0),
        SimError::UnknownContract(id) => "unknown contract "@ + crate::locations::id_label("ContractId"@, id.0),
        SimError::UnknownToeTemplate(id) => "unknown TO&E template "@ + crate::locations::id_label("ToeTemplateId"@, id.0),
        SimError::UnknownFormation(id) => "unknown formation "@ + crate::locations::id_label("FormationId"@, id.0),
        SimError::NotOwner { actor } => crate::locations::id_label("ActorId"@, actor.0) + " does not own this"@,
        SimError::NotColocated => "objects are not physically colocated"@,
        SimError::LotNotActive(id) => crate::locations::id_label("LotId"@, id.0) + " is not active"@,
        SimError::InvalidQuantity => "invalid quantity"@,
        SimError::InsufficientQuantity { commodity, missing } => "insufficient real stock of "@ + crate::locations::id_label("CommodityId"@, commodity.0) + ": "@ + crate::decimal::decimal(missing as nat) + " short"@,
        SimError::InsufficientComponents { accepts, missing } => "insufficient real components matching "@ + def_list_text(accepts@) + ": "@ + crate::decimal::decimal(missing as nat) + " short"@,
        SimError::InsufficientFunds { actor, needed, available } => crate::locations::id_label("ActorId"@, actor.0) + " needs "@ + crate::decimal::signed_decimal(needed as int) + " credits but has "@ + crate::decimal::signed_decimal(available as int),
        SimError::Overflow => "arithmetic overflow"@,
        SimError::IncompatibleComponent { component, asset, slot } => crate::locations::id_label("ComponentId"@, component.0) + " is not compatible with slot "@ + crate::decimal::decimal(slot as nat) + " of "@ + crate::locations::id_label("AssetId"@, asset.0),
        SimError::SlotOccupied { asset, slot } => "slot "@ + crate::decimal::decimal(slot as nat) + " of "@ + crate::locations::id_label("AssetId"@, asset.0) + " is occupied"@,
        SimError::InvalidLocationKind(id) => crate::locations::id_label("LocationId"@, id.0) + " is the wrong kind of location"@,
        SimError::InvalidAssetKind(id) => crate::locations::id_label("AssetId"@, id.0) + " is the wrong kind of asset"@,
        SimError::ConvoyNotAtSite(id) => crate::locations::id_label("ConvoyId"@, id.0) + " is not at a site"@,
        SimError::FormationNotAtSite(id) => crate::locations::id_label("FormationId"@, id.0) + " is not at a site"@,
        SimError::ToolingMismatch { factory } => crate::locations::id_label("FactoryId"@, factory.0) + " lacks the exact tooling this recipe requires"@,
        SimError::SequesteredStockpile(id) => "goods in sequestered "@ + crate::locations::id_label("StockpileId"@, id.0) + " cannot be freely traded"@,
        SimError::MergeMismatch(msg) => "cannot merge lots: "@ + msg@,
        SimError::InvalidOrigin(msg) => "invalid origin: "@ + msg@,
        SimError::ToeShortage(missing) => "TO&E shortage: "@ + crate::decimal::decimal(missing@.len()) + " slot requirement(s) unfilled"@,
        SimError::InvalidSlotCount { kind, got } => kind_label(kind) + " design declares "@ + crate::decimal::decimal(got as nat) + " component slot(s), which violates the slot-count rule for that kind"@,
        SimError::WrongComponentCategory { component } => crate::locations::id_label("ComponentId"@, component.0) + " has a category that does not fit this slot"@,
        SimError::FactorySlotOccupied { factory, category } => crate::locations::id_label("FactoryId"@, factory.0) + " already has a component in its "@ + category_label(category) + " slot"@,
        SimError::FactoryIncomplete { factory, missing } => crate::locations::id_label("FactoryId"@, factory.0) + " is missing sub-system component(s): "@ + category_list_text(missing@),
        SimError::ContractNotFulfilled(id) => crate::locations::id_label("ContractId"@, id.0) + "'s objective is not yet true"@,
        SimError::SalvageCapExceeded { contract, requested, cap } => crate::locations::id_label("ContractId"@, contract.0) + " salvage of "@ + crate::decimal::decimal(requested as nat) + " units exceeds the "@ + crate::decimal::decimal(cap as nat) + "-unit cap"@,
        SimError::InvalidTier(t) => "invalid tier "@ + crate::decimal::decimal(t as nat),
        SimError::InvalidState(msg) => "invalid state: "@ + msg@,
    }
}

impl SimError {
    /// The error as a human-readable line.
    pub fn text(&self) -> (s: String)
        ensures
            s@ == error_text(*self),
    {
        match self {
            SimError::UnknownActor(id) => "unknown actor ".to_owned().concat(crate::locations::id_text("ActorId", id.0).as_str()),
            SimError::UnknownLocation(id) => "unknown location ".to_owned().concat(crate::locations::id_text("LocationId", id.0).as_str()),
            SimError::UnknownCommodity(id) => "unknown commodity ".to_owned().concat(crate::locations::id_text("CommodityId", id.0).as_str()),
            SimError::UnknownLot(id) => "unknown lot ".to_owned().concat(crate::locations::id_text("LotId", id.0).as_str()),
            SimError::UnknownDesign(id) => "unknown design ".to_owned().concat(crate::locations::id_text("DesignId", id.0).as_str()),
            SimError::UnknownAsset(id) => "unknown asset ".to_owned().concat(crate::locations::id_text("AssetId", id.0).as_str()),
            SimError::UnknownComponentDef(id) => "unknown component def ".to_owned().concat(crate::locations::id_text("ComponentDefId", id.0).as_str()),
            SimError::UnknownComponent(id) => "unknown component ".to_owned().concat(crate::locations::id_text("ComponentId", id.0).as_str()),
            SimError::UnknownMarket(id) => "unknown market ".to_owned().concat(crate::locations::id_text("MarketId", id.0).as_str()),
            SimError::UnknownListing(id) => "unknown listing ".to_owned().concat(crate::locations::id_text("SellListingId", id.0).as_str()),
            SimError::UnknownOrder(id) => "unknown buy order ".to_owned().concat(crate::locations::id_text("BuyOrderId", id.0).as_str()),
            SimError::UnknownStockpile(id) => "unknown stockpile ".to_owned().concat(crate::locations::id_text("StockpileId", id.0).as_str()),
            SimError::UnknownFactory(id) => "unknown factory ".to_owned().concat(crate::locations::id_text("FactoryId", id.0).as_str()),
            SimError::UnknownRecipe(id) => "unknown recipe ".to_owned().concat(crate::locations::id_text("RecipeId", id.0).as_str()),
            SimError::UnknownJob(id) => "unknown production job ".to_owned().concat(crate::locations::id_text("ProductionJobId", id.0).as_str()),
            SimError::UnknownRoute(id) => "unknown route ".to_owned().concat(crate::locations::id_text("RouteId", id.0).as_str()),
            SimError::UnknownConvoy(id) => "unknown convoy ".to_owned().concat(crate::locations::id_text("ConvoyId", id.0).as_str()),
            SimError::UnknownIntel(id) => "unknown intel ".to_owned().concat(crate::locations::id_text("IntelId", id.0).as_str()),
            SimError::UnknownContract(id) => "unknown contract ".to_owned().concat(crate::locations::id_text("ContractId", id.0).as_str()),
            SimError::UnknownToeTemplate(id) => "unknown TO&E template ".to_owned().concat(crate::locations::id_text("ToeTemplateId", id.0).as_str()),
            SimError::UnknownFormation(id) => "unknown formation ".to_owned().concat(crate::locations::id_text("FormationId", id.0).as_str()),
            SimError::NotOwner { actor } => crate::locations::id_text("ActorId", actor.0).concat(" does not own this"),
            SimError::NotColocated => "objects are not physically colocated".to_owned(),
            SimError::LotNotActive(id) => crate::locations::id_text("LotId", id.0).concat(" is not active"),
            SimError::InvalidQuantity => "invalid quantity".to_owned(),
            SimError::InsufficientQuantity { commodity, missing } => "insufficient real stock of ".to_owned().concat(crate::locations::id_text("CommodityId", commodity.0).as_str()).concat(": ").concat(crate::decimal::decimal_text(*missing).as_str()).concat(" short"),
            SimError::InsufficientComponents { accepts, missing } => "insufficient real components matching ".to_owned().concat(def_list(accepts).as_str()).concat(": ").concat(crate::decimal::decimal_text(*missing as u64).as_str()).concat(" short"),
            SimError::InsufficientFunds { actor, needed, available } => crate::locations::id_text("ActorId", actor.0).concat(" needs ").concat(crate::decimal::signed_decimal_text(*needed).as_str()).concat(" credits but has ").concat(crate::decimal::signed_decimal_text(*available).as_str()),
            SimError::Overflow => "arithmetic overflow".to_owned(),
            SimError::IncompatibleComponent { component, asset, slot } => crate::locations::id_text("ComponentId", component.0).concat(" is not compatible with slot ").concat(crate::decimal::decimal_text(*slot as u64).as_str()).concat(" of ").concat(crate::locations::id_text("AssetId", asset.0).as_str()),
            SimError::SlotOccupied { asset, slot } => "slot ".to_owned().concat(crate::decimal::decimal_text(*slot as u64).as_str()).concat(" of ").concat(crate::locations::id_text("AssetId", asset.0).as_str()).concat(" is occupied"),
            SimError::InvalidLocationKind(id) => crate::locations::id_text("LocationId", id.0).concat(" is the wrong kind of location"),
            SimError::InvalidAssetKind(id) => crate::locations::id_text("AssetId", id.0).concat(" is the wrong kind of asset"),
            SimError::ConvoyNotAtSite(id) => crate::locations::id_text("ConvoyId", id.0).concat(" is not at a site"),
            SimError::FormationNotAtSite(id) => crate::locations::id_text("FormationId", id.0).concat(" is not at a site"),
            SimError::ToolingMismatch { factory } => crate::locations::id_text("FactoryId", factory.0).concat(" lacks the exact tooling this recipe requires"),
            SimError::SequesteredStockpile(id) => "goods in sequestered ".to_owned().concat(crate::locations::id_text("StockpileId", id.0).as_str()).concat(" cannot be freely traded"),
            SimError::MergeMismatch(msg) => "cannot merge lots: ".to_owned().concat(msg.as_str()),
            SimError::InvalidOrigin(msg) => "invalid origin: ".to_owned().concat(msg.as_str()),
            SimError::ToeShortage(missing) => "TO&E shortage: ".to_owned().concat(crate::decimal::decimal_text(missing.len() as u64).as_str()).concat(" slot requirement(s) unfilled"),
            SimError::InvalidSlotCount { kind, got } => kind_name(*kind).to_owned().concat(" design declares ").concat(crate::decimal::decimal_text(*got as u64).as_str()).concat(" component slot(s), which violates the slot-count rule for that kind"),
            SimError::WrongComponentCategory { component } => crate::locations::id_text("ComponentId", component.0).concat(" has a category that does not fit this slot"),
            SimError::FactorySlotOccupied { factory, category } => crate::locations::id_text("FactoryId", factory.0).concat(" already has a component in its ").concat(category_name(*category)).concat(" slot"),
            SimError::FactoryIncomplete { factory, missing } => crate::locations::id_text("FactoryId", factory.0).concat(" is missing sub-system component(s): ").concat(category_list(missing).as_str()),
            SimError::ContractNotFulfilled(id) => crate::locations::id_text("ContractId", id.0).concat("'s objective is not yet true"),
            SimError::SalvageCapExceeded { contract, requested, cap } => crate::locations::id_text("ContractId", contract.0).concat(" salvage of ").concat(crate::decimal::decimal_text(*requested).as_str()).concat(" units exceeds the ").concat(crate::decimal::decimal_text(*cap).as_str()).concat("-unit cap"),
            SimError::InvalidTier(t) => "invalid tier ".to_owned().concat(crate::decimal::decimal_text(*t as u64).as_str()),
            SimError::InvalidState(msg) => "invalid state: ".to_owned().concat(msg.as_str()),
        }
    }
}
} // verus!
