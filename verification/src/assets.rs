//! Serial assets, designs, and components.
//!
//! Weapons, equipment, mechs, vehicles, major components, factory tooling,
//! and cargo containers are serial entities with identity and history.
//! Components are their own primitive: compatibility is bound by data.

use crate::error::{error_matches, invalid_state, SimError};
use crate::goods::Lot;
use crate::production::Factory;
use crate::events::EventKind;
use crate::goods::QualityGrade;
use crate::locations::{ref_valid, resolve};
use crate::world::{World, WorldView};
use crate::ids::{ActorId, DesignId, AssetId, ComponentDefId, ComponentId, FactoryId, ProductionJobId, LocationId, LotId};
use crate::locations::LocationRef;
use vstd::prelude::*;

verus! {

#[derive(Debug, Clone, Copy, PartialEq, Eq, Structural)]
pub enum AssetKind {
    Mech,
    Vehicle,
    Weapon,
    Equipment,
    /// Binds a factory to an exact item design.
    FactoryTooling,
    CargoContainer,
}

/// Exact number of component slots a mech design must declare.
pub const MECH_COMPONENT_SLOTS: usize = 5;

/// Weapons and equipment are built from 5-6 sub-components.
pub const EQUIPMENT_COMPONENT_SLOTS_MIN: usize = 5;

pub const EQUIPMENT_COMPONENT_SLOTS_MAX: usize = 6;

/// A component slot on a design. Compatibility is an explicit accept-list.
#[derive(Debug, Clone, PartialEq)]
pub struct ComponentSlot {
    pub name: String,
    pub accepts: Vec<ComponentDefId>,
}

/// What kind of thing a component definition can be fitted into. The five
/// factory categories are fixed, named factory sub-systems; each factory
/// needs exactly one component in each to operate at all.
#[derive(Debug, Clone, Copy, PartialEq, Eq, Structural, PartialOrd, Ord, Hash)]
pub enum ComponentCategory {
    MechOrEquipment,
    FactoryLabor,
    FactoryAssemblyLine,
    FactoryPower,
    FactoryControl,
    FactoryQualityAssurance,
}

impl ComponentCategory {
    /// The five fixed factory sub-system slots every factory must fill.
    pub const FACTORY_SLOTS: [ComponentCategory; 5] = [
        ComponentCategory::FactoryLabor,
        ComponentCategory::FactoryAssemblyLine,
        ComponentCategory::FactoryPower,
        ComponentCategory::FactoryControl,
        ComponentCategory::FactoryQualityAssurance,
    ];

    pub fn is_factory_slot(self) -> (b: bool)
        ensures
            b == (self != ComponentCategory::MechOrEquipment),
    {
        !matches!(self, ComponentCategory::MechOrEquipment)
    }
}

/// A design (blueprint) for serial assets of one exact model.
#[derive(Debug, Clone)]
pub struct ItemDesign {
    pub id: DesignId,
    pub name: String,
    pub kind: AssetKind,
    pub slots: Vec<ComponentSlot>,
    /// Cargo capacity for vehicles and containers, in kilograms.
    pub cargo_capacity_kg: Option<u64>,
    /// For tooling designs: the exact item design this tooling produces.
    pub tooling_for: Option<DesignId>,
}

#[derive(Debug, Clone)]
pub struct ComponentDef {
    pub id: ComponentDefId,
    pub name: String,
    pub tier: u8,
    pub category: ComponentCategory,
}

/// Where a real thing came from at creation.
#[derive(Debug, Clone, PartialEq)]
pub enum AssetOrigin {
    Manufactured { factory: FactoryId, job: ProductionJobId },
    SeededHistorical { note: String },
    Imported { source: String },
    AdminPlaced { operator: ActorId },
}

#[derive(Debug, Clone, Copy, PartialEq, Eq, Structural)]
pub enum ComponentPlacement {
    /// Installed in a serial asset; physical position follows the asset.
    Fitted(AssetId),
    /// Installed in a factory's fixed sub-system slot.
    FittedFactory(FactoryId),
    /// Loose stock with its own location.
    Loose(LocationRef),
    /// Used up as real input by a production job. Record kept.
    Consumed(ProductionJobId),
}

#[derive(Debug, Clone, PartialEq)]
pub struct ComponentInstance {
    pub id: ComponentId,
    pub def: ComponentDefId,
    pub owner: ActorId,
    pub placement: ComponentPlacement,
    pub origin: AssetOrigin,
    pub quality: QualityGrade,
    pub created_day: u64,
}

#[derive(Debug, Clone, PartialEq)]
pub struct SerialAsset {
    pub id: AssetId,
    pub design: DesignId,
    /// Optional individual name.
    pub name: Option<String>,
    pub owner: ActorId,
    pub location: LocationRef,
    pub origin: AssetOrigin,
    pub quality: QualityGrade,
    /// 0-100.
    pub condition_pct: u8,
    /// Slot index and fitted component, one entry per occupied slot.
    pub fitted: Vec<(u32, ComponentId)>,
    pub created_day: u64,
}

} // verus!

verus! {

/// The slot-count rule for a design kind: mechs exactly 5; weapons and
/// equipment 5 or 6; other kinds any number.
pub open spec fn slot_count_ok(kind: AssetKind, n: int) -> bool {
    match kind {
        AssetKind::Mech => n == MECH_COMPONENT_SLOTS,
        AssetKind::Weapon | AssetKind::Equipment => EQUIPMENT_COMPONENT_SLOTS_MIN <= n
            <= EQUIPMENT_COMPONENT_SLOTS_MAX,
        _ => true,
    }
}

/// The view with one asset record replaced.
pub open spec fn with_asset(v: WorldView, id: u64, a: SerialAsset) -> WorldView {
    WorldView { assets: v.assets.insert(id, a), ..v }
}

/// The view with one component record replaced.
pub open spec fn with_component(v: WorldView, id: u64, c: ComponentInstance) -> WorldView {
    WorldView { components: v.components.insert(id, c), ..v }
}

/// An asset slot list holds this slot index.
pub open spec fn has_slot(fitted: Seq<(u32, ComponentId)>, slot: u32) -> bool {
    exists|i: int| 0 <= i < fitted.len() && (#[trigger] fitted[i]).0 == slot
}

/// Why creating an asset with these inputs fails, if it does.
pub open spec fn asset_create_error(v: WorldView, owner: ActorId, design: DesignId, location: LocationRef) -> Option<
    SimError,
> {
    if !v.actors.dom().contains(owner.0) {
        Some(SimError::UnknownActor(owner))
    } else if !v.designs.dom().contains(design.0) {
        Some(SimError::UnknownDesign(design))
    } else if !ref_valid(v, location) {
        Some(SimError::NotColocated)
    } else {
        None
    }
}

/// The state after creating an asset under the next id (and logging it).
/// The record's name and fitted list are taken from `made`.
pub open spec fn asset_created(
    v: WorldView,
    w: WorldView,
    owner: ActorId,
    design: DesignId,
    location: LocationRef,
    origin: AssetOrigin,
    quality: QualityGrade,
) -> bool {
    let id = AssetId(v.next_id);
    &&& w.assets[id.0].fitted@ == Seq::<(u32, ComponentId)>::empty()
    &&& w == (WorldView {
        assets: v.assets.insert(
            id.0,
            SerialAsset {
                id,
                design,
                name: w.assets[id.0].name,
                owner,
                location,
                origin,
                quality,
                condition_pct: 100,
                fitted: w.assets[id.0].fitted,
                created_day: v.clock.day,
            },
        ),
        ..v.bump()
    }).log(EventKind::AssetCreated { asset: id, design, owner })
}

/// The state after creating a component under the next id (and logging it).
pub open spec fn with_new_component(
    v: WorldView,
    owner: ActorId,
    def: ComponentDefId,
    placement: ComponentPlacement,
    origin: AssetOrigin,
    quality: QualityGrade,
) -> WorldView {
    let id = ComponentId(v.next_id);
    (WorldView {
        components: v.components.insert(
            id.0,
            ComponentInstance { id, def, owner, placement, origin, quality, created_day: v.clock.day },
        ),
        ..v.bump()
    }).log(EventKind::ComponentCreated { component: id, def, owner })
}

/// Hand every listed component that exists to a new owner.
pub open spec fn reown_components(m: Map<u64, ComponentInstance>, fitted: Seq<(u32, ComponentId)>, to: ActorId) -> Map<
    u64,
    ComponentInstance,
>
    decreases fitted.len(),
{
    if fitted.len() == 0 {
        m
    } else {
        let prev = reown_components(m, fitted.drop_last(), to);
        let k = fitted.last().1.0;
        if prev.dom().contains(k) {
            prev.insert(k, ComponentInstance { owner: to, ..prev[k] })
        } else {
            prev
        }
    }
}

pub proof fn lemma_reown_dom(m: Map<u64, ComponentInstance>, fitted: Seq<(u32, ComponentId)>, to: ActorId)
    ensures
        reown_components(m, fitted, to).dom() == m.dom(),
    decreases fitted.len(),
{
    if fitted.len() > 0 {
        lemma_reown_dom(m, fitted.drop_last(), to);
        let prev = reown_components(m, fitted.drop_last(), to);
        let k = fitted.last().1.0;
        if prev.dom().contains(k) {
            assert(prev.insert(k, ComponentInstance { owner: to, ..prev[k] }).dom() =~= prev.dom());
        }
    }
}

/// Handing an asset's fitted components to `to` changes exactly the owner of
/// each listed component that exists, and nothing else.
pub proof fn lemma_reown_at(m: Map<u64, ComponentInstance>, fitted: Seq<(u32, ComponentId)>, to: ActorId, k: u64)
    requires
        m.dom().contains(k),
    ensures
        reown_components(m, fitted, to)[k] == if exists|j: int| 0 <= j < fitted.len() && (#[trigger] fitted[j]).1.0 == k {
            ComponentInstance { owner: to, ..m[k] }
        } else {
            m[k]
        },
    decreases fitted.len(),
{
    if fitted.len() > 0 {
        let p = fitted.drop_last();
        lemma_reown_at(m, p, to, k);
        lemma_reown_dom(m, p, to);
        if exists|j: int| 0 <= j < p.len() && (#[trigger] p[j]).1.0 == k {
            let j = choose|j: int| 0 <= j < p.len() && (#[trigger] p[j]).1.0 == k;
            assert(fitted[j] == p[j]);
        }
        if exists|j: int| 0 <= j < fitted.len() && (#[trigger] fitted[j]).1.0 == k {
            let j = choose|j: int| 0 <= j < fitted.len() && (#[trigger] fitted[j]).1.0 == k;
            if j < p.len() {
                assert(p[j] == fitted[j]);
            }
        }
    }
}

/// Why fitting this component into this asset slot fails, if it does.
pub open spec fn fit_error(v: WorldView, component: ComponentId, asset: AssetId, slot: u32) -> Option<SimError> {
    if !v.components.dom().contains(component.0) {
        Some(SimError::UnknownComponent(component))
    } else if !v.assets.dom().contains(asset.0) {
        Some(SimError::UnknownAsset(asset))
    } else {
        let c = v.components[component.0];
        let a = v.assets[asset.0];
        if !v.component_defs.dom().contains(c.def.0) {
            Some(SimError::UnknownComponentDef(c.def))
        } else if v.component_defs[c.def.0].category != ComponentCategory::MechOrEquipment {
            Some(SimError::WrongComponentCategory { component })
        } else if !v.designs.dom().contains(a.design.0) {
            Some(SimError::UnknownDesign(a.design))
        } else if slot >= v.designs[a.design.0].slots@.len() || !v.designs[a.design.0].slots@[slot as int].accepts@.contains(
            c.def,
        ) {
            Some(SimError::IncompatibleComponent { component, asset, slot })
        } else if c.owner != a.owner {
            Some(SimError::NotOwner { actor: c.owner })
        } else if !(c.placement is Loose) {
            Some(invalid_state())
        } else if resolve(v, c.placement->Loose_0) is None || resolve(v, c.placement->Loose_0) != resolve(
            v,
            a.location,
        ) {
            Some(SimError::NotColocated)
        } else if has_slot(a.fitted@, slot) {
            Some(SimError::SlotOccupied { asset, slot })
        } else {
            None
        }
    }
}

/// Why fitting this component into a factory sub-system slot fails, if it
/// does.
pub open spec fn factory_fit_error(v: WorldView, factory: FactoryId, component: ComponentId) -> Option<SimError> {
    if !v.factories.dom().contains(factory.0) {
        Some(SimError::UnknownFactory(factory))
    } else if !v.components.dom().contains(component.0) {
        Some(SimError::UnknownComponent(component))
    } else {
        let f = v.factories[factory.0];
        let c = v.components[component.0];
        if !v.component_defs.dom().contains(c.def.0) {
            Some(SimError::UnknownComponentDef(c.def))
        } else if v.component_defs[c.def.0].category == ComponentCategory::MechOrEquipment {
            Some(SimError::WrongComponentCategory { component })
        } else if c.owner != f.owner {
            Some(SimError::NotOwner { actor: c.owner })
        } else if !(c.placement is Loose) {
            Some(invalid_state())
        } else if resolve(v, c.placement->Loose_0) != Some(f.site) {
            Some(SimError::NotColocated)
        } else if has_category(f.components@, v.component_defs[c.def.0].category) {
            Some(
                SimError::FactorySlotOccupied { factory, category: v.component_defs[c.def.0].category },
            )
        } else {
            None
        }
    }
}

/// A factory's fitted list holds a component in this category.
pub open spec fn has_category(fitted: Seq<(ComponentCategory, ComponentId)>, category: ComponentCategory) -> bool {
    exists|i: int| 0 <= i < fitted.len() && (#[trigger] fitted[i]).0 == category
}

/// Whether a fitted list already holds this slot index.
pub fn slot_taken(fitted: &Vec<(u32, ComponentId)>, slot: u32) -> (b: bool)
    ensures
        b == has_slot(fitted@, slot),
{
    let mut k: usize = 0;
    while k < fitted.len()
        invariant
            k <= fitted@.len(),
            forall|x: int| 0 <= x < k ==> (#[trigger] fitted@[x]).0 != slot,
        decreases fitted@.len() - k,
    {
        if fitted[k].0 == slot {
            assert(fitted@[k as int].0 == slot);
            return true;
        }
        k = k + 1;
    }
    false
}

/// Whether a factory's fitted list already holds a component of this
/// category.
pub fn category_taken(fitted: &Vec<(ComponentCategory, ComponentId)>, category: ComponentCategory) -> (b: bool)
    ensures
        b == has_category(fitted@, category),
{
    let mut k: usize = 0;
    while k < fitted.len()
        invariant
            k <= fitted@.len(),
            forall|x: int| 0 <= x < k ==> (#[trigger] fitted@[x]).0 != category,
        decreases fitted@.len() - k,
    {
        if fitted[k].0 == category {
            assert(fitted@[k as int].0 == category);
            return true;
        }
        k = k + 1;
    }
    false
}

impl AssetOrigin {
    /// An exact copy of this origin.
    pub fn duplicate(&self) -> (r: AssetOrigin)
        ensures
            r == *self,
    {
        match self {
            AssetOrigin::Manufactured { factory, job } => AssetOrigin::Manufactured { factory: *factory, job: *job },
            AssetOrigin::SeededHistorical { note } => AssetOrigin::SeededHistorical { note: note.clone() },
            AssetOrigin::Imported { source } => AssetOrigin::Imported { source: source.clone() },
            AssetOrigin::AdminPlaced { operator } => AssetOrigin::AdminPlaced { operator: *operator },
        }
    }
}

impl World {
    /// Define an item design. Mechs must declare exactly five component
    /// slots; weapons and equipment five or six. Bad data never enters the
    /// world.
    pub fn define_design(
        &mut self,
        name: &str,
        kind: AssetKind,
        slots: Vec<ComponentSlot>,
        cargo_capacity_kg: Option<u64>,
        tooling_for: Option<DesignId>,
    ) -> (r: Result<DesignId, SimError>)
        requires
            old(self).wf(),
            old(self)@.has_room(2),
        ensures
            final(self).wf(),
            !slot_count_ok(kind, slots@.len() as int) ==> r == Err::<DesignId, SimError>(
                SimError::InvalidSlotCount { kind, got: slots@.len() as usize },
            ) && final(self)@ == old(self)@,
            slot_count_ok(kind, slots@.len() as int) ==> {
                let id = DesignId(old(self)@.next_id);
                &&& r == Ok::<DesignId, SimError>(id)
                &&& final(self)@.designs[id.0].name@ == name@
                &&& final(self)@ == (WorldView {
                    designs: old(self)@.designs.insert(
                        id.0,
                        ItemDesign {
                            id,
                            name: final(self)@.designs[id.0].name,
                            kind,
                            slots,
                            cargo_capacity_kg,
                            tooling_for,
                        },
                    ),
                    ..old(self)@.bump()
                }).log(EventKind::DesignDefined { design: id })
            },
            crate::invariants::consistent(old(self)@) ==> crate::invariants::consistent(final(self)@),
    {
        let n = slots.len();
        let ok = match kind {
            AssetKind::Mech => n == MECH_COMPONENT_SLOTS,
            AssetKind::Weapon | AssetKind::Equipment => EQUIPMENT_COMPONENT_SLOTS_MIN <= n && n
                <= EQUIPMENT_COMPONENT_SLOTS_MAX,
            _ => true,
        };
        if !ok {
            return Err(SimError::InvalidSlotCount { kind, got: n });
        }
        let id = DesignId(self.alloc_id());
        proof {
            self.designs.lemma_fresh(id.0);
        }
        self.designs.insert_new(
            id.0,
            ItemDesign { id, name: name.to_owned(), kind, slots, cargo_capacity_kg, tooling_for },
        );
        proof {
            self.lemma_keys_wf();
        }
        self.push_event(EventKind::DesignDefined { design: id });
        proof {
            let o = old(self)@;
            if crate::invariants::consistent(o) {
                assert(crate::invariants::grows_soundly(o, self@));
                crate::invariants::lemma_consistent_grows(o, self@);
            }
        }
        Ok(id)
    }

    pub fn define_component_def(&mut self, name: &str, tier: u8, category: ComponentCategory) -> (id:
        ComponentDefId)
        requires
            old(self).wf(),
            old(self)@.has_room(2),
        ensures
            final(self).wf(),
            id == ComponentDefId(old(self)@.next_id),
            final(self)@.component_defs[id.0].name@ == name@,
            final(self)@ == (WorldView {
                component_defs: old(self)@.component_defs.insert(
                    id.0,
                    ComponentDef { id, name: final(self)@.component_defs[id.0].name, tier, category },
                ),
                ..old(self)@.bump()
            }).log(EventKind::ComponentDefDefined { def: id }),
            crate::invariants::consistent(old(self)@) ==> crate::invariants::consistent(final(self)@),
    {
        let id = ComponentDefId(self.alloc_id());
        proof {
            self.component_defs.lemma_fresh(id.0);
        }
        self.component_defs.insert_new(id.0, ComponentDef { id, name: name.to_owned(), tier, category });
        proof {
            self.lemma_keys_wf();
        }
        self.push_event(EventKind::ComponentDefDefined { def: id });
        proof {
            let o = old(self)@;
            if crate::invariants::consistent(o) {
                assert(crate::invariants::grows_soundly(o, self@));
                crate::invariants::lemma_consistent_grows(o, self@);
            }
        }
        id
    }

    /// Internal asset creation: all real assets pass through here.
    pub(crate) fn create_asset_raw(
        &mut self,
        owner: ActorId,
        design: DesignId,
        location: LocationRef,
        origin: AssetOrigin,
        quality: QualityGrade,
        name: Option<&str>,
    ) -> (r: Result<AssetId, SimError>)
        requires
            old(self).wf(),
            old(self)@.has_room(2),
        ensures
            final(self).wf(),
            crate::world::phase_ok(old(self)@, final(self)@),
            crate::combat::money_untouched(final(self)@, old(self)@),
            match asset_create_error(old(self)@, owner, design, location) {
                Some(e) => r == Err::<AssetId, SimError>(e) && final(self)@ == old(self)@,
                None => r == Ok::<AssetId, SimError>(AssetId(old(self)@.next_id)) && asset_created(
                    old(self)@,
                    final(self)@,
                    owner,
                    design,
                    location,
                    origin,
                    quality,
                ) && (match name {
                    Some(n) => final(self)@.assets[old(self)@.next_id].name matches Some(s) && s@ == n@,
                    None => final(self)@.assets[old(self)@.next_id].name is None,
                }),
            },
            crate::invariants::consistent(old(self)@) ==> crate::invariants::consistent(final(self)@),
    {
        if !self.actors.contains(owner.0) {
            return Err(SimError::UnknownActor(owner));
        }
        if !self.designs.contains(design.0) {
            return Err(SimError::UnknownDesign(design));
        }
        if !self.location_ref_valid(location) {
            return Err(SimError::NotColocated);
        }
        let id = AssetId(self.alloc_id());
        let created_day = self.clock.day;
        let name_owned = match name {
            Some(n) => Some(n.to_owned()),
            None => None,
        };
        proof {
            self.assets.lemma_fresh(id.0);
        }
        self.assets.insert_new(
            id.0,
            SerialAsset {
                id,
                design,
                name: name_owned,
                owner,
                location,
                origin,
                quality,
                condition_pct: 100,
                fitted: Vec::new(),
                created_day,
            },
        );
        proof {
            self.lemma_keys_wf();
        }
        self.push_event(EventKind::AssetCreated { asset: id, design, owner });
        proof {
            let o = old(self)@;
            if crate::invariants::consistent(o) {
                assert(crate::invariants::grows_soundly(o, self@));
                crate::invariants::lemma_consistent_grows(o, self@);
            }
        }
        Ok(id)
    }

    /// Seed a serial asset (pre-war inventory, import, admin placement).
    /// Manufactured origins are rejected: manufactured assets come from
    /// production jobs only.
    pub fn seed_asset(
        &mut self,
        owner: ActorId,
        design: DesignId,
        site: LocationId,
        quality: QualityGrade,
        origin: AssetOrigin,
        name: Option<&str>,
    ) -> (r: Result<AssetId, SimError>)
        requires
            old(self).wf(),
            old(self)@.has_room(2),
        ensures
            final(self).wf(),
            origin is Manufactured ==> (r matches Err(SimError::InvalidOrigin(_))) && final(self)@ == old(self)@,
            !(origin is Manufactured) && !old(self)@.locations.dom().contains(site.0) ==> r == Err::<
                AssetId,
                SimError,
            >(SimError::UnknownLocation(site)) && final(self)@ == old(self)@,
            !(origin is Manufactured) && old(self)@.locations.dom().contains(site.0) ==> match asset_create_error(
                old(self)@,
                owner,
                design,
                LocationRef::Site(site),
            ) {
                Some(e) => r == Err::<AssetId, SimError>(e) && final(self)@ == old(self)@,
                None => r == Ok::<AssetId, SimError>(AssetId(old(self)@.next_id)) && asset_created(
                    old(self)@,
                    final(self)@,
                    owner,
                    design,
                    LocationRef::Site(site),
                    origin,
                    quality,
                ) && (match name {
                    Some(n) => final(self)@.assets[old(self)@.next_id].name matches Some(s) && s@ == n@,
                    None => final(self)@.assets[old(self)@.next_id].name is None,
                }),
            },
            crate::invariants::consistent(old(self)@) ==> crate::invariants::consistent(final(self)@),
    {
        if matches!(origin, AssetOrigin::Manufactured { .. }) {
            return Err(SimError::InvalidOrigin("seed_asset does not accept Manufactured origins".to_owned()));
        }
        if !self.locations.contains(site.0) {
            return Err(SimError::UnknownLocation(site));
        }
        let r = self.create_asset_raw(owner, design, LocationRef::Site(site), origin, quality, name);
        proof {
            let o = old(self)@;
            if crate::invariants::consistent(o) {
                assert(crate::invariants::grows_soundly(o, self@));
                crate::invariants::lemma_consistent_grows(o, self@);
            }
        }
        r
    }

    /// Seed a loose component instance.
    pub fn seed_component(
        &mut self,
        owner: ActorId,
        def: ComponentDefId,
        site: LocationId,
        quality: QualityGrade,
        origin: AssetOrigin,
    ) -> (r: Result<ComponentId, SimError>)
        requires
            old(self).wf(),
            old(self)@.has_room(2),
        ensures
            final(self).wf(),
            r is Err ==> final(self)@ == old(self)@,
            origin is Manufactured ==> (r matches Err(SimError::InvalidOrigin(_))),
            !(origin is Manufactured) && !old(self)@.component_defs.dom().contains(def.0) ==> r == Err::<
                ComponentId,
                SimError,
            >(SimError::UnknownComponentDef(def)),
            !(origin is Manufactured) && old(self)@.component_defs.dom().contains(def.0) && !old(
                self,
            )@.locations.dom().contains(site.0) ==> r == Err::<ComponentId, SimError>(
                SimError::UnknownLocation(site),
            ),
            !(origin is Manufactured) && old(self)@.component_defs.dom().contains(def.0) && old(
                self,
            )@.locations.dom().contains(site.0) && !old(self)@.actors.dom().contains(owner.0) ==> r == Err::<
                ComponentId,
                SimError,
            >(SimError::UnknownActor(owner)),
            !(origin is Manufactured) && old(self)@.component_defs.dom().contains(def.0) && old(
                self,
            )@.locations.dom().contains(site.0) && old(self)@.actors.dom().contains(owner.0) ==> r == Ok::<
                ComponentId,
                SimError,
            >(ComponentId(old(self)@.next_id)) && final(self)@ == with_new_component(
                old(self)@,
                owner,
                def,
                ComponentPlacement::Loose(LocationRef::Site(site)),
                origin,
                quality,
            ),
            crate::invariants::consistent(old(self)@) ==> crate::invariants::consistent(final(self)@),
    {
        if matches!(origin, AssetOrigin::Manufactured { .. }) {
            return Err(
                SimError::InvalidOrigin("seed_component does not accept Manufactured origins".to_owned()),
            );
        }
        if !self.component_defs.contains(def.0) {
            return Err(SimError::UnknownComponentDef(def));
        }
        if !self.locations.contains(site.0) {
            return Err(SimError::UnknownLocation(site));
        }
        let r = self.create_component_raw(owner, def, ComponentPlacement::Loose(LocationRef::Site(site)), origin, quality);
        proof {
            let o = old(self)@;
            if crate::invariants::consistent(o) {
                assert(crate::invariants::grows_soundly(o, self@));
                crate::invariants::lemma_consistent_grows(o, self@);
            }
        }
        r
    }

    pub(crate) fn create_component_raw(
        &mut self,
        owner: ActorId,
        def: ComponentDefId,
        placement: ComponentPlacement,
        origin: AssetOrigin,
        quality: QualityGrade,
    ) -> (r: Result<ComponentId, SimError>)
        requires
            old(self).wf(),
            old(self)@.has_room(2),
        ensures
            final(self).wf(),
            crate::world::phase_ok(old(self)@, final(self)@),
            crate::combat::money_untouched(final(self)@, old(self)@),
            !old(self)@.actors.dom().contains(owner.0) ==> r == Err::<ComponentId, SimError>(
                SimError::UnknownActor(owner),
            ) && final(self)@ == old(self)@,
            old(self)@.actors.dom().contains(owner.0) ==> r == Ok::<ComponentId, SimError>(
                ComponentId(old(self)@.next_id),
            ) && final(self)@ == with_new_component(old(self)@, owner, def, placement, origin, quality),
    {
        if !self.actors.contains(owner.0) {
            return Err(SimError::UnknownActor(owner));
        }
        let id = ComponentId(self.alloc_id());
        let created_day = self.clock.day;
        proof {
            self.components.lemma_fresh(id.0);
        }
        self.components.insert_new(
            id.0,
            ComponentInstance { id, def, owner, placement, origin, quality, created_day },
        );
        proof {
            self.lemma_keys_wf();
        }
        self.push_event(EventKind::ComponentCreated { component: id, def, owner });
        Ok(id)
    }

    /// Internal asset move.
    pub(crate) fn move_asset_raw(&mut self, asset: AssetId, to: LocationRef) -> (r: Result<(), SimError>)
        requires
            old(self).wf(),
            old(self)@.has_room(1),
        ensures
            final(self).wf(),
            crate::world::phase_ok(old(self)@, final(self)@),
            crate::combat::money_untouched(final(self)@, old(self)@),
            !old(self)@.assets.dom().contains(asset.0) ==> r == Err::<(), SimError>(SimError::UnknownAsset(asset))
                && final(self)@ == old(self)@,
            old(self)@.assets.dom().contains(asset.0) ==> r is Ok && final(self)@ == with_asset(
                old(self)@,
                asset.0,
                SerialAsset { location: to, ..old(self)@.assets[asset.0] },
            ).log(EventKind::AssetMoved { asset, from: old(self)@.assets[asset.0].location, to }),
    {
        if !self.assets.contains(asset.0) {
            return Err(SimError::UnknownAsset(asset));
        }
        let a = self.assets.get_mut(asset.0);
        let from = a.location;
        a.location = to;
        proof {
            self.lemma_keys_wf();
        }
        self.push_event(EventKind::AssetMoved { asset, from, to });
        Ok(())
    }

    pub(crate) fn asset_kind(&self, asset: AssetId) -> (r: Result<AssetKind, SimError>)
        requires
            self.wf(),
        ensures
            !self@.assets.dom().contains(asset.0) ==> r == Err::<AssetKind, SimError>(SimError::UnknownAsset(asset)),
            self@.assets.dom().contains(asset.0) && !self@.designs.dom().contains(self@.assets[asset.0].design.0)
                ==> r == Err::<AssetKind, SimError>(SimError::UnknownDesign(self@.assets[asset.0].design)),
            self@.assets.dom().contains(asset.0) && self@.designs.dom().contains(self@.assets[asset.0].design.0)
                ==> r == Ok::<AssetKind, SimError>(self@.designs[self@.assets[asset.0].design.0].kind),
    {
        let a = match self.assets.get(asset.0) {
            None => {
                return Err(SimError::UnknownAsset(asset));
            },
            Some(a) => a,
        };
        match self.designs.get(a.design.0) {
            None => Err(SimError::UnknownDesign(a.design)),
            Some(d) => Ok(d.kind),
        }
    }

    /// Transfer ownership of a serial asset. Fitted components transfer
    /// with it.
    pub fn transfer_asset(&mut self, asset: AssetId, to: ActorId) -> (r: Result<(), SimError>)
        requires
            old(self).wf(),
            old(self)@.has_room(1),
        ensures
            final(self).wf(),
            !old(self)@.actors.dom().contains(to.0) ==> r == Err::<(), SimError>(SimError::UnknownActor(to))
                && final(self)@ == old(self)@,
            old(self)@.actors.dom().contains(to.0) && !old(self)@.assets.dom().contains(asset.0) ==> r == Err::<
                (),
                SimError,
            >(SimError::UnknownAsset(asset)) && final(self)@ == old(self)@,
            old(self)@.actors.dom().contains(to.0) && old(self)@.assets.dom().contains(asset.0) ==> {
                let a = old(self)@.assets[asset.0];
                r is Ok && final(self)@ == (WorldView {
                    assets: old(self)@.assets.insert(asset.0, SerialAsset { owner: to, ..a }),
                    components: reown_components(old(self)@.components, a.fitted@, to),
                    ..old(self)@
                }).log(EventKind::AssetOwnerChanged { asset, from: a.owner, to })
            },
    {
        if !self.actors.contains(to.0) {
            return Err(SimError::UnknownActor(to));
        }
        if !self.assets.contains(asset.0) {
            return Err(SimError::UnknownAsset(asset));
        }
        let ghost v = self@;
        let a = self.assets.get_mut(asset.0);
        let from = a.owner;
        a.owner = to;
        let ghost fitted = a.fitted@;
        let mut comps: Vec<ComponentId> = Vec::new();
        let mut i: usize = 0;
        while i < a.fitted.len()
            invariant
                i <= a.fitted@.len(),
                a.fitted@ == fitted,
                comps@ == fitted.take(i as int).map_values(|p: (u32, ComponentId)| p.1),
            decreases a.fitted@.len() - i,
        {
            comps.push(a.fitted[i].1);
            i = i + 1;
            assert(comps@ =~= fitted.take(i as int).map_values(|p: (u32, ComponentId)| p.1));
        }
        assert(fitted.take(fitted.len() as int) =~= fitted);
        let ghost mid = self@;
        let mut j: usize = 0;
        while j < comps.len()
            invariant
                self.tables_wf(),
                j <= comps@.len(),
                comps@ == fitted.map_values(|p: (u32, ComponentId)| p.1),
                self@ == (WorldView { components: reown_components(v.components, fitted.take(j as int), to), ..mid }),
            decreases comps@.len() - j,
        {
            let c = comps[j];
            proof {
                lemma_reown_dom(v.components, fitted.take(j as int), to);
                assert(fitted.take(j + 1).drop_last() =~= fitted.take(j as int));
                assert(fitted.take(j + 1).last().1 == c);
            }
            if self.components.contains(c.0) {
                let comp = self.components.get_mut(c.0);
                comp.owner = to;
            }
            j = j + 1;
        }
        assert(fitted.take(fitted.len() as int) =~= fitted);
        proof {
            lemma_reown_dom(v.components, fitted, to);
            self.lemma_keys_wf();
        }
        self.push_event(EventKind::AssetOwnerChanged { asset, from, to });
        Ok(())
    }
    /// Fit a loose component into a design slot. Compatibility is checked
    /// against the slot's accept list; the component must be colocated with
    /// the asset and share its owner.
    pub fn fit_component(&mut self, component: ComponentId, asset: AssetId, slot: u32) -> (r: Result<(), SimError>)
        requires
            old(self).wf(),
            old(self)@.has_room(1),
        ensures
            final(self).wf(),
            match fit_error(old(self)@, component, asset, slot) {
                Some(e) => (r matches Err(x) && error_matches(x, e)) && final(self)@ == old(self)@,
                None => {
                    let a = old(self)@.assets[asset.0];
                    let c = old(self)@.components[component.0];
                    &&& r is Ok
                    &&& final(self)@.assets[asset.0].fitted@ == a.fitted@.push((slot, component))
                    &&& final(self)@ == (WorldView {
                        assets: old(self)@.assets.insert(
                            asset.0,
                            SerialAsset { fitted: final(self)@.assets[asset.0].fitted, ..a },
                        ),
                        components: old(self)@.components.insert(
                            component.0,
                            ComponentInstance { placement: ComponentPlacement::Fitted(asset), ..c },
                        ),
                        ..old(self)@
                    }).log(EventKind::ComponentFitted { component, asset, slot })
                },
            },
    {
        let (comp_def, comp_owner, comp_placement) = match self.components.get(component.0) {
            None => {
                return Err(SimError::UnknownComponent(component));
            },
            Some(c) => (c.def, c.owner, c.placement),
        };
        let (asset_design, asset_owner, asset_location) = match self.assets.get(asset.0) {
            None => {
                return Err(SimError::UnknownAsset(asset));
            },
            Some(a) => (a.design, a.owner, a.location),
        };
        let comp_category = match self.component_defs.get(comp_def.0) {
            None => {
                return Err(SimError::UnknownComponentDef(comp_def));
            },
            Some(d) => d.category,
        };
        if !matches!(comp_category, ComponentCategory::MechOrEquipment) {
            return Err(SimError::WrongComponentCategory { component });
        }
        let design = match self.designs.get(asset_design.0) {
            None => {
                return Err(SimError::UnknownDesign(asset_design));
            },
            Some(d) => d,
        };
        if slot as usize >= design.slots.len() {
            return Err(SimError::IncompatibleComponent { component, asset, slot });
        }
        let slot_def = &design.slots[slot as usize];
        let mut accepted = false;
        let mut i: usize = 0;
        while i < slot_def.accepts.len()
            invariant
                i <= slot_def.accepts@.len(),
                accepted == exists|k: int| 0 <= k < i && slot_def.accepts@[k] == comp_def,
            decreases slot_def.accepts@.len() - i,
        {
            if slot_def.accepts[i].0 == comp_def.0 {
                accepted = true;
            }
            i = i + 1;
        }
        if !accepted {
            return Err(SimError::IncompatibleComponent { component, asset, slot });
        }
        if comp_owner.0 != asset_owner.0 {
            return Err(SimError::NotOwner { actor: comp_owner });
        }
        match comp_placement {
            ComponentPlacement::Loose(loc) => {
                let here = self.resolve_site(loc);
                let there = self.resolve_site(asset_location);
                if here.is_none() || here != there {
                    return Err(SimError::NotColocated);
                }
            },
            _ => {
                return Err(SimError::InvalidState("component is already fitted".to_owned()));
            },
        }
        let taken = match self.assets.get(asset.0) {
            Some(a) => slot_taken(&a.fitted, slot),
            None => false,
        };
        if taken {
            return Err(SimError::SlotOccupied { asset, slot });
        }
        let a = self.assets.get_mut(asset.0);
        a.fitted.push((slot, component));
        let c = self.components.get_mut(component.0);
        c.placement = ComponentPlacement::Fitted(asset);
        proof {
            self.lemma_keys_wf();
        }
        self.push_event(EventKind::ComponentFitted { component, asset, slot });
        Ok(())
    }

    /// Fit a loose component into one of a factory's five fixed sub-system
    /// slots. The component's category decides which slot it fills; each
    /// slot takes exactly one component.
    pub fn fit_factory_component(&mut self, factory: FactoryId, component: ComponentId) -> (r: Result<
        (),
        SimError,
    >)
        requires
            old(self).wf(),
            old(self)@.has_room(1),
        ensures
            final(self).wf(),
            match factory_fit_error(old(self)@, factory, component) {
                Some(e) => (r matches Err(x) && error_matches(x, e)) && final(self)@ == old(self)@,
                None => {
                    let f = old(self)@.factories[factory.0];
                    let c = old(self)@.components[component.0];
                    let category = old(self)@.component_defs[c.def.0].category;
                    &&& r is Ok
                    &&& final(self)@.factories[factory.0].components@ == f.components@.push((category, component))
                    &&& final(self)@ == (WorldView {
                        factories: old(self)@.factories.insert(
                            factory.0,
                            Factory { components: final(self)@.factories[factory.0].components, ..f },
                        ),
                        components: old(self)@.components.insert(
                            component.0,
                            ComponentInstance { placement: ComponentPlacement::FittedFactory(factory), ..c },
                        ),
                        ..old(self)@
                    }).log(EventKind::ComponentFittedToFactory { component, factory, category })
                },
            },
            crate::invariants::consistent(old(self)@) ==> crate::invariants::consistent(final(self)@),
    {
        let (f_owner, f_site) = match self.factories.get(factory.0) {
            None => {
                return Err(SimError::UnknownFactory(factory));
            },
            Some(f) => (f.owner, f.site),
        };
        let (comp_def, comp_owner, comp_placement) = match self.components.get(component.0) {
            None => {
                return Err(SimError::UnknownComponent(component));
            },
            Some(c) => (c.def, c.owner, c.placement),
        };
        let category = match self.component_defs.get(comp_def.0) {
            None => {
                return Err(SimError::UnknownComponentDef(comp_def));
            },
            Some(d) => d.category,
        };
        if !category.is_factory_slot() {
            return Err(SimError::WrongComponentCategory { component });
        }
        if comp_owner.0 != f_owner.0 {
            return Err(SimError::NotOwner { actor: comp_owner });
        }
        match comp_placement {
            ComponentPlacement::Loose(loc) => {
                let here = self.resolve_site(loc);
                let at_factory = match here {
                    Some(s) => s.0 == f_site.0,
                    None => false,
                };
                if !at_factory {
                    return Err(SimError::NotColocated);
                }
            },
            _ => {
                return Err(SimError::InvalidState("component is already fitted".to_owned()));
            },
        }
        let taken = match self.factories.get(factory.0) {
            Some(f) => category_taken(&f.components, category),
            None => false,
        };
        if taken {
            return Err(SimError::FactorySlotOccupied { factory, category });
        }
        let f = self.factories.get_mut(factory.0);
        f.components.push((category, component));
        let c = self.components.get_mut(component.0);
        c.placement = ComponentPlacement::FittedFactory(factory);
        proof {
            self.lemma_keys_wf();
        }
        self.push_event(EventKind::ComponentFittedToFactory { component, factory, category });
        proof {
            if crate::invariants::consistent(old(self)@) {
                crate::invariants::lemma_fit_factory_consistent(old(self)@, self@, factory, component);
            }
        }
        Ok(())
    }

    /// Stow a lot inside a serial cargo container. The container must be a
    /// cargo container and physically colocated with the lot.
    pub fn stow_lot_in_container(&mut self, lot: LotId, container: AssetId) -> (r: Result<(), SimError>)
        requires
            old(self).wf(),
            old(self)@.has_room(1),
        ensures
            final(self).wf(),
            r is Err ==> final(self)@ == old(self)@,
            !old(self)@.assets.dom().contains(container.0) ==> r == Err::<(), SimError>(
                SimError::UnknownAsset(container),
            ),
            old(self)@.assets.dom().contains(container.0) && !old(self)@.designs.dom().contains(
                old(self)@.assets[container.0].design.0,
            ) ==> r == Err::<(), SimError>(SimError::UnknownDesign(old(self)@.assets[container.0].design)),
            old(self)@.assets.dom().contains(container.0) && old(self)@.designs.dom().contains(
                old(self)@.assets[container.0].design.0,
            ) ==> {
                let ca = old(self)@.assets[container.0];
                if old(self)@.designs[ca.design.0].kind != AssetKind::CargoContainer {
                    r == Err::<(), SimError>(SimError::InvalidAssetKind(container))
                } else if !old(self)@.lots.dom().contains(lot.0) {
                    r == Err::<(), SimError>(SimError::UnknownLot(lot))
                } else if resolve(old(self)@, ca.location) is None || resolve(
                    old(self)@,
                    old(self)@.lots[lot.0].location,
                ) != resolve(old(self)@, ca.location) {
                    r == Err::<(), SimError>(SimError::NotColocated)
                } else {
                    r is Ok && final(self)@ == crate::goods::with_lot(
                        old(self)@,
                        lot.0,
                        Lot { location: LocationRef::Container(container), ..old(self)@.lots[lot.0] },
                    ).log(
                        EventKind::LotMoved {
                            lot,
                            from: old(self)@.lots[lot.0].location,
                            to: LocationRef::Container(container),
                        },
                    )
                }
            },
    {
        let (c_design, c_location) = match self.assets.get(container.0) {
            None => {
                return Err(SimError::UnknownAsset(container));
            },
            Some(a) => (a.design, a.location),
        };
        let kind = match self.designs.get(c_design.0) {
            None => {
                return Err(SimError::UnknownDesign(c_design));
            },
            Some(d) => d.kind,
        };
        if !matches!(kind, AssetKind::CargoContainer) {
            return Err(SimError::InvalidAssetKind(container));
        }
        let container_site = self.resolve_site(c_location);
        let lot_loc = match self.lots.get(lot.0) {
            None => {
                return Err(SimError::UnknownLot(lot));
            },
            Some(l) => l.location,
        };
        if container_site.is_none() || self.resolve_site(lot_loc) != container_site {
            return Err(SimError::NotColocated);
        }
        self.move_lot_raw(lot, LocationRef::Container(container))
    }
}

} // verus!
