//! Factories and production jobs.
//!
//! Factories consume exact real inputs and produce real outputs over real
//! days. Inputs are consumed when the job starts; outputs are created at
//! completion with origins pointing at the factory and job. Tooling binds a
//! factory to an exact item design.

use crate::actors::{with_treasury, Credits};
use crate::assets::{category_taken, has_category, AssetKind, ComponentCategory};
use crate::error::{error_matches, invalid_state, SimError};
use crate::events::EventKind;
use crate::goods::{split_state, with_lot, Lot, LotState, QualityGrade};
use crate::assets::{ComponentInstance, ComponentPlacement};
use crate::locations::LocationRef;
use crate::table::Table;
use crate::assets::AssetOrigin;
use crate::goods::{LegalStatus, Lineage, LotOrigin};
use crate::world::phase_ok;
use crate::combat::money_untouched;
use crate::ids::{ActorId, LocationId, CommodityId, LotId, DesignId, AssetId, ComponentDefId, ComponentId, FactoryId, RecipeId, ProductionJobId};
use crate::locations::resolve;
use crate::world::{World, WorldView};
use vstd::prelude::*;

verus! {

#[derive(Debug, Clone, Copy, PartialEq, Eq, Structural)]
pub enum RecipeOutputs {
    /// Bulk output as a provenance-bearing lot.
    Commodity { commodity: CommodityId, quantity: u64 },
    /// Serial output: individual assets of an exact design.
    SerialAssets { design: DesignId, count: u32 },
    /// Component output: loose component instances.
    Components { def: ComponentDefId, count: u32 },
}

/// A real component requirement on a recipe: accept any of these defs, need
/// this many.
#[derive(Debug, Clone, PartialEq)]
pub struct ComponentRequirement {
    pub accepts: Vec<ComponentDefId>,
    pub count: u32,
}

#[derive(Debug, Clone, PartialEq)]
pub struct Recipe {
    pub id: RecipeId,
    pub name: String,
    /// Exact bulk inputs: commodity and quantity.
    pub inputs: Vec<(CommodityId, u64)>,
    /// Real component inputs consumed by the recipe.
    pub component_inputs: Vec<ComponentRequirement>,
    pub outputs: RecipeOutputs,
    pub duration_days: u64,
    /// If set, the factory must have tooling of this exact design installed.
    pub required_tooling_design: Option<DesignId>,
}

#[derive(Debug, Clone)]
pub struct Factory {
    pub id: FactoryId,
    pub owner: ActorId,
    pub site: LocationId,
    /// Installed tooling asset, if any.
    pub tooling: Option<AssetId>,
    /// Parallel line count.
    pub lines: u32,
    /// The fixed sub-system components, one per filled category.
    pub components: Vec<(ComponentCategory, ComponentId)>,
    /// Money cost paid the last time this factory's tooling changed.
    pub last_retool_cost: Option<i64>,
    /// Production cannot start while `today < retooling_until`.
    pub retooling_until: u64,
}

#[derive(Debug, Clone, PartialEq)]
pub enum JobState {
    InProgress,
    Completed { output_lots: Vec<LotId>, output_assets: Vec<AssetId>, output_components: Vec<ComponentId> },
}

#[derive(Debug, Clone, PartialEq)]
pub struct ProductionJob {
    pub id: ProductionJobId,
    pub factory: FactoryId,
    pub recipe: RecipeId,
    pub owner: ActorId,
    pub started_day: u64,
    pub completes_day: u64,
    /// The real input lots this job consumed, kept for provenance.
    pub consumed_lots: Vec<LotId>,
    /// The real input components this job consumed, kept for provenance.
    pub consumed_components: Vec<ComponentId>,
    pub state: JobState,
}


/// `[category]` when the factory has no component in it yet.
pub open spec fn missing_if_empty(comps: Seq<(ComponentCategory, ComponentId)>, c: ComponentCategory) -> Seq<
    ComponentCategory,
> {
    if has_category(comps, c) {
        Seq::empty()
    } else {
        seq![c]
    }
}

/// The fixed sub-system slots still empty, in slot order: labor, assembly
/// line, power, control, quality assurance.
pub open spec fn missing_categories(comps: Seq<(ComponentCategory, ComponentId)>) -> Seq<ComponentCategory> {
    missing_if_empty(comps, ComponentCategory::FactoryLabor) + missing_if_empty(
        comps,
        ComponentCategory::FactoryAssemblyLine,
    ) + missing_if_empty(comps, ComponentCategory::FactoryPower) + missing_if_empty(
        comps,
        ComponentCategory::FactoryControl,
    ) + missing_if_empty(comps, ComponentCategory::FactoryQualityAssurance)
}

/// The quality a percentage roll gives a production output: the bottom
/// tenth is poor, the top tenth fine, the rest standard.
pub open spec fn quality_of_roll(roll: u8) -> QualityGrade {
    if roll < 10 {
        QualityGrade::Poor
    } else if roll >= 90 {
        QualityGrade::Fine
    } else {
        QualityGrade::Standard
    }
}

/// Why installing this tooling into this factory fails before any money
/// moves, if it does.
pub open spec fn tooling_error(v: WorldView, factory: FactoryId, tooling: AssetId) -> Option<SimError> {
    if !v.factories.dom().contains(factory.0) {
        Some(SimError::UnknownFactory(factory))
    } else if !v.assets.dom().contains(tooling.0) {
        Some(SimError::UnknownAsset(tooling))
    } else if !v.designs.dom().contains(v.assets[tooling.0].design.0) {
        Some(SimError::UnknownDesign(v.assets[tooling.0].design))
    } else if v.designs[v.assets[tooling.0].design.0].kind != AssetKind::FactoryTooling {
        Some(SimError::InvalidAssetKind(tooling))
    } else if v.assets[tooling.0].owner != v.factories[factory.0].owner {
        Some(SimError::NotOwner { actor: v.assets[tooling.0].owner })
    } else if resolve(v, v.assets[tooling.0].location) != Some(v.factories[factory.0].site) {
        Some(SimError::NotColocated)
    } else {
        None
    }
}

fn push_if_missing(v: &mut Vec<ComponentCategory>, comps: &Vec<(ComponentCategory, ComponentId)>, c: ComponentCategory)
    ensures
        final(v)@ == old(v)@ + missing_if_empty(comps@, c),
{
    if !category_taken(comps, c) {
        v.push(c);
        assert(final(v)@ =~= old(v)@ + seq![c]);
    } else {
        assert(old(v)@ + Seq::<ComponentCategory>::empty() =~= old(v)@);
    }
}

impl Factory {
    /// Which of the five required sub-system slots are still empty.
    pub fn missing_components(&self) -> (r: Vec<ComponentCategory>)
        ensures
            r@ == missing_categories(self.components@),
    {
        let mut r: Vec<ComponentCategory> = Vec::new();
        push_if_missing(&mut r, &self.components, ComponentCategory::FactoryLabor);
        push_if_missing(&mut r, &self.components, ComponentCategory::FactoryAssemblyLine);
        push_if_missing(&mut r, &self.components, ComponentCategory::FactoryPower);
        push_if_missing(&mut r, &self.components, ComponentCategory::FactoryControl);
        push_if_missing(&mut r, &self.components, ComponentCategory::FactoryQualityAssurance);
        assert(r@ =~= missing_categories(self.components@));
        r
    }

    pub fn is_operational(&self) -> (b: bool)
        ensures
            b == (missing_categories(self.components@).len() == 0),
    {
        self.missing_components().len() == 0
    }
}

impl World {
    pub fn create_factory(&mut self, owner: ActorId, site: LocationId, lines: u32) -> (r: Result<FactoryId, SimError>)
        requires
            old(self).wf(),
            old(self)@.has_room(2),
        ensures
            final(self).wf(),
            !old(self)@.actors.dom().contains(owner.0) ==> r == Err::<FactoryId, SimError>(
                SimError::UnknownActor(owner),
            ) && final(self)@ == old(self)@,
            old(self)@.actors.dom().contains(owner.0) && !old(self)@.locations.dom().contains(site.0) ==> r
                == Err::<FactoryId, SimError>(SimError::UnknownLocation(site)) && final(self)@ == old(self)@,
            old(self)@.actors.dom().contains(owner.0) && old(self)@.locations.dom().contains(site.0) ==> {
                let id = FactoryId(old(self)@.next_id);
                let f = final(self)@.factories[id.0];
                &&& r == Ok::<FactoryId, SimError>(id)
                &&& f.components@.len() == 0
                &&& final(self)@ == (WorldView {
                    factories: old(self)@.factories.insert(
                        id.0,
                        Factory {
                            id,
                            owner,
                            site,
                            tooling: None,
                            lines,
                            components: f.components,
                            last_retool_cost: None,
                            retooling_until: 0,
                        },
                    ),
                    ..old(self)@.bump()
                }).log(EventKind::FactoryCreated { factory: id })
            },
            crate::invariants::consistent(old(self)@) ==> crate::invariants::consistent(final(self)@),
    {
        if !self.actors.contains(owner.0) {
            return Err(SimError::UnknownActor(owner));
        }
        if !self.locations.contains(site.0) {
            return Err(SimError::UnknownLocation(site));
        }
        let id = FactoryId(self.alloc_id());
        proof {
            self.factories.lemma_fresh(id.0);
        }
        self.factories.insert_new(
            id.0,
            Factory {
                id,
                owner,
                site,
                tooling: None,
                lines,
                components: Vec::new(),
                last_retool_cost: None,
                retooling_until: 0,
            },
        );
        proof {
            self.lemma_keys_wf();
        }
        self.push_event(EventKind::FactoryCreated { factory: id });
        proof {
            let o = old(self)@;
            if crate::invariants::consistent(o) {
                assert(crate::invariants::grows_soundly(o, self@));
                crate::invariants::lemma_consistent_grows(o, self@);
            }
        }
        Ok(id)
    }

    /// Install (or swap) a tooling asset into a factory. The tooling must be
    /// a real factory-tooling asset, owned by the factory owner, at the
    /// factory's site. Retooling is a hard money cost, paid at once out of
    /// the owner's treasury (the credits leave circulation), plus downtime:
    /// no production starts until `downtime_days` have passed.
    pub fn install_tooling(&mut self, factory: FactoryId, tooling: AssetId, cost: Credits, downtime_days: u64) -> (r:
        Result<(), SimError>)
        requires
            old(self).wf(),
            old(self)@.has_room(1),
            old(self)@.clock.day + downtime_days <= u64::MAX,
        ensures
            final(self).wf(),
            old(self)@.money_conserved() && old(self)@.money_issued - cost >= i128::MIN
                ==> final(self)@.money_conserved(),
            match tooling_error(old(self)@, factory, tooling) {
                Some(e) => r == Err::<(), SimError>(e) && final(self)@ == old(self)@,
                None => {
                    let f = old(self)@.factories[factory.0];
                    let paid = if cost > 0 {
                        WorldView {
                            money_issued: crate::arith::clamp_i128(old(self)@.money_issued - cost) as i128,
                            ..with_treasury(old(self)@, f.owner.0, (old(self)@.actors[f.owner.0].treasury - cost) as i64)
                        }
                    } else {
                        old(self)@
                    };
                    let retooling_until = (old(self)@.clock.day + downtime_days) as u64;
                    if cost > 0 && !old(self)@.actors.dom().contains(f.owner.0) {
                        r == Err::<(), SimError>(SimError::UnknownActor(f.owner)) && final(self)@ == old(self)@
                    } else if cost > 0 && old(self)@.actors[f.owner.0].treasury < cost {
                        r == Err::<(), SimError>(
                            SimError::InsufficientFunds {
                                actor: f.owner,
                                needed: cost,
                                available: old(self)@.actors[f.owner.0].treasury,
                            },
                        ) && final(self)@ == old(self)@
                    } else {
                        r is Ok && final(self)@ == (WorldView {
                            factories: paid.factories.insert(
                                factory.0,
                                Factory {
                                    tooling: Some(tooling),
                                    last_retool_cost: Some(cost),
                                    retooling_until,
                                    ..f
                                },
                            ),
                            ..paid
                        }).log(EventKind::ToolingInstalled { factory, tooling, cost, retooling_until })
                    }
                },
            },
            crate::invariants::consistent(old(self)@) && old(self)@.money_issued - cost >= i128::MIN
                ==> crate::invariants::consistent(final(self)@),
    {
        let (f_owner, f_site) = match self.factories.get(factory.0) {
            None => {
                return Err(SimError::UnknownFactory(factory));
            },
            Some(f) => (f.owner, f.site),
        };
        let kind = self.asset_kind(tooling)?;
        if !matches!(kind, AssetKind::FactoryTooling) {
            return Err(SimError::InvalidAssetKind(tooling));
        }
        let (owner, location) = match self.assets.get(tooling.0) {
            None => {
                return Err(SimError::UnknownAsset(tooling));
            },
            Some(a) => (a.owner, a.location),
        };
        if owner.0 != f_owner.0 {
            return Err(SimError::NotOwner { actor: owner });
        }
        let here = self.resolve_site(location);
        let colocated = match here {
            Some(s) => s.0 == f_site.0,
            None => false,
        };
        if !colocated {
            return Err(SimError::NotColocated);
        }
        if cost > 0 {
            self.burn(f_owner, cost)?;
        }
        let retooling_until = self.clock.day + downtime_days;
        let entry = self.factories.get_mut(factory.0);
        entry.tooling = Some(tooling);
        entry.last_retool_cost = Some(cost);
        entry.retooling_until = retooling_until;
        proof {
            self.lemma_keys_wf();
        }
        self.push_event(EventKind::ToolingInstalled { factory, tooling, cost, retooling_until });
        proof {
            let o = old(self)@;
            if crate::invariants::consistent(o) && o.money_issued - cost >= i128::MIN {
                assert(self@.factories.dom() =~= o.factories.dom());
                assert(self@.actors.dom() =~= o.actors.dom());
                crate::invariants::lemma_factory_fields_consistent(o, self@);
            }
        }
        Ok(())
    }

    pub fn define_recipe(
        &mut self,
        name: &str,
        inputs: Vec<(CommodityId, u64)>,
        component_inputs: Vec<ComponentRequirement>,
        outputs: RecipeOutputs,
        duration_days: u64,
        required_tooling_design: Option<DesignId>,
    ) -> (id: RecipeId)
        requires
            old(self).wf(),
            old(self)@.has_room(2),
        ensures
            final(self).wf(),
            id == RecipeId(old(self)@.next_id),
            final(self)@.recipes[id.0].name@ == name@,
            final(self)@ == (WorldView {
                recipes: old(self)@.recipes.insert(
                    id.0,
                    Recipe {
                        id,
                        name: final(self)@.recipes[id.0].name,
                        inputs,
                        component_inputs,
                        outputs,
                        duration_days: if duration_days >= 1 {
                            duration_days
                        } else {
                            1
                        },
                        required_tooling_design,
                    },
                ),
                ..old(self)@.bump()
            }).log(EventKind::RecipeDefined { recipe: id }),
            crate::invariants::consistent(old(self)@) ==> crate::invariants::consistent(final(self)@),
    {
        let id = RecipeId(self.alloc_id());
        let duration = if duration_days >= 1 {
            duration_days
        } else {
            1
        };
        proof {
            self.recipes.lemma_fresh(id.0);
        }
        self.recipes.insert_new(
            id.0,
            Recipe {
                id,
                name: name.to_owned(),
                inputs,
                component_inputs,
                outputs,
                duration_days: duration,
                required_tooling_design,
            },
        );
        proof {
            self.lemma_keys_wf();
        }
        self.push_event(EventKind::RecipeDefined { recipe: id });
        proof {
            let o = old(self)@;
            if crate::invariants::consistent(o) {
                assert(crate::invariants::grows_soundly(o, self@));
                crate::invariants::lemma_consistent_grows(o, self@);
            }
        }
        id
    }

    /// Quality roll for a production output, drawn from the world's
    /// generator.
    pub(crate) fn roll_output_quality(&mut self) -> (q: QualityGrade)
        requires
            old(self).wf(),
        ensures
            final(self).wf(),
            crate::world::phase_ok(old(self)@, final(self)@),
            crate::combat::money_untouched(final(self)@, old(self)@),
            final(self)@ == (WorldView { rng: old(self)@.rng.advanced(), ..old(self)@ }),
            q == quality_of_roll(old(self)@.rng.percent_roll()),
    {
        let roll = self.rng.roll_percent();
        proof {
            self.lemma_keys_wf();
        }
        if roll < 10 {
            QualityGrade::Poor
        } else if roll >= 90 {
            QualityGrade::Fine
        } else {
            QualityGrade::Standard
        }
    }
}


/// Why one offered lot cannot feed a job of `owner` at `site`, if it
/// cannot: it must exist, be active, be the owner's, and be at the site.
pub open spec fn offered_lot_error(v: WorldView, owner: ActorId, site: LocationId, lot: LotId) -> Option<SimError> {
    if !v.lots.dom().contains(lot.0) {
        Some(SimError::UnknownLot(lot))
    } else if v.lots[lot.0].state != LotState::Active {
        Some(SimError::LotNotActive(lot))
    } else if v.lots[lot.0].owner != owner {
        Some(SimError::NotOwner { actor: v.lots[lot.0].owner })
    } else if resolve(v, v.lots[lot.0].location) != Some(site) {
        Some(SimError::NotColocated)
    } else {
        None
    }
}

/// The first offered lot, in order, that cannot feed the job.
pub open spec fn first_offered_lot_error(v: WorldView, owner: ActorId, site: LocationId, offered: Seq<LotId>) -> Option<
    SimError,
>
    decreases offered.len(),
{
    if offered.len() == 0 {
        None
    } else {
        match first_offered_lot_error(v, owner, site, offered.drop_last()) {
            Some(e) => Some(e),
            None => offered_lot_error(v, owner, site, offered.last()),
        }
    }
}

/// What every offered lot has to give before any take: its quantity.
pub open spec fn initial_remaining(v: WorldView, offered: Seq<LotId>) -> Map<u64, u64> {
    Map::new(|k: u64| offered.contains(LotId(k)), |k: u64| v.lots[k].quantity)
}

/// Taking `needed` of one commodity from the offered lots in order, each
/// giving what it has left: the quantity still missing afterwards, what
/// each lot has left, and the takes made.
pub open spec fn take_from_lots(
    v: WorldView,
    commodity: CommodityId,
    offered: Seq<LotId>,
    needed: u64,
    rem: Map<u64, u64>,
) -> (u64, Map<u64, u64>, Seq<(LotId, u64)>)
    decreases offered.len(),
{
    if offered.len() == 0 {
        (needed, rem, Seq::empty())
    } else {
        let prev = take_from_lots(v, commodity, offered.drop_last(), needed, rem);
        let n = prev.0;
        let r = prev.1;
        let lot = offered.last();
        if n == 0 || v.lots[lot.0].commodity != commodity || r[lot.0] == 0 {
            prev
        } else {
            let take = if n <= r[lot.0] {
                n
            } else {
                r[lot.0]
            };
            ((n - take) as u64, r.insert(lot.0, (r[lot.0] - take) as u64), prev.2.push((lot, take)))
        }
    }
}

/// The quantity the takes draw from lots of commodity `c`.
pub open spec fn taken_of(v: WorldView, takes: Seq<(LotId, u64)>, c: CommodityId) -> int
    decreases takes.len(),
{
    if takes.len() == 0 {
        0
    } else {
        taken_of(v, takes.drop_last(), c) + if v.lots[takes.last().0.0].commodity == c {
            takes.last().1 as int
        } else {
            0
        }
    }
}

/// The quantity of commodity `c` a list of inputs asks for.
pub open spec fn required_of(inputs: Seq<(CommodityId, u64)>, c: CommodityId) -> int
    decreases inputs.len(),
{
    if inputs.len() == 0 {
        0
    } else {
        required_of(inputs.drop_last(), c) + if inputs.last().0 == c {
            inputs.last().1 as int
        } else {
            0
        }
    }
}

proof fn lemma_taken_concat(v: WorldView, a: Seq<(LotId, u64)>, b: Seq<(LotId, u64)>, c: CommodityId)
    ensures
        taken_of(v, a + b, c) == taken_of(v, a, c) + taken_of(v, b, c),
    decreases b.len(),
{
    if b.len() == 0 {
        assert(a + b =~= a);
    } else {
        lemma_taken_concat(v, a, b.drop_last(), c);
        assert((a + b).drop_last() =~= a + b.drop_last());
    }
}

/// Taking from the offered lots draws only the one commodity, exactly what
/// was needed less what is still missing.
proof fn lemma_take_sum(v: WorldView, commodity: CommodityId, offered: Seq<LotId>, needed: u64, rem: Map<u64, u64>, c: CommodityId)
    ensures
        take_from_lots(v, commodity, offered, needed, rem).0 <= needed,
        taken_of(v, take_from_lots(v, commodity, offered, needed, rem).2, c) == if c == commodity {
            needed - take_from_lots(v, commodity, offered, needed, rem).0
        } else {
            0
        },
    decreases offered.len(),
{
    if offered.len() > 0 {
        lemma_take_sum(v, commodity, offered.drop_last(), needed, rem, c);
        let prev = take_from_lots(v, commodity, offered.drop_last(), needed, rem);
        let lot = offered.last();
        let n = prev.0;
        let r = prev.1;
        if !(n == 0 || v.lots[lot.0].commodity != commodity || r[lot.0] == 0) {
            let take = if n <= r[lot.0] {
                n
            } else {
                r[lot.0]
            };
            let t2 = prev.2.push((lot, take));
            assert(t2.drop_last() =~= prev.2);
            assert(t2.last() == (lot, take));
            assert(taken_of(v, t2, c) == taken_of(v, prev.2, c) + if v.lots[lot.0].commodity == c {
                take as int
            } else {
                0
            });
        }
    }
}

/// A plan that covers every input draws, commodity by commodity, exactly what
/// the inputs ask for.
pub proof fn lemma_plan_takes_cover(v: WorldView, inputs: Seq<(CommodityId, u64)>, offered: Seq<LotId>, c: CommodityId)
    requires
        plan_inputs(v, inputs, offered).2 is None,
    ensures
        taken_of(v, plan_inputs(v, inputs, offered).1, c) == required_of(inputs, c),
    decreases inputs.len(),
{
    if inputs.len() > 0 {
        let prev = plan_inputs(v, inputs.drop_last(), offered);
        lemma_plan_takes_cover(v, inputs.drop_last(), offered, c);
        let (commodity, required) = inputs.last();
        let t = take_from_lots(v, commodity, offered, required, prev.0);
        lemma_take_sum(v, commodity, offered, required, prev.0, c);
        lemma_taken_concat(v, prev.1, t.2, c);
    }
}

/// Planning the bulk takes for every recipe input in order: what each lot
/// has left, the takes, and the first input the offer cannot cover.
pub open spec fn plan_inputs(v: WorldView, inputs: Seq<(CommodityId, u64)>, offered: Seq<LotId>) -> (Map<u64, u64>, Seq<
    (LotId, u64),
>, Option<SimError>)
    decreases inputs.len(),
{
    if inputs.len() == 0 {
        (initial_remaining(v, offered), Seq::empty(), None)
    } else {
        let prev = plan_inputs(v, inputs.drop_last(), offered);
        if prev.2 is Some {
            prev
        } else {
            let (commodity, required) = inputs.last();
            let t = take_from_lots(v, commodity, offered, required, prev.0);
            if t.0 > 0 {
                (prev.0, prev.1, Some(SimError::InsufficientQuantity { commodity, missing: t.0 }))
            } else {
                (t.1, prev.1 + t.2, None)
            }
        }
    }
}

/// The tier of a component's definition, when both exist.
pub open spec fn comp_tier(v: WorldView, c: ComponentId) -> Option<u8> {
    if v.components.dom().contains(c.0) && v.component_defs.dom().contains(v.components[c.0].def.0) {
        Some(v.component_defs[v.components[c.0].def.0].tier)
    } else {
        None
    }
}

/// Component `a` sorts before `b`: lower tier (an unknown tier first),
/// then lower id.
pub open spec fn comp_before(v: WorldView, a: ComponentId, b: ComponentId) -> bool {
    let ta = comp_tier(v, a);
    let tb = comp_tier(v, b);
    ||| (ta is None && tb is Some)
    ||| (ta is Some && tb is Some && ta->0 < tb->0)
    ||| (ta == tb && a.0 < b.0)
}

/// `i` is the first position of a smallest component.
pub open spec fn is_first_min(v: WorldView, s: Seq<ComponentId>, i: int) -> bool {
    &&& 0 <= i < s.len()
    &&& forall|j: int| 0 <= j < s.len() ==> !comp_before(v, #[trigger] s[j], s[i])
    &&& forall|j: int| 0 <= j < i ==> comp_before(v, s[i], #[trigger] s[j])
}

pub open spec fn first_min(v: WorldView, s: Seq<ComponentId>) -> int {
    choose|i: int| is_first_min(v, s, i)
}

/// The `n` smallest components of a list, smallest first.
pub open spec fn select_smallest(v: WorldView, s: Seq<ComponentId>, n: nat) -> Seq<ComponentId>
    decreases n,
{
    if n == 0 || s.len() == 0 {
        Seq::empty()
    } else {
        let i = first_min(v, s);
        seq![s[i]] + select_smallest(v, s.remove(i), (n - 1) as nat)
    }
}

/// The offered components that can meet one requirement, in offered order,
/// skipping those already taken; an error at the first unknown or foreign
/// component met.
pub open spec fn gather_candidates(
    v: WorldView,
    accepts: Seq<ComponentDefId>,
    offered: Seq<ComponentId>,
    used: Seq<ComponentId>,
    owner: ActorId,
    site: LocationId,
) -> Result<Seq<ComponentId>, SimError>
    decreases offered.len(),
{
    if offered.len() == 0 {
        Ok(Seq::empty())
    } else {
        let prev = gather_candidates(v, accepts, offered.drop_last(), used, owner, site);
        let c = offered.last();
        if prev is Err {
            prev
        } else if used.contains(c) {
            prev
        } else if !v.components.dom().contains(c.0) {
            Err(SimError::UnknownComponent(c))
        } else if v.components[c.0].owner != owner {
            Err(SimError::NotOwner { actor: v.components[c.0].owner })
        } else if !accepts.contains(v.components[c.0].def) {
            prev
        } else if v.components[c.0].placement matches ComponentPlacement::Loose(loc) && resolve(v, loc) == Some(site) {
            Ok(prev->Ok_0.push(c))
        } else {
            prev
        }
    }
}

/// Planning the component takes for every requirement in order: the
/// components taken, and the first requirement the offer cannot cover.
pub open spec fn plan_components(
    v: WorldView,
    reqs: Seq<ComponentRequirement>,
    offered: Seq<ComponentId>,
    owner: ActorId,
    site: LocationId,
) -> (Seq<ComponentId>, Option<SimError>)
    decreases reqs.len(),
{
    if reqs.len() == 0 {
        (Seq::empty(), None)
    } else {
        let prev = plan_components(v, reqs.drop_last(), offered, owner, site);
        let req = reqs.last();
        if prev.1 is Some {
            prev
        } else {
            match gather_candidates(v, req.accepts@, offered, prev.0, owner, site) {
                Err(e) => (prev.0, Some(e)),
                Ok(c) => if c.len() < req.count {
                    (
                        prev.0,
                        Some(
                            SimError::InsufficientComponents {
                                accepts: req.accepts,
                                missing: (req.count - c.len()) as u32,
                            },
                        ),
                    )
                } else {
                    (prev.0 + select_smallest(v, c, req.count as nat), None)
                },
            }
        }
    }
}

/// Committing the planned lot takes for `job`, in order: a take of a whole
/// lot consumes it; a partial take splits the exact quantity off and
/// consumes the child. Gives the state, the consumed lots, and the first
/// failed split.
pub open spec fn commit_lots(w: WorldView, takes: Seq<(LotId, u64)>, job: ProductionJobId) -> (WorldView, Seq<LotId>, Option<
    SimError,
>)
    decreases takes.len(),
{
    if takes.len() == 0 {
        (w, Seq::empty(), None)
    } else {
        let prev = commit_lots(w, takes.drop_last(), job);
        if prev.2 is Some {
            prev
        } else {
            let s = prev.0;
            let (lot, take) = takes.last();
            if take == s.lots[lot.0].quantity {
                (
                    with_lot(s, lot.0, Lot { state: LotState::ConsumedByProduction(job), ..s.lots[lot.0] }).log(
                        EventKind::LotConsumed { lot, job },
                    ),
                    prev.1.push(lot),
                    None,
                )
            } else {
                let (s1, rs) = split_state(s, lot, take);
                match rs {
                    Err(e) => (s1, prev.1, Some(e)),
                    Ok(child) => (
                        with_lot(s1, child.0, Lot { state: LotState::ConsumedByProduction(job), ..s1.lots[child.0] }).log(
                            EventKind::LotConsumed { lot: child, job },
                        ),
                        prev.1.push(child),
                        None,
                    ),
                }
            }
        }
    }
}

/// Every listed component marked consumed by `job`.
pub open spec fn comps_consumed(m: Map<u64, ComponentInstance>, takes: Seq<ComponentId>, job: ProductionJobId) -> Map<
    u64,
    ComponentInstance,
>
    decreases takes.len(),
{
    if takes.len() == 0 {
        m
    } else {
        let prev = comps_consumed(m, takes.drop_last(), job);
        let k = takes.last().0;
        if prev.dom().contains(k) {
            prev.insert(k, ComponentInstance { placement: ComponentPlacement::Consumed(job), ..prev[k] })
        } else {
            prev
        }
    }
}

/// Why a job cannot start at this factory on this recipe before any input
/// is looked at, if it cannot: unknown factory or recipe, missing
/// sub-systems, retooling downtime, or tooling for another design.
pub open spec fn start_precheck(v: WorldView, factory: FactoryId, recipe: RecipeId) -> Option<SimError> {
    if !v.factories.dom().contains(factory.0) {
        Some(SimError::UnknownFactory(factory))
    } else if !v.recipes.dom().contains(recipe.0) {
        Some(SimError::UnknownRecipe(recipe))
    } else {
        let f = v.factories[factory.0];
        let rc = v.recipes[recipe.0];
        if missing_categories(f.components@).len() > 0 {
            Some(SimError::FactoryIncomplete { factory, missing: vstd::pervasive::arbitrary() })
        } else if v.clock.day < f.retooling_until {
            Some(invalid_state())
        } else if rc.required_tooling_design is Some && f.tooling is None {
            Some(SimError::ToolingMismatch { factory })
        } else if rc.required_tooling_design is Some && !v.assets.dom().contains((f.tooling->0).0) {
            Some(SimError::UnknownAsset(f.tooling->0))
        } else if rc.required_tooling_design is Some && v.assets[(f.tooling->0).0].design != rc.required_tooling_design->0 {
            Some(SimError::ToolingMismatch { factory })
        } else {
            None
        }
    }
}


pub proof fn lemma_first_lot_error_prefix(v: WorldView, owner: ActorId, site: LocationId, s: Seq<LotId>, n: int)
    requires
        0 <= n <= s.len(),
        first_offered_lot_error(v, owner, site, s.take(n)) is Some,
    ensures
        first_offered_lot_error(v, owner, site, s) == first_offered_lot_error(v, owner, site, s.take(n)),
    decreases s.len(),
{
    if n == s.len() {
        assert(s.take(n) =~= s);
    } else {
        let p = s.drop_last();
        assert(p.take(n) =~= s.take(n));
        lemma_first_lot_error_prefix(v, owner, site, p, n);
    }
}

/// With no first error, every offered lot exists.
pub proof fn lemma_offered_lots_exist(v: WorldView, owner: ActorId, site: LocationId, s: Seq<LotId>)
    requires
        first_offered_lot_error(v, owner, site, s) is None,
    ensures
        forall|i: int| 0 <= i < s.len() ==> v.lots.dom().contains(#[trigger] s[i].0),
    decreases s.len(),
{
    if s.len() > 0 {
        let p = s.drop_last();
        lemma_offered_lots_exist(v, owner, site, p);
        assert forall|i: int| 0 <= i < s.len() implies v.lots.dom().contains(#[trigger] s[i].0) by {
            if i < s.len() - 1 {
                assert(s[i] == p[i]);
            }
        }
    }
}

/// Exactly one position is the first smallest.
pub proof fn lemma_first_min_unique(v: WorldView, s: Seq<ComponentId>, i: int)
    requires
        is_first_min(v, s, i),
    ensures
        first_min(v, s) == i,
{
    let j = first_min(v, s);
    assert(is_first_min(v, s, j));
    if j < i {
        assert(comp_before(v, s[i], s[j]));
        assert(!comp_before(v, s[i], s[j]));
    } else if j > i {
        assert(comp_before(v, s[j], s[i]));
    }
}

pub proof fn lemma_comp_before_order(v: WorldView, a: ComponentId, b: ComponentId, c: ComponentId)
    ensures
        comp_before(v, a, b) && comp_before(v, b, c) ==> comp_before(v, a, c),
        !comp_before(v, a, a),
        !comp_before(v, a, b) && !comp_before(v, b, a) ==> a == b,
{
}

/// Every nonempty list has a first smallest component.
pub proof fn lemma_first_min_exists(v: WorldView, s: Seq<ComponentId>)
    requires
        s.len() > 0,
    ensures
        is_first_min(v, s, first_min(v, s)),
    decreases s.len(),
{
    if s.len() == 1 {
        assert(is_first_min(v, s, 0));
        lemma_first_min_unique(v, s, 0);
    } else {
        let p = s.drop_last();
        lemma_first_min_exists(v, p);
        let i = first_min(v, p);
        let n = s.len() - 1;
        let x = s[n];
        assert(s[i] == p[i]);
        if comp_before(v, x, s[i]) {
            assert forall|j: int| 0 <= j < n implies comp_before(v, x, #[trigger] s[j]) by {
                assert(s[j] == p[j]);
                lemma_comp_before_order(v, x, s[i], s[j]);
                lemma_comp_before_order(v, s[i], s[j], s[j]);
                lemma_comp_before_order(v, s[j], s[i], s[j]);
            }
            assert forall|j: int| 0 <= j < s.len() implies !comp_before(v, #[trigger] s[j], x) by {
                lemma_comp_before_order(v, x, x, x);
                if j < n {
                    lemma_comp_before_order(v, s[j], x, s[j]);
                    lemma_comp_before_order(v, s[j], s[j], s[j]);
                }
            }
            assert(is_first_min(v, s, n));
            lemma_first_min_unique(v, s, n);
        } else {
            assert forall|j: int| 0 <= j < s.len() implies !comp_before(v, #[trigger] s[j], s[i]) by {
                if j < n {
                    assert(s[j] == p[j]);
                }
            }
            assert forall|j: int| 0 <= j < i implies comp_before(v, s[i], #[trigger] s[j]) by {
                assert(s[j] == p[j]);
            }
            assert(is_first_min(v, s, i));
            lemma_first_min_unique(v, s, i);
        }
    }
}

/// An offered component that meets a requirement (the owner's, of an
/// accepted definition, loose at the site, not already taken) is among
/// its candidates.
pub proof fn lemma_gather_member(
    v: WorldView,
    accepts: Seq<ComponentDefId>,
    offered: Seq<ComponentId>,
    used: Seq<ComponentId>,
    owner: ActorId,
    site: LocationId,
    y: ComponentId,
)
    requires
        gather_candidates(v, accepts, offered, used, owner, site) is Ok,
        offered.contains(y),
        !used.contains(y),
        v.components.dom().contains(y.0),
        v.components[y.0].owner == owner,
        accepts.contains(v.components[y.0].def),
        v.components[y.0].placement matches ComponentPlacement::Loose(loc) && resolve(v, loc) == Some(site),
    ensures
        gather_candidates(v, accepts, offered, used, owner, site)->Ok_0.contains(y),
    decreases offered.len(),
{
    let p = offered.drop_last();
    let prev = gather_candidates(v, accepts, p, used, owner, site);
    if offered.last() == y {
        let c = prev->Ok_0.push(y);
        assert(c[c.len() - 1] == y);
    } else {
        let j = choose|j: int| 0 <= j < offered.len() && offered[j] == y;
        assert(j < p.len());
        assert(p[j] == y);
        lemma_gather_member(v, accepts, p, used, owner, site, y);
        let c0 = prev->Ok_0;
        let i = choose|i: int| 0 <= i < c0.len() && c0[i] == y;
        let c = gather_candidates(v, accepts, offered, used, owner, site)->Ok_0;
        if c != c0 {
            assert(c == c0.push(offered.last()));
            assert(c[i] == y);
        }
    }
}

/// Planning production spends the lowest tiers first: a component taken
/// for requirement `k` is of a tier no higher than any offered component
/// that could have met that requirement (the owner's, of an accepted
/// definition, loose at the factory site, not taken for an earlier
/// requirement) and was left untaken.
pub proof fn law_plan_lowest_tier_first(
    v: WorldView,
    reqs: Seq<ComponentRequirement>,
    offered: Seq<ComponentId>,
    owner: ActorId,
    site: LocationId,
    k: int,
    idx: int,
    y: ComponentId,
)
    requires
        0 <= k < reqs.len(),
        plan_components(v, reqs.take(k + 1), offered, owner, site).1 is None,
        plan_components(v, reqs.take(k), offered, owner, site).0.len() <= idx < plan_components(
            v,
            reqs.take(k + 1),
            offered,
            owner,
            site,
        ).0.len(),
        offered.contains(y),
        !plan_components(v, reqs.take(k + 1), offered, owner, site).0.contains(y),
        v.components.dom().contains(y.0),
        v.components[y.0].owner == owner,
        reqs[k].accepts@.contains(v.components[y.0].def),
        v.components[y.0].placement matches ComponentPlacement::Loose(loc) && resolve(v, loc) == Some(site),
        v.component_defs.dom().contains(v.components[y.0].def.0),
        ({
            let x = plan_components(v, reqs.take(k + 1), offered, owner, site).0[idx];
            v.components.dom().contains(x.0) && v.component_defs.dom().contains(v.components[x.0].def.0)
        }),
    ensures
        ({
            let x = plan_components(v, reqs.take(k + 1), offered, owner, site).0[idx];
            v.component_defs[v.components[x.0].def.0].tier <= v.component_defs[v.components[y.0].def.0].tier
        }),
{
    let rs = reqs.take(k + 1);
    assert(rs.drop_last() =~= reqs.take(k));
    assert(rs.last() == reqs[k]);
    let prev = plan_components(v, reqs.take(k), offered, owner, site);
    let full = plan_components(v, rs, offered, owner, site);
    assert(prev.1 is None);
    let g = gather_candidates(v, reqs[k].accepts@, offered, prev.0, owner, site);
    assert(g is Ok);
    let c = g->Ok_0;
    let sel = select_smallest(v, c, reqs[k].count as nat);
    assert(full.0 == prev.0 + sel);
    let x = full.0[idx];
    assert(sel[idx - prev.0.len()] == x);
    assert(!prev.0.contains(y)) by {
        if prev.0.contains(y) {
            let i = choose|i: int| 0 <= i < prev.0.len() && prev.0[i] == y;
            assert(full.0[i] == y);
        }
    }
    assert(!sel.contains(y)) by {
        if sel.contains(y) {
            let i = choose|i: int| 0 <= i < sel.len() && sel[i] == y;
            assert(full.0[prev.0.len() + i] == y);
        }
    }
    lemma_gather_member(v, reqs[k].accepts@, offered, prev.0, owner, site, y);
    law_select_lowest_tier_first(v, c, reqs[k].count as nat, x, y);
}

/// Choosing `n` components from a list takes `n` of them (all, when there
/// are fewer), each from the list, none twice.
pub proof fn law_select_takes_count(v: WorldView, s: Seq<ComponentId>, n: nat)
    requires
        s.no_duplicates(),
    ensures
        select_smallest(v, s, n).len() == if n <= s.len() {
            n as int
        } else {
            s.len() as int
        },
        forall|i: int| 0 <= i < select_smallest(v, s, n).len() ==> s.contains(#[trigger] select_smallest(v, s, n)[i]),
        select_smallest(v, s, n).no_duplicates(),
    decreases n,
{
    if n > 0 && s.len() > 0 {
        lemma_first_min_exists(v, s);
        let i = first_min(v, s);
        let t = s.remove(i);
        assert forall|a: int, b: int| 0 <= a < b < t.len() implies t[a] != t[b] by {
            if a < i {
                if b < i {
                } else {
                    assert(t[b] == s[b + 1]);
                }
            } else {
                assert(t[a] == s[a + 1] && t[b] == s[b + 1]);
            }
        }
        law_select_takes_count(v, t, (n - 1) as nat);
        let rest = select_smallest(v, t, (n - 1) as nat);
        let r = select_smallest(v, s, n);
        assert(r == seq![s[i]] + rest);
        assert forall|x: int| 0 <= x < t.len() implies s.contains(#[trigger] t[x]) by {
            if x < i {
                assert(t[x] == s[x]);
            } else {
                assert(t[x] == s[x + 1]);
            }
        }
        assert(!t.contains(s[i])) by {
            if t.contains(s[i]) {
                let x = choose|x: int| 0 <= x < t.len() && t[x] == s[i];
                if x < i {
                    assert(t[x] == s[x]);
                } else {
                    assert(t[x] == s[x + 1]);
                }
            }
        }
        assert forall|x: int| 0 <= x < r.len() implies s.contains(#[trigger] r[x]) by {
            if x > 0 {
                assert(r[x] == rest[x - 1]);
                assert(t.contains(rest[x - 1]));
            }
        }
        assert forall|a: int, b: int| 0 <= a < b < r.len() implies r[a] != r[b] by {
            assert(r[b] == rest[b - 1]);
            if a > 0 {
                assert(r[a] == rest[a - 1]);
            } else {
                assert(t.contains(rest[b - 1]));
            }
        }
    }
}

/// Choosing components for a requirement spends the lowest tiers first: no
/// candidate left unchosen is of a lower tier than one chosen.
pub proof fn law_select_lowest_tier_first(v: WorldView, s: Seq<ComponentId>, n: nat, x: ComponentId, y: ComponentId)
    requires
        select_smallest(v, s, n).contains(x),
        s.contains(y),
        !select_smallest(v, s, n).contains(y),
        v.components.dom().contains(x.0),
        v.component_defs.dom().contains(v.components[x.0].def.0),
        v.components.dom().contains(y.0),
        v.component_defs.dom().contains(v.components[y.0].def.0),
    ensures
        v.component_defs[v.components[x.0].def.0].tier <= v.component_defs[v.components[y.0].def.0].tier,
    decreases n,
{
    if n == 0 || s.len() == 0 {
        assert(select_smallest(v, s, n).len() == 0);
    } else {
        lemma_first_min_exists(v, s);
        let i = first_min(v, s);
        let rest = select_smallest(v, s.remove(i), (n - 1) as nat);
        let r = select_smallest(v, s, n);
        assert(r == seq![s[i]] + rest);
        assert(r[0] == s[i]);
        assert(y != s[i]);
        let j = choose|j: int| 0 <= j < s.len() && s[j] == y;
        if x == s[i] {
            assert(!comp_before(v, s[j], s[i]));
            lemma_comp_before_order(v, s[i], s[j], s[j]);
            assert(comp_before(v, s[i], y));
        } else {
            let xi = choose|xi: int| 0 <= xi < r.len() && r[xi] == x;
            assert(xi > 0);
            assert(rest[xi - 1] == x);
            let t = s.remove(i);
            if j < i {
                assert(t[j] == y);
            } else {
                assert(t[j - 1] == y);
            }
            assert(!rest.contains(y)) by {
                if rest.contains(y) {
                    let yi = choose|yi: int| 0 <= yi < rest.len() && rest[yi] == y;
                    assert(r[yi + 1] == y);
                }
            }
            law_select_lowest_tier_first(v, t, (n - 1) as nat, x, y);
        }
    }
}

fn tier_of(w: &World, c: ComponentId) -> (r: Option<u8>)
    requires
        w.wf(),
    ensures
        r == comp_tier(w@, c),
{
    match w.components.get(c.0) {
        None => None,
        Some(ci) => match w.component_defs.get(ci.def.0) {
            None => None,
            Some(d) => Some(d.tier),
        },
    }
}

fn before_exec(w: &World, a: ComponentId, b: ComponentId) -> (r: bool)
    requires
        w.wf(),
    ensures
        r == comp_before(w@, a, b),
{
    let ta = tier_of(w, a);
    let tb = tier_of(w, b);
    match (ta, tb) {
        (None, Some(_)) => true,
        (Some(x), Some(y)) => x < y || (x == y && a.0 < b.0),
        (None, None) => a.0 < b.0,
        (Some(_), None) => false,
    }
}

fn contains_comp(s: &Vec<ComponentId>, c: ComponentId) -> (r: bool)
    ensures
        r == s@.contains(c),
{
    let mut i: usize = 0;
    while i < s.len()
        invariant
            i <= s@.len(),
            forall|j: int| 0 <= j < i ==> s@[j] != c,
        decreases s@.len() - i,
    {
        if s[i].0 == c.0 {
            assert(s@[i as int] == c);
            return true;
        }
        i = i + 1;
    }
    false
}

fn contains_def(s: &Vec<ComponentDefId>, d: ComponentDefId) -> (r: bool)
    ensures
        r == s@.contains(d),
{
    let mut i: usize = 0;
    while i < s.len()
        invariant
            i <= s@.len(),
            forall|j: int| 0 <= j < i ==> s@[j] != d,
        decreases s@.len() - i,
    {
        if s[i].0 == d.0 {
            assert(s@[i as int] == d);
            return true;
        }
        i = i + 1;
    }
    false
}

/// The `n` smallest components of a list, smallest first.
fn select_smallest_exec(w: &World, cands: Vec<ComponentId>, n: u32) -> (r: Vec<ComponentId>)
    requires
        w.wf(),
    ensures
        r@ == select_smallest(w@, cands@, n as nat),
{
    let ghost v = w@;
    let ghost s0 = cands@;
    let mut cands = cands;
    let mut out: Vec<ComponentId> = Vec::new();
    let mut k: u32 = 0;
    while k < n && cands.len() > 0
        invariant
            w.wf(),
            v == w@,
            k <= n,
            out@ + select_smallest(v, cands@, (n - k) as nat) == select_smallest(v, s0, n as nat),
        decreases n - k,
    {
        let mut best: usize = 0;
        let mut j: usize = 1;
        while j < cands.len()
            invariant
                w.wf(),
                v == w@,
                1 <= j <= cands@.len(),
                best < j,
                forall|x: int| 0 <= x < j ==> !comp_before(v, #[trigger] cands@[x], cands@[best as int]),
                forall|x: int| 0 <= x < best ==> comp_before(v, cands@[best as int], #[trigger] cands@[x]),
            decreases cands@.len() - j,
        {
            if before_exec(w, cands[j], cands[best]) {
                proof {
                    assert forall|x: int| 0 <= x < j + 1 implies !comp_before(v, #[trigger] cands@[x], cands@[j as int]) by {
                        lemma_comp_before_order(v, cands@[x], cands@[j as int], cands@[best as int]);
                    }
                    assert forall|x: int| 0 <= x < j implies comp_before(v, cands@[j as int], #[trigger] cands@[x]) by {
                        lemma_comp_before_order(v, cands@[x], cands@[j as int], cands@[best as int]);
                        lemma_comp_before_order(v, cands@[j as int], cands@[x], cands@[best as int]);
                    }
                }
                best = j;
            }
            j = j + 1;
        }
        proof {
            lemma_first_min_unique(v, cands@, best as int);
            let s = cands@;
            assert(select_smallest(v, s, (n - k) as nat) == seq![s[best as int]] + select_smallest(
                v,
                s.remove(best as int),
                (n - k - 1) as nat,
            ));
        }
        let c = cands.remove(best);
        out.push(c);
        k = k + 1;
        proof {
            let prev = out@.drop_last();
            assert(prev + seq![c] + select_smallest(v, cands@, (n - k) as nat) =~= prev + (seq![c]
                + select_smallest(v, cands@, (n - k) as nat)));
            assert(out@ =~= prev + seq![c]);
        }
    }
    proof {
        assert(select_smallest(v, cands@, (n - k) as nat) =~= Seq::<ComponentId>::empty());
        assert(out@ + Seq::<ComponentId>::empty() =~= out@);
    }
    out
}


impl World {
    /// The first offered lot, in order, that cannot feed a job of `owner`
    /// at `site`.
    fn first_lot_problem(&self, owner: ActorId, site: LocationId, offered: &[LotId]) -> (r: Option<SimError>)
        requires
            self.wf(),
        ensures
            r == first_offered_lot_error(self@, owner, site, offered@),
    {
        let mut i: usize = 0;
        while i < offered.len()
            invariant
                self.wf(),
                i <= offered@.len(),
                first_offered_lot_error(self@, owner, site, offered@.take(i as int)) is None,
            decreases offered@.len() - i,
        {
            proof {
                assert(offered@.take(i + 1).drop_last() =~= offered@.take(i as int));
                assert(offered@.take(i + 1).last() == offered@[i as int]);
            }
            let lot = offered[i];
            let e = match self.lots.get(lot.0) {
                None => Some(SimError::UnknownLot(lot)),
                Some(l) => {
                    if !matches!(l.state, LotState::Active) {
                        Some(SimError::LotNotActive(lot))
                    } else if l.owner.0 != owner.0 {
                        Some(SimError::NotOwner { actor: l.owner })
                    } else {
                        let here = self.resolve_site(l.location);
                        let ok = match here {
                            Some(x) => x.0 == site.0,
                            None => false,
                        };
                        if !ok {
                            Some(SimError::NotColocated)
                        } else {
                            None
                        }
                    }
                },
            };
            match e {
                Some(err) => {
                    proof {
                        lemma_first_lot_error_prefix(self@, owner, site, offered@, i + 1);
                    }
                    return Some(err);
                },
                None => {},
            }
            i = i + 1;
        }
        proof {
            assert(offered@.take(offered@.len() as int) =~= offered@);
        }
        None
    }

    /// Take `needed` of one commodity from the offered lots in order,
    /// appending the takes; returns what is still missing.
    fn take_from_offered(
        &self,
        commodity: CommodityId,
        offered: &[LotId],
        needed: u64,
        rem: &mut Table<u64>,
        takes: &mut Vec<(LotId, u64)>,
    ) -> (missing: u64)
        requires
            self.wf(),
            old(rem).wf(),
            forall|i: int| 0 <= i < offered@.len() ==> old(rem)@.dom().contains(#[trigger] offered@[i].0),
            forall|i: int| 0 <= i < offered@.len() ==> self@.lots.dom().contains(#[trigger] offered@[i].0),
        ensures
            final(rem).wf(),
            ({
                let t = take_from_lots(self@, commodity, offered@, needed, old(rem)@);
                &&& missing == t.0
                &&& final(rem)@ == t.1
                &&& final(takes)@ == old(takes)@ + t.2
            }),
            final(rem)@.dom() == old(rem)@.dom(),
    {
        let mut n = needed;
        let mut i: usize = 0;
        proof {
            assert(old(takes)@ + Seq::<(LotId, u64)>::empty() =~= old(takes)@);
        }
        while i < offered.len()
            invariant
                self.wf(),
                rem.wf(),
                i <= offered@.len(),
                forall|x: int| 0 <= x < offered@.len() ==> self@.lots.dom().contains(#[trigger] offered@[x].0),
                rem@.dom() == old(rem)@.dom(),
                forall|x: int| 0 <= x < offered@.len() ==> old(rem)@.dom().contains(#[trigger] offered@[x].0),
                ({
                    let t = take_from_lots(self@, commodity, offered@.take(i as int), needed, old(rem)@);
                    &&& n == t.0
                    &&& rem@ == t.1
                    &&& takes@ == old(takes)@ + t.2
                }),
            decreases offered@.len() - i,
        {
            proof {
                assert(offered@.take(i + 1).drop_last() =~= offered@.take(i as int));
                assert(offered@.take(i + 1).last() == offered@[i as int]);
            }
            let lot = offered[i];
            let c = match self.lots.get(lot.0) {
                Some(l) => l.commodity,
                None => commodity,
            };
            let have = match rem.get(lot.0) {
                Some(x) => *x,
                None => 0,
            };
            if n != 0 && c.0 == commodity.0 && have != 0 {
                let take = if n <= have {
                    n
                } else {
                    have
                };
                n = n - take;
                rem.insert(lot.0, have - take);
                takes.push((lot, take));
                proof {
                    assert(rem@.dom() =~= old(rem)@.dom());
                    let t = take_from_lots(self@, commodity, offered@.take(i as int), needed, old(rem)@);
                    assert(takes@ =~= old(takes)@ + t.2.push((lot, take)));
                }
            }
            i = i + 1;
        }
        proof {
            assert(offered@.take(offered@.len() as int) =~= offered@);
        }
        n
    }

    /// Plan the bulk takes for every recipe input, in order.
    fn plan_lot_takes(&self, inputs: &Vec<(CommodityId, u64)>, offered: &[LotId]) -> (r: Result<
        Vec<(LotId, u64)>,
        SimError,
    >)
        requires
            self.wf(),
            forall|i: int| 0 <= i < offered@.len() ==> self@.lots.dom().contains(#[trigger] offered@[i].0),
        ensures
            match plan_inputs(self@, inputs@, offered@) {
                (_, t, None) => r matches Ok(x) && x@ == t,
                (_, _, Some(e)) => r == Err::<Vec<(LotId, u64)>, SimError>(e),
            },
    {
        let mut rem: Table<u64> = Table::new();
        let mut i: usize = 0;
        while i < offered.len()
            invariant
                self.wf(),
                rem.wf(),
                i <= offered@.len(),
                forall|x: int| 0 <= x < offered@.len() ==> self@.lots.dom().contains(#[trigger] offered@[x].0),
                rem@ == initial_remaining(self@, offered@.take(i as int)),
            decreases offered@.len() - i,
        {
            let lot = offered[i];
            let q = match self.lots.get(lot.0) {
                Some(l) => l.quantity,
                None => 0,
            };
            if !rem.contains(lot.0) {
                rem.insert(lot.0, q);
            }
            proof {
                let a = offered@.take(i as int);
                let b = offered@.take(i + 1);
                assert(b =~= a.push(lot));
                assert forall|k: u64| #[trigger] b.contains(LotId(k)) == (a.contains(LotId(k)) || k == lot.0) by {
                    if b.contains(LotId(k)) {
                        let j = choose|j: int| 0 <= j < b.len() && b[j] == LotId(k);
                        if j < a.len() {
                            assert(a[j] == LotId(k));
                        }
                    }
                    if a.contains(LotId(k)) {
                        let j = choose|j: int| 0 <= j < a.len() && a[j] == LotId(k);
                        assert(b[j] == LotId(k));
                    }
                    if k == lot.0 {
                        assert(b[i as int] == LotId(k));
                    }
                }
                assert(rem@ =~= initial_remaining(self@, b));
            }
            i = i + 1;
        }
        proof {
            assert(offered@.take(offered@.len() as int) =~= offered@);
        }
        let mut takes: Vec<(LotId, u64)> = Vec::new();
        let mut j: usize = 0;
        while j < inputs.len()
            invariant
                self.wf(),
                rem.wf(),
                j <= inputs@.len(),
                forall|x: int| 0 <= x < offered@.len() ==> self@.lots.dom().contains(#[trigger] offered@[x].0),
                rem@.dom() == initial_remaining(self@, offered@).dom(),
                plan_inputs(self@, inputs@.take(j as int), offered@) == (rem@, takes@, None::<SimError>),
            decreases inputs@.len() - j,
        {
            proof {
                assert(inputs@.take(j + 1).drop_last() =~= inputs@.take(j as int));
                assert(inputs@.take(j + 1).last() == inputs@[j as int]);
                assert forall|x: int| 0 <= x < offered@.len() implies rem@.dom().contains(#[trigger] offered@[x].0) by {
                    assert(offered@.contains(LotId(offered@[x].0)));
                }
            }
            let (commodity, required) = inputs[j];
            let ghost rem0 = rem@;
            let ghost takes0 = takes@;
            let missing = self.take_from_offered(commodity, offered, required, &mut rem, &mut takes);
            if missing > 0 {
                proof {
                    lemma_plan_inputs_prefix(self@, inputs@, offered@, j + 1);
                }
                return Err(SimError::InsufficientQuantity { commodity, missing });
            }
            j = j + 1;
        }
        proof {
            assert(inputs@.take(inputs@.len() as int) =~= inputs@);
        }
        Ok(takes)
    }
}

/// Once a prefix of the inputs cannot be covered, planning them all fails
/// the same way.
pub proof fn lemma_plan_inputs_prefix(v: WorldView, inputs: Seq<(CommodityId, u64)>, offered: Seq<LotId>, n: int)
    requires
        0 <= n <= inputs.len(),
        plan_inputs(v, inputs.take(n), offered).2 is Some,
    ensures
        plan_inputs(v, inputs, offered) == plan_inputs(v, inputs.take(n), offered),
    decreases inputs.len(),
{
    if n == inputs.len() {
        assert(inputs.take(n) =~= inputs);
    } else {
        let p = inputs.drop_last();
        assert(p.take(n) =~= inputs.take(n));
        lemma_plan_inputs_prefix(v, p, offered, n);
    }
}


pub proof fn lemma_gather_prefix(
    v: WorldView,
    accepts: Seq<ComponentDefId>,
    s: Seq<ComponentId>,
    used: Seq<ComponentId>,
    owner: ActorId,
    site: LocationId,
    n: int,
)
    requires
        0 <= n <= s.len(),
        gather_candidates(v, accepts, s.take(n), used, owner, site) is Err,
    ensures
        gather_candidates(v, accepts, s, used, owner, site) == gather_candidates(v, accepts, s.take(n), used, owner, site),
    decreases s.len(),
{
    if n == s.len() {
        assert(s.take(n) =~= s);
    } else {
        let p = s.drop_last();
        assert(p.take(n) =~= s.take(n));
        lemma_gather_prefix(v, accepts, p, used, owner, site, n);
    }
}

pub proof fn lemma_plan_components_prefix(
    v: WorldView,
    reqs: Seq<ComponentRequirement>,
    offered: Seq<ComponentId>,
    owner: ActorId,
    site: LocationId,
    n: int,
)
    requires
        0 <= n <= reqs.len(),
        plan_components(v, reqs.take(n), offered, owner, site).1 is Some,
    ensures
        plan_components(v, reqs, offered, owner, site) == plan_components(v, reqs.take(n), offered, owner, site),
    decreases reqs.len(),
{
    if n == reqs.len() {
        assert(reqs.take(n) =~= reqs);
    } else {
        let p = reqs.drop_last();
        assert(p.take(n) =~= reqs.take(n));
        lemma_plan_components_prefix(v, p, offered, owner, site, n);
    }
}

impl World {
    /// The offered components that can meet one requirement, in order.
    fn gather_exec(
        &self,
        accepts: &Vec<ComponentDefId>,
        offered: &[ComponentId],
        used: &Vec<ComponentId>,
        owner: ActorId,
        site: LocationId,
    ) -> (r: Result<Vec<ComponentId>, SimError>)
        requires
            self.wf(),
        ensures
            match gather_candidates(self@, accepts@, offered@, used@, owner, site) {
                Ok(c) => r matches Ok(x) && x@ == c,
                Err(e) => r == Err::<Vec<ComponentId>, SimError>(e),
            },
    {
        let mut out: Vec<ComponentId> = Vec::new();
        let mut i: usize = 0;
        while i < offered.len()
            invariant
                self.wf(),
                i <= offered@.len(),
                gather_candidates(self@, accepts@, offered@.take(i as int), used@, owner, site) == Ok::<
                    Seq<ComponentId>,
                    SimError,
                >(out@),
            decreases offered@.len() - i,
        {
            proof {
                assert(offered@.take(i + 1).drop_last() =~= offered@.take(i as int));
                assert(offered@.take(i + 1).last() == offered@[i as int]);
            }
            let c = offered[i];
            if !contains_comp(used, c) {
                let (def, c_owner, placement) = match self.components.get(c.0) {
                    None => {
                        proof {
                            lemma_gather_prefix(self@, accepts@, offered@, used@, owner, site, i + 1);
                        }
                        return Err(SimError::UnknownComponent(c));
                    },
                    Some(ci) => (ci.def, ci.owner, ci.placement),
                };
                if c_owner.0 != owner.0 {
                    proof {
                        lemma_gather_prefix(self@, accepts@, offered@, used@, owner, site, i + 1);
                    }
                    return Err(SimError::NotOwner { actor: c_owner });
                }
                if contains_def(accepts, def) {
                    let here_ok = match placement {
                        ComponentPlacement::Loose(loc) => {
                            let here = self.resolve_site(loc);
                            match here {
                                Some(x) => x.0 == site.0,
                                None => false,
                            }
                        },
                        _ => false,
                    };
                    if here_ok {
                        out.push(c);
                    }
                }
            }
            i = i + 1;
        }
        proof {
            assert(offered@.take(offered@.len() as int) =~= offered@);
        }
        Ok(out)
    }

    /// Plan the component takes for every requirement, in order.
    fn plan_component_takes(
        &self,
        reqs: &Vec<ComponentRequirement>,
        offered: &[ComponentId],
        owner: ActorId,
        site: LocationId,
    ) -> (r: Result<Vec<ComponentId>, SimError>)
        requires
            self.wf(),
        ensures
            match plan_components(self@, reqs@, offered@, owner, site) {
                (t, None) => r matches Ok(x) && x@ == t,
                (_, Some(e)) => r matches Err(x) && error_matches(x, e),
            },
    {
        let mut takes: Vec<ComponentId> = Vec::new();
        let mut j: usize = 0;
        while j < reqs.len()
            invariant
                self.wf(),
                j <= reqs@.len(),
                plan_components(self@, reqs@.take(j as int), offered@, owner, site) == (takes@, None::<SimError>),
            decreases reqs@.len() - j,
        {
            proof {
                assert(reqs@.take(j + 1).drop_last() =~= reqs@.take(j as int));
                assert(reqs@.take(j + 1).last() == reqs@[j as int]);
            }
            let req = &reqs[j];
            let cands = match self.gather_exec(&req.accepts, offered, &takes, owner, site) {
                Err(e) => {
                    proof {
                        lemma_plan_components_prefix(self@, reqs@, offered@, owner, site, j + 1);
                    }
                    return Err(e);
                },
                Ok(c) => c,
            };
            if cands.len() < req.count as usize {
                let missing: u32 = (req.count as usize - cands.len()) as u32;
                proof {
                    lemma_plan_components_prefix(self@, reqs@, offered@, owner, site, j + 1);
                }
                return Err(SimError::InsufficientComponents { accepts: req.accepts.clone(), missing });
            }
            let chosen = select_smallest_exec(self, cands, req.count);
            let mut k: usize = 0;
            let ghost base = takes@;
            while k < chosen.len()
                invariant
                    k <= chosen@.len(),
                    takes@ == base + chosen@.take(k as int),
                decreases chosen@.len() - k,
            {
                takes.push(chosen[k]);
                k = k + 1;
                assert(takes@ =~= base + chosen@.take(k as int));
            }
            proof {
                assert(chosen@.take(chosen@.len() as int) =~= chosen@);
            }
            j = j + 1;
        }
        proof {
            assert(reqs@.take(reqs@.len() as int) =~= reqs@);
        }
        Ok(takes)
    }
}


/// Committing lot takes touches only lots, the counter, and the log.
pub proof fn lemma_commit_lots(w: WorldView, takes: Seq<(LotId, u64)>, job: ProductionJobId)
    requires
        w.next_id + 4 * takes.len() <= u64::MAX,
    ensures
        commit_lots(w, takes, job).0.components == w.components,
        commit_lots(w, takes, job).0.production_jobs == w.production_jobs,
        commit_lots(w, takes, job).0.clock == w.clock,
        commit_lots(w, takes, job).0.seed == w.seed,
        commit_lots(w, takes, job).0.assets == w.assets,
        commit_lots(w, takes, job).0.factories == w.factories,
        commit_lots(w, takes, job).0.recipes == w.recipes,
        commit_lots(w, takes, job).0.faction_goals == w.faction_goals,
        commit_lots(w, takes, job).0.commodities == w.commodities,
        commit_lots(w, takes, job).0.buy_orders == w.buy_orders,
        crate::combat::money_untouched(commit_lots(w, takes, job).0, w),
        crate::world::log_extends(w, commit_lots(w, takes, job).0),
        w.lots.dom().subset_of(commit_lots(w, takes, job).0.lots.dom()),
        w.next_id <= commit_lots(w, takes, job).0.next_id <= w.next_id + 4 * takes.len(),
    decreases takes.len(),
{
    if takes.len() > 0 {
        lemma_commit_lots(w, takes.drop_last(), job);
        let prev = commit_lots(w, takes.drop_last(), job);
        if prev.2 is None {
            let s = prev.0;
            let (lot, take) = takes.last();
            if take != s.lots[lot.0].quantity {
                let (s1, rs) = split_state(s, lot, take);
                if rs is Ok {
                    assert(s.lots.dom().subset_of(s1.lots.dom()));
                }
            }
        }
    }
}

pub proof fn lemma_commit_lots_prefix(w: WorldView, takes: Seq<(LotId, u64)>, job: ProductionJobId, n: int)
    requires
        0 <= n <= takes.len(),
        commit_lots(w, takes.take(n), job).2 is Some,
    ensures
        commit_lots(w, takes, job) == commit_lots(w, takes.take(n), job),
    decreases takes.len(),
{
    if n == takes.len() {
        assert(takes.take(n) =~= takes);
    } else {
        let p = takes.drop_last();
        assert(p.take(n) =~= takes.take(n));
        lemma_commit_lots_prefix(w, p, job, n);
    }
}

/// Each input takes from each offered lot at most once.
pub proof fn lemma_take_count(v: WorldView, c: CommodityId, offered: Seq<LotId>, needed: u64, rem: Map<u64, u64>)
    ensures
        take_from_lots(v, c, offered, needed, rem).2.len() <= offered.len(),
    decreases offered.len(),
{
    if offered.len() > 0 {
        lemma_take_count(v, c, offered.drop_last(), needed, rem);
    }
}

/// Planning makes at most one take per (input, offered lot) pair.
pub proof fn lemma_plan_count(v: WorldView, inputs: Seq<(CommodityId, u64)>, offered: Seq<LotId>)
    ensures
        plan_inputs(v, inputs, offered).1.len() <= inputs.len() * offered.len(),
    decreases inputs.len(),
{
    if inputs.len() > 0 {
        let p = inputs.drop_last();
        lemma_plan_count(v, p, offered);
        let prev = plan_inputs(v, p, offered);
        let (c, req) = inputs.last();
        lemma_take_count(v, c, offered, req, prev.0);
        let n = inputs.len();
        let m = offered.len();
        assert((n - 1) * m + m == n * m) by (nonlinear_arith);
        assert(0 <= (n - 1) * m) by (nonlinear_arith)
            requires
                n >= 1,
        ;
    }
}

/// Every take is from an offered lot.
pub proof fn lemma_takes_offered(v: WorldView, c: CommodityId, offered: Seq<LotId>, needed: u64, rem: Map<u64, u64>)
    ensures
        forall|i: int|
            0 <= i < take_from_lots(v, c, offered, needed, rem).2.len() ==> offered.contains(
                #[trigger] take_from_lots(v, c, offered, needed, rem).2[i].0,
            ),
    decreases offered.len(),
{
    if offered.len() > 0 {
        let p = offered.drop_last();
        lemma_takes_offered(v, c, p, needed, rem);
        let t = take_from_lots(v, c, offered, needed, rem);
        let tp = take_from_lots(v, c, p, needed, rem);
        assert forall|i: int| 0 <= i < t.2.len() implies offered.contains(#[trigger] t.2[i].0) by {
            if i < tp.2.len() {
                assert(t.2[i] == tp.2[i]);
                assert(p.contains(tp.2[i].0));
                let j = choose|j: int| 0 <= j < p.len() && p[j] == tp.2[i].0;
                assert(offered[j] == p[j]);
            } else {
                assert(offered[offered.len() - 1] == offered.last());
            }
        }
    }
}

/// Every planned take is from an offered lot.
pub proof fn lemma_plan_offered(v: WorldView, inputs: Seq<(CommodityId, u64)>, offered: Seq<LotId>)
    ensures
        forall|i: int|
            0 <= i < plan_inputs(v, inputs, offered).1.len() ==> offered.contains(
                #[trigger] plan_inputs(v, inputs, offered).1[i].0,
            ),
    decreases inputs.len(),
{
    if inputs.len() > 0 {
        let p = inputs.drop_last();
        lemma_plan_offered(v, p, offered);
        let prev = plan_inputs(v, p, offered);
        let (c, req) = inputs.last();
        lemma_takes_offered(v, c, offered, req, prev.0);
        let t = take_from_lots(v, c, offered, req, prev.0);
        let cur = plan_inputs(v, inputs, offered);
        assert forall|i: int| 0 <= i < cur.1.len() implies offered.contains(#[trigger] cur.1[i].0) by {
            if prev.2 is None && t.0 == 0 {
                if i < prev.1.len() {
                    assert(cur.1[i] == prev.1[i]);
                } else {
                    assert(cur.1[i] == t.2[i - prev.1.len()]);
                }
            }
        }
    }
}

/// A job still in progress whose completion day has come.
pub open spec fn job_due(j: ProductionJob, today: u64) -> bool {
    j.state is InProgress && j.completes_day <= today
}

/// `f` is job `o` completed: its state now lists outputs, nothing else
/// changed.
pub open spec fn completed_from(o: ProductionJob, f: ProductionJob) -> bool {
    f.state is Completed && f == (ProductionJob { state: f.state, ..o })
}

/// Starting production leaves factories, recipes, goals, commodities, buy
/// orders and assets alone, keeps every existing job, and adds at most the one job
/// for this factory and recipe, owned by the factory's owner.
pub open spec fn start_frame(v: WorldView, w: WorldView, factory: FactoryId, recipe: RecipeId) -> bool {
    &&& w.factories == v.factories
    &&& w.recipes == v.recipes
    &&& w.faction_goals == v.faction_goals
    &&& w.commodities == v.commodities
    &&& w.buy_orders == v.buy_orders
    &&& w.assets == v.assets
    &&& forall|k: u64| #[trigger]
        v.production_jobs.dom().contains(k) ==> w.production_jobs.dom().contains(k) && w.production_jobs[k]
            == v.production_jobs[k]
    &&& forall|k: u64| #[trigger]
        w.production_jobs.dom().contains(k) && !v.production_jobs.dom().contains(k) ==> {
            &&& k == v.next_id
            &&& w.production_jobs[k].factory == factory
            &&& w.production_jobs[k].recipe == recipe
            &&& v.factories.dom().contains(factory.0)
            &&& v.recipes.dom().contains(recipe.0)
            &&& w.production_jobs[k].owner == v.factories[factory.0].owner
        }
}

/// Job `j` runs at `factory` and is still in progress.
pub open spec fn job_in_progress_at(j: ProductionJob, factory: FactoryId) -> bool {
    j.factory == factory && j.state is InProgress
}

/// Some job of `factory` is still in progress.
pub open spec fn factory_has_job(v: WorldView, factory: FactoryId) -> bool {
    exists|k: u64| #[trigger] v.production_jobs.dom().contains(k) && job_in_progress_at(v.production_jobs[k], factory)
}

/// Factory `f` can start a job on its own in `v`: it exists, has every
/// sub-system fitted, is done retooling, and has no job in progress.
pub open spec fn factory_ready(v: WorldView, f: FactoryId) -> bool {
    &&& v.factories.dom().contains(f.0)
    &&& missing_categories(v.factories[f.0].components@).len() == 0
    &&& v.clock.day >= v.factories[f.0].retooling_until
    &&& !factory_has_job(v, f)
}

/// The recipe's tooling requirement, if any, is met by the design of the
/// factory's installed tooling.
pub open spec fn tooling_fits(v: WorldView, f: FactoryId, rc: Recipe) -> bool {
    rc.required_tooling_design matches Some(d) ==> {
        &&& v.factories[f.0].tooling matches Some(t)
        &&& v.assets.dom().contains(t.0)
        &&& v.assets[t.0].design == d
    }
}

/// Job `j`, new in an automatic start, runs at a factory that was ready in
/// `v`, for that factory's owner, under a recipe its tooling fits.
pub open spec fn auto_job(v: WorldView, j: ProductionJob) -> bool {
    &&& factory_ready(v, j.factory)
    &&& j.owner == v.factories[j.factory.0].owner
    &&& v.recipes.dom().contains(j.recipe.0)
    &&& tooling_fits(v, j.factory, v.recipes[j.recipe.0])
}

/// What the owner of factory `f` holds at its site, lot by lot in id order.
pub open spec fn auto_lots(v: WorldView, f: FactoryId) -> Seq<(CommodityId, LotId, u64)> {
    inventory_lots(v, crate::table::key_order(v.lots), v.factories[f.0].owner, v.factories[f.0].site)
}

/// The owner's loose components at factory `f`'s site, in id order.
pub open spec fn auto_comps(v: WorldView, f: FactoryId) -> Seq<(ComponentDefId, ComponentId)> {
    inventory_comps(v, crate::table::key_order(v.components), v.factories[f.0].owner, v.factories[f.0].site)
}

/// How the automatic start ranks a recipe at factory `f`: tooled recipes
/// first, then by output tier, then by the stock on hand of its inputs.
pub open spec fn auto_rank(v: WorldView, f: FactoryId, rc: Recipe) -> (bool, u8, u64) {
    (rc.required_tooling_design is Some, tier_rank_of(v, rc.outputs), backlog_total(rc.inputs@, auto_lots(v, f)))
}

/// Recipe `r` can run at `f` from what its owner holds there.
pub open spec fn auto_candidate(v: WorldView, f: FactoryId, r: u64) -> bool {
    &&& v.recipes.dom().contains(r)
    &&& tooling_fits(v, f, v.recipes[r])
    &&& offer_lots(auto_lots(v, f), v.recipes[r].inputs@) is Some
    &&& offer_comps(auto_comps(v, f), v.recipes[r].component_inputs@) is Some
}

/// The recipe the automatic start picks at `f`: a candidate that no other
/// candidate ranks above, the lowest-numbered among equally ranked ones.
pub open spec fn auto_pick(v: WorldView, f: FactoryId, r: u64) -> bool {
    &&& auto_candidate(v, f, r)
    &&& forall|r2: u64|
        #[trigger] auto_candidate(v, f, r2) ==> !ranks_above(auto_rank(v, f, v.recipes[r2]), auto_rank(v, f, v.recipes[r]))
            && (auto_rank(v, f, v.recipes[r2]) == auto_rank(v, f, v.recipes[r]) ==> r <= r2)
}

/// Starting recipe `r` at `f` with the owner's offer passes every check of
/// `start_production`, and the ids and days it needs remain.
pub open spec fn auto_start_ok(v: WorldView, f: FactoryId, r: u64) -> bool {
    let rc = v.recipes[r];
    let fa = v.factories[f.0];
    let lots = offer_lots(auto_lots(v, f), rc.inputs@)->Some_0;
    let comps = offer_comps(auto_comps(v, f), rc.component_inputs@)->Some_0;
    let plan = plan_inputs(v, rc.inputs@, lots);
    &&& lots.len() <= 0xFFFF_FFFF
    &&& rc.inputs@.len() <= 0xFFFF_FFFF
    &&& v.next_id + 2 + 4 * (lots.len() * rc.inputs@.len()) <= u64::MAX
    &&& v.clock.day + rc.duration_days <= u64::MAX
    &&& start_precheck(v, f, RecipeId(r)) is None
    &&& first_offered_lot_error(v, fa.owner, fa.site, lots) is None
    &&& plan.2 is None
    &&& plan_components(v, rc.component_inputs@, comps, fa.owner, fa.site).1 is None
    &&& commit_lots(v.bump(), plan.1, ProductionJobId(v.next_id)).2 is None
}

/// Factory `f`'s turn, from `a` to `b`: when it is ready and its picked
/// recipe can start, a new job runs that recipe there.
pub open spec fn auto_turn(a: WorldView, b: WorldView, f: FactoryId) -> bool {
    forall|r: u64|
        #[trigger] auto_pick(a, f, r) && factory_ready(a, f) && auto_start_ok(a, f, r) ==> exists|k: u64|
            b.production_jobs.dom().contains(k) && !a.production_jobs.dom().contains(k) && b.production_jobs[k].factory == f
                && b.production_jobs[k].recipe == RecipeId(r)
}

/// The automatic start from `v` to `w`, factory by factory in id order
/// (`fs[i]` is the state when factory `i`'s turn came).
pub open spec fn auto_ran(v: WorldView, w: WorldView, fs: Seq<WorldView>) -> bool {
    let keys = crate::table::key_order(v.factories);
    &&& fs.len() == keys.len() + 1
    &&& fs[0] == v
    &&& fs[keys.len() as int] == w
    &&& forall|i: int| 0 <= i < keys.len() ==> #[trigger] auto_turn(fs[i], fs[i + 1], FactoryId(keys[i]))
}

/// Two rankings neither of which is above the other are the same.
proof fn lemma_rank_total(x: (bool, u8, u64), y: (bool, u8, u64))
    ensures
        !ranks_above(x, y) && !ranks_above(y, x) ==> x == y,
{
}

proof fn lemma_auto_push(fs: Seq<WorldView>, a: WorldView, b: WorldView, keys: Seq<u64>, x: int) -> (r: Seq<WorldView>)
    requires
        fs.len() == x + 1,
        fs[x] == a,
        auto_turn(a, b, FactoryId(keys[x])),
        forall|y: int| 0 <= y < x ==> #[trigger] auto_turn(fs[y], fs[y + 1], FactoryId(keys[y])),
    ensures
        r == fs.push(b),
        forall|y: int| 0 <= y < x + 1 ==> #[trigger] auto_turn(r[y], r[y + 1], FactoryId(keys[y])),
{
    let r = fs.push(b);
    assert forall|y: int| 0 <= y < x + 1 implies #[trigger] auto_turn(r[y], r[y + 1], FactoryId(keys[y])) by {
        if y < x {
            assert(r[y] == fs[y] && r[y + 1] == fs[y + 1]);
        }
    }
    r
}

/// The new jobs of an automatic start so far, when the factory at
/// `keys[i - 1]` starts none.
pub open spec fn auto_so_far(v: WorldView, w: WorldView, keys: Seq<u64>, i: int) -> bool {
    &&& forall|k: u64| #[trigger]
        w.production_jobs.dom().contains(k) && !v.production_jobs.dom().contains(k) ==> auto_job(v, w.production_jobs[k])
            && exists|x: int| 0 <= x < i && w.production_jobs[k].factory.0 == #[trigger] keys[x]
    &&& forall|k1: u64, k2: u64|
        #![trigger w.production_jobs[k1], w.production_jobs[k2]]
        w.production_jobs.dom().contains(k1) && !v.production_jobs.dom().contains(k1) && w.production_jobs.dom().contains(k2)
            && !v.production_jobs.dom().contains(k2) && k1 != k2 ==> w.production_jobs[k1].factory
            != w.production_jobs[k2].factory
}

/// Passing over the factory at `keys[i - 1]` keeps what holds of the
/// factories before it.
pub proof fn lemma_auto_skip(v: WorldView, w: WorldView, keys: Seq<u64>, i: int)
    requires
        1 <= i,
        auto_so_far(v, w, keys, i - 1),
    ensures
        auto_so_far(v, w, keys, i),
{
    assert forall|k: u64| #[trigger]
        w.production_jobs.dom().contains(k) && !v.production_jobs.dom().contains(k) implies auto_job(v, w.production_jobs[k])
            && exists|x: int| 0 <= x < i && w.production_jobs[k].factory.0 == #[trigger] keys[x] by {
        let x = choose|x: int| 0 <= x < i - 1 && w.production_jobs[k].factory.0 == #[trigger] keys[x];
    }
}

/// Starting at most one job at the ready factory `keys[i - 1]`, under a
/// recipe its tooling fits, keeps what holds of the factories before it.
pub proof fn lemma_auto_start(v: WorldView, s: WorldView, w: WorldView, keys: Seq<u64>, i: int, rid: u64)
    requires
        1 <= i <= keys.len(),
        keys.no_duplicates(),
        auto_so_far(v, s, keys, i - 1),
        start_frame(s, w, FactoryId(keys[i - 1]), RecipeId(rid)),
        s.factories == v.factories,
        s.recipes == v.recipes,
        s.assets == v.assets,
        factory_ready(v, FactoryId(keys[i - 1])),
        s.recipes.dom().contains(rid),
        tooling_fits(s, FactoryId(keys[i - 1]), s.recipes[rid]),
        forall|k: u64| #[trigger]
            v.production_jobs.dom().contains(k) ==> s.production_jobs.dom().contains(k) && s.production_jobs[k]
                == v.production_jobs[k],
    ensures
        auto_so_far(v, w, keys, i),
{
    let f = FactoryId(keys[i - 1]);
    assert forall|k: u64| #[trigger]
        w.production_jobs.dom().contains(k) && !v.production_jobs.dom().contains(k) implies auto_job(v, w.production_jobs[k])
            && exists|x: int| 0 <= x < i && w.production_jobs[k].factory.0 == #[trigger] keys[x] by {
        if s.production_jobs.dom().contains(k) {
            assert(w.production_jobs[k] == s.production_jobs[k]);
            let x = choose|x: int| 0 <= x < i - 1 && s.production_jobs[k].factory.0 == #[trigger] keys[x];
        } else {
            assert(w.production_jobs[k].factory.0 == keys[i - 1]);
        }
    }
    assert forall|k1: u64, k2: u64|
        w.production_jobs.dom().contains(k1) && !v.production_jobs.dom().contains(k1) && w.production_jobs.dom().contains(k2)
            && !v.production_jobs.dom().contains(k2) && k1 != k2 implies #[trigger] w.production_jobs[k1].factory
            != #[trigger] w.production_jobs[k2].factory by {
        let new1 = !s.production_jobs.dom().contains(k1);
        let new2 = !s.production_jobs.dom().contains(k2);
        if new1 && new2 {
        } else if new1 {
            assert(w.production_jobs[k2] == s.production_jobs[k2]);
            let x = choose|x: int| 0 <= x < i - 1 && s.production_jobs[k2].factory.0 == #[trigger] keys[x];
            assert(keys[x] != keys[i - 1]);
        } else if new2 {
            assert(w.production_jobs[k1] == s.production_jobs[k1]);
            let x = choose|x: int| 0 <= x < i - 1 && s.production_jobs[k1].factory.0 == #[trigger] keys[x];
            assert(keys[x] != keys[i - 1]);
        } else {
            assert(w.production_jobs[k1] == s.production_jobs[k1]);
            assert(w.production_jobs[k2] == s.production_jobs[k2]);
        }
    }
}

/// The ids a start of `recipe` with these offered lots may use.
pub open spec fn start_cost(v: WorldView, recipe: RecipeId, offered: Seq<LotId>) -> int {
    (2 + 4 * offered.len() * v.recipes[recipe.0].inputs@.len()) as int
}

impl World {
    /// Start a production job. The offered lots must physically cover the
    /// recipe's exact inputs at the factory's site, and the offered
    /// components its component requirements (cheapest tier first); they
    /// are consumed now, a partially needed lot split so that exactly the
    /// required quantity is consumed. Everything is checked before anything
    /// is consumed. Outputs appear at completion, in the daily tick.
    #[verifier::rlimit(60)]
    pub fn start_production(
        &mut self,
        factory_id: FactoryId,
        recipe_id: RecipeId,
        offered: &[LotId],
        offered_components: &[ComponentId],
    ) -> (r: Result<ProductionJobId, SimError>)
        requires
            old(self).wf(),
            old(self)@.has_room(2),
            old(self)@.recipes.dom().contains(recipe_id.0) ==> old(self)@.has_room(
                start_cost(old(self)@, recipe_id, offered@),
            ) && old(self)@.clock.day + old(self)@.recipes[recipe_id.0].duration_days <= u64::MAX,
        ensures
            final(self).wf(),
            crate::world::phase_ok(old(self)@, final(self)@),
            crate::combat::money_untouched(final(self)@, old(self)@),
            final(self)@.next_id <= old(self)@.next_id + start_cost(old(self)@, recipe_id, offered@),
            start_frame(old(self)@, final(self)@, factory_id, recipe_id),
            r is Err ==> final(self)@.production_jobs == old(self)@.production_jobs,
            r matches Ok(j) ==> final(self)@.production_jobs.dom().contains(j.0) && !old(
                self,
            )@.production_jobs.dom().contains(j.0),
            match start_precheck(old(self)@, factory_id, recipe_id) {
                Some(e) => (r matches Err(x) && error_matches(x, e)) && final(self)@ == old(self)@ && (
                r matches Err(SimError::FactoryIncomplete { missing, .. }) ==> missing@ == missing_categories(
                    old(self)@.factories[factory_id.0].components@,
                )),
                None => {
                    let v = old(self)@;
                    let f = v.factories[factory_id.0];
                    let rc = v.recipes[recipe_id.0];
                    let plan = plan_inputs(v, rc.inputs@, offered@);
                    let cplan = plan_components(v, rc.component_inputs@, offered_components@, f.owner, f.site);
                    let job = ProductionJobId(v.next_id);
                    let committed = commit_lots(v.bump(), plan.1, job);
                    let w2 = WorldView {
                        components: comps_consumed(committed.0.components, cplan.0, job),
                        ..committed.0
                    };
                    let jr = final(self)@.production_jobs[job.0];
                    if first_offered_lot_error(v, f.owner, f.site, offered@) is Some {
                        r == Err::<ProductionJobId, SimError>(
                            first_offered_lot_error(v, f.owner, f.site, offered@)->0,
                        ) && final(self)@ == v
                    } else if plan.2 is Some {
                        r == Err::<ProductionJobId, SimError>(plan.2->0) && final(self)@ == v
                    } else if cplan.1 is Some {
                        (r matches Err(x) && error_matches(x, cplan.1->0)) && final(self)@ == v
                    } else if committed.2 is Some {
                        r == Err::<ProductionJobId, SimError>(committed.2->0) && final(self)@ == committed.0
                    } else {
                        &&& r == Ok::<ProductionJobId, SimError>(job)
                        &&& forall|c: CommodityId| #[trigger] taken_of(v, plan.1, c) == required_of(rc.inputs@, c)
                        &&& jr.consumed_lots@ == committed.1
                        &&& jr.consumed_components@ == cplan.0
                        &&& final(self)@.events.last().kind->consumed_lots@ == committed.1
                        &&& final(self)@ == (WorldView {
                            production_jobs: w2.production_jobs.insert(
                                job.0,
                                ProductionJob {
                                    id: job,
                                    factory: factory_id,
                                    recipe: recipe_id,
                                    owner: f.owner,
                                    started_day: v.clock.day,
                                    completes_day: (v.clock.day + rc.duration_days) as u64,
                                    consumed_lots: jr.consumed_lots,
                                    consumed_components: jr.consumed_components,
                                    state: JobState::InProgress,
                                },
                            ),
                            ..w2
                        }).log(
                            EventKind::ProductionStarted {
                                job,
                                factory: factory_id,
                                recipe: recipe_id,
                                consumed_lots: final(self)@.events.last().kind->consumed_lots,
                            },
                        )
                    }
                },
            },
    {
        let (f_owner, f_site, f_tooling, f_retool) = match self.factories.get(factory_id.0) {
            None => {
                return Err(SimError::UnknownFactory(factory_id));
            },
            Some(f) => (f.owner, f.site, f.tooling, f.retooling_until),
        };
        if !self.recipes.contains(recipe_id.0) {
            return Err(SimError::UnknownRecipe(recipe_id));
        }
        let missing = match self.factories.get(factory_id.0) {
            Some(f) => f.missing_components(),
            None => Vec::new(),
        };
        if missing.len() > 0 {
            return Err(SimError::FactoryIncomplete { factory: factory_id, missing });
        }
        if self.clock.day < f_retool {
            return Err(SimError::InvalidState("factory is retooling".to_owned()));
        }
        let required = match self.recipes.get(recipe_id.0) {
            Some(rc) => rc.required_tooling_design,
            None => None,
        };
        match required {
            Some(req) => {
                let t = match f_tooling {
                    None => {
                        return Err(SimError::ToolingMismatch { factory: factory_id });
                    },
                    Some(t) => t,
                };
                let design = match self.assets.get(t.0) {
                    None => {
                        return Err(SimError::UnknownAsset(t));
                    },
                    Some(a) => a.design,
                };
                if design.0 != req.0 {
                    return Err(SimError::ToolingMismatch { factory: factory_id });
                }
            },
            None => {},
        }
        match self.first_lot_problem(f_owner, f_site, offered) {
            Some(e) => {
                return Err(e);
            },
            None => {},
        }
        proof {
            lemma_offered_lots_exist(self@, f_owner, f_site, offered@);
        }
        let takes = match self.recipes.get(recipe_id.0) {
            Some(rc) => self.plan_lot_takes(&rc.inputs, offered)?,
            None => Vec::new(),
        };
        let ctakes = match self.recipes.get(recipe_id.0) {
            Some(rc) => self.plan_component_takes(&rc.component_inputs, offered_components, f_owner, f_site)?,
            None => Vec::new(),
        };
        let duration = match self.recipes.get(recipe_id.0) {
            Some(rc) => rc.duration_days,
            None => 1,
        };
        let ghost v = self@;
        proof {
            lemma_plan_offered(v, v.recipes[recipe_id.0].inputs@, offered@);
            assert forall|x: int| 0 <= x < takes@.len() implies v.lots.dom().contains(#[trigger] takes@[x].0.0) by {
                assert(offered@.contains(takes@[x].0));
                let j = choose|j: int| 0 <= j < offered@.len() && offered@[j] == takes@[x].0;
                assert(v.lots.dom().contains(offered@[j].0));
            }
            lemma_plan_count(v, v.recipes[recipe_id.0].inputs@, offered@);
            assert(takes@.len() * 4 <= 4 * offered@.len() * v.recipes[recipe_id.0].inputs@.len()) by (nonlinear_arith)
                requires
                    takes@.len() <= v.recipes[recipe_id.0].inputs@.len() * offered@.len(),
            ;
        }
        let job_id = ProductionJobId(self.alloc_id());
        let ghost w0 = self@;
        let mut consumed: Vec<LotId> = Vec::new();
        let mut i: usize = 0;
        while i < takes.len()
            invariant
                self.wf(),
                i <= takes@.len(),
                v == old(self)@,
                w0 == v.bump(),
                v.next_id < w0.next_id,
                start_precheck(v, factory_id, recipe_id) is None,
                f_owner == v.factories[factory_id.0].owner,
                f_site == v.factories[factory_id.0].site,
                first_offered_lot_error(v, f_owner, f_site, offered@) is None,
                plan_inputs(v, v.recipes[recipe_id.0].inputs@, offered@).1 == takes@,
                plan_inputs(v, v.recipes[recipe_id.0].inputs@, offered@).2 is None,
                plan_components(v, v.recipes[recipe_id.0].component_inputs@, offered_components@, f_owner, f_site) == (
                ctakes@, None::<SimError>),
                job_id == ProductionJobId(v.next_id),
                w0.next_id + 4 * takes@.len() + 1 <= u64::MAX,
                w0.next_id + 4 * takes@.len() + 1 <= v.next_id + start_cost(v, recipe_id, offered@),
                forall|x: int| 0 <= x < takes@.len() ==> w0.lots.dom().contains(#[trigger] takes@[x].0.0),
                commit_lots(w0, takes@.take(i as int), job_id) == (self@, consumed@, None::<SimError>),
            decreases takes@.len() - i,
        {
            proof {
                lemma_commit_lots(w0, takes@.take(i as int), job_id);
                assert(takes@.take(i + 1).drop_last() =~= takes@.take(i as int));
                assert(takes@.take(i + 1).last() == takes@[i as int]);
            }
            let (lot, take) = takes[i];
            let full = match self.lots.get(lot.0) {
                Some(l) => l.quantity,
                None => 0,
            };
            let victim = if take == full {
                lot
            } else {
                match self.split_lot_internal(lot, take) {
                    Err(e) => {
                        proof {
                            lemma_commit_lots_prefix(w0, takes@, job_id, i + 1);
                            lemma_commit_lots(w0, takes@.take(i + 1), job_id);
                        }
                        return Err(e);
                    },
                    Ok(c) => c,
                }
            };
            let l = self.lots.get_mut(victim.0);
            l.state = LotState::ConsumedByProduction(job_id);
            proof {
                self.lemma_keys_wf();
            }
            self.push_event(EventKind::LotConsumed { lot: victim, job: job_id });
            consumed.push(victim);
            i = i + 1;
        }
        proof {
            assert(takes@.take(takes@.len() as int) =~= takes@);
            lemma_commit_lots(w0, takes@, job_id);
        }
        let ghost w1 = self@;
        let mut k: usize = 0;
        while k < ctakes.len()
            invariant
                self.wf(),
                k <= ctakes@.len(),
                self@ == (WorldView { components: comps_consumed(w1.components, ctakes@.take(k as int), job_id), ..w1 }),
            decreases ctakes@.len() - k,
        {
            proof {
                assert(ctakes@.take(k + 1).drop_last() =~= ctakes@.take(k as int));
                assert(ctakes@.take(k + 1).last() == ctakes@[k as int]);
            }
            let c = ctakes[k];
            if self.components.contains(c.0) {
                let ci = self.components.get_mut(c.0);
                ci.placement = ComponentPlacement::Consumed(job_id);
                proof {
                    self.lemma_keys_wf();
                }
            }
            k = k + 1;
        }
        proof {
            assert(ctakes@.take(ctakes@.len() as int) =~= ctakes@);
        }
        let started_day = self.clock.day;
        let completes_day = started_day + duration;
        proof {
            self.production_jobs.lemma_fresh(job_id.0);
        }
        self.production_jobs.insert_new(
            job_id.0,
            ProductionJob {
                id: job_id,
                factory: factory_id,
                recipe: recipe_id,
                owner: f_owner,
                started_day,
                completes_day,
                consumed_lots: crate::table::copy_slice(consumed.as_slice()),
                consumed_components: ctakes,
                state: JobState::InProgress,
            },
        );
        proof {
            self.lemma_keys_wf();
        }
        self.push_event(
            EventKind::ProductionStarted { job: job_id, factory: factory_id, recipe: recipe_id, consumed_lots: consumed },
        );
        proof {
            let ov = old(self)@;
            let ins = ov.recipes[recipe_id.0].inputs@;
            assert forall|c: CommodityId| #[trigger] taken_of(ov, plan_inputs(ov, ins, offered@).1, c) == required_of(ins, c) by {
                lemma_plan_takes_cover(ov, ins, offered@, c);
            }
        }
        Ok(job_id)
    }
}


/// How many lots, assets and components a recipe's outputs come to when
/// made in `v` for `owner` at `site`: the recipe's count, or none where
/// the owner, the commodity, design or site is unknown (or the quantity is
/// zero).
pub open spec fn expected_outputs(v: WorldView, owner: ActorId, site: LocationId, outputs: RecipeOutputs) -> (
    nat,
    nat,
    nat,
) {
    match outputs {
        RecipeOutputs::Commodity { commodity, quantity } => (
            if crate::goods::lot_create_error(v, owner, commodity, quantity, LocationRef::Site(site)) is None {
                1
            } else {
                0
            },
            0,
            0,
        ),
        RecipeOutputs::SerialAssets { design, count } => (
            0,
            if crate::assets::asset_create_error(v, owner, design, LocationRef::Site(site)) is None {
                count as nat
            } else {
                0
            },
            0,
        ),
        RecipeOutputs::Components { count, .. } => (
            0,
            0,
            if v.actors.dom().contains(owner.0) {
                count as nat
            } else {
                0
            },
        ),
    }
}

/// The listed outputs exist in `w`, belong to `owner`, and record `factory`
/// and `job` as their origin: lots rooted in that production, assets and
/// components manufactured by it.
pub open spec fn outputs_traced(
    w: WorldView,
    owner: ActorId,
    factory: FactoryId,
    job: ProductionJobId,
    lots: Seq<LotId>,
    assets: Seq<AssetId>,
    comps: Seq<ComponentId>,
) -> bool {
    &&& forall|x: int|
        0 <= x < lots.len() ==> {
            &&& w.lots.dom().contains((#[trigger] lots[x]).0)
            &&& w.lots[lots[x].0].owner == owner
            &&& w.lots[lots[x].0].lineage == Lineage::Root(LotOrigin::Produced { factory, job })
        }
    &&& forall|x: int|
        0 <= x < assets.len() ==> {
            &&& w.assets.dom().contains((#[trigger] assets[x]).0)
            &&& w.assets[assets[x].0].owner == owner
            &&& w.assets[assets[x].0].origin == AssetOrigin::Manufactured { factory, job }
        }
    &&& forall|x: int|
        0 <= x < comps.len() ==> {
            &&& w.components.dom().contains((#[trigger] comps[x]).0)
            &&& w.components[comps[x].0].owner == owner
            &&& w.components[comps[x].0].origin == AssetOrigin::Manufactured { factory, job }
        }
}

/// Every lot, asset and component of `v` is unchanged in `w`.
pub open spec fn goods_kept(v: WorldView, w: WorldView) -> bool {
    &&& forall|k: u64| #[trigger] v.lots.dom().contains(k) ==> w.lots.dom().contains(k) && w.lots[k] == v.lots[k]
    &&& forall|k: u64|
        #[trigger] v.assets.dom().contains(k) ==> w.assets.dom().contains(k) && w.assets[k] == v.assets[k]
    &&& forall|k: u64|
        #[trigger] v.components.dom().contains(k) ==> w.components.dom().contains(k) && w.components[k]
            == v.components[k]
}

impl World {
    /// Make the outputs of one finished job at its factory's site. Outputs
    /// that cannot be made (an unknown owner, commodity, design or
    /// definition) are left out.
    fn make_outputs(
        &mut self,
        job_id: ProductionJobId,
        owner: ActorId,
        factory: FactoryId,
        site: LocationId,
        outputs: RecipeOutputs,
    ) -> (r: (Vec<LotId>, Vec<AssetId>, Vec<ComponentId>))
        requires
            old(self).wf(),
            old(self)@.has_room(1 + 3 * (match outputs {
                RecipeOutputs::Commodity { .. } => 1,
                RecipeOutputs::SerialAssets { count, .. } => count as int,
                RecipeOutputs::Components { count, .. } => count as int,
            })),
        ensures
            final(self).wf(),
            phase_ok(old(self)@, final(self)@),
            money_untouched(final(self)@, old(self)@),
            final(self)@.next_id + 1 <= u64::MAX,
            old(self)@.next_id <= final(self)@.next_id,
            final(self)@.production_jobs == old(self)@.production_jobs,
            final(self)@.recipes == old(self)@.recipes,
            final(self)@.factories == old(self)@.factories,
            final(self)@.actors == old(self)@.actors,
            final(self)@.commodities == old(self)@.commodities,
            final(self)@.designs == old(self)@.designs,
            final(self)@.locations == old(self)@.locations,
            goods_kept(old(self)@, final(self)@),
            outputs_traced(final(self)@, owner, factory, job_id, r.0@, r.1@, r.2@),
            (r.0@.len(), r.1@.len(), r.2@.len()) == expected_outputs(old(self)@, owner, site, outputs),
    {
        let location = LocationRef::Site(site);
        let mut lots: Vec<LotId> = Vec::new();
        let mut assets: Vec<AssetId> = Vec::new();
        let mut comps: Vec<ComponentId> = Vec::new();
        let ghost v = self@;
        match outputs {
            RecipeOutputs::Commodity { commodity, quantity } => {
                let quality = self.roll_output_quality();
                let ghost s1 = self@;
                let made = self.create_lot_raw(
                    owner,
                    commodity,
                    quantity,
                    quality,
                    LegalStatus::Legitimate,
                    location,
                    Lineage::Root(LotOrigin::Produced { factory, job: job_id }),
                );
                match made {
                    Ok(l) => lots.push(l),
                    Err(_) => {},
                }
                proof {
                    crate::world::lemma_phase_trans(old(self)@, s1, self@);
                    if made is Ok {
                        assert(lots@[0] == LotId(s1.next_id));
                        assert(!s1.lots.dom().contains(s1.next_id));
                    }
                }
            },
            RecipeOutputs::SerialAssets { design, count } => {
                let ghost ok = crate::assets::asset_create_error(v, owner, design, location) is None;
                let mut k: u32 = 0;
                while k < count
                    invariant
                        self.wf(),
                        k <= count,
                        phase_ok(old(self)@, self@),
                        money_untouched(self@, old(self)@),
                        self@.next_id <= old(self)@.next_id + 3 * k,
                        old(self)@.next_id <= self@.next_id,
                        old(self)@.next_id + 1 + 3 * count <= u64::MAX,
                        self@.production_jobs == old(self)@.production_jobs,
                        self@.recipes == v.recipes,
                        self@.factories == v.factories,
                        self@.actors == v.actors,
                        self@.designs == v.designs,
                        self@.locations == v.locations,
                        self@.commodities == v.commodities,
                        location == LocationRef::Site(site),
                        v == old(self)@,
                        ok == (crate::assets::asset_create_error(v, owner, design, location) is None),
                        goods_kept(v, self@),
                        lots@.len() == 0,
                        comps@.len() == 0,
                        assets@.len() == (if ok {
                            k as int
                        } else {
                            0
                        }),
                        outputs_traced(self@, owner, factory, job_id, lots@, assets@, comps@),
                    decreases count - k,
                {
                    let ghost s0 = self@;
                    let quality = self.roll_output_quality();
                    let ghost s1 = self@;
                    let made = self.create_asset_raw(
                        owner,
                        design,
                        location,
                        AssetOrigin::Manufactured { factory, job: job_id },
                        quality,
                        None,
                    );
                    proof {
                        crate::world::lemma_phase_trans(s0, s1, self@);
                        crate::world::lemma_phase_trans(old(self)@, s0, self@);
                        assert(!s1.assets.dom().contains(s1.next_id));
                        assert(crate::assets::asset_create_error(s1, owner, design, location)
                            == crate::assets::asset_create_error(v, owner, design, location));
                    }
                    let ghost a0 = assets@;
                    match made {
                        Ok(a) => assets.push(a),
                        Err(_) => {},
                    }
                    proof {
                        assert forall|x: int| 0 <= x < assets@.len() implies {
                            &&& self@.assets.dom().contains((#[trigger] assets@[x]).0)
                            &&& self@.assets[assets@[x].0].owner == owner
                            &&& self@.assets[assets@[x].0].origin == AssetOrigin::Manufactured {
                                factory,
                                job: job_id,
                            }
                        } by {
                            if x < a0.len() {
                                assert(assets@[x] == a0[x]);
                                assert(s1.assets.dom().contains(a0[x].0));
                            }
                        }
                    }
                    k = k + 1;
                }
            },
            RecipeOutputs::Components { def, count } => {
                let ghost ok = v.actors.dom().contains(owner.0);
                let mut k: u32 = 0;
                while k < count
                    invariant
                        self.wf(),
                        k <= count,
                        phase_ok(old(self)@, self@),
                        money_untouched(self@, old(self)@),
                        self@.next_id <= old(self)@.next_id + 3 * k,
                        old(self)@.next_id <= self@.next_id,
                        old(self)@.next_id + 1 + 3 * count <= u64::MAX,
                        self@.production_jobs == old(self)@.production_jobs,
                        self@.recipes == v.recipes,
                        self@.factories == v.factories,
                        self@.actors == v.actors,
                        self@.designs == v.designs,
                        self@.locations == v.locations,
                        self@.commodities == v.commodities,
                        v == old(self)@,
                        ok == v.actors.dom().contains(owner.0),
                        goods_kept(v, self@),
                        lots@.len() == 0,
                        assets@.len() == 0,
                        comps@.len() == (if ok {
                            k as int
                        } else {
                            0
                        }),
                        outputs_traced(self@, owner, factory, job_id, lots@, assets@, comps@),
                    decreases count - k,
                {
                    let ghost s0 = self@;
                    let quality = self.roll_output_quality();
                    let ghost s1 = self@;
                    let made = self.create_component_raw(
                        owner,
                        def,
                        ComponentPlacement::Loose(location),
                        AssetOrigin::Manufactured { factory, job: job_id },
                        quality,
                    );
                    proof {
                        crate::world::lemma_phase_trans(s0, s1, self@);
                        crate::world::lemma_phase_trans(old(self)@, s0, self@);
                        assert(!s1.components.dom().contains(s1.next_id));
                    }
                    let ghost c0 = comps@;
                    match made {
                        Ok(c) => comps.push(c),
                        Err(_) => {},
                    }
                    proof {
                        assert forall|x: int| 0 <= x < comps@.len() implies {
                            &&& self@.components.dom().contains((#[trigger] comps@[x]).0)
                            &&& self@.components[comps@[x].0].owner == owner
                            &&& self@.components[comps@[x].0].origin == AssetOrigin::Manufactured {
                                factory,
                                job: job_id,
                            }
                        } by {
                            if x < c0.len() {
                                assert(comps@[x] == c0[x]);
                                assert(s1.components.dom().contains(c0[x].0));
                            }
                        }
                    }
                    k = k + 1;
                }
            },
        }
        (lots, assets, comps)
    }

    /// Complete due jobs: create real outputs with full provenance
    /// (produced or manufactured at this factory, by this job).
    pub(crate) fn tick_production(&mut self)
        requires
            old(self).wf(),
        ensures
            final(self).wf(),
            phase_ok(old(self)@, final(self)@),
            money_untouched(final(self)@, old(self)@),
            final(self)@.production_jobs.dom() == old(self)@.production_jobs.dom(),
            forall|k: u64| #[trigger]
                old(self)@.production_jobs.dom().contains(k) ==> final(self)@.production_jobs[k] == old(
                    self,
                )@.production_jobs[k] || job_completed(old(self)@, final(self)@, k),
            forall|k: u64| #[trigger]
                old(self)@.production_jobs.dom().contains(k) ==> due_handled(old(self)@, final(self)@, k),
    {
        let today = self.clock.day;
        let keys = self.production_jobs.key_vec();
        let ghost v = self@;
        proof {
            self.production_jobs.lemma_facts();
            crate::table::lemma_increasing_distinct(self.production_jobs.keys());
        }
        let mut i: usize = 0;
        while i < keys.len()
            invariant
                self.wf(),
                v == old(self)@,
                i <= keys@.len(),
                keys@ == old(self).production_jobs.keys(),
                keys@.no_duplicates(),
                forall|k: u64| #[trigger] v.production_jobs.dom().contains(k) <==> keys@.contains(k),
                today == self@.clock.day,
                today == v.clock.day,
                phase_ok(v, self@),
                money_untouched(self@, v),
                v.next_id <= self@.next_id,
                goods_kept(v, self@),
                self@.production_jobs.dom() == v.production_jobs.dom(),
                self@.recipes == v.recipes,
                self@.factories == v.factories,
                self@.actors == v.actors,
                self@.commodities == v.commodities,
                self@.designs == v.designs,
                self@.locations == v.locations,
                forall|x: int| i <= x < keys@.len() ==> self@.production_jobs[#[trigger] keys@[x]] == v.production_jobs[keys@[x]],
                forall|x: int|
                    0 <= x < i ==> self@.production_jobs[#[trigger] keys@[x]] == v.production_jobs[keys@[x]]
                        || job_completed(v, self@, keys@[x]),
                forall|x: int| 0 <= x < i ==> due_handled(v, self@, #[trigger] keys@[x]),
            decreases keys@.len() - i,
        {
            let k = keys[i];
            let ghost s_in = self@;
            proof {
                assert(keys@.contains(k));
            }
            i = i + 1;
            let (due, recipe_id, factory_id, owner) = match self.production_jobs.get(k) {
                None => (false, RecipeId(0), FactoryId(0), ActorId(0)),
                Some(j) => (matches!(j.state, JobState::InProgress) && j.completes_day <= today, j.recipe, j.factory, j.owner),
            };
            proof {
                assert(self@.production_jobs[k] == v.production_jobs[k]);
                assert(keys@[i - 1] == k);
            }
            if !due {
                proof {
                    lemma_job_skipped(v, self@, keys@, i as int);
                }
                continue;
            }
            let outputs = match self.recipes.get(recipe_id.0) {
                None => {
                    proof {
                        lemma_job_skipped(v, self@, keys@, i as int);
                    }
                    continue;
                },
                Some(rc) => rc.outputs,
            };
            let site = match self.factories.get(factory_id.0) {
                None => {
                    proof {
                        lemma_job_skipped(v, self@, keys@, i as int);
                    }
                    continue;
                },
                Some(f) => f.site,
            };
            let count: u64 = match outputs {
                RecipeOutputs::Commodity { .. } => 1,
                RecipeOutputs::SerialAssets { count, .. } => count as u64,
                RecipeOutputs::Components { count, .. } => count as u64,
            };
            if self.next_id > u64::MAX - 2 - 3 * count {
                proof {
                    assert(count == output_count(v.recipes[recipe_id.0].outputs));
                    lemma_job_skipped(v, self@, keys@, i as int);
                }
                continue;
            }
            let ghost s0 = self@;
            let (lots, assets, comps) = self.make_outputs(ProductionJobId(k), owner, factory_id, site, outputs);
            proof {
                crate::world::lemma_phase_trans(old(self)@, s0, self@);
                lemma_goods_kept_trans(v, s0, self@);
                assert forall|x: int| 0 <= x < i - 1 implies #[trigger] due_handled(v, self@, keys@[x]) && (self@.production_jobs[keys@[x]] == v.production_jobs[keys@[x]]
                        || job_completed(v, self@, keys@[x])) by {
                    if self@.production_jobs[keys@[x]] != v.production_jobs[keys@[x]] {
                        lemma_completed_kept(v, s0, self@, keys@[x]);
                    }
                }
            }
            let ghost s1 = self@;
            let ghost before = self@;
            let j = self.production_jobs.get_mut(k);
            j.state = JobState::Completed {
                output_lots: crate::table::copy_slice(lots.as_slice()),
                output_assets: crate::table::copy_slice(assets.as_slice()),
                output_components: crate::table::copy_slice(comps.as_slice()),
            };
            proof {
                self.lemma_keys_wf();
                assert(self@.production_jobs == before.production_jobs.insert(k, self@.production_jobs[k]));
                assert(before.production_jobs[k].state is InProgress);
                assert(goods_kept(s1, self@));
                lemma_goods_kept_trans(v, s1, self@);
                assert(job_completed(v, self@, k));
                assert forall|x: int| 0 <= x < i - 1 implies #[trigger] due_handled(v, self@, keys@[x]) && (self@.production_jobs[keys@[x]] == v.production_jobs[keys@[x]]
                        || job_completed(v, self@, keys@[x])) by {
                    assert(keys@[x] != k);
                    if s1.production_jobs[keys@[x]] != v.production_jobs[keys@[x]] {
                        lemma_completed_kept(v, s1, self@, keys@[x]);
                    }
                }
                assert forall|x: int| i <= x < keys@.len() implies self@.production_jobs[#[trigger] keys@[x]] == v.production_jobs[keys@[x]] by {
                    assert(keys@[x] != k);
                }
            }
            let ghost s2 = self@;
            self.push_event(
                EventKind::ProductionCompleted {
                    job: ProductionJobId(k),
                    output_lots: lots,
                    output_assets: assets,
                    output_components: comps,
                },
            );
            proof {
                crate::world::lemma_phase_trans(old(self)@, s1, s2);
                crate::world::lemma_phase_trans(old(self)@, s2, self@);
                assert(goods_kept(s2, self@));
                lemma_goods_kept_trans(v, s2, self@);
                assert forall|x: int| 0 <= x < i implies #[trigger] due_handled(v, self@, keys@[x]) && (self@.production_jobs[keys@[x]] == v.production_jobs[keys@[x]]
                        || job_completed(v, self@, keys@[x])) by {
                    if s2.production_jobs[keys@[x]] != v.production_jobs[keys@[x]] {
                        lemma_completed_kept(v, s2, self@, keys@[x]);
                    }
                }
            }
        }
        proof {
            assert forall|k: u64| #[trigger] v.production_jobs.dom().contains(k) implies due_handled(v, self@, k) && (self@.production_jobs[k] == v.production_jobs[k]
                    || job_completed(v, self@, k)) by {
                let x = choose|x: int| 0 <= x < keys@.len() && keys@[x] == k;
                assert(due_handled(v, self@, keys@[x]));
            }
        }
    }
}

/// How many output records a recipe's outputs call for.
pub open spec fn output_count(outputs: RecipeOutputs) -> int {
    match outputs {
        RecipeOutputs::Commodity { .. } => 1,
        RecipeOutputs::SerialAssets { count, .. } => count as int,
        RecipeOutputs::Components { count, .. } => count as int,
    }
}

/// Job `k`, due in `v`, was completed in `w`: its record now lists its
/// outputs and nothing else about it changed, the outputs exist with this
/// job's provenance, and they are as many as its recipe makes for its
/// owner at its factory's site.
pub open spec fn job_completed(v: WorldView, w: WorldView, k: u64) -> bool {
    let o = v.production_jobs[k];
    let f = w.production_jobs[k];
    &&& job_due(o, v.clock.day)
    &&& v.recipes.dom().contains(o.recipe.0)
    &&& v.factories.dom().contains(o.factory.0)
    &&& completed_from(o, f)
    &&& outputs_traced(
        w,
        o.owner,
        o.factory,
        ProductionJobId(k),
        f.state->output_lots@,
        f.state->output_assets@,
        f.state->output_components@,
    )
    &&& (f.state->output_lots@.len(), f.state->output_assets@.len(), f.state->output_components@.len())
        == expected_outputs(v, o.owner, v.factories[o.factory.0].site, v.recipes[o.recipe.0].outputs)
}

/// Job `k` of `v`, if due on `today` with its recipe and factory in `v`,
/// is completed in `w`, unless the ids ran out before its outputs could be
/// made.
pub open spec fn completed_when_due(v: WorldView, today: u64, w: WorldView, k: u64) -> bool {
    let o = v.production_jobs[k];
    job_due(o, today) && v.recipes.dom().contains(o.recipe.0) && v.factories.dom().contains(o.factory.0) ==> {
        ||| w.production_jobs[k].state is Completed
        ||| w.next_id > u64::MAX - 2 - 3 * output_count(v.recipes[o.recipe.0].outputs)
    }
}

/// A job due in `v` on `v`'s own day was handled by `w` as
/// `completed_when_due` says.
pub open spec fn due_handled(v: WorldView, w: WorldView, k: u64) -> bool {
    completed_when_due(v, v.clock.day, w, k)
}

/// Due jobs completed by `w1` stay completed through a settled phase, and
/// a counter past the limit stays past it.
pub proof fn lemma_due_carried(v: WorldView, today: u64, w1: WorldView, w2: WorldView)
    requires
        crate::world::jobs_settled(w1, w2),
        v.production_jobs.dom().subset_of(w1.production_jobs.dom()),
        forall|k: u64| #[trigger] v.production_jobs.dom().contains(k) ==> completed_when_due(v, today, w1, k),
    ensures
        v.production_jobs.dom().subset_of(w2.production_jobs.dom()),
        forall|k: u64| #[trigger] v.production_jobs.dom().contains(k) ==> completed_when_due(v, today, w2, k),
{
    assert forall|k: u64| #[trigger] v.production_jobs.dom().contains(k) implies completed_when_due(v, today, w2, k) by {
        assert(w1.production_jobs.dom().contains(k));
    }
}

/// Leaving the job at `keys[i - 1]` as it was, where that is all its due
/// handling asks, extends what holds of the jobs walked before it.
pub proof fn lemma_job_skipped(v: WorldView, w: WorldView, keys: Seq<u64>, i: int)
    requires
        1 <= i <= keys.len(),
        w.production_jobs[keys[i - 1]] == v.production_jobs[keys[i - 1]],
        due_handled(v, w, keys[i - 1]),
        forall|x: int|
            0 <= x < i - 1 ==> w.production_jobs[#[trigger] keys[x]] == v.production_jobs[keys[x]] || job_completed(
                v,
                w,
                keys[x],
            ),
        forall|x: int| 0 <= x < i - 1 ==> due_handled(v, w, #[trigger] keys[x]),
    ensures
        forall|x: int|
            0 <= x < i ==> w.production_jobs[#[trigger] keys[x]] == v.production_jobs[keys[x]] || job_completed(
                v,
                w,
                keys[x],
            ),
        forall|x: int| 0 <= x < i ==> due_handled(v, w, #[trigger] keys[x]),
{
}

pub proof fn lemma_goods_kept_trans(a: WorldView, b: WorldView, c: WorldView)
    requires
        goods_kept(a, b),
        goods_kept(b, c),
    ensures
        goods_kept(a, c),
{
}

/// A completion stays recorded while the goods and the job's record stay.
pub proof fn lemma_completed_kept(v: WorldView, w1: WorldView, w2: WorldView, k: u64)
    requires
        job_completed(v, w1, k),
        goods_kept(w1, w2),
        w2.production_jobs[k] == w1.production_jobs[k],
    ensures
        job_completed(v, w2, k),
{
    let f = w1.production_jobs[k];
    let ls = f.state->output_lots@;
    let as_ = f.state->output_assets@;
    let cs = f.state->output_components@;
    assert forall|x: int| 0 <= x < ls.len() implies w2.lots.dom().contains((#[trigger] ls[x]).0) by {
        assert(w1.lots.dom().contains(ls[x].0));
    }
    assert forall|x: int| 0 <= x < as_.len() implies w2.assets.dom().contains((#[trigger] as_[x]).0) by {
        assert(w1.assets.dom().contains(as_[x].0));
    }
    assert forall|x: int| 0 <= x < cs.len() implies w2.components.dom().contains((#[trigger] cs[x]).0) by {
        assert(w1.components.dom().contains(cs[x].0));
    }
}

/// The inventory lots of one commodity, in inventory order.
pub open spec fn stock_of(inv: Seq<(CommodityId, LotId, u64)>, c: CommodityId) -> Seq<(LotId, u64)>
    decreases inv.len(),
{
    if inv.len() == 0 {
        Seq::empty()
    } else if inv.last().0 == c {
        stock_of(inv.drop_last(), c).push((inv.last().1, inv.last().2))
    } else {
        stock_of(inv.drop_last(), c)
    }
}

/// Total quantity of a list of lots.
pub open spec fn stock_total(s: Seq<(LotId, u64)>) -> int
    decreases s.len(),
{
    if s.len() == 0 {
        0
    } else {
        stock_total(s.drop_last()) + s.last().1
    }
}

/// The lot ids of a list of lots.
pub open spec fn lot_ids(s: Seq<(LotId, u64)>) -> Seq<LotId> {
    s.map_values(|p: (LotId, u64)| p.0)
}

/// The lots a recipe's bulk inputs can draw on: every inventory lot of
/// each input commodity, when each commodity's total covers what the
/// recipe needs.
pub open spec fn offer_lots(inv: Seq<(CommodityId, LotId, u64)>, inputs: Seq<(CommodityId, u64)>) -> Option<Seq<LotId>>
    decreases inputs.len(),
{
    if inputs.len() == 0 {
        Some(Seq::empty())
    } else {
        match offer_lots(inv, inputs.drop_last()) {
            None => None,
            Some(prev) => {
                let (c, req) = inputs.last();
                let m = stock_of(inv, c);
                if stock_total(m) < req {
                    None
                } else {
                    Some(prev + lot_ids(m))
                }
            },
        }
    }
}

/// The inventory components of any of the accepted definitions, by
/// definition in accept-list order, skipping those already used.
pub open spec fn comps_of(inv: Seq<(ComponentDefId, ComponentId)>, d: ComponentDefId, used: Seq<ComponentId>) -> Seq<
    ComponentId,
>
    decreases inv.len(),
{
    if inv.len() == 0 {
        Seq::empty()
    } else if inv.last().0 == d && !used.contains(inv.last().1) {
        comps_of(inv.drop_last(), d, used).push(inv.last().1)
    } else {
        comps_of(inv.drop_last(), d, used)
    }
}

pub open spec fn comps_accepted(inv: Seq<(ComponentDefId, ComponentId)>, accepts: Seq<ComponentDefId>, used: Seq<ComponentId>) -> Seq<
    ComponentId,
>
    decreases accepts.len(),
{
    if accepts.len() == 0 {
        Seq::empty()
    } else {
        comps_accepted(inv, accepts.drop_last(), used) + comps_of(inv, accepts.last(), used)
    }
}

/// The components each requirement takes, in order: the first `count`
/// accepted, unused ones.
pub open spec fn offer_comps(inv: Seq<(ComponentDefId, ComponentId)>, reqs: Seq<ComponentRequirement>) -> Option<
    Seq<ComponentId>,
>
    decreases reqs.len(),
{
    if reqs.len() == 0 {
        Some(Seq::empty())
    } else {
        match offer_comps(inv, reqs.drop_last()) {
            None => None,
            Some(prev) => {
                let req = reqs.last();
                let cands = comps_accepted(inv, req.accepts@, prev);
                if cands.len() < req.count {
                    None
                } else {
                    Some(prev + cands.take(req.count as int))
                }
            },
        }
    }
}

fn stock_exec(inv: &Vec<(CommodityId, LotId, u64)>, c: CommodityId) -> (r: (Vec<LotId>, u64))
    ensures
        r.0@ == lot_ids(stock_of(inv@, c)),
        r.1 == crate::arith::clamp_u64(stock_total(stock_of(inv@, c))),
        stock_total(stock_of(inv@, c)) >= 0,
{
    let mut ids: Vec<LotId> = Vec::new();
    let mut total: u64 = 0;
    let mut i: usize = 0;
    while i < inv.len()
        invariant
            i <= inv@.len(),
            ids@ == lot_ids(stock_of(inv@.take(i as int), c)),
            total == crate::arith::clamp_u64(stock_total(stock_of(inv@.take(i as int), c))),
            stock_total(stock_of(inv@.take(i as int), c)) >= 0,
        decreases inv@.len() - i,
    {
        proof {
            assert(inv@.take(i + 1).drop_last() =~= inv@.take(i as int));
            assert(inv@.take(i + 1).last() == inv@[i as int]);
        }
        let (cc, lid, q) = inv[i];
        if cc.0 == c.0 {
            ids.push(lid);
            total = crate::arith::sat_add_u64(total, q);
            proof {
                let prev = stock_of(inv@.take(i as int), c);
                assert(prev.push((lid, q)).drop_last() =~= prev);
                assert(lot_ids(prev.push((lid, q))) =~= lot_ids(prev).push(lid));
            }
        }
        i = i + 1;
    }
    proof {
        assert(inv@.take(inv@.len() as int) =~= inv@);
    }
    (ids, total)
}

fn comps_of_exec(inv: &Vec<(ComponentDefId, ComponentId)>, d: ComponentDefId, used: &Vec<ComponentId>, out: &mut Vec<ComponentId>)
    ensures
        final(out)@ == old(out)@ + comps_of(inv@, d, used@),
{
    let mut i: usize = 0;
    proof {
        assert(old(out)@ + Seq::<ComponentId>::empty() =~= old(out)@);
    }
    while i < inv.len()
        invariant
            i <= inv@.len(),
            out@ == old(out)@ + comps_of(inv@.take(i as int), d, used@),
        decreases inv@.len() - i,
    {
        proof {
            assert(inv@.take(i + 1).drop_last() =~= inv@.take(i as int));
            assert(inv@.take(i + 1).last() == inv@[i as int]);
        }
        let (dd, cid) = inv[i];
        if dd.0 == d.0 && !contains_comp(used, cid) {
            out.push(cid);
            proof {
                assert(out@ =~= old(out)@ + comps_of(inv@.take(i + 1), d, used@));
            }
        }
        i = i + 1;
    }
    proof {
        assert(inv@.take(inv@.len() as int) =~= inv@);
    }
}

/// Whether the given local inventory covers a recipe, and if so the exact
/// lots and components to offer `start_production`.
pub fn recipe_offer_from_inventory(
    recipe: &Recipe,
    lots_inv: &Vec<(CommodityId, LotId, u64)>,
    comps_inv: &Vec<(ComponentDefId, ComponentId)>,
) -> (r: Option<(Vec<LotId>, Vec<ComponentId>)>)
    ensures
        match (offer_lots(lots_inv@, recipe.inputs@), offer_comps(comps_inv@, recipe.component_inputs@)) {
            (Some(l), Some(c)) => r matches Some(x) && x.0@ == l && x.1@ == c,
            _ => r is None,
        },
{
    let mut lot_ids_out: Vec<LotId> = Vec::new();
    let mut i: usize = 0;
    while i < recipe.inputs.len()
        invariant
            i <= recipe.inputs@.len(),
            offer_lots(lots_inv@, recipe.inputs@.take(i as int)) == Some(lot_ids_out@),
        decreases recipe.inputs@.len() - i,
    {
        proof {
            assert(recipe.inputs@.take(i + 1).drop_last() =~= recipe.inputs@.take(i as int));
            assert(recipe.inputs@.take(i + 1).last() == recipe.inputs@[i as int]);
        }
        let (c, req) = recipe.inputs[i];
        let (ids, total) = stock_exec(lots_inv, c);
        if total < req {
            proof {
                lemma_offer_lots_none(lots_inv@, recipe.inputs@, i + 1);
            }
            return None;
        }
        let mut k: usize = 0;
        let ghost base = lot_ids_out@;
        while k < ids.len()
            invariant
                k <= ids@.len(),
                lot_ids_out@ == base + ids@.take(k as int),
            decreases ids@.len() - k,
        {
            lot_ids_out.push(ids[k]);
            k = k + 1;
            assert(lot_ids_out@ =~= base + ids@.take(k as int));
        }
        proof {
            assert(ids@.take(ids@.len() as int) =~= ids@);
            let m = stock_of(lots_inv@, c);
            assert(stock_total(m) >= req);
            let t = recipe.inputs@.take(i + 1);
            assert(t.drop_last() =~= recipe.inputs@.take(i as int));
            assert(t.last() == (c, req));
            assert(offer_lots(lots_inv@, t) == Some(base + lot_ids(m)));
        }
        i = i + 1;
    }
    proof {
        assert(recipe.inputs@.take(recipe.inputs@.len() as int) =~= recipe.inputs@);
    }
    let mut comp_ids: Vec<ComponentId> = Vec::new();
    let mut j: usize = 0;
    while j < recipe.component_inputs.len()
        invariant
            j <= recipe.component_inputs@.len(),
            offer_lots(lots_inv@, recipe.inputs@) == Some(lot_ids_out@),
            offer_comps(comps_inv@, recipe.component_inputs@.take(j as int)) == Some(comp_ids@),
        decreases recipe.component_inputs@.len() - j,
    {
        proof {
            assert(recipe.component_inputs@.take(j + 1).drop_last() =~= recipe.component_inputs@.take(j as int));
            assert(recipe.component_inputs@.take(j + 1).last() == recipe.component_inputs@[j as int]);
        }
        let req = &recipe.component_inputs[j];
        let mut cands: Vec<ComponentId> = Vec::new();
        let mut a: usize = 0;
        while a < req.accepts.len()
            invariant
                a <= req.accepts@.len(),
                cands@ == comps_accepted(comps_inv@, req.accepts@.take(a as int), comp_ids@),
            decreases req.accepts@.len() - a,
        {
            proof {
                assert(req.accepts@.take(a + 1).drop_last() =~= req.accepts@.take(a as int));
                assert(req.accepts@.take(a + 1).last() == req.accepts@[a as int]);
            }
            comps_of_exec(comps_inv, req.accepts[a], &comp_ids, &mut cands);
            a = a + 1;
        }
        proof {
            assert(req.accepts@.take(req.accepts@.len() as int) =~= req.accepts@);
        }
        if cands.len() < req.count as usize {
            proof {
                lemma_offer_comps_none(comps_inv@, recipe.component_inputs@, j + 1);
            }
            return None;
        }
        let mut k: usize = 0;
        let ghost base = comp_ids@;
        while k < req.count as usize
            invariant
                k <= req.count,
                req.count <= cands@.len(),
                comp_ids@ == base + cands@.take(k as int),
            decreases req.count - k,
        {
            comp_ids.push(cands[k]);
            k = k + 1;
            assert(comp_ids@ =~= base + cands@.take(k as int));
        }
        j = j + 1;
    }
    proof {
        assert(recipe.component_inputs@.take(recipe.component_inputs@.len() as int) =~= recipe.component_inputs@);
    }
    Some((lot_ids_out, comp_ids))
}

pub proof fn lemma_offer_lots_none(inv: Seq<(CommodityId, LotId, u64)>, inputs: Seq<(CommodityId, u64)>, n: int)
    requires
        0 <= n <= inputs.len(),
        offer_lots(inv, inputs.take(n)) is None,
    ensures
        offer_lots(inv, inputs) is None,
    decreases inputs.len(),
{
    if n == inputs.len() {
        assert(inputs.take(n) =~= inputs);
    } else {
        let p = inputs.drop_last();
        assert(p.take(n) =~= inputs.take(n));
        lemma_offer_lots_none(inv, p, n);
    }
}

pub proof fn lemma_offer_comps_none(inv: Seq<(ComponentDefId, ComponentId)>, reqs: Seq<ComponentRequirement>, n: int)
    requires
        0 <= n <= reqs.len(),
        offer_comps(inv, reqs.take(n)) is None,
    ensures
        offer_comps(inv, reqs) is None,
    decreases reqs.len(),
{
    if n == reqs.len() {
        assert(reqs.take(n) =~= reqs);
    } else {
        let p = reqs.drop_last();
        assert(p.take(n) =~= reqs.take(n));
        lemma_offer_comps_none(inv, p, n);
    }
}


/// How an auto-production candidate ranks: tooled recipes first, then
/// output tier, then backlog of the recipe's own inputs.
pub open spec fn ranks_above(a: (bool, u8, u64), b: (bool, u8, u64)) -> bool {
    (a.0 && !b.0) || (a.0 == b.0 && a.1 > b.1) || (a.0 == b.0 && a.1 == b.1 && a.2 > b.2)
}

fn ranks_above_exec(a: (bool, u8, u64), b: (bool, u8, u64)) -> (r: bool)
    ensures
        r == ranks_above(a, b),
{
    (a.0 && !b.0) || (a.0 == b.0 && a.1 > b.1) || (a.0 == b.0 && a.1 == b.1 && a.2 > b.2)
}

/// The real quantity on hand of every input of a recipe, summed over its
/// inputs (saturating).
fn backlog_of(inputs: &Vec<(CommodityId, u64)>, lots_inv: &Vec<(CommodityId, LotId, u64)>) -> (r: u64)
    ensures
        r == backlog_total(inputs@, lots_inv@),
{
    let mut total: u64 = 0;
    let mut i: usize = 0;
    while i < inputs.len()
        invariant
            i <= inputs@.len(),
            total == backlog_total(inputs@.take(i as int), lots_inv@),
        decreases inputs@.len() - i,
    {
        proof {
            assert(inputs@.take(i + 1).drop_last() =~= inputs@.take(i as int));
        }
        let (_, t) = stock_exec(lots_inv, inputs[i].0);
        total = crate::arith::sat_add_u64(total, t);
        i = i + 1;
    }
    proof {
        assert(inputs@.take(inputs@.len() as int) =~= inputs@);
    }
    total
}

/// The real quantity on hand of every input, summed over the inputs
/// (each sum saturating).
pub open spec fn backlog_total(inputs: Seq<(CommodityId, u64)>, inv: Seq<(CommodityId, LotId, u64)>) -> u64
    decreases inputs.len(),
{
    if inputs.len() == 0 {
        0
    } else {
        crate::arith::clamp_u64(
            backlog_total(inputs.drop_last(), inv) + crate::arith::clamp_u64(stock_total(stock_of(inv, inputs.last().0))),
        ) as u64
    }
}

/// The tier a recipe's outputs rank by: 255 for finished assets, one below
/// a known product commodity's tier (never below zero), a known component
/// definition's tier, and zero for an unknown product.
pub open spec fn tier_rank_of(v: WorldView, outputs: RecipeOutputs) -> u8 {
    match outputs {
        RecipeOutputs::SerialAssets { .. } => 255,
        RecipeOutputs::Commodity { commodity, .. } => if v.commodities.dom().contains(commodity.0) {
            if v.commodities[commodity.0].tier > 0 {
                (v.commodities[commodity.0].tier - 1) as u8
            } else {
                0
            }
        } else {
            0
        },
        RecipeOutputs::Components { def, .. } => if v.component_defs.dom().contains(def.0) {
            v.component_defs[def.0].tier
        } else {
            0
        },
    }
}

/// The owner's active lots whose holder resolves to `site`, as (commodity,
/// lot, quantity), in the order of `keys`.
pub open spec fn inventory_lots(v: WorldView, keys: Seq<u64>, owner: ActorId, site: LocationId) -> Seq<
    (CommodityId, LotId, u64),
>
    decreases keys.len(),
{
    if keys.len() == 0 {
        Seq::empty()
    } else {
        let prev = inventory_lots(v, keys.drop_last(), owner, site);
        let l = v.lots[keys.last()];
        if l.owner == owner && l.state is Active && crate::locations::resolve(v, l.location) == Some(site) {
            prev.push((l.commodity, LotId(keys.last()), l.quantity))
        } else {
            prev
        }
    }
}

/// The owner's loose components whose holder resolves to `site`, as
/// (definition, component), in the order of `keys`.
pub open spec fn inventory_comps(v: WorldView, keys: Seq<u64>, owner: ActorId, site: LocationId) -> Seq<
    (ComponentDefId, ComponentId),
>
    decreases keys.len(),
{
    if keys.len() == 0 {
        Seq::empty()
    } else {
        let prev = inventory_comps(v, keys.drop_last(), owner, site);
        let c = v.components[keys.last()];
        if c.owner == owner && (c.placement matches ComponentPlacement::Loose(loc) && crate::locations::resolve(v, loc)
            == Some(site)) {
            prev.push((c.def, ComponentId(keys.last())))
        } else {
            prev
        }
    }
}

impl World {
    /// Whether a job of this factory is still in progress.
    fn factory_busy(&self, factory: FactoryId) -> (r: bool)
        requires
            self.wf(),
        ensures
            r == factory_has_job(self@, factory),
    {
        let n = self.production_jobs.len();
        proof {
            self.production_jobs.lemma_facts();
        }
        let mut i: usize = 0;
        while i < n
            invariant
                self.wf(),
                n == self.production_jobs.keys().len(),
                i <= n,
                forall|k: u64| #[trigger] self@.production_jobs.dom().contains(k) <==> self.production_jobs.keys().contains(k),
                forall|x: int|
                    0 <= x < i ==> !job_in_progress_at(self@.production_jobs[#[trigger] self.production_jobs.keys()[x]], factory),
            decreases n - i,
        {
            let j = self.production_jobs.val_at(i);
            if j.factory.0 == factory.0 && matches!(j.state, JobState::InProgress) {
                proof {
                    let k = self.production_jobs.keys()[i as int];
                    assert(self@.production_jobs.dom().contains(k) && job_in_progress_at(self@.production_jobs[k], factory));
                }
                return true;
            }
            i = i + 1;
        }
        proof {
            assert forall|k: u64| #[trigger] self@.production_jobs.dom().contains(k) implies !job_in_progress_at(
                self@.production_jobs[k],
                factory,
            ) by {
                let x = choose|x: int| 0 <= x < self.production_jobs.keys().len() && self.production_jobs.keys()[x] == k;
            }
        }
        false
    }

    /// The owner's active lots and loose components physically at a site,
    /// in id order.
    fn local_inventory(&self, owner: ActorId, site: LocationId) -> (r: (
        Vec<(CommodityId, LotId, u64)>,
        Vec<(ComponentDefId, ComponentId)>,
    ))
        requires
            self.wf(),
        ensures
            r.0@ == inventory_lots(self@, self.lots.keys(), owner, site),
            r.1@ == inventory_comps(self@, self.components.keys(), owner, site),
    {
        let mut lots: Vec<(CommodityId, LotId, u64)> = Vec::new();
        let n = self.lots.len();
        let mut i: usize = 0;
        while i < n
            invariant
                self.wf(),
                n == self.lots.keys().len(),
                i <= n,
                lots@ == inventory_lots(self@, self.lots.keys().take(i as int), owner, site),
            decreases n - i,
        {
            proof {
                assert(self.lots.keys().take(i + 1).drop_last() =~= self.lots.keys().take(i as int));
                assert(self.lots.keys().take(i + 1).last() == self.lots.keys()[i as int]);
            }
            let lid = self.lots.key_at(i);
            let l = self.lots.val_at(i);
            if l.owner.0 == owner.0 && matches!(l.state, LotState::Active) && crate::intel::same_site(
                self.resolve_site(l.location),
                site,
            ) {
                lots.push((l.commodity, LotId(lid), l.quantity));
            }
            i = i + 1;
        }
        proof {
            assert(self.lots.keys().take(n as int) =~= self.lots.keys());
        }
        let mut comps: Vec<(ComponentDefId, ComponentId)> = Vec::new();
        let m = self.components.len();
        let mut k: usize = 0;
        while k < m
            invariant
                self.wf(),
                m == self.components.keys().len(),
                k <= m,
                comps@ == inventory_comps(self@, self.components.keys().take(k as int), owner, site),
            decreases m - k,
        {
            proof {
                assert(self.components.keys().take(k + 1).drop_last() =~= self.components.keys().take(k as int));
                assert(self.components.keys().take(k + 1).last() == self.components.keys()[k as int]);
            }
            let cid = self.components.key_at(k);
            let c = self.components.val_at(k);
            if c.owner.0 == owner.0 {
                match c.placement {
                    ComponentPlacement::Loose(loc) => {
                        if crate::intel::same_site(self.resolve_site(loc), site) {
                            comps.push((c.def, ComponentId(cid)));
                        }
                    },
                    _ => {},
                }
            }
            k = k + 1;
        }
        proof {
            assert(self.components.keys().take(m as int) =~= self.components.keys());
        }
        (lots, comps)
    }

    /// The output tier a recipe is ranked by: finished assets above
    /// everything, a bulk refining step one below its product's tier (so
    /// that refining further and converting into a component tie on the
    /// same stock), a component its definition's tier.
    fn tier_rank(&self, outputs: RecipeOutputs) -> (r: u8)
        requires
            self.wf(),
        ensures
            r == tier_rank_of(self@, outputs),
    {
        match outputs {
            RecipeOutputs::SerialAssets { .. } => 255,
            RecipeOutputs::Commodity { commodity, .. } => match self.commodities.get(commodity.0) {
                Some(c) => if c.tier > 0 {
                    c.tier - 1
                } else {
                    0
                },
                None => 0,
            },
            RecipeOutputs::Components { def, .. } => match self.component_defs.get(def.0) {
                Some(d) => d.tier,
                None => 0,
            },
        }
    }

    /// Every idle, operational factory that is not retooling starts the
    /// best recipe its local stock covers: one matching its installed
    /// tooling first, then the highest output tier, then the largest
    /// backlog of its own inputs, then the lowest recipe id.
    pub(crate) fn tick_factory_auto_production(&mut self)
        requires
            old(self).wf(),
        ensures
            final(self).wf(),
            phase_ok(old(self)@, final(self)@),
            money_untouched(final(self)@, old(self)@),
            final(self)@.factories == old(self)@.factories,
            final(self)@.recipes == old(self)@.recipes,
            forall|k: u64| #[trigger]
                old(self)@.production_jobs.dom().contains(k) ==> final(self)@.production_jobs.dom().contains(k)
                    && final(self)@.production_jobs[k] == old(self)@.production_jobs[k],
            forall|k: u64| #[trigger]
                final(self)@.production_jobs.dom().contains(k) && !old(self)@.production_jobs.dom().contains(k)
                    ==> auto_job(old(self)@, final(self)@.production_jobs[k]),
            forall|k1: u64, k2: u64|
                #![trigger final(self)@.production_jobs[k1], final(self)@.production_jobs[k2]]
                final(self)@.production_jobs.dom().contains(k1) && !old(self)@.production_jobs.dom().contains(k1)
                    && final(self)@.production_jobs.dom().contains(k2) && !old(self)@.production_jobs.dom().contains(k2)
                    && k1 != k2 ==> final(self)@.production_jobs[k1].factory != final(self)@.production_jobs[k2].factory,
            exists|fs: Seq<WorldView>| #[trigger] auto_ran(old(self)@, final(self)@, fs),
    {
        let fkeys = self.factories.key_vec();
        let ghost v = self@;
        proof {
            self.factories.lemma_facts();
            crate::table::lemma_increasing_distinct(self.factories.keys());
            self.factories.lemma_key_order();
        }
        let ghost mut fs: Seq<WorldView> = seq![self@];
        let mut fi: usize = 0;
        while fi < fkeys.len()
            invariant
                self.wf(),
                v == old(self)@,
                fi <= fkeys@.len(),
                fkeys@.no_duplicates(),
                phase_ok(v, self@),
                money_untouched(self@, v),
                self@.factories == v.factories,
                self@.recipes == v.recipes,
                self@.assets == v.assets,
                forall|k: u64| #[trigger]
                    v.production_jobs.dom().contains(k) ==> self@.production_jobs.dom().contains(k)
                        && self@.production_jobs[k] == v.production_jobs[k],
                forall|k: u64| #[trigger]
                    self@.production_jobs.dom().contains(k) && !v.production_jobs.dom().contains(k) ==> auto_job(
                        v,
                        self@.production_jobs[k],
                    ) && exists|x: int| 0 <= x < fi && self@.production_jobs[k].factory.0 == #[trigger] fkeys@[x],
                forall|k1: u64, k2: u64|
                    #![trigger self@.production_jobs[k1], self@.production_jobs[k2]]
                    self@.production_jobs.dom().contains(k1) && !v.production_jobs.dom().contains(k1)
                        && self@.production_jobs.dom().contains(k2) && !v.production_jobs.dom().contains(k2) && k1 != k2
                        ==> self@.production_jobs[k1].factory != self@.production_jobs[k2].factory,
                fkeys@ == crate::table::key_order(v.factories),
                fs.len() == fi + 1,
                fs[0] == v,
                fs[fi as int] == self@,
                forall|x: int| 0 <= x < fi ==> #[trigger] auto_turn(fs[x], fs[x + 1], FactoryId(fkeys@[x])),
            decreases fkeys@.len() - fi,
        {
            let fid = fkeys[fi];
            let ghost s_in = self@;
            let ghost fs_in = fs;
            fi = fi + 1;
            let (owner, site, tooling, ready) = match self.factories.get(fid) {
                None => {
                    proof {
                        lemma_auto_skip(v, self@, fkeys@, fi as int);
                        assert(!factory_ready(s_in, FactoryId(fid)));
                        fs = lemma_auto_push(fs_in, s_in, self@, fkeys@, (fi - 1) as int);
                    }
                    continue;
                },
                Some(f) => (f.owner, f.site, f.tooling, f.is_operational() && self.clock.day >= f.retooling_until),
            };
            if !ready || self.factory_busy(FactoryId(fid)) {
                proof {
                    lemma_auto_skip(v, self@, fkeys@, fi as int);
                    assert(!factory_ready(s_in, FactoryId(fid)));
                    fs = lemma_auto_push(fs_in, s_in, self@, fkeys@, (fi - 1) as int);
                }
                continue;
            }
            proof {
                assert(!factory_has_job(v, FactoryId(fid))) by {
                    if factory_has_job(v, FactoryId(fid)) {
                        let k = choose|k: u64| #[trigger] v.production_jobs.dom().contains(k) && job_in_progress_at(
                            v.production_jobs[k],
                            FactoryId(fid),
                        );
                        assert(self@.production_jobs.dom().contains(k));
                    }
                }
                assert(factory_ready(v, FactoryId(fid)));
            }
            let tooling_design: Option<DesignId> = match tooling {
                None => None,
                Some(t) => match self.assets.get(t.0) {
                    Some(a) => Some(a.design),
                    None => None,
                },
            };
            proof {
                self.lots.lemma_key_order();
                self.components.lemma_key_order();
            }
            let (lots_inv, comps_inv) = self.local_inventory(owner, site);
            let ghost fa = FactoryId(fid);
            proof {
                assert(lots_inv@ == auto_lots(s_in, fa));
                assert(comps_inv@ == auto_comps(s_in, fa));
            }
            let mut best: Option<(bool, u8, u64, u64, Vec<LotId>, Vec<ComponentId>)> = None;
            let rn = self.recipes.len();
            let mut ri: usize = 0;
            while ri < rn
                invariant
                    self.wf(),
                    rn == self.recipes.keys().len(),
                    ri <= rn,
                    tooling == self@.factories[fid].tooling,
                    tooling_design == (match tooling {
                        Some(t) => if self@.assets.dom().contains(t.0) {
                            Some(self@.assets[t.0].design)
                        } else {
                            None
                        },
                        None => None,
                    }),
                    best matches Some(b) ==> self@.recipes.dom().contains(b.3) && tooling_fits(
                        self@,
                        FactoryId(fid),
                        self@.recipes[b.3],
                    ),
                    self@ == s_in,
                    self@.factories.dom().contains(fid),
                    owner == s_in.factories[fid].owner,
                    site == s_in.factories[fid].site,
                    fa == FactoryId(fid),
                    lots_inv@ == auto_lots(s_in, fa),
                    comps_inv@ == auto_comps(s_in, fa),
                    best matches Some(b) ==> auto_candidate(s_in, fa, b.3) && (b.0, b.1, b.2) == auto_rank(
                        s_in,
                        fa,
                        s_in.recipes[b.3],
                    ) && Some(b.4@) == offer_lots(auto_lots(s_in, fa), s_in.recipes[b.3].inputs@) && Some(b.5@)
                        == offer_comps(auto_comps(s_in, fa), s_in.recipes[b.3].component_inputs@) && forall|x: int|
                        0 <= x < ri && #[trigger] auto_candidate(s_in, fa, self.recipes.keys()[x]) ==> !ranks_above(
                            auto_rank(s_in, fa, s_in.recipes[self.recipes.keys()[x]]),
                            (b.0, b.1, b.2),
                        ) && (auto_rank(s_in, fa, s_in.recipes[self.recipes.keys()[x]]) == (b.0, b.1, b.2) ==> b.3
                            <= self.recipes.keys()[x]),
                    best is None ==> forall|x: int| 0 <= x < ri ==> !#[trigger] auto_candidate(s_in, fa, self.recipes.keys()[x]),
                decreases rn - ri,
            {
                let rid = self.recipes.key_at(ri);
                let recipe = self.recipes.val_at(ri);
                proof {
                    self.recipes.lemma_facts();
                }
                let ghost xi = ri as int;
                proof {
                    assert(rid == self.recipes.keys()[xi] && *recipe == s_in.recipes[rid]);
                }
                ri = ri + 1;
                let tool_ok = match recipe.required_tooling_design {
                    None => true,
                    Some(d) => match tooling_design {
                        Some(t) => t.0 == d.0,
                        None => false,
                    },
                };
                proof {
                    assert(tool_ok == tooling_fits(s_in, fa, s_in.recipes[rid]));
                }
                if !tool_ok {
                    proof {
                        assert(!auto_candidate(s_in, fa, self.recipes.keys()[xi]));
                    }
                    continue;
                }
                let offer = recipe_offer_from_inventory(recipe, &lots_inv, &comps_inv);
                match offer {
                    None => {
                        proof {
                            assert(!auto_candidate(s_in, fa, self.recipes.keys()[xi]));
                        }
                    },
                    Some((lots, comps)) => {
                        let rank: (bool, u8, u64) = (
                            recipe.required_tooling_design.is_some(),
                            self.tier_rank(recipe.outputs),
                            backlog_of(&recipe.inputs, &lots_inv),
                        );
                        let better = match &best {
                            None => true,
                            Some(b) => ranks_above_exec(rank, (b.0, b.1, b.2)) || ((rank.0 == b.0 && rank.1 == b.1
                                && rank.2 == b.2) && rid < b.3),
                        };
                        proof {
                            assert(rank == auto_rank(s_in, fa, s_in.recipes[rid]));
                            assert(auto_candidate(s_in, fa, rid));
                        }
                        if better {
                            best = Some((rank.0, rank.1, rank.2, rid, lots, comps));
                        }
                    },
                }
            }
            proof {
                self.recipes.lemma_facts();
            }
            match best {
                None => {
                    proof {
                        lemma_auto_skip(v, self@, fkeys@, fi as int);
                        assert forall|r: u64| !auto_candidate(s_in, fa, r) by {
                            if auto_candidate(s_in, fa, r) {
                                assert(self.recipes.keys().contains(r));
                                let x = choose|x: int| 0 <= x < rn && self.recipes.keys()[x] == r;
                                assert(!auto_candidate(s_in, fa, self.recipes.keys()[x]));
                            }
                        }
                        assert(auto_turn(s_in, self@, fa));
                        fs = lemma_auto_push(fs_in, s_in, self@, fkeys@, (fi - 1) as int);
                    }
                },
                Some((b0, b1, b2, rid, lots, comps)) => {
                    proof {
                        assert forall|r: u64| #[trigger] auto_pick(s_in, fa, r) implies r == rid by {
                            assert(self.recipes.keys().contains(r));
                            let x = choose|x: int| 0 <= x < rn && self.recipes.keys()[x] == r;
                            assert(auto_candidate(s_in, fa, self.recipes.keys()[x]));
                            assert(auto_candidate(s_in, fa, rid));
                            lemma_rank_total(auto_rank(s_in, fa, s_in.recipes[r]), (b0, b1, b2));
                        }
                    }
                    let (n_inputs, duration) = match self.recipes.get(rid) {
                        Some(rc) => (rc.inputs.len(), rc.duration_days),
                        None => (0, 0),
                    };
                    if lots.len() > 0xFFFF_FFFF || n_inputs > 0xFFFF_FFFF {
                        proof {
                            lemma_auto_skip(v, self@, fkeys@, fi as int);
                            assert(auto_turn(s_in, self@, fa));
                            fs = lemma_auto_push(fs_in, s_in, self@, fkeys@, (fi - 1) as int);
                        }
                        continue;
                    }
                    let lo: u128 = lots.len() as u128;
                    let li: u128 = n_inputs as u128;
                    proof {
                        assert(lo * li <= 0xFFFF_FFFF * 0xFFFF_FFFF) by (nonlinear_arith)
                            requires
                                lo <= 0xFFFF_FFFF,
                                li <= 0xFFFF_FFFF,
                        ;
                    }
                    let cost: u128 = 2 + 4 * (lo * li);
                    if (self.next_id as u128) + cost > u64::MAX as u128 || self.clock.day > u64::MAX - duration {
                        proof {
                            lemma_auto_skip(v, self@, fkeys@, fi as int);
                            assert(auto_turn(s_in, self@, fa));
                            fs = lemma_auto_push(fs_in, s_in, self@, fkeys@, (fi - 1) as int);
                        }
                        continue;
                    }
                    let ghost s0 = self@;
                    proof {
                        assert(4 * lots@.len() * s0.recipes[rid].inputs@.len() == 4 * (lo * li)) by (nonlinear_arith)
                            requires
                                lo == lots@.len(),
                                li == s0.recipes[rid].inputs@.len(),
                        ;
                    }
                    let started = self.start_production(FactoryId(fid), RecipeId(rid), lots.as_slice(), comps.as_slice());
                    proof {
                        crate::world::lemma_phase_trans(old(self)@, s0, self@);
                        lemma_auto_start(v, s0, self@, fkeys@, fi as int, rid);
                        if auto_pick(s_in, fa, rid) && factory_ready(s_in, fa) && auto_start_ok(s_in, fa, rid) {
                            assert(started is Ok);
                            let j = started->Ok_0;
                            assert(self@.production_jobs.dom().contains(j.0) && !s_in.production_jobs.dom().contains(j.0));
                            assert(self@.production_jobs[j.0].factory == fa && self@.production_jobs[j.0].recipe == RecipeId(rid));
                        }
                        assert(auto_turn(s_in, self@, fa));
                        fs = lemma_auto_push(fs_in, s_in, self@, fkeys@, (fi - 1) as int);
                    }
                },
            }
        }
        proof {
            assert(auto_ran(old(self)@, self@, fs));
        }
    }
}

} // verus!
