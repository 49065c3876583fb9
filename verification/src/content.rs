//! Reusable content-authoring helpers.
//!
//! Everything here is generic simulation machinery: no material names, tier
//! counts or quantities are fixed. A consumer supplies its own names, tier
//! count and quantities through a spec struct and gets back the real typed
//! ids the generator created.
//!
//! `World::generate_tiered_material_chain` builds one raw-material ->
//! tiered-refining -> tiered-component pipeline per call.

use crate::actors::Credits;
use crate::assets::ComponentCategory;
use crate::goods::UnitOfMeasure;
use crate::ids::{ComponentDefId, CommodityId, RecipeId};
use crate::production::{ComponentRequirement, RecipeOutputs};
use crate::world::{World, WorldView};
use vstd::prelude::*;

verus! {

/// Caller-supplied description of one tiered material chain.
#[derive(Debug, Clone)]
pub struct TieredChainSpec {
    /// Used to name the generated commodities and components.
    pub material_name: String,
    /// One name per tier, lowest tier first. Its length decides how many
    /// tiers the chain has.
    pub tier_names: Vec<String>,
    pub unit: UnitOfMeasure,
    pub base_price: Credits,
    pub component_category: ComponentCategory,
    /// Commodity consumed per refining step.
    pub refine_input_qty: u64,
    /// Refined commodity produced per refining step (a real yield loss when
    /// less than the input quantity).
    pub refine_output_qty: u64,
    pub refine_duration_days: u64,
    /// Commodity consumed to convert one tier's material into one component
    /// of that same tier.
    pub convert_input_qty: u64,
    pub convert_duration_days: u64,
}

/// The real ids the generator created, one entry per tier
/// (`refine_recipes` has one fewer, since it links tier `i` to `i + 1`).
#[derive(Debug, Clone)]
pub struct TieredChainHandles {
    pub commodities: Vec<CommodityId>,
    pub refine_recipes: Vec<RecipeId>,
    pub component_defs: Vec<ComponentDefId>,
    pub convert_recipes: Vec<RecipeId>,
}

/// The tier number of the tier at index `i` (one-based, as a byte).
pub open spec fn tier_at(i: int) -> u8 {
    (i + 1) as u8
}

/// The commodity the chain defines for tier `i`.
pub open spec fn chain_commodity_ok(w: WorldView, spec: TieredChainSpec, id: CommodityId, i: int) -> bool {
    &&& w.commodities.dom().contains(id.0)
    &&& w.commodities[id.0].id == id
    &&& w.commodities[id.0].name@ == spec.tier_names@[i]@ + " "@ + spec.material_name@
    &&& w.commodities[id.0].unit == spec.unit
    &&& w.commodities[id.0].tier == tier_at(i)
    &&& w.commodities[id.0].base_price == spec.base_price
}

/// The component definition the chain defines for tier `i`.
pub open spec fn chain_def_ok(w: WorldView, spec: TieredChainSpec, id: ComponentDefId, i: int) -> bool {
    &&& w.component_defs.dom().contains(id.0)
    &&& w.component_defs[id.0].id == id
    &&& w.component_defs[id.0].name@ == spec.tier_names@[i]@ + " "@ + spec.material_name@ + " Component"@
    &&& w.component_defs[id.0].tier == tier_at(i)
    &&& w.component_defs[id.0].category == spec.component_category
}

/// The recipe converting tier `i`'s material into one tier-`i` component.
pub open spec fn chain_convert_ok(
    w: WorldView,
    spec: TieredChainSpec,
    id: RecipeId,
    commodity: CommodityId,
    def: ComponentDefId,
    i: int,
) -> bool {
    &&& w.recipes.dom().contains(id.0)
    &&& w.recipes[id.0].id == id
    &&& w.recipes[id.0].name@ == "Convert "@ + spec.tier_names@[i]@ + " "@ + spec.material_name@ + " to Component"@
    &&& w.recipes[id.0].inputs@ == seq![(commodity, spec.convert_input_qty)]
    &&& w.recipes[id.0].component_inputs@.len() == 0
    &&& w.recipes[id.0].outputs == RecipeOutputs::Components { def, count: 1 }
    &&& w.recipes[id.0].duration_days == if spec.convert_duration_days >= 1 {
        spec.convert_duration_days
    } else {
        1
    }
    &&& w.recipes[id.0].required_tooling_design is None
}

/// The recipe refining tier `i`'s material into tier `i + 1`'s.
pub open spec fn chain_refine_ok(
    w: WorldView,
    spec: TieredChainSpec,
    id: RecipeId,
    from: CommodityId,
    to: CommodityId,
    i: int,
) -> bool {
    &&& w.recipes.dom().contains(id.0)
    &&& w.recipes[id.0].id == id
    &&& w.recipes[id.0].name@ == "Refine "@ + spec.tier_names@[i]@ + " "@ + spec.material_name@ + " to "@
        + spec.tier_names@[i + 1]@ + " "@ + spec.material_name@
    &&& w.recipes[id.0].inputs@ == seq![(from, spec.refine_input_qty)]
    &&& w.recipes[id.0].component_inputs@.len() == 0
    &&& w.recipes[id.0].outputs == RecipeOutputs::Commodity { commodity: to, quantity: spec.refine_output_qty }
    &&& w.recipes[id.0].duration_days == if spec.refine_duration_days >= 1 {
        spec.refine_duration_days
    } else {
        1
    }
    &&& w.recipes[id.0].required_tooling_design is None
}

impl World {
    fn chain_commodities(&mut self, spec: &TieredChainSpec) -> (r: Vec<CommodityId>)
        requires
            old(self).wf(),
            old(self)@.next_id + 2 * spec.tier_names@.len() <= u64::MAX,
        ensures
            final(self).wf(),
            crate::world::phase_ok(old(self)@, final(self)@),
            crate::combat::money_untouched(final(self)@, old(self)@),
            final(self)@.next_id == old(self)@.next_id + 2 * spec.tier_names@.len(),
            final(self)@.component_defs == old(self)@.component_defs,
            final(self)@.recipes == old(self)@.recipes,
            old(self)@.commodities.dom().subset_of(final(self)@.commodities.dom()),
            r@.len() == spec.tier_names@.len(),
            forall|j: int|
                0 <= j < r@.len() ==> #[trigger] r@[j].0 == old(self)@.next_id + 2 * j && chain_commodity_ok(
                    final(self)@,
                    *spec,
                    r@[j],
                    j,
                ),
            crate::invariants::consistent(old(self)@) ==> crate::invariants::consistent(final(self)@),
    {
        let mut out: Vec<CommodityId> = Vec::new();
        let mut i: usize = 0;
        while i < spec.tier_names.len()
            invariant
                self.wf(),
                i <= spec.tier_names@.len(),
                old(self)@.next_id + 2 * spec.tier_names@.len() <= u64::MAX,
                self@.next_id == old(self)@.next_id + 2 * i,
                crate::world::phase_ok(old(self)@, self@),
                crate::combat::money_untouched(self@, old(self)@),
                self@.component_defs == old(self)@.component_defs,
                self@.recipes == old(self)@.recipes,
                old(self)@.commodities.dom().subset_of(self@.commodities.dom()),
                out@.len() == i,
                forall|j: int|
                    0 <= j < i ==> #[trigger] out@[j].0 == old(self)@.next_id + 2 * j && chain_commodity_ok(
                        self@,
                        *spec,
                        out@[j],
                        j,
                    ),
                crate::invariants::consistent(old(self)@) ==> crate::invariants::consistent(self@),
            decreases spec.tier_names@.len() - i,
        {
            let name = spec.tier_names[i].clone().concat(" ").concat(spec.material_name.as_str());
            let ghost s0 = self@;
            let id = self.define_commodity(name.as_str(), spec.unit, (i + 1) as u8, spec.base_price);
            proof {
                crate::world::lemma_log_extends_log(
                    WorldView {
                        commodities: self@.commodities,
                        ..s0.bump()
                    },
                    crate::events::EventKind::CommodityDefined { commodity: id },
                );
                crate::world::lemma_phase_trans(old(self)@, s0, self@);
            }
            out.push(id);
            i = i + 1;
        }
        out
    }
}

impl World {
    fn chain_defs(&mut self, spec: &TieredChainSpec) -> (r: Vec<ComponentDefId>)
        requires
            old(self).wf(),
            old(self)@.next_id + 2 * spec.tier_names@.len() <= u64::MAX,
        ensures
            final(self).wf(),
            crate::world::phase_ok(old(self)@, final(self)@),
            crate::combat::money_untouched(final(self)@, old(self)@),
            final(self)@.next_id == old(self)@.next_id + 2 * spec.tier_names@.len(),
            final(self)@.commodities == old(self)@.commodities,
            final(self)@.recipes == old(self)@.recipes,
            r@.len() == spec.tier_names@.len(),
            forall|j: int|
                0 <= j < r@.len() ==> #[trigger] r@[j].0 == old(self)@.next_id + 2 * j && chain_def_ok(
                    final(self)@,
                    *spec,
                    r@[j],
                    j,
                ),
            crate::invariants::consistent(old(self)@) ==> crate::invariants::consistent(final(self)@),
    {
        let mut out: Vec<ComponentDefId> = Vec::new();
        let mut i: usize = 0;
        while i < spec.tier_names.len()
            invariant
                self.wf(),
                i <= spec.tier_names@.len(),
                old(self)@.next_id + 2 * spec.tier_names@.len() <= u64::MAX,
                self@.next_id == old(self)@.next_id + 2 * i,
                crate::world::phase_ok(old(self)@, self@),
                crate::combat::money_untouched(self@, old(self)@),
                self@.commodities == old(self)@.commodities,
                self@.recipes == old(self)@.recipes,
                out@.len() == i,
                forall|j: int|
                    0 <= j < i ==> #[trigger] out@[j].0 == old(self)@.next_id + 2 * j && chain_def_ok(
                        self@,
                        *spec,
                        out@[j],
                        j,
                    ),
                crate::invariants::consistent(old(self)@) ==> crate::invariants::consistent(self@),
            decreases spec.tier_names@.len() - i,
        {
            let name = spec.tier_names[i].clone().concat(" ").concat(spec.material_name.as_str()).concat(" Component");
            let ghost s0 = self@;
            let id = self.define_component_def(name.as_str(), (i + 1) as u8, spec.component_category);
            proof {
                crate::world::lemma_log_extends_log(
                    WorldView {
                        component_defs: self@.component_defs,
                        ..s0.bump()
                    },
                    crate::events::EventKind::ComponentDefDefined { def: id },
                );
                crate::world::lemma_phase_trans(old(self)@, s0, self@);
            }
            out.push(id);
            i = i + 1;
        }
        out
    }

    fn chain_converts(
        &mut self,
        spec: &TieredChainSpec,
        commodities: &Vec<CommodityId>,
        defs: &Vec<ComponentDefId>,
    ) -> (r: Vec<RecipeId>)
        requires
            old(self).wf(),
            old(self)@.next_id + 2 * spec.tier_names@.len() <= u64::MAX,
            commodities@.len() == spec.tier_names@.len(),
            defs@.len() == spec.tier_names@.len(),
        ensures
            final(self).wf(),
            crate::world::phase_ok(old(self)@, final(self)@),
            crate::combat::money_untouched(final(self)@, old(self)@),
            final(self)@.next_id == old(self)@.next_id + 2 * spec.tier_names@.len(),
            final(self)@.commodities == old(self)@.commodities,
            final(self)@.component_defs == old(self)@.component_defs,
            forall|k: u64| #[trigger] old(self)@.recipes.dom().contains(k) ==> final(self)@.recipes.dom().contains(k)
                && final(self)@.recipes[k] == old(self)@.recipes[k],
            r@.len() == spec.tier_names@.len(),
            forall|j: int|
                0 <= j < r@.len() ==> #[trigger] r@[j].0 == old(self)@.next_id + 2 * j && chain_convert_ok(
                    final(self)@,
                    *spec,
                    r@[j],
                    commodities@[j],
                    defs@[j],
                    j,
                ),
            crate::invariants::consistent(old(self)@) ==> crate::invariants::consistent(final(self)@),
    {
        let mut out: Vec<RecipeId> = Vec::new();
        let mut i: usize = 0;
        while i < spec.tier_names.len()
            invariant
                self.wf(),
                i <= spec.tier_names@.len(),
                commodities@.len() == spec.tier_names@.len(),
                defs@.len() == spec.tier_names@.len(),
                old(self)@.next_id + 2 * spec.tier_names@.len() <= u64::MAX,
                self@.next_id == old(self)@.next_id + 2 * i,
                crate::world::phase_ok(old(self)@, self@),
                crate::combat::money_untouched(self@, old(self)@),
                self@.commodities == old(self)@.commodities,
                self@.component_defs == old(self)@.component_defs,
                forall|k: u64| #[trigger] old(self)@.recipes.dom().contains(k) ==> self@.recipes.dom().contains(k)
                    && self@.recipes[k] == old(self)@.recipes[k],
                out@.len() == i,
                forall|j: int|
                    0 <= j < i ==> #[trigger] out@[j].0 == old(self)@.next_id + 2 * j && chain_convert_ok(
                        self@,
                        *spec,
                        out@[j],
                        commodities@[j],
                        defs@[j],
                        j,
                    ),
                crate::invariants::consistent(old(self)@) ==> crate::invariants::consistent(self@),
            decreases spec.tier_names@.len() - i,
        {
            let name = "Convert ".to_owned().concat(spec.tier_names[i].as_str()).concat(" ").concat(
                spec.material_name.as_str(),
            ).concat(" to Component");
            let ghost s0 = self@;
            proof {
                assert(!s0.recipes.dom().contains(s0.next_id));
            }
            let id = self.define_recipe(
                name.as_str(),
                vec![(commodities[i], spec.convert_input_qty)],
                Vec::new(),
                RecipeOutputs::Components { def: defs[i], count: 1 },
                spec.convert_duration_days,
                None,
            );
            proof {
                crate::world::lemma_log_extends_log(
                    WorldView {
                        recipes: self@.recipes,
                        ..s0.bump()
                    },
                    crate::events::EventKind::RecipeDefined { recipe: id },
                );
                crate::world::lemma_phase_trans(old(self)@, s0, self@);
                let rc = self@.recipes[id.0];
                assert(rc.id == id);
                assert(rc.inputs@ == seq![(commodities@[i as int], spec.convert_input_qty)]);
                assert(rc.component_inputs@.len() == 0);
                assert(rc.name@ == "Convert "@ + spec.tier_names@[i as int]@ + " "@ + spec.material_name@ + " to Component"@);
                assert(chain_convert_ok(self@, *spec, id, commodities@[i as int], defs@[i as int], i as int));
            }
            out.push(id);
            i = i + 1;
        }
        out
    }

    fn chain_refines(&mut self, spec: &TieredChainSpec, commodities: &Vec<CommodityId>) -> (r: Vec<RecipeId>)
        requires
            old(self).wf(),
            old(self)@.next_id + 2 * spec.tier_names@.len() <= u64::MAX,
            commodities@.len() == spec.tier_names@.len(),
        ensures
            final(self).wf(),
            crate::world::phase_ok(old(self)@, final(self)@),
            crate::combat::money_untouched(final(self)@, old(self)@),
            final(self)@.next_id == old(self)@.next_id + 2 * r@.len(),
            final(self)@.commodities == old(self)@.commodities,
            final(self)@.component_defs == old(self)@.component_defs,
            forall|k: u64| #[trigger] old(self)@.recipes.dom().contains(k) ==> final(self)@.recipes.dom().contains(k)
                && final(self)@.recipes[k] == old(self)@.recipes[k],
            r@.len() == if spec.tier_names@.len() > 0 {
                spec.tier_names@.len() - 1
            } else {
                0
            },
            forall|j: int|
                0 <= j < r@.len() ==> #[trigger] r@[j].0 == old(self)@.next_id + 2 * j && chain_refine_ok(
                    final(self)@,
                    *spec,
                    r@[j],
                    commodities@[j],
                    commodities@[j + 1],
                    j,
                ),
            crate::invariants::consistent(old(self)@) ==> crate::invariants::consistent(final(self)@),
    {
        let mut out: Vec<RecipeId> = Vec::new();
        let steps: usize = if spec.tier_names.len() > 0 {
            spec.tier_names.len() - 1
        } else {
            0
        };
        let mut i: usize = 0;
        while i < steps
            invariant
                self.wf(),
                i <= steps,
                steps == if spec.tier_names@.len() > 0 {
                    spec.tier_names@.len() - 1
                } else {
                    0
                },
                commodities@.len() == spec.tier_names@.len(),
                old(self)@.next_id + 2 * spec.tier_names@.len() <= u64::MAX,
                self@.next_id == old(self)@.next_id + 2 * i,
                crate::world::phase_ok(old(self)@, self@),
                crate::combat::money_untouched(self@, old(self)@),
                self@.commodities == old(self)@.commodities,
                self@.component_defs == old(self)@.component_defs,
                forall|k: u64| #[trigger] old(self)@.recipes.dom().contains(k) ==> self@.recipes.dom().contains(k)
                    && self@.recipes[k] == old(self)@.recipes[k],
                out@.len() == i,
                forall|j: int|
                    0 <= j < i ==> #[trigger] out@[j].0 == old(self)@.next_id + 2 * j && chain_refine_ok(
                        self@,
                        *spec,
                        out@[j],
                        commodities@[j],
                        commodities@[j + 1],
                        j,
                    ),
                crate::invariants::consistent(old(self)@) ==> crate::invariants::consistent(self@),
            decreases steps - i,
        {
            let name = "Refine ".to_owned().concat(spec.tier_names[i].as_str()).concat(" ").concat(
                spec.material_name.as_str(),
            ).concat(" to ").concat(spec.tier_names[i + 1].as_str()).concat(" ").concat(spec.material_name.as_str());
            let ghost s0 = self@;
            proof {
                assert(!s0.recipes.dom().contains(s0.next_id));
            }
            let id = self.define_recipe(
                name.as_str(),
                vec![(commodities[i], spec.refine_input_qty)],
                Vec::new(),
                RecipeOutputs::Commodity { commodity: commodities[i + 1], quantity: spec.refine_output_qty },
                spec.refine_duration_days,
                None,
            );
            proof {
                crate::world::lemma_log_extends_log(
                    WorldView {
                        recipes: self@.recipes,
                        ..s0.bump()
                    },
                    crate::events::EventKind::RecipeDefined { recipe: id },
                );
                crate::world::lemma_phase_trans(old(self)@, s0, self@);
                let rc = self@.recipes[id.0];
                assert(rc.inputs@ == seq![(commodities@[i as int], spec.refine_input_qty)]);
                assert(rc.component_inputs@.len() == 0);
                assert(chain_refine_ok(self@, *spec, id, commodities@[i as int], commodities@[i + 1], i as int));
            }
            out.push(id);
            i = i + 1;
        }
        out
    }
}

impl World {
    /// Build a full N-tier raw-material-to-component chain from a spec: one
    /// commodity, one component definition and one "convert to component"
    /// recipe per tier, plus a "refine to the next tier" recipe between each
    /// consecutive pair. Ids come out in that order.
    pub fn generate_tiered_material_chain(&mut self, spec: &TieredChainSpec) -> (h: TieredChainHandles)
        requires
            old(self).wf(),
            old(self)@.next_id + 8 * spec.tier_names@.len() <= u64::MAX,
        ensures
            final(self).wf(),
            crate::world::phase_ok(old(self)@, final(self)@),
            crate::combat::money_untouched(final(self)@, old(self)@),
            final(self)@.next_id <= old(self)@.next_id + 8 * spec.tier_names@.len(),
            old(self)@.commodities.dom().subset_of(final(self)@.commodities.dom()),
            ({
                let base = old(self)@.next_id;
                let t = spec.tier_names@.len() as int;
                let w = final(self)@;
                &&& h.commodities@.len() == t
                &&& h.component_defs@.len() == t
                &&& h.convert_recipes@.len() == t
                &&& h.refine_recipes@.len() == if t > 0 {
                    t - 1
                } else {
                    0
                }
                &&& forall|j: int|
                    0 <= j < t ==> #[trigger] h.commodities@[j].0 == base + 2 * j && chain_commodity_ok(
                        w,
                        *spec,
                        h.commodities@[j],
                        j,
                    )
                &&& forall|j: int|
                    0 <= j < t ==> #[trigger] h.component_defs@[j].0 == base + 2 * t + 2 * j && chain_def_ok(
                        w,
                        *spec,
                        h.component_defs@[j],
                        j,
                    )
                &&& forall|j: int|
                    0 <= j < t ==> #[trigger] h.convert_recipes@[j].0 == base + 4 * t + 2 * j && chain_convert_ok(
                        w,
                        *spec,
                        h.convert_recipes@[j],
                        h.commodities@[j],
                        h.component_defs@[j],
                        j,
                    )
                &&& forall|j: int|
                    0 <= j < t - 1 ==> #[trigger] h.refine_recipes@[j].0 == base + 6 * t + 2 * j && chain_refine_ok(
                        w,
                        *spec,
                        h.refine_recipes@[j],
                        h.commodities@[j],
                        h.commodities@[j + 1],
                        j,
                    )
            }),
            crate::invariants::consistent(old(self)@) ==> crate::invariants::consistent(final(self)@),
    {
        let ghost s0 = self@;
        let commodities = self.chain_commodities(spec);
        let ghost s1 = self@;
        let component_defs = self.chain_defs(spec);
        let ghost s2 = self@;
        let convert_recipes = self.chain_converts(spec, &commodities, &component_defs);
        let ghost s3 = self@;
        let refine_recipes = self.chain_refines(spec, &commodities);
        proof {
            crate::world::lemma_phase_trans(s0, s1, s2);
            crate::world::lemma_phase_trans(s0, s2, s3);
            crate::world::lemma_phase_trans(s0, s3, self@);
            let t = spec.tier_names@.len() as int;
            assert forall|j: int| 0 <= j < t implies #[trigger] chain_convert_ok(
                self@,
                *spec,
                convert_recipes@[j],
                commodities@[j],
                component_defs@[j],
                j,
            ) by {
                assert(chain_convert_ok(s3, *spec, convert_recipes@[j], commodities@[j], component_defs@[j], j));
                assert(s3.recipes.dom().contains(convert_recipes@[j].0));
            }
            assert forall|j: int| 0 <= j < t implies #[trigger] chain_commodity_ok(self@, *spec, commodities@[j], j) by {
                assert(chain_commodity_ok(s1, *spec, commodities@[j], j));
            }
            assert forall|j: int| 0 <= j < t implies #[trigger] chain_def_ok(self@, *spec, component_defs@[j], j) by {
                assert(chain_def_ok(s2, *spec, component_defs@[j], j));
            }
        }
        TieredChainHandles { commodities, refine_recipes, component_defs, convert_recipes }
    }
}

impl TieredChainHandles {
    /// A requirement accepting any tier of this chain's components: the
    /// shape a final assembly recipe uses so it works whichever tier the
    /// input material actually reached.
    pub fn any_tier_requirement(&self, count: u32) -> (r: ComponentRequirement)
        ensures
            r.accepts@ == self.component_defs@,
            r.count == count,
    {
        ComponentRequirement { accepts: crate::table::copy_slice(self.component_defs.as_slice()), count }
    }
}

} // verus!
