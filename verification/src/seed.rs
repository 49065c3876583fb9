//! Data-driven world seeding: a game's faction content (names, doctrine,
//! materials, TO&E) is data, not code. This module turns an already parsed
//! seed description into a real world through the same public builder API
//! any other consumer uses: every actor, location, design, component,
//! factory, mine and TO&E goal goes through it; nothing is spawned outside.

use crate::actors::{ActorKind, Credits};
use crate::assets::{has_category, AssetKind, AssetOrigin, ComponentCategory, ComponentSlot};
use crate::content::{TieredChainHandles, TieredChainSpec};
use crate::goods::{QualityGrade, UnitOfMeasure};
use crate::ids::{ActorId, CommodityId, ComponentDefId, DesignId, FactoryId, LocationId, ToeTemplateId};
use crate::locations::{LocationKind, MineReserves};
use crate::production::{ComponentRequirement, RecipeOutputs};
use crate::invariants::kept;
use crate::toe::{FormationState, ToeSlot};
use crate::world::{World, WorldView};
use vstd::prelude::*;

verus! {

#[derive(Debug)]
pub struct WorldSeedFile {
    pub seed: u64,
    /// The shared tier-name ladder every material chain is built against.
    pub tier_names: Vec<String>,
    /// The raw materials factions mine and refine; one mech component slot
    /// each.
    pub materials: Vec<MaterialSeed>,
    pub designs: Vec<DesignSeed>,
    pub locations: Vec<LocationSeed>,
    pub routes: Vec<RouteSeed>,
    pub factions: Vec<FactionSeed>,
    pub economy: EconomySeed,
}

#[derive(Debug)]
pub struct MaterialSeed {
    pub key: String,
    pub material_name: String,
    /// The mech slot this material's components fill.
    pub component_role: String,
}

#[derive(Debug)]
pub struct SlotSeed {
    pub name: String,
    pub component_def_key: String,
}

/// A hand-authored, non-tiered design (e.g. a vehicle).
#[derive(Debug)]
pub struct DesignSeed {
    pub key: String,
    pub name: String,
    pub kind: AssetKind,
    pub cargo_capacity_kg: Option<u64>,
    pub slots: Vec<SlotSeed>,
}

#[derive(Debug)]
pub struct LocationSeed {
    pub key: String,
    pub name: String,
    pub kind: LocationKind,
    pub position: (i64, i64),
    pub controller_key: Option<String>,
    pub mine_reserves: Option<MineReserves>,
    /// If set, this location also yields the named material's raw (first
    /// tier) commodity every day.
    pub yields_material_key: Option<String>,
    pub yield_quantity_per_day: Option<u64>,
}

#[derive(Debug)]
pub struct RouteSeed {
    pub from_key: String,
    pub to_key: String,
    pub distance_days: u64,
}

#[derive(Debug)]
pub struct ToeSlotSeed {
    pub role: String,
    /// A key from `designs`, or `universal_mech` for the generated mech
    /// design every faction assembles from its own materials.
    pub design_key: String,
    pub count: u32,
}

#[derive(Debug)]
pub struct FactionSeed {
    pub key: String,
    pub name: String,
    pub kind: ActorKind,
    pub starting_treasury: Credits,
    pub doctrine: String,
    pub home_location_key: String,
    pub population: u64,
    pub tax_rate_per_capita: Credits,
    pub toe: Vec<ToeSlotSeed>,
}

/// Tuning shared by every faction's generated economy.
#[derive(Debug)]
pub struct EconomySeed {
    pub mine_starting_reserve: u64,
    pub mine_yield_per_day: u64,
    pub refineries_per_faction: u32,
    pub refine_input_qty: u64,
    pub refine_output_qty: u64,
    pub refine_duration_days: u64,
    pub convert_input_qty: u64,
    pub convert_duration_days: u64,
    pub assembly_duration_days: u64,
}

/// `k` is the key of one of the seed's materials.
pub open spec fn is_material_key(seed: &WorldSeedFile, k: Seq<char>) -> bool {
    exists|i: int| 0 <= i < seed.materials@.len() && (#[trigger] seed.materials@[i]).key@ == k
}

/// `k` is the key of one of the seed's locations.
pub open spec fn is_location_key(seed: &WorldSeedFile, k: Seq<char>) -> bool {
    exists|i: int| 0 <= i < seed.locations@.len() && (#[trigger] seed.locations@[i]).key@ == k
}

/// `k` is the key of one of the seed's factions.
pub open spec fn is_faction_key(seed: &WorldSeedFile, k: Seq<char>) -> bool {
    exists|i: int| 0 <= i < seed.factions@.len() && (#[trigger] seed.factions@[i]).key@ == k
}

/// `k` names a design: the generated mech design, or a hand-authored one.
pub open spec fn is_design_key(seed: &WorldSeedFile, k: Seq<char>) -> bool {
    ||| k == "universal_mech"@
    ||| exists|i: int| 0 <= i < seed.designs@.len() && (#[trigger] seed.designs@[i]).key@ == k
}

/// Every slot of a hand-authored design names a material.
pub open spec fn design_slots_resolve(seed: &WorldSeedFile) -> bool {
    forall|d: int, j: int|
        0 <= d < seed.designs@.len() && 0 <= j < seed.designs@[d].slots@.len() ==> is_material_key(
            seed,
            (#[trigger] seed.designs@[d].slots@[j]).component_def_key@,
        )
}

/// Every bonus yield of a location names a material.
pub open spec fn yields_resolve(seed: &WorldSeedFile) -> bool {
    forall|l: int|
        0 <= l < seed.locations@.len() ==> ((#[trigger] seed.locations@[l]).yields_material_key matches Some(k)
            ==> is_material_key(seed, k@))
}

/// Both ends of every route name locations.
pub open spec fn routes_resolve(seed: &WorldSeedFile) -> bool {
    forall|r: int|
        0 <= r < seed.routes@.len() ==> is_location_key(seed, (#[trigger] seed.routes@[r]).from_key@)
            && is_location_key(seed, seed.routes@[r].to_key@)
}

/// Every location's controller names a faction.
pub open spec fn controllers_resolve(seed: &WorldSeedFile) -> bool {
    forall|l: int|
        0 <= l < seed.locations@.len() ==> ((#[trigger] seed.locations@[l]).controller_key matches Some(k)
            ==> is_faction_key(seed, k@))
}

/// A faction's home names a location and each of its TO&E slots a design.
pub open spec fn faction_resolves(seed: &WorldSeedFile, f: &FactionSeed) -> bool {
    &&& is_location_key(seed, f.home_location_key@)
    &&& forall|t: int| 0 <= t < f.toe@.len() ==> is_design_key(seed, (#[trigger] f.toe@[t]).design_key@)
}

/// Every key the seed refers to names something the seed defines.
pub open spec fn keys_resolve(seed: &WorldSeedFile) -> bool {
    &&& design_slots_resolve(seed)
    &&& yields_resolve(seed)
    &&& routes_resolve(seed)
    &&& controllers_resolve(seed)
    &&& forall|f: int| 0 <= f < seed.factions@.len() ==> faction_resolves(seed, #[trigger] &seed.factions@[f])
}

/// `"text"`: a key or name quoted inside a message.
fn quoted(s: &str) -> (r: String)
    ensures
        r@ == "\""@ + s@ + "\""@,
{
    "\"".to_owned().concat(s).concat("\"")
}

/// A message about a seed entry: `what "key": detail`.
fn about(what: &str, key: &str, detail: &str) -> (r: String)
    ensures
        r@ == what@ + " "@ + ("\""@ + key@ + "\""@) + ": "@ + detail@,
{
    what.to_owned().concat(" ").concat(quoted(key).as_str()).concat(": ").concat(detail)
}

/// The message when the id counter cannot take what the seed asks for.
fn exhausted() -> (r: String)
    ensures
        r@ == "the world has run out of ids"@,
{
    "the world has run out of ids".to_owned()
}

/// Whether `n` more ids can still be allocated.
fn room(w: &World, n: u64) -> (b: bool)
    ensures
        b == w@.has_room(n as int),
{
    w.next_id <= u64::MAX - n
}

/// Whether a formation can still be assembled (it may allocate one id per
/// asset it looks at).
fn room_to_assemble(w: &World) -> (b: bool)
    requires
        w.wf(),
    ensures
        b == w@.has_room(2 + w.asset_keys().len() as int),
{
    (w.next_id as u128) + 2 + (w.assets.len() as u128) <= u64::MAX as u128
}

/// `i` is the last index of `keys` under `key`.
pub open spec fn last_key(keys: Seq<String>, key: Seq<char>, i: int) -> bool {
    &&& 0 <= i < keys.len()
    &&& keys[i]@ == key
    &&& forall|j: int| i < j < keys.len() ==> keys[j]@ != key
}

/// The index of the last entry under `key`, if any (later entries shadow
/// earlier ones with the same key).
fn find_key(keys: &Vec<String>, key: &String) -> (r: Option<usize>)
    ensures
        match r {
            Some(i) => i < keys@.len() && keys@[i as int]@ == key@ && forall|j: int|
                i < j < keys@.len() ==> keys@[j]@ != key@,
            None => forall|i: int| 0 <= i < keys@.len() ==> keys@[i]@ != key@,
        },
{
    let mut i: usize = keys.len();
    while i > 0
        invariant
            i <= keys@.len(),
            forall|j: int| i <= j < keys@.len() ==> keys@[j]@ != key@,
        decreases i,
    {
        i = i - 1;
        if keys[i] == *key {
            return Some(i);
        }
    }
    None
}

/// The seed's material keys, in order.
fn material_keys(seed: &WorldSeedFile) -> (r: Vec<String>)
    ensures
        r@.len() == seed.materials@.len(),
        forall|i: int| 0 <= i < r@.len() ==> (#[trigger] r@[i])@ == seed.materials@[i].key@,
{
    let mut keys: Vec<String> = Vec::new();
    let mut i: usize = 0;
    while i < seed.materials.len()
        invariant
            i <= seed.materials@.len(),
            keys@.len() == i,
            forall|x: int| 0 <= x < keys@.len() ==> (#[trigger] keys@[x])@ == seed.materials@[x].key@,
        decreases seed.materials@.len() - i,
    {
        keys.push(seed.materials[i].key.clone());
        i = i + 1;
    }
    keys
}

/// The raw (first tier) commodity of the material under `key`.
fn raw_commodity_for(
    material_keys: &Vec<String>,
    chains: &Vec<TieredChainHandles>,
    material_key: &String,
    context_key: &str,
) -> (r: Result<CommodityId, String>)
    requires
        material_keys@.len() == chains@.len(),
    ensures
        r is Ok ==> exists|i: int| 0 <= i < material_keys@.len() && (#[trigger] material_keys@[i])@ == material_key@,
        match r {
            Ok(c) => exists|i: int|
                #[trigger] last_key(material_keys@, material_key@, i) && chains@[i].commodities@.len() > 0 && c
                    == chains@[i].commodities@[0],
            Err(m) => m@ == "location"@ + " "@ + ("\""@ + context_key@ + "\""@) + ": "@ + ("unknown yields_material_key "@ + (
            "\""@ + material_key@ + "\""@)) && forall|i: int|
                #[trigger] last_key(material_keys@, material_key@, i) ==> chains@[i].commodities@.len() == 0,
        },
{
    let ghost mut at: int = 0;
    let found = match find_key(material_keys, material_key) {
        Some(i) => {
            proof {
                at = i as int;
                assert(last_key(material_keys@, material_key@, i as int));
                assert forall|j: int| #[trigger] last_key(material_keys@, material_key@, j) implies j == i by {
                    if j < i {
                        assert(material_keys@[i as int]@ == material_key@);
                    }
                }
            }
            if chains[i].commodities.len() > 0 {
                let c = chains[i].commodities[0];
                proof {
                    assert(c == chains@[at].commodities@[0] && chains@[at].commodities@.len() > 0);
                }
                Some(c)
            } else {
                None
            }
        },
        None => None,
    };
    match found {
        Some(c) => {
            proof {
                assert(last_key(material_keys@, material_key@, at));
                assert(c == chains@[at].commodities@[0]);
            }
            Ok(c)
        },
        None => Err(
            about(
                "location",
                context_key,
                "unknown yields_material_key ".to_owned().concat(quoted(material_key.as_str()).as_str()).as_str(),
            ),
        ),
    }
}

/// A factory at `site` for `owner` with all five fixed sub-system
/// components fitted, operational from day one.
fn seed_operational_factory(w: &mut World, owner: ActorId, site: LocationId, label: &str) -> (r: Result<
    FactoryId,
    String,
>)
    requires
        old(w).wf(),
    ensures
        final(w).wf(),
        final(w)@.seed == old(w)@.seed,
        r is Ok <==> old(w)@.has_room(27) && old(w)@.actors.dom().contains(owner.0) && old(
            w,
        )@.locations.dom().contains(site.0),
        r matches Ok(f) ==> operational_seed_factory(final(w)@, f, owner, site),
        r matches Ok(f) ==> !old(w)@.factories.dom().contains(f.0),
        seed_frame(old(w)@, final(w)@),
        crate::invariants::consistent(old(w)@) ==> crate::invariants::consistent(final(w)@),
{
    if !room(w, 2) {
        return Err(exhausted());
    }
    let factory = match w.create_factory(owner, site, 1) {
        Ok(f) => f,
        Err(e) => {
            return Err(label.to_owned().concat(" factory: ").concat(e.text().as_str()));
        },
    };
    let slots = ComponentCategory::FACTORY_SLOTS;
    proof {
        assert(slots@ == factory_slot_seq());
    }
    let mut i: usize = 0;
    while i < 5
        invariant
            w.wf(),
            w@.seed == old(w)@.seed,
            i <= 5,
            slots@ == factory_slot_seq(),
            w@.next_id == old(w)@.next_id + 2 + 5 * i,
            old(w)@.has_room(2),
            w@.actors.dom().contains(owner.0),
            w@.locations.dom().contains(site.0),
            w@.factories.dom().contains(factory.0),
            w@.factories[factory.0].owner == owner,
            w@.factories[factory.0].site == site,
            w@.factories[factory.0].components@.len() == i,
            seed_frame(old(w)@, w@),
            !old(w)@.factories.dom().contains(factory.0),
            forall|k: int| 0 <= k < i ==> (#[trigger] w@.factories[factory.0].components@[k]).0 == factory_slot_seq()[k],
            crate::invariants::consistent(old(w)@) ==> crate::invariants::consistent(w@),
        decreases 5 - i,
    {
        if !room(w, 5) {
            return Err(exhausted());
        }
        let name = label.to_owned().concat(" Factory Sub-System");
        let def = w.define_component_def(name.as_str(), 1, slots[i]);
        let note = label.to_owned().concat(" pre-war plant equipment");
        let comp = match w.seed_component(
            owner,
            def,
            site,
            QualityGrade::Standard,
            AssetOrigin::SeededHistorical { note },
        ) {
            Ok(c) => c,
            Err(e) => {
                return Err(label.to_owned().concat(" factory: ").concat(e.text().as_str()));
            },
        };
        proof {
            assert(w@.component_defs[def.0].category == factory_slot_seq()[i as int]);
            assert forall|k: int| 0 <= k < i implies factory_slot_seq()[k] != factory_slot_seq()[i as int] by {
                lemma_factory_slots_distinct(k, i as int);
            }
            if has_category(w@.factories[factory.0].components@, factory_slot_seq()[i as int]) {
                let k = choose|k: int|
                    0 <= k < w@.factories[factory.0].components@.len() && (#[trigger] w@.factories[factory.0].components@[k]).0
                        == factory_slot_seq()[i as int];
                assert(factory_slot_seq()[k] != factory_slot_seq()[i as int]);
            }
        }
        match w.fit_factory_component(factory, comp) {
            Ok(_) => {},
            Err(e) => {
                return Err(label.to_owned().concat(" factory: ").concat(e.text().as_str()));
            },
        }
        i = i + 1;
    }
    Ok(factory)
}

/// The five fixed factory sub-system slots, in fitting order.
pub open spec fn factory_slot_seq() -> Seq<ComponentCategory> {
    seq![
        ComponentCategory::FactoryLabor,
        ComponentCategory::FactoryAssemblyLine,
        ComponentCategory::FactoryPower,
        ComponentCategory::FactoryControl,
        ComponentCategory::FactoryQualityAssurance,
    ]
}

proof fn lemma_factory_slots_distinct(a: int, b: int)
    requires
        0 <= a < b < 5,
    ensures
        factory_slot_seq()[a] != factory_slot_seq()[b],
{
}

/// `f` is a factory of `owner` at `site` whose five fixed sub-system slots
/// are filled, one component each, in slot order.
pub open spec fn operational_seed_factory(v: WorldView, f: FactoryId, owner: ActorId, site: LocationId) -> bool {
    &&& v.factories.dom().contains(f.0)
    &&& v.factories[f.0].owner == owner
    &&& v.factories[f.0].site == site
    &&& v.factories[f.0].components@.len() == 5
    &&& forall|k: int| 0 <= k < 5 ==> (#[trigger] v.factories[f.0].components@[k]).0 == factory_slot_seq()[k]
}

/// A seeding step that leaves actors and locations alone and keeps every
/// factory and formation already there.
pub open spec fn seed_frame(v: WorldView, w: WorldView) -> bool {
    &&& w.actors == v.actors
    &&& w.locations == v.locations
    &&& kept(v.factories, w.factories)
    &&& kept(v.formations, w.formations)
}

/// The city a faction configured at `home`: its population, purchasing
/// authority and tax rate, and at least `yields` daily yield lines.
pub open spec fn home_seeded(v: WorldView, f: FactionSeed, owner: ActorId, home: LocationId, yields: int) -> bool {
    &&& v.locations.dom().contains(home.0)
    &&& v.locations[home.0].population == f.population
    &&& v.locations[home.0].authority == Some(owner)
    &&& v.locations[home.0].tax_rate_per_capita == f.tax_rate_per_capita
    &&& v.locations[home.0].yields@.len() >= yields
}

/// `fs` lists distinct operational factories of `owner` at `home`.
pub open spec fn factories_seeded(v: WorldView, fs: Seq<u64>, owner: ActorId, home: LocationId) -> bool {
    &&& fs.no_duplicates()
    &&& forall|i: int| 0 <= i < fs.len() ==> operational_seed_factory(v, FactoryId(#[trigger] fs[i]), owner, home)
}

/// Formation `fm` of `owner` for TO&E entry `t` of faction `f`, stationed
/// at `home`: named for the faction and the entry's role, and holding at
/// least the entry's count of assets.
pub open spec fn formation_seeded(v: WorldView, fm: u64, owner: ActorId, home: LocationId, f: FactionSeed, t: int) -> bool {
    &&& v.formations.dom().contains(fm)
    &&& v.formations[fm].owner == owner
    &&& v.formations[fm].name@ == f.name@ + " "@ + f.toe@[t].role@
    &&& v.formations[fm].assets@.len() >= f.toe@[t].count
    &&& v.formations[fm].state == FormationState::Stationed { at: home }
}

/// The formation named for TO&E entry `t` of faction `f`.
pub open spec fn toe_formation_seeded(v: WorldView, f: FactionSeed, owner: ActorId, home: LocationId, t: int) -> bool {
    exists|fm: u64| #[trigger] formation_seeded(v, fm, owner, home, f, t)
}

/// A faction's starting forces: `n` operational factories and one
/// stationed formation per TO&E entry, all at home.
pub open spec fn forces_seeded(v: WorldView, f: FactionSeed, owner: ActorId, home: LocationId, n: int) -> bool {
    &&& exists|fs: Seq<u64>| fs.len() == n && #[trigger] factories_seeded(v, fs, owner, home)
    &&& forall|t: int| 0 <= t < f.toe@.len() ==> #[trigger] toe_formation_seeded(v, f, owner, home, t)
}

/// Seeding faction `f` has so far touched no actor and no location but its
/// home, which holds the city it configured with at least `yields` yield
/// lines, and has kept every factory and formation there was.
pub open spec fn faction_progress(
    o: WorldView,
    v: WorldView,
    f: FactionSeed,
    owner: ActorId,
    home: LocationId,
    yields: int,
) -> bool {
    &&& v.actors == o.actors
    &&& v.locations == o.locations.insert(home.0, v.locations[home.0])
    &&& v.locations[home.0].controller == o.locations[home.0].controller
    &&& home_seeded(v, f, owner, home, yields)
    &&& kept(o.factories, v.factories)
    &&& kept(o.formations, v.formations)
}

/// A step that keeps the seeding frame keeps a faction's progress, its
/// factories and its formations so far.
proof fn lemma_seed_step(
    o: WorldView,
    v: WorldView,
    w: WorldView,
    f: FactionSeed,
    owner: ActorId,
    home: LocationId,
    yields: int,
    facs: Seq<u64>,
    fms: Seq<u64>,
    k: int,
)
    requires
        faction_progress(o, v, f, owner, home, yields),
        seed_frame(v, w),
        factories_seeded(v, facs, owner, home),
        0 <= k <= fms.len(),
        k <= f.toe@.len(),
        forall|t: int| 0 <= t < k ==> #[trigger] formation_seeded(v, fms[t], owner, home, f, t),
    ensures
        faction_progress(o, w, f, owner, home, yields),
        factories_seeded(w, facs, owner, home),
        forall|t: int| 0 <= t < k ==> #[trigger] formation_seeded(w, fms[t], owner, home, f, t),
{
    assert forall|i: int| 0 <= i < facs.len() implies operational_seed_factory(w, FactoryId(#[trigger] facs[i]), owner, home) by {
        assert(operational_seed_factory(v, FactoryId(facs[i]), owner, home));
        assert(v.factories.dom().contains(facs[i]));
    }
    assert forall|t: int| 0 <= t < k implies #[trigger] formation_seeded(w, fms[t], owner, home, f, t) by {
        assert(formation_seeded(v, fms[t], owner, home, f, t));
        assert(v.formations.dom().contains(fms[t]));
    }
    assert forall|x: u64| #[trigger] o.factories.dom().contains(x) implies w.factories.dom().contains(x) && w.factories[x] == o.factories[x] by {
        assert(v.factories.dom().contains(x));
    }
    assert forall|x: u64| #[trigger] o.formations.dom().contains(x) implies w.formations.dom().contains(x) && w.formations[x] == o.formations[x] by {
        assert(v.formations.dom().contains(x));
    }
}

/// A new operational factory joins the ones seeded so far.
proof fn lemma_factories_grow(v: WorldView, w: WorldView, facs: Seq<u64>, fac: u64, owner: ActorId, home: LocationId)
    requires
        factories_seeded(v, facs, owner, home),
        seed_frame(v, w),
        operational_seed_factory(w, FactoryId(fac), owner, home),
        !v.factories.dom().contains(fac),
    ensures
        factories_seeded(w, facs.push(fac), owner, home),
{
    let g = facs.push(fac);
    assert forall|i: int| 0 <= i < g.len() implies operational_seed_factory(w, FactoryId(#[trigger] g[i]), owner, home) by {
        if i < facs.len() {
            assert(g[i] == facs[i]);
            assert(operational_seed_factory(v, FactoryId(facs[i]), owner, home));
            assert(v.factories.dom().contains(facs[i]));
        }
    }
    assert forall|i: int, j: int| 0 <= i < g.len() && 0 <= j < g.len() && i != j implies g[i] != g[j] by {
        if i < facs.len() && j < facs.len() {
            assert(g[i] == facs[i] && g[j] == facs[j]);
        } else if i < facs.len() {
            assert(operational_seed_factory(v, FactoryId(facs[i]), owner, home));
        } else if j < facs.len() {
            assert(operational_seed_factory(v, FactoryId(facs[j]), owner, home));
        }
    }
}

/// Starting forces stay standing while their factories and formations are
/// kept.
proof fn lemma_forces_kept(v: WorldView, w: WorldView, f: FactionSeed, owner: ActorId, home: LocationId, n: int)
    requires
        kept(v.factories, w.factories),
        kept(v.formations, w.formations),
        forces_seeded(v, f, owner, home, n),
    ensures
        forces_seeded(w, f, owner, home, n),
{
    let fs = choose|fs: Seq<u64>| fs.len() == n && #[trigger] factories_seeded(v, fs, owner, home);
    assert forall|i: int| 0 <= i < fs.len() implies operational_seed_factory(w, FactoryId(#[trigger] fs[i]), owner, home) by {
        assert(operational_seed_factory(v, FactoryId(fs[i]), owner, home));
        assert(v.factories.dom().contains(fs[i]));
    }
    assert(factories_seeded(w, fs, owner, home));
    assert forall|t: int| 0 <= t < f.toe@.len() implies #[trigger] toe_formation_seeded(w, f, owner, home, t) by {
        assert(toe_formation_seeded(v, f, owner, home, t));
        let fm = choose|fm: u64| #[trigger] formation_seeded(v, fm, owner, home, f, t);
        assert(v.formations.dom().contains(fm));
        assert(formation_seeded(w, fm, owner, home, f, t));
    }
}


/// A generated chain with a component definition per tier whose every
/// tier commodity exists in `w`.
pub open spec fn chain_ready(seed: &WorldSeedFile, w: WorldView, c: TieredChainHandles) -> bool {
    &&& c.component_defs@.len() == seed.tier_names@.len()
    &&& forall|j: int| 0 <= j < seed.tier_names@.len() ==> w.commodities.dom().contains(#[trigger] c.commodities@[j].0)
}

/// One more generated chain keeps every chain's tiers and raw commodities
/// standing.
proof fn lemma_chains_grow(
    seed: &WorldSeedFile,
    spec: TieredChainSpec,
    c0: Seq<TieredChainHandles>,
    chains: Seq<TieredChainHandles>,
    handles: TieredChainHandles,
    w0: WorldView,
    w: WorldView,
    i: int,
)
    requires
        c0.len() == i,
        chains == c0.push(handles),
        spec.tier_names@.len() == seed.tier_names@.len(),
        handles.commodities@.len() == spec.tier_names@.len(),
        handles.component_defs@.len() == spec.tier_names@.len(),
        forall|j: int| 0 <= j < spec.tier_names@.len() ==> w.commodities.dom().contains(#[trigger] handles.commodities@[j].0),
        w0.commodities.dom().subset_of(w.commodities.dom()),
        forall|x: int| 0 <= x < i ==> #[trigger] c0[x].commodities@.len() == seed.tier_names@.len(),
        forall|x: int| 0 <= x < i ==> #[trigger] chain_ready(seed, w0, c0[x]),
    ensures
        forall|x: int| 0 <= x < i + 1 ==> #[trigger] chains[x].commodities@.len() == seed.tier_names@.len(),
        forall|x: int| 0 <= x < i + 1 ==> #[trigger] chain_ready(seed, w, chains[x]),
{
    assert forall|x: int| 0 <= x < i + 1 implies #[trigger] chains[x].commodities@.len() == seed.tier_names@.len() by {
        if x < i {
            assert(chains[x] == c0[x]);
        }
    }
    assert forall|x: int| 0 <= x < i + 1 implies #[trigger] chain_ready(seed, w, chains[x]) by {
        if x < i {
            assert(chains[x] == c0[x]);
            assert(chain_ready(seed, w0, c0[x]));
            assert forall|j: int| 0 <= j < seed.tier_names@.len() implies w.commodities.dom().contains(
                chains[x].commodities@[j].0,
            ) by {
                assert(w0.commodities.dom().contains(c0[x].commodities@[j].0));
            }
        } else {
            assert(chains[x] == handles);
        }
    }
}

/// One generated material chain per seed material, in order.
fn seed_materials(w: &mut World, seed: &WorldSeedFile) -> (r: Result<Vec<TieredChainHandles>, String>)
    requires
        old(w).wf(),
    ensures
        final(w).wf(),
        final(w)@.seed == old(w)@.seed,
        r matches Ok(v) ==> v@.len() == seed.materials@.len() && forall|i: int|
            0 <= i < v@.len() ==> #[trigger] v@[i].commodities@.len() == seed.tier_names@.len(),
        r matches Err(m) ==> m@ == "the world has run out of ids"@ && (seed.tier_names@.len() > 0x0FFF_FFFF_FFFF_FFFF
            || !final(w)@.has_room(8 * seed.tier_names@.len() as int)),
        r matches Ok(v) ==> forall|i: int|
            0 <= i < v@.len() ==> #[trigger] v@[i].component_defs@.len() == seed.tier_names@.len() && forall|j: int|
                0 <= j < seed.tier_names@.len() ==> final(w)@.commodities.dom().contains(v@[i].commodities@[j].0),
        r is Ok ==> final(w)@.next_id <= old(w)@.next_id + 8 * (seed.tier_names@.len() * seed.materials@.len()),
        old(w)@.commodities.dom().subset_of(final(w)@.commodities.dom()),
        seed.tier_names@.len() <= 0x0FFF_FFFF_FFFF_FFFF && old(w)@.next_id + 8 * (seed.tier_names@.len()
            * seed.materials@.len()) <= u64::MAX ==> r is Ok,
        crate::invariants::consistent(old(w)@) ==> crate::invariants::consistent(final(w)@),
        final(w)@.money_issued == old(w)@.money_issued,
{
    let mut chains: Vec<TieredChainHandles> = Vec::new();
    let mut i: usize = 0;
    while i < seed.materials.len()
        invariant
            w.wf(),
            w@.seed == old(w)@.seed,
            i <= seed.materials@.len(),
            chains@.len() == i,
            forall|x: int| 0 <= x < i ==> #[trigger] chains@[x].commodities@.len() == seed.tier_names@.len(),
            forall|x: int| 0 <= x < i ==> #[trigger] chain_ready(seed, w@, chains@[x]),
            w@.next_id <= old(w)@.next_id + 8 * (seed.tier_names@.len() * i),
            old(w)@.commodities.dom().subset_of(w@.commodities.dom()),
            crate::invariants::consistent(old(w)@) ==> crate::invariants::consistent(w@),
            w@.money_issued == old(w)@.money_issued,
        decreases seed.materials@.len() - i,
    {
        let t = seed.tier_names.len();
        let t64: u64 = t as u64;
        proof {
            let tt = seed.tier_names@.len();
            let mm = seed.materials@.len();
            assert(tt * (i + 1) <= tt * mm) by (nonlinear_arith)
                requires
                    i + 1 <= mm,
            ;
            assert(tt * (i + 1) == tt * i + tt) by (nonlinear_arith);
        }
        if t64 > 0x0FFF_FFFF_FFFF_FFFF || !room(w, 8 * t64) {
            return Err(exhausted());
        }
        let mut names: Vec<String> = Vec::new();
        let mut j: usize = 0;
        while j < t
            invariant
                j <= t,
                t == seed.tier_names@.len(),
                names@.len() == j,
                forall|x: int| 0 <= x < j ==> #[trigger] names@[x] == seed.tier_names@[x],
            decreases t - j,
        {
            names.push(seed.tier_names[j].clone());
            j = j + 1;
        }
        let spec = TieredChainSpec {
            material_name: seed.materials[i].material_name.clone(),
            tier_names: names,
            unit: UnitOfMeasure::Kilograms,
            base_price: 10,
            component_category: ComponentCategory::MechOrEquipment,
            refine_input_qty: seed.economy.refine_input_qty,
            refine_output_qty: seed.economy.refine_output_qty,
            refine_duration_days: seed.economy.refine_duration_days,
            convert_input_qty: seed.economy.convert_input_qty,
            convert_duration_days: seed.economy.convert_duration_days,
        };
        let ghost c0 = chains@;
        let ghost w0 = w@;
        let handles = w.generate_tiered_material_chain(&spec);
        chains.push(handles);
        proof {
            lemma_chains_grow(seed, spec, c0, chains@, handles, w0, w@, i as int);
        }
        i = i + 1;
    }
    proof {
        assert forall|x: int| 0 <= x < chains@.len() implies #[trigger] chains@[x].component_defs@.len()
            == seed.tier_names@.len() && forall|j: int|
            0 <= j < seed.tier_names@.len() ==> w@.commodities.dom().contains(chains@[x].commodities@[j].0) by {
            assert(chain_ready(seed, w@, chains@[x]));
        }
    }
    Ok(chains)
}

/// The hand-authored designs, keyed; the generated mech design comes first
/// under `universal_mech`.
fn seed_designs(
    w: &mut World,
    seed: &WorldSeedFile,
    mat_keys: &Vec<String>,
    chains: &Vec<TieredChainHandles>,
    universal_mech: DesignId,
) -> (r: Result<(Vec<String>, Vec<DesignId>), String>)
    requires
        old(w).wf(),
        mat_keys@.len() == chains@.len(),
        mat_keys@.len() == seed.materials@.len(),
        forall|i: int| 0 <= i < mat_keys@.len() ==> (#[trigger] mat_keys@[i])@ == seed.materials@[i].key@,
    ensures
        final(w).wf(),
        final(w)@.seed == old(w)@.seed,
        r matches Ok(v) ==> v.0@.len() == v.1@.len() && design_slots_resolve(seed) && forall|i: int|
            0 <= i < v.0@.len() ==> is_design_key(seed, (#[trigger] v.0@[i])@),
        r is Ok <==> old(w)@.has_room(2 * seed.designs@.len() as int) && forall|d: int|
            0 <= d < seed.designs@.len() ==> #[trigger] design_ok(seed, mat_keys@, chains@, d),
        r is Ok ==> final(w)@.next_id == old(w)@.next_id + 2 * seed.designs@.len(),
        final(w)@.commodities == old(w)@.commodities,
        crate::invariants::consistent(old(w)@) ==> crate::invariants::consistent(final(w)@),
        final(w)@.money_issued == old(w)@.money_issued,
{
    let mut keys: Vec<String> = Vec::new();
    let mut ids: Vec<DesignId> = Vec::new();
    keys.push("universal_mech".to_owned());
    ids.push(universal_mech);
    let mut i: usize = 0;
    while i < seed.designs.len()
        invariant
            w.wf(),
            w@.seed == old(w)@.seed,
            mat_keys@.len() == chains@.len(),
            i <= seed.designs@.len(),
            keys@.len() == ids@.len(),
            mat_keys@.len() == seed.materials@.len(),
            forall|x: int| 0 <= x < mat_keys@.len() ==> (#[trigger] mat_keys@[x])@ == seed.materials@[x].key@,
            forall|d: int, j: int|
                0 <= d < i && 0 <= j < seed.designs@[d].slots@.len() ==> is_material_key(
                    seed,
                    (#[trigger] seed.designs@[d].slots@[j]).component_def_key@,
                ),
            forall|x: int| 0 <= x < keys@.len() ==> is_design_key(seed, (#[trigger] keys@[x])@),
            w@.next_id == old(w)@.next_id + 2 * i,
            old(w)@.has_room(2 * i),
            forall|x: int| 0 <= x < i ==> #[trigger] design_ok(seed, mat_keys@, chains@, x),
            w@.commodities == old(w)@.commodities,
            crate::invariants::consistent(old(w)@) ==> crate::invariants::consistent(w@),
            w@.money_issued == old(w)@.money_issued,
        decreases seed.designs@.len() - i,
    {
        let d = &seed.designs[i];
        let mut slots: Vec<ComponentSlot> = Vec::new();
        let mut j: usize = 0;
        while j < d.slots.len()
            invariant
                w.wf(),
                w@.seed == old(w)@.seed,
                j <= d.slots@.len(),
                slots@.len() == j,
                i < seed.designs@.len(),
                w@.commodities == old(w)@.commodities,
                forall|y: int| 0 <= y < j ==> #[trigger] slot_def_ok(mat_keys@, chains@, d.slots@[y].component_def_key@),
                mat_keys@.len() == chains@.len(),
                mat_keys@.len() == seed.materials@.len(),
                forall|x: int| 0 <= x < mat_keys@.len() ==> (#[trigger] mat_keys@[x])@ == seed.materials@[x].key@,
                *d == seed.designs@[i as int],
                forall|y: int| 0 <= y < j ==> is_material_key(seed, (#[trigger] d.slots@[y]).component_def_key@),
                crate::invariants::consistent(old(w)@) ==> crate::invariants::consistent(w@),
                w@.money_issued == old(w)@.money_issued,
            decreases d.slots@.len() - j,
        {
            let slot = &d.slots[j];
            let def: Option<ComponentDefId> = match find_key(mat_keys, &slot.component_def_key) {
                Some(m) => {
                    proof {
                        assert(seed.materials@[m as int].key@ == slot.component_def_key@);
                        assert(last_key(mat_keys@, slot.component_def_key@, m as int));
                        lemma_last_key_unique(mat_keys@, slot.component_def_key@, m as int);
                    }
                    if chains[m].component_defs.len() > 0 {
                        Some(chains[m].component_defs[0])
                    } else {
                        None
                    }
                },
                None => None,
            };
            match def {
                Some(def_id) => {
                    let mut accepts: Vec<ComponentDefId> = Vec::new();
                    accepts.push(def_id);
                    slots.push(ComponentSlot { name: slot.name.clone(), accepts });
                },
                None => {
                    proof {
                        assert(!slot_def_ok(mat_keys@, chains@, d.slots@[j as int].component_def_key@));
                        assert(!design_ok(seed, mat_keys@, chains@, i as int));
                    }
                    return Err(
                        "design ".to_owned().concat(quoted(d.key.as_str()).as_str()).concat(" slot ").concat(
                            quoted(slot.name.as_str()).as_str(),
                        ).concat(": unknown component_def_key ").concat(quoted(slot.component_def_key.as_str()).as_str()),
                    );
                },
            }
            j = j + 1;
        }
        if !room(w, 2) {
            return Err(exhausted());
        }
        match w.define_design(d.name.as_str(), d.kind, slots, d.cargo_capacity_kg, None) {
            Ok(id) => {
                let ghost k0 = keys@;
                keys.push(d.key.clone());
                ids.push(id);
                proof {
                    assert(design_ok(seed, mat_keys@, chains@, i as int));
                    assert(is_design_key(seed, seed.designs@[i as int].key@));
                    assert forall|x: int| 0 <= x < keys@.len() implies is_design_key(seed, (#[trigger] keys@[x])@) by {
                        if x < k0.len() {
                            assert(keys@[x] == k0[x]);
                        }
                    }
                }
            },
            Err(e) => {
                proof {
                    assert(!design_ok(seed, mat_keys@, chains@, i as int));
                }
                return Err(about("design", d.key.as_str(), e.text().as_str()));
            },
        }
        i = i + 1;
    }
    Ok((keys, ids))
}

/// The last material under key `k` has a component to fill a slot with.
pub open spec fn slot_def_ok(keys: Seq<String>, chains: Seq<TieredChainHandles>, k: Seq<char>) -> bool {
    exists|m: int| #[trigger] last_key(keys, k, m) && chains[m].component_defs@.len() > 0
}

/// Seed design `d` can be defined: a slot count its kind allows, and a
/// component for every slot.
pub open spec fn design_ok(seed: &WorldSeedFile, keys: Seq<String>, chains: Seq<TieredChainHandles>, d: int) -> bool {
    &&& crate::assets::slot_count_ok(seed.designs@[d].kind, seed.designs@[d].slots@.len() as int)
    &&& forall|j: int|
        0 <= j < seed.designs@[d].slots@.len() ==> #[trigger] slot_def_ok(
            keys,
            chains,
            seed.designs@[d].slots@[j].component_def_key@,
        )
}

/// Every seed location, its mine reserves and its bonus yield, keyed.
fn seed_locations(
    w: &mut World,
    seed: &WorldSeedFile,
    mat_keys: &Vec<String>,
    chains: &Vec<TieredChainHandles>,
) -> (r: Result<(Vec<String>, Vec<LocationId>), String>)
    requires
        old(w).wf(),
        mat_keys@.len() == chains@.len(),
        mat_keys@.len() == seed.materials@.len(),
        forall|i: int| 0 <= i < mat_keys@.len() ==> (#[trigger] mat_keys@[i])@ == seed.materials@[i].key@,
    ensures
        final(w).wf(),
        final(w)@.seed == old(w)@.seed,
        r matches Ok(v) ==> {
            &&& v.0@.len() == v.1@.len()
            &&& v.0@.len() == seed.locations@.len()
            &&& forall|i: int| 0 <= i < v.0@.len() ==> (#[trigger] v.0@[i])@ == seed.locations@[i].key@
            &&& yields_resolve(seed)
            &&& forall|i: int| 0 <= i < v.1@.len() ==> final(w)@.locations.dom().contains((#[trigger] v.1@[i]).0)
            &&& forall|i: int, j: int| 0 <= i < j < v.1@.len() ==> (#[trigger] v.1@[i]).0 < (#[trigger] v.1@[j]).0
            &&& final(w)@.next_id == old(w)@.next_id + locations_cost(seed, seed.locations@.len() as int)
            &&& final(w)@.commodities == old(w)@.commodities
        },
        r is Ok <==> forall|i: int|
            0 <= i < seed.locations@.len() ==> #[trigger] location_ok(seed, mat_keys@, chains@, old(w)@, i),
        crate::invariants::consistent(old(w)@) ==> crate::invariants::consistent(final(w)@),
        final(w)@.money_issued == old(w)@.money_issued,
{
    let mut keys: Vec<String> = Vec::new();
    let mut ids: Vec<LocationId> = Vec::new();
    let mut i: usize = 0;
    while i < seed.locations.len()
        invariant
            w.wf(),
            w@.seed == old(w)@.seed,
            mat_keys@.len() == chains@.len(),
            i <= seed.locations@.len(),
            keys@.len() == ids@.len(),
            keys@.len() == i,
            mat_keys@.len() == seed.materials@.len(),
            forall|x: int| 0 <= x < mat_keys@.len() ==> (#[trigger] mat_keys@[x])@ == seed.materials@[x].key@,
            forall|x: int| 0 <= x < keys@.len() ==> (#[trigger] keys@[x])@ == seed.locations@[x].key@,
            forall|x: int| 0 <= x < ids@.len() ==> w@.locations.dom().contains((#[trigger] ids@[x]).0),
            w@.next_id == old(w)@.next_id + locations_cost(seed, i as int),
            w@.commodities == old(w)@.commodities,
            forall|x: int, y: int| 0 <= x < y < ids@.len() ==> (#[trigger] ids@[x]).0 < (#[trigger] ids@[y]).0,
            forall|x: int| 0 <= x < ids@.len() ==> (#[trigger] ids@[x]).0 < w@.next_id,
            forall|x: int| 0 <= x < i ==> #[trigger] location_ok(seed, mat_keys@, chains@, old(w)@, x),
            forall|l: int|
                0 <= l < i ==> ((#[trigger] seed.locations@[l]).yields_material_key matches Some(k) ==> is_material_key(
                    seed,
                    k@,
                )),
            crate::invariants::consistent(old(w)@) ==> crate::invariants::consistent(w@),
            w@.money_issued == old(w)@.money_issued,
        decreases seed.locations@.len() - i,
    {
        let l = &seed.locations[i];
        if !room(w, 4) {
            proof {
                assert(!location_ok(seed, mat_keys@, chains@, old(w)@, i as int));
            }
            return Err(exhausted());
        }
        let ghost n_before = w@.next_id;
        let id = w.create_location(l.name.as_str(), l.kind, l.position);
        proof {
            assert(w@.locations[id.0].kind == l.kind);
        }
        match l.mine_reserves {
            Some(reserves) => match w.configure_mine(id, reserves) {
                Ok(_) => {},
                Err(e) => {
                    proof {
                        assert(!location_ok(seed, mat_keys@, chains@, old(w)@, i as int));
                    }
                    return Err(about("location", l.key.as_str(), e.text().as_str()));
                },
            },
            None => {},
        }
        match &l.yields_material_key {
            Some(material_key) => {
                let commodity = match raw_commodity_for(mat_keys, chains, material_key, l.key.as_str()) {
                    Ok(c) => c,
                    Err(m) => {
                        proof {
                            assert(!yield_ok(mat_keys@, chains@, old(w)@, material_key@));
                            assert(!location_ok(seed, mat_keys@, chains@, old(w)@, i as int));
                        }
                        return Err(m);
                    },
                };
                proof {
                    let m = choose|m: int| 0 <= m < mat_keys@.len() && (#[trigger] mat_keys@[m])@ == material_key@;
                    assert(seed.materials@[m].key@ == material_key@);
                    let a = choose|a: int|
                        #[trigger] last_key(mat_keys@, material_key@, a) && chains@[a].commodities@.len() > 0 && commodity
                            == chains@[a].commodities@[0];
                    lemma_last_key_unique(mat_keys@, material_key@, a);
                }
                let qty: u64 = match l.yield_quantity_per_day {
                    Some(q) => q,
                    None => 0,
                };
                match w.add_location_yield(id, commodity, qty, MineReserves::Infinite) {
                    Ok(_) => {},
                    Err(e) => {
                        proof {
                            assert(!yield_ok(mat_keys@, chains@, old(w)@, material_key@));
                            assert(!location_ok(seed, mat_keys@, chains@, old(w)@, i as int));
                        }
                        return Err(about("location", l.key.as_str(), e.text().as_str()));
                    },
                }
            },
            None => {},
        }
        proof {
            assert(location_ok(seed, mat_keys@, chains@, old(w)@, i as int));
            assert(locations_cost(seed, i + 1) == locations_cost(seed, i as int) + location_cost(seed.locations@[i as int]));
        }
        keys.push(l.key.clone());
        ids.push(id);
        i = i + 1;
    }
    Ok((keys, ids))
}


/// The ids that seeding one location takes: the location, and one log entry
/// each for its mine reserves and its bonus yield.
pub open spec fn location_cost(l: LocationSeed) -> int {
    2 + (if l.mine_reserves is Some {
        1int
    } else {
        0int
    }) + (if l.yields_material_key is Some {
        1int
    } else {
        0int
    })
}

/// The ids that seeding the first `n` locations takes.
pub open spec fn locations_cost(seed: &WorldSeedFile, n: int) -> int
    decreases n,
{
    if n <= 0 {
        0
    } else {
        locations_cost(seed, n - 1) + location_cost(seed.locations@[n - 1])
    }
}

/// The last material under key `k` has a raw commodity that the world holds.
pub open spec fn yield_ok(keys: Seq<String>, chains: Seq<TieredChainHandles>, v: WorldView, k: Seq<char>) -> bool {
    exists|m: int|
        #[trigger] last_key(keys, k, m) && chains[m].commodities@.len() > 0 && v.commodities.dom().contains(
            chains[m].commodities@[0].0,
        )
}

/// Seed location `i` can be seeded into `v` after the ones before it: the
/// ids last, mine reserves go to a mine, and a bonus yield names a material
/// with a raw commodity.
pub open spec fn location_ok(
    seed: &WorldSeedFile,
    keys: Seq<String>,
    chains: Seq<TieredChainHandles>,
    v: WorldView,
    i: int,
) -> bool {
    let l = seed.locations@[i];
    &&& v.has_room(locations_cost(seed, i) + 4)
    &&& (l.mine_reserves is Some ==> l.kind == LocationKind::Mine)
    &&& (l.yields_material_key matches Some(k) ==> yield_ok(keys, chains, v, k@))
}

/// Every seed route, between already seeded locations.
fn seed_routes(w: &mut World, seed: &WorldSeedFile, loc_keys: &Vec<String>, loc_ids: &Vec<LocationId>) -> (r: Result<
    (),
    String,
>)
    requires
        old(w).wf(),
        loc_keys@.len() == loc_ids@.len(),
        loc_keys@.len() == seed.locations@.len(),
        forall|i: int| 0 <= i < loc_keys@.len() ==> (#[trigger] loc_keys@[i])@ == seed.locations@[i].key@,
        forall|i: int| 0 <= i < loc_ids@.len() ==> old(w)@.locations.dom().contains((#[trigger] loc_ids@[i]).0),
    ensures
        final(w).wf(),
        final(w)@.seed == old(w)@.seed,
        r is Ok ==> routes_resolve(seed),
        r is Ok <==> routes_resolve(seed) && old(w)@.has_room(2 * seed.routes@.len() as int) && forall|x: int|
            0 <= x < seed.routes@.len() ==> #[trigger] route_ok(seed, loc_keys@, loc_ids@, x),
        crate::invariants::consistent(old(w)@) ==> crate::invariants::consistent(final(w)@),
        final(w)@.money_issued == old(w)@.money_issued,
        forall|x: int| 0 <= x < loc_ids@.len() ==> final(w)@.locations.dom().contains((#[trigger] loc_ids@[x]).0),
{
    let mut i: usize = 0;
    while i < seed.routes.len()
        invariant
            w.wf(),
            w@.seed == old(w)@.seed,
            loc_keys@.len() == loc_ids@.len(),
            loc_keys@.len() == seed.locations@.len(),
            forall|x: int| 0 <= x < loc_keys@.len() ==> (#[trigger] loc_keys@[x])@ == seed.locations@[x].key@,
            i <= seed.routes@.len(),
            forall|x: int|
                0 <= x < i ==> is_location_key(seed, (#[trigger] seed.routes@[x]).from_key@) && is_location_key(
                    seed,
                    seed.routes@[x].to_key@,
                ),
            forall|x: int| 0 <= x < i ==> #[trigger] route_ok(seed, loc_keys@, loc_ids@, x),
            forall|x: int| 0 <= x < loc_ids@.len() ==> w@.locations.dom().contains((#[trigger] loc_ids@[x]).0),
            w@.next_id == old(w)@.next_id + 2 * i,
            old(w)@.has_room(2 * i),
            crate::invariants::consistent(old(w)@) ==> crate::invariants::consistent(w@),
            w@.money_issued == old(w)@.money_issued,
        decreases seed.routes@.len() - i,
    {
        let rt = &seed.routes[i];
        let ghost mut fa: int = 0;
        let ghost mut ta: int = 0;
        let from = match find_key(loc_keys, &rt.from_key) {
            Some(x) => {
                proof {
                    assert(seed.locations@[x as int].key@ == rt.from_key@);
                    fa = x as int;
                }
                loc_ids[x]
            },
            None => {
                proof {
                    lemma_unresolved_route(seed, loc_keys@, i as int);
                }
                return Err("route: unknown from_key ".to_owned().concat(quoted(rt.from_key.as_str()).as_str()));
            },
        };
        let to = match find_key(loc_keys, &rt.to_key) {
            Some(x) => {
                proof {
                    assert(seed.locations@[x as int].key@ == rt.to_key@);
                    ta = x as int;
                }
                loc_ids[x]
            },
            None => {
                proof {
                    lemma_unresolved_route(seed, loc_keys@, i as int);
                }
                return Err("route: unknown to_key ".to_owned().concat(quoted(rt.to_key.as_str()).as_str()));
            },
        };
        proof {
            assert(last_key(loc_keys@, rt.from_key@, fa));
            assert(last_key(loc_keys@, rt.to_key@, ta));
            lemma_last_key_unique(loc_keys@, rt.from_key@, fa);
            lemma_last_key_unique(loc_keys@, rt.to_key@, ta);
            assert(w@.locations.dom().contains(loc_ids@[fa].0));
            assert(w@.locations.dom().contains(loc_ids@[ta].0));
        }
        if !room(w, 2) {
            return Err(exhausted());
        }
        let ghost before = w@;
        match w.create_route(from, to, rt.distance_days) {
            Ok(_) => {},
            Err(e) => {
                proof {
                    assert(rt.distance_days == 0 || from == to);
                    assert(from == loc_ids@[fa] && to == loc_ids@[ta]);
                    if route_ok(seed, loc_keys@, loc_ids@, i as int) {
                        assert(loc_ids@[fa] != loc_ids@[ta]);
                    }
                    assert(!route_ok(seed, loc_keys@, loc_ids@, i as int));
                }
                return Err(
                    "route ".to_owned().concat(quoted(rt.from_key.as_str()).as_str()).concat("->").concat(
                        quoted(rt.to_key.as_str()).as_str(),
                    ).concat(": ").concat(e.text().as_str()),
                );
            },
        }
        i = i + 1;
    }
    Ok(())
}

/// A seed with no factions and no controlled locations, of modest size, with
/// at least one tier, whose every design, mine, bonus yield and route is
/// sound: every key it uses names what it should, every design has a slot
/// count its kind allows, mine reserves go to mines, and every route has a
/// length and joins two different locations.
pub open spec fn simple_seed(seed: &WorldSeedFile) -> bool {
    &&& seed.factions@.len() == 0
    &&& forall|l: int| 0 <= l < seed.locations@.len() ==> (#[trigger] seed.locations@[l]).controller_key is None
    &&& 0 < seed.tier_names@.len() <= 0x1_0000
    &&& seed.materials@.len() <= 0x1_0000
    &&& seed.designs@.len() <= 0x1_0000
    &&& seed.locations@.len() <= 0x1_0000
    &&& seed.routes@.len() <= 0x1_0000
    &&& crate::assets::slot_count_ok(AssetKind::Mech, seed.materials@.len() as int)
    &&& design_slots_resolve(seed)
    &&& forall|d: int|
        0 <= d < seed.designs@.len() ==> crate::assets::slot_count_ok(
            (#[trigger] seed.designs@[d]).kind,
            seed.designs@[d].slots@.len() as int,
        )
    &&& yields_resolve(seed)
    &&& forall|l: int|
        0 <= l < seed.locations@.len() ==> ((#[trigger] seed.locations@[l]).mine_reserves is Some
            ==> seed.locations@[l].kind == LocationKind::Mine)
    &&& routes_resolve(seed)
    &&& forall|x: int|
        0 <= x < seed.routes@.len() ==> (#[trigger] seed.routes@[x]).distance_days != 0 && seed.routes@[x].from_key@
            != seed.routes@[x].to_key@
}

/// A key found at index `i` has a last index.
proof fn lemma_last_key_exists(keys: Seq<String>, key: Seq<char>, i: int) -> (j: int)
    requires
        0 <= i < keys.len(),
        keys[i]@ == key,
    ensures
        last_key(keys, key, j),
    decreases keys.len() - i,
{
    if exists|k: int| i < k < keys.len() && keys[k]@ == key {
        let k = choose|k: int| i < k < keys.len() && keys[k]@ == key;
        lemma_last_key_exists(keys, key, k)
    } else {
        i
    }
}

/// Seeding the first `n` locations takes at most four ids each.
proof fn lemma_locations_cost_bound(seed: &WorldSeedFile, n: int)
    requires
        0 <= n <= seed.locations@.len(),
    ensures
        0 <= locations_cost(seed, n) <= 4 * n,
    decreases n,
{
    if n > 0 {
        lemma_locations_cost_bound(seed, n - 1);
    }
}

/// Route `x` of the seed can be laid: it has a length, and its two keys name
/// different seeded locations.
pub open spec fn route_ok(seed: &WorldSeedFile, keys: Seq<String>, ids: Seq<LocationId>, x: int) -> bool {
    let rt = seed.routes@[x];
    &&& rt.distance_days != 0
    &&& forall|a: int, b: int|
        last_key(keys, rt.from_key@, a) && last_key(keys, rt.to_key@, b) ==> #[trigger] ids[a] != #[trigger] ids[b]
}

proof fn lemma_last_key_unique(keys: Seq<String>, key: Seq<char>, i: int)
    requires
        last_key(keys, key, i),
    ensures
        forall|j: int| #[trigger] last_key(keys, key, j) ==> j == i,
{
    assert forall|j: int| #[trigger] last_key(keys, key, j) implies j == i by {
        if j < i {
            assert(keys[i]@ == key);
        } else if i < j {
            assert(keys[j]@ == key);
        }
    }
}

proof fn lemma_unresolved_route(seed: &WorldSeedFile, keys: Seq<String>, x: int)
    requires
        0 <= x < seed.routes@.len(),
        keys.len() == seed.locations@.len(),
        forall|i: int| 0 <= i < keys.len() ==> (#[trigger] keys[i])@ == seed.locations@[i].key@,
        forall|i: int| 0 <= i < keys.len() ==> keys[i]@ != seed.routes@[x].from_key@ || forall|i: int|
            0 <= i < keys.len() ==> keys[i]@ != seed.routes@[x].to_key@,
    ensures
        !routes_resolve(seed),
{
    if routes_resolve(seed) {
        assert(is_location_key(seed, seed.routes@[x].from_key@));
        assert(is_location_key(seed, seed.routes@[x].to_key@));
        let a = choose|l: int| 0 <= l < seed.locations@.len() && (#[trigger] seed.locations@[l]).key@ == seed.routes@[x].from_key@;
        let b = choose|l: int| 0 <= l < seed.locations@.len() && (#[trigger] seed.locations@[l]).key@ == seed.routes@[x].to_key@;
        assert(keys[a]@ == seed.routes@[x].from_key@);
        assert(keys[b]@ == seed.routes@[x].to_key@);
    }
}

/// The design under a key, if any.
fn design_for(keys: &Vec<String>, ids: &Vec<DesignId>, key: &String) -> (r: Option<DesignId>)
    requires
        keys@.len() == ids@.len(),
    ensures
        r is Some ==> exists|i: int| 0 <= i < keys@.len() && (#[trigger] keys@[i])@ == key@,
        r is None <==> forall|i: int| 0 <= i < keys@.len() ==> keys@[i]@ != key@,
        r matches Some(d) ==> exists|i: int| #[trigger] last_key(keys@, key@, i) && ids@[i] == d,
{
    match find_key(keys, key) {
        Some(i) => {
            proof {
                assert(last_key(keys@, key@, i as int));
            }
            Some(ids[i])
        },
        None => None,
    }
}

/// What every faction shares: the material chains, the mech assembly
/// tooling design, and the keyed designs.
pub struct SeedShared {
    chains: Vec<TieredChainHandles>,
    assembly_tooling_design: DesignId,
    design_keys: Vec<String>,
    design_ids: Vec<DesignId>,
}

/// One faction's home economy: city and tax, a finite yield per material,
/// refineries and a tooled assembly line, a standing TO&E goal and one
/// starting formation per TO&E role built from seeded assets.
fn seed_faction(
    w: &mut World,
    seed: &WorldSeedFile,
    f: &FactionSeed,
    owner: ActorId,
    home: LocationId,
    shared: &SeedShared,
) -> (r: Result<(), String>)
    requires
        old(w).wf(),
        shared.design_keys@.len() == shared.design_ids@.len(),
        forall|i: int| 0 <= i < shared.chains@.len() ==> #[trigger] shared.chains@[i].commodities@.len() > 0,
        forall|i: int| 0 <= i < shared.design_keys@.len() ==> is_design_key(seed, (#[trigger] shared.design_keys@[i])@),
    ensures
        final(w).wf(),
        final(w)@.seed == old(w)@.seed,
        r is Ok ==> forall|t: int| 0 <= t < f.toe@.len() ==> is_design_key(seed, (#[trigger] f.toe@[t]).design_key@),
        r is Ok ==> faction_progress(old(w)@, final(w)@, *f, owner, home, shared.chains@.len() as int),
        r is Ok ==> forces_seeded(final(w)@, *f, owner, home, seed.economy.refineries_per_faction + 1),
        crate::invariants::consistent(old(w)@) ==> crate::invariants::consistent(final(w)@),
{
    let key = f.key.as_str();
    let ghost o = w@;
    if !room(w, 2) {
        return Err(exhausted());
    }
    match w.configure_city(home, f.population, Some(owner), Vec::new()) {
        Ok(_) => {},
        Err(e) => {
            return Err(about("faction", key, e.text().as_str()));
        },
    }
    match w.set_tax_rate(home, f.tax_rate_per_capita) {
        Ok(_) => {},
        Err(e) => {
            return Err(about("faction", key, e.text().as_str()));
        },
    }
    proof {
        assert(w@.locations =~= o.locations.insert(home.0, w@.locations[home.0]));
    }
    let mut c: usize = 0;
    while c < shared.chains.len()
        invariant
            w.wf(),
            w@.seed == old(w)@.seed,
            o == old(w)@,
            c <= shared.chains@.len(),
            forall|i: int| 0 <= i < shared.chains@.len() ==> #[trigger] shared.chains@[i].commodities@.len() > 0,
            faction_progress(o, w@, *f, owner, home, c as int),
            crate::invariants::consistent(old(w)@) ==> crate::invariants::consistent(w@),
        decreases shared.chains@.len() - c,
    {
        if !room(w, 1) {
            return Err(exhausted());
        }
        let raw = shared.chains[c].commodities[0];
        let reserves = MineReserves::Finite { remaining: seed.economy.mine_starting_reserve };
        match w.add_location_yield(home, raw, seed.economy.mine_yield_per_day, reserves) {
            Ok(_) => {},
            Err(e) => {
                return Err("faction ".to_owned().concat(quoted(key).as_str()).concat(" yield: ").concat(e.text().as_str()));
            },
        }
        proof {
            assert(w@.locations =~= o.locations.insert(home.0, w@.locations[home.0]));
        }
        c = c + 1;
    }
    let ghost mut facs: Seq<u64> = Seq::empty();
    let mut n: u32 = 0;
    while n < seed.economy.refineries_per_faction
        invariant
            w.wf(),
            w@.seed == old(w)@.seed,
            o == old(w)@,
            n <= seed.economy.refineries_per_faction,
            faction_progress(o, w@, *f, owner, home, shared.chains@.len() as int),
            facs.len() == n,
            factories_seeded(w@, facs, owner, home),
            forall|i: int| 0 <= i < facs.len() ==> !o.factories.dom().contains(#[trigger] facs[i]),
            crate::invariants::consistent(old(w)@) ==> crate::invariants::consistent(w@),
        decreases seed.economy.refineries_per_faction - n,
    {
        let ghost before = w@;
        let fac = seed_operational_factory(w, owner, home, f.name.as_str())?;
        proof {
            lemma_seed_step(o, before, w@, *f, owner, home, shared.chains@.len() as int, facs, facs, 0);
            lemma_factories_grow(before, w@, facs, fac.0, owner, home);
            assert(!o.factories.dom().contains(fac.0));
            facs = facs.push(fac.0);
        }
        n = n + 1;
    }
    let ghost before = w@;
    let assembly_factory = seed_operational_factory(w, owner, home, f.name.as_str())?;
    proof {
        lemma_seed_step(o, before, w@, *f, owner, home, shared.chains@.len() as int, facs, facs, 0);
        lemma_factories_grow(before, w@, facs, assembly_factory.0, owner, home);
        assert(!o.factories.dom().contains(assembly_factory.0));
        facs = facs.push(assembly_factory.0);
    }
    if !room(w, 3) {
        return Err(exhausted());
    }
    let tooling_note = f.name.clone().concat(" pre-war assembly line");
    let tooling = match w.seed_asset(
        owner,
        shared.assembly_tooling_design,
        home,
        QualityGrade::Standard,
        AssetOrigin::SeededHistorical { note: tooling_note },
        None,
    ) {
        Ok(t) => t,
        Err(e) => {
            return Err("faction ".to_owned().concat(quoted(key).as_str()).concat(" assembly tooling: ").concat(e.text().as_str()));
        },
    };
    let ghost before_tooling = w@;
    match w.install_tooling(assembly_factory, tooling, 0, 0) {
        Ok(_) => {},
        Err(e) => {
            return Err("faction ".to_owned().concat(quoted(key).as_str()).concat(" assembly tooling: ").concat(e.text().as_str()));
        },
    }
    proof {
        assert forall|i: int| 0 <= i < facs.len() implies operational_seed_factory(w@, FactoryId(#[trigger] facs[i]), owner, home) by {
            assert(operational_seed_factory(before_tooling, FactoryId(facs[i]), owner, home));
        }
        assert(factories_seeded(w@, facs, owner, home));
    }
    let mut toe_slots: Vec<ToeSlot> = Vec::new();
    let mut designs: Vec<DesignId> = Vec::new();
    let mut j: usize = 0;
    while j < f.toe.len()
        invariant
            w.wf(),
            w@.seed == old(w)@.seed,
            shared.design_keys@.len() == shared.design_ids@.len(),
            forall|i: int| 0 <= i < shared.design_keys@.len() ==> is_design_key(seed, (#[trigger] shared.design_keys@[i])@),
            j <= f.toe@.len(),
            designs@.len() == j,
            forall|t: int| 0 <= t < j ==> is_design_key(seed, (#[trigger] f.toe@[t]).design_key@),
            crate::invariants::consistent(old(w)@) ==> crate::invariants::consistent(w@),
        decreases f.toe@.len() - j,
    {
        let slot = &f.toe[j];
        let design = match design_for(&shared.design_keys, &shared.design_ids, &slot.design_key) {
            Some(d) => {
                proof {
                    let m = choose|m: int|
                        0 <= m < shared.design_keys@.len() && (#[trigger] shared.design_keys@[m])@ == slot.design_key@;
                    assert(is_design_key(seed, shared.design_keys@[m]@));
                }
                d
            },
            None => {
                return Err(
                    "faction ".to_owned().concat(quoted(key).as_str()).concat(" TO&E: unknown design_key ").concat(
                        quoted(slot.design_key.as_str()).as_str(),
                    ),
                );
            },
        };
        toe_slots.push(ToeSlot { role: slot.role.clone(), design, count: slot.count });
        designs.push(design);
        j = j + 1;
    }
    if !room(w, 2) {
        return Err(exhausted());
    }
    let template_name = f.name.clone().concat(" TO&E");
    let template: ToeTemplateId = w.define_toe_template(template_name.as_str(), f.doctrine.as_str(), toe_slots);
    let ghost mut fms: Seq<u64> = Seq::empty();
    let mut k: usize = 0;
    while k < f.toe.len()
        invariant
            w.wf(),
            w@.seed == old(w)@.seed,
            o == old(w)@,
            k <= f.toe@.len(),
            designs@.len() == f.toe@.len(),
            faction_progress(o, w@, *f, owner, home, shared.chains@.len() as int),
            facs.len() == seed.economy.refineries_per_faction + 1,
            factories_seeded(w@, facs, owner, home),
            fms.len() == k,
            forall|t: int|
                0 <= t < k ==> #[trigger] formation_seeded(w@, fms[t], owner, home, *f, t),
            crate::invariants::consistent(old(w)@) ==> crate::invariants::consistent(w@),
        decreases f.toe@.len() - k,
    {
        let slot = &f.toe[k];
        let design = designs[k];
        let mut m: u32 = 0;
        while m < slot.count
            invariant
                w.wf(),
                w@.seed == old(w)@.seed,
                o == old(w)@,
                faction_progress(o, w@, *f, owner, home, shared.chains@.len() as int),
                factories_seeded(w@, facs, owner, home),
                fms.len() == k,
                k < f.toe@.len(),
                forall|t: int|
                    0 <= t < k ==> #[trigger] formation_seeded(w@, fms[t], owner, home, *f, t),
                crate::invariants::consistent(old(w)@) ==> crate::invariants::consistent(w@),
            decreases slot.count - m,
        {
            if !room(w, 2) {
                return Err(exhausted());
            }
            let note = f.name.clone().concat(" pre-war garrison");
            let ghost before = w@;
            match w.seed_asset(owner, design, home, QualityGrade::Standard, AssetOrigin::SeededHistorical { note }, None) {
                Ok(_) => {},
                Err(e) => {
                    return Err(
                        "faction ".to_owned().concat(quoted(key).as_str()).concat(": seeding ").concat(
                            quoted(slot.design_key.as_str()).as_str(),
                        ).concat(": ").concat(e.text().as_str()),
                    );
                },
            }
            proof {
                lemma_seed_step(o, before, w@, *f, owner, home, shared.chains@.len() as int, facs, fms, k as int);
            }
            m = m + 1;
        }
        if !room(w, 2) {
            return Err(exhausted());
        }
        let squad_name = f.name.clone().concat(" ").concat(slot.role.as_str()).concat(" Squad");
        let mut squad: Vec<ToeSlot> = Vec::new();
        squad.push(ToeSlot { role: slot.role.clone(), design, count: slot.count });
        let ghost before = w@;
        let role_template = w.define_toe_template(squad_name.as_str(), f.doctrine.as_str(), squad);
        proof {
            lemma_seed_step(o, before, w@, *f, owner, home, shared.chains@.len() as int, facs, fms, k as int);
        }
        if !room_to_assemble(w) {
            return Err(exhausted());
        }
        let formation_name = f.name.clone().concat(" ").concat(slot.role.as_str());
        let ghost before = w@;
        let ghost before_keys = w.asset_keys();
        let formation = match w.try_assemble_formation(owner, role_template, formation_name.as_str(), home) {
            Ok(fm) => fm,
            Err(e) => {
                return Err(
                    "faction ".to_owned().concat(quoted(key).as_str()).concat(": assembling ").concat(
                        quoted(slot.role.as_str()).as_str(),
                    ).concat(": ").concat(e.text().as_str()),
                );
            },
        };
        proof {
            let plan = crate::toe::assemble_plan(
                before,
                owner,
                home,
                before.toe_templates[role_template.0].slots@,
                before_keys,
            );
            let fm = w@.formations[formation.0];
            let inner = WorldView {
                formations: before.formations.insert(
                    formation.0,
                    crate::toe::Formation {
                        id: formation,
                        owner,
                        template: role_template,
                        name: fm.name,
                        assets: fm.assets,
                        state: FormationState::Stationed { at: home },
                        formed_day: before.clock.day,
                    },
                ),
                ..before.bump()
            };
            crate::convoys::lemma_assets_moved_frame(inner, plan.0, crate::locations::LocationRef::Formation(formation));
            assert(!before.formations.dom().contains(formation.0));
            let slots = before.toe_templates[role_template.0].slots@;
            assert(slots.len() == 1);
            assert(slots.last().count == f.toe@[k as int].count);
            assert(slots.drop_last().len() == 0);
            assert(crate::toe::assemble_plan(before, owner, home, slots.drop_last(), before_keys) == (
            Seq::<crate::ids::AssetId>::empty(),
            Seq::<(DesignId, u32, Seq<char>)>::empty(),
            ));
            assert(fm.assets@.len() >= f.toe@[k as int].count);
            assert(seed_frame(before, w@));
            lemma_seed_step(o, before, w@, *f, owner, home, shared.chains@.len() as int, facs, fms, k as int);
            assert(formation_seeded(w@, formation.0, owner, home, *f, k as int));
            fms = fms.push(formation.0);
            assert forall|t: int| 0 <= t < k + 1 implies #[trigger] formation_seeded(
                w@,
                fms[t],
                owner,
                home,
                *f,
                t,
            ) by {
                if t < k {
                    assert(fms[t] == fms.drop_last()[t]);
                }
            }
        }
        k = k + 1;
    }
    if !room(w, 2) {
        return Err(exhausted());
    }
    let ghost before = w@;
    match w.set_faction_goal(owner, template, home) {
        Ok(_) => {},
        Err(e) => {
            return Err(about("faction", key, e.text().as_str()));
        },
    }
    proof {
        lemma_seed_step(o, before, w@, *f, owner, home, shared.chains@.len() as int, facs, fms, f.toe@.len() as int);
        assert(factories_seeded(w@, facs, owner, home));
        assert forall|t: int| 0 <= t < f.toe@.len() implies #[trigger] toe_formation_seeded(w@, *f, owner, home, t) by {
            assert(formation_seeded(w@, fms[t], owner, home, *f, t));
        }
    }
    Ok(())
}


/// No later faction of the seed names the same home as faction `x`.
pub open spec fn home_unshared(seed: &WorldSeedFile, x: int) -> bool {
    forall|y: int|
        x < y < seed.factions@.len() ==> (#[trigger] seed.factions@[y]).home_location_key@
            != seed.factions@[x].home_location_key@
}

/// Actor `a` stands for seed faction `f`: it has the faction's name, kind
/// and starting treasury.
pub open spec fn faction_actor(v: WorldView, f: FactionSeed, a: ActorId) -> bool {
    &&& v.actors.dom().contains(a.0)
    &&& v.actors[a.0].name@ == f.name@
    &&& v.actors[a.0].kind == f.kind
    &&& v.actors[a.0].treasury == f.starting_treasury
}

/// Location entry `i` of the seed names faction entry `x`, the last under
/// its key, as its controller.
pub open spec fn names_controller(seed: &WorldSeedFile, i: int, x: int) -> bool {
    &&& seed.locations@[i].controller_key matches Some(k) && k@ == seed.factions@[x].key@
    &&& forall|y: int| x < y < seed.factions@.len() ==> (#[trigger] seed.factions@[y]).key@ != seed.factions@[x].key@
}

/// Location entry `i` is the last one under faction `x`'s home key.
pub open spec fn home_entry(seed: &WorldSeedFile, x: int, i: int) -> bool {
    &&& seed.locations@[i].key@ == seed.factions@[x].home_location_key@
    &&& forall|j: int|
        i < j < seed.locations@.len() ==> (#[trigger] seed.locations@[j]).key@ != seed.factions@[x].home_location_key@
}

/// Faction `x` of the seed stands in `v` as actor `a` with home site `h`:
/// the actor carries the faction's name, kind and treasury; the refineries
/// plus the assembly line stand operational at `h`, with one stationed
/// formation per TO&E entry; and where no later faction names the same
/// home, `h` is the city the faction configured, with a yield line per
/// material; and where the seed's entry for that home names the faction
/// as controller, it controls `h`.
pub open spec fn faction_seeded(v: WorldView, seed: &WorldSeedFile, x: int, a: ActorId, h: LocationId) -> bool {
    let f = seed.factions@[x];
    &&& faction_actor(v, f, a)
    &&& forces_seeded(v, f, a, h, seed.economy.refineries_per_faction + 1)
    &&& home_unshared(seed, x) ==> home_seeded(v, f, a, h, seed.materials@.len() as int)
    &&& forall|i: int|
        0 <= i < seed.locations@.len() && #[trigger] home_entry(seed, x, i) && names_controller(seed, i, x)
            ==> v.locations[h.0].controller == Some(a)
}

/// Faction `x` of the seed stands in `v` under some actor and home site.
pub open spec fn faction_built(v: WorldView, seed: &WorldSeedFile, x: int) -> bool {
    exists|a: ActorId, h: LocationId| #[trigger] faction_seeded(v, seed, x, a, h)
}

/// No faction starts in debt.
pub open spec fn treasuries_sound(seed: &WorldSeedFile) -> bool {
    forall|x: int| 0 <= x < seed.factions@.len() ==> #[trigger] seed.factions@[x].starting_treasury >= 0
}

/// Build a real world from a seed description: material chains, the shared
/// mech design with its assembly tooling and recipe, hand-authored designs,
/// locations and routes, factions and their controlled sites, and each
/// faction's home economy, in that order. Unknown keys are reported as
/// errors naming the entry. A sound seed without factions always builds.
pub fn build_world(seed: &WorldSeedFile) -> (r: Result<World, String>)
    requires
        seed.materials@.len() > 0 && seed.factions@.len() > 0 ==> seed.tier_names@.len() > 0,
    ensures
        r matches Ok(w) ==> w.wf() && w@.seed == seed.seed,
        r is Ok ==> keys_resolve(seed),
        r is Ok ==> crate::assets::slot_count_ok(AssetKind::Mech, seed.materials@.len() as int),
        simple_seed(seed) ==> r is Ok,
        r matches Ok(w) ==> forall|x: int| 0 <= x < seed.factions@.len() ==> #[trigger] faction_built(w@, seed, x),
        treasuries_sound(seed) ==> (r matches Ok(w) ==> crate::invariants::consistent(w@)),
{
    let mut w = World::new(seed.seed);
    proof {
        crate::invariants::lemma_empty_consistent(w@);
    }
    proof {
        let tt = seed.tier_names@.len();
        let mm = seed.materials@.len();
        if simple_seed(seed) {
            assert(tt * mm <= 0x1_0000 * 0x1_0000) by (nonlinear_arith)
                requires
                    tt <= 0x1_0000,
                    mm <= 0x1_0000,
            ;
        }
    }
    let chains = seed_materials(&mut w, seed)?;
    let mat_keys = material_keys(seed);
    let ghost after_materials = w@;
    let mut mech_slots: Vec<ComponentSlot> = Vec::new();
    let mut assembly: Vec<ComponentRequirement> = Vec::new();
    let mut i: usize = 0;
    while i < chains.len()
        invariant
            i <= chains@.len(),
            chains@.len() == seed.materials@.len(),
            mech_slots@.len() == i,
        decreases chains@.len() - i,
    {
        mech_slots.push(
            ComponentSlot {
                name: seed.materials[i].component_role.clone(),
                accepts: crate::table::copy_slice(chains[i].component_defs.as_slice()),
            },
        );
        assembly.push(chains[i].any_tier_requirement(1));
        i = i + 1;
    }
    if !room(&w, 6) {
        return Err(exhausted());
    }
    let universal_mech = match w.define_design("Universal Mech", AssetKind::Mech, mech_slots, None, None) {
        Ok(d) => d,
        Err(e) => {
            return Err("universal mech design: ".to_owned().concat(e.text().as_str()));
        },
    };
    let assembly_tooling_design = match w.define_design(
        "Universal Mech Assembly Line",
        AssetKind::FactoryTooling,
        Vec::new(),
        None,
        Some(universal_mech),
    ) {
        Ok(d) => d,
        Err(e) => {
            return Err("universal mech assembly tooling design: ".to_owned().concat(e.text().as_str()));
        },
    };
    w.define_recipe(
        "Assemble Universal Mech",
        Vec::new(),
        assembly,
        RecipeOutputs::SerialAssets { design: universal_mech, count: 1 },
        seed.economy.assembly_duration_days,
        Some(assembly_tooling_design),
    );
    proof {
        if simple_seed(seed) {
            assert(w@.commodities == after_materials.commodities);
            assert forall|d: int| 0 <= d < seed.designs@.len() implies #[trigger] design_ok(seed, mat_keys@, chains@, d) by {
                assert forall|j: int| 0 <= j < seed.designs@[d].slots@.len() implies #[trigger] slot_def_ok(
                    mat_keys@,
                    chains@,
                    seed.designs@[d].slots@[j].component_def_key@,
                ) by {
                    let k = seed.designs@[d].slots@[j].component_def_key@;
                    assert(is_material_key(seed, k));
                    let x = choose|x: int| 0 <= x < seed.materials@.len() && (#[trigger] seed.materials@[x]).key@ == k;
                    assert(mat_keys@[x]@ == k);
                    let y = lemma_last_key_exists(mat_keys@, k, x);
                    assert(chains@[y].component_defs@.len() == seed.tier_names@.len());
                }
            }
        }
    }
    let (design_keys, design_ids) = seed_designs(&mut w, seed, &mat_keys, &chains, universal_mech)?;
    proof {
        if simple_seed(seed) {
            let v = w@;
            assert forall|l: int| 0 <= l < seed.locations@.len() implies #[trigger] location_ok(seed, mat_keys@, chains@, v, l) by {
                lemma_locations_cost_bound(seed, l);
                match seed.locations@[l].yields_material_key {
                    Some(k) => {
                        assert(is_material_key(seed, k@));
                        let x = choose|x: int| 0 <= x < seed.materials@.len() && (#[trigger] seed.materials@[x]).key@ == k@;
                        assert(mat_keys@[x]@ == k@);
                        let y = lemma_last_key_exists(mat_keys@, k@, x);
                        assert(chains@[y].commodities@.len() == seed.tier_names@.len());
                        assert(chains@[y].component_defs@.len() == seed.tier_names@.len());
                        assert(v.commodities.dom().contains(chains@[y].commodities@[0].0));
                        assert(yield_ok(mat_keys@, chains@, v, k@));
                    },
                    None => {},
                }
            }
        }
    }
    let (loc_keys, loc_ids) = seed_locations(&mut w, seed, &mat_keys, &chains)?;
    proof {
        if simple_seed(seed) {
            lemma_locations_cost_bound(seed, seed.locations@.len() as int);
            assert forall|x: int| 0 <= x < seed.routes@.len() implies #[trigger] route_ok(seed, loc_keys@, loc_ids@, x) by {
                let rt = seed.routes@[x];
                assert forall|a: int, b: int|
                    last_key(loc_keys@, rt.from_key@, a) && last_key(loc_keys@, rt.to_key@, b) implies #[trigger] loc_ids@[a]
                    != #[trigger] loc_ids@[b] by {
                    assert(a != b);
                    if a < b {
                        assert(loc_ids@[a].0 < loc_ids@[b].0);
                    } else {
                        assert(loc_ids@[b].0 < loc_ids@[a].0);
                    }
                }
            }
        }
    }
    seed_routes(&mut w, seed, &loc_keys, &loc_ids)?;
    let mut faction_keys: Vec<String> = Vec::new();
    let mut faction_ids: Vec<ActorId> = Vec::new();
    let mut f: usize = 0;
    while f < seed.factions.len()
        invariant
            w.wf(),
            w@.seed == seed.seed,
            f <= seed.factions@.len(),
            faction_keys@.len() == f,
            faction_ids@.len() == f,
            forall|x: int| 0 <= x < faction_keys@.len() ==> (#[trigger] faction_keys@[x])@ == seed.factions@[x].key@,
            forall|x: int| 0 <= x < f ==> faction_actor(w@, seed.factions@[x], #[trigger] faction_ids@[x]),
            treasuries_sound(seed) ==> crate::invariants::consistent(w@) && 0 <= w@.money_issued <= f * i64::MAX,
            forall|x: int| 0 <= x < loc_ids@.len() ==> w@.locations.dom().contains((#[trigger] loc_ids@[x]).0),
        decreases seed.factions@.len() - f,
    {
        if !room(&w, 2) {
            return Err(exhausted());
        }
        let fs = &seed.factions[f];
        let ghost before = w@;
        proof {
            if treasuries_sound(seed) {
                assert(seed.factions@[f as int].starting_treasury >= 0);
                assert((f + 1) * i64::MAX <= 0xFFFF_FFFF_FFFF_FFFFint * i64::MAX) by (nonlinear_arith)
                    requires
                        f + 1 <= 0xFFFF_FFFF_FFFF_FFFFint,
                ;
                assert(f * i64::MAX + i64::MAX == (f + 1) * i64::MAX) by (nonlinear_arith);
            }
        }
        let id = w.create_actor(fs.name.as_str(), fs.kind, fs.starting_treasury);
        faction_keys.push(fs.key.clone());
        faction_ids.push(id);
        proof {
            assert forall|x: int| 0 <= x < f + 1 implies faction_actor(w@, seed.factions@[x], #[trigger] faction_ids@[x]) by {
                if x < f {
                    assert(faction_actor(before, seed.factions@[x], faction_ids@[x]));
                    assert(before.actors.dom().contains(faction_ids@[x].0));
                }
            }
        }
        f = f + 1;
    }
    let mut l: usize = 0;
    while l < seed.locations.len()
        invariant
            w.wf(),
            w@.seed == seed.seed,
            l <= seed.locations@.len(),
            loc_keys@.len() == loc_ids@.len(),
            loc_keys@.len() == seed.locations@.len(),
            faction_keys@.len() == faction_ids@.len(),
            faction_keys@.len() == seed.factions@.len(),
            forall|x: int| 0 <= x < faction_keys@.len() ==> (#[trigger] faction_keys@[x])@ == seed.factions@[x].key@,
            forall|x: int|
                0 <= x < l ==> ((#[trigger] seed.locations@[x]).controller_key matches Some(k) ==> is_faction_key(
                    seed,
                    k@,
                )),
            forall|x: int| 0 <= x < seed.factions@.len() ==> faction_actor(w@, seed.factions@[x], #[trigger] faction_ids@[x]),
            forall|i: int, j: int| 0 <= i < j < loc_ids@.len() ==> (#[trigger] loc_ids@[i]).0 < (#[trigger] loc_ids@[j]).0,
            forall|x: int| 0 <= x < loc_keys@.len() ==> (#[trigger] loc_keys@[x])@ == seed.locations@[x].key@,
            chains@.len() == seed.materials@.len(),
            treasuries_sound(seed) ==> crate::invariants::consistent(w@),
            forall|i: int| 0 <= i < loc_ids@.len() ==> w@.locations.dom().contains((#[trigger] loc_ids@[i]).0),
            forall|i: int, x: int|
                0 <= i < l && 0 <= x < seed.factions@.len() && #[trigger] names_controller(seed, i, x)
                    ==> w@.locations[loc_ids@[i].0].controller == Some(faction_ids@[x]),
        decreases seed.locations@.len() - l,
    {
        let ls = &seed.locations[l];
        let ghost before = w@;
        match &ls.controller_key {
            None => {},
            Some(controller_key) => {
                let site = loc_ids[l];
                let ghost mut cx: int = 0;
                let controller = match find_key(&faction_keys, controller_key) {
                    Some(x) => {
                        proof {
                            assert(seed.factions@[x as int].key@ == controller_key@);
                            cx = x as int;
                        }
                        faction_ids[x]
                    },
                    None => {
                        return Err(
                            about(
                                "location",
                                ls.key.as_str(),
                                "unknown controller_key ".to_owned().concat(quoted(controller_key.as_str()).as_str()).as_str(),
                            ),
                        );
                    },
                };
                if !room(&w, 1) {
                    return Err(exhausted());
                }
                match w.set_territory_controller(site, Some(controller)) {
                    Ok(_) => {},
                    Err(e) => {
                        return Err(about("location", ls.key.as_str(), e.text().as_str()));
                    },
                }
                proof {
                    assert forall|i: int, x: int|
                        0 <= i < l + 1 && 0 <= x < seed.factions@.len() && #[trigger] names_controller(seed, i, x)
                            implies w@.locations[loc_ids@[i].0].controller == Some(faction_ids@[x]) by {
                        if i == l {
                            if x < cx {
                                assert(seed.factions@[cx].key@ == seed.factions@[x].key@);
                            } else if x > cx {
                                assert(faction_keys@[x]@ == seed.factions@[x].key@);
                            }
                        } else {
                            assert(loc_ids@[i].0 < loc_ids@[l as int].0);
                            assert(before.locations.dom().contains(loc_ids@[i].0));
                        }
                    }
                }
            },
        }
        l = l + 1;
    }
    let shared = SeedShared { chains, assembly_tooling_design, design_keys, design_ids };
    proof {
        if seed.factions@.len() > 0 {
            assert forall|i: int| 0 <= i < shared.chains@.len() implies #[trigger] shared.chains@[i].commodities@.len()
                > 0 by {
                assert(seed.materials@.len() > 0);
            }
        }
    }
    let ghost mut homes: Seq<LocationId> = Seq::empty();
    let ghost mut hidx: Seq<int> = Seq::empty();
    let mut g: usize = 0;
    while g < seed.factions.len()
        invariant
            w.wf(),
            w@.seed == seed.seed,
            g <= seed.factions@.len(),
            faction_ids@.len() == seed.factions@.len(),
            loc_keys@.len() == loc_ids@.len(),
            loc_keys@.len() == seed.locations@.len(),
            forall|x: int| 0 <= x < loc_keys@.len() ==> (#[trigger] loc_keys@[x])@ == seed.locations@[x].key@,
            shared.design_keys@.len() == shared.design_ids@.len(),
            forall|i: int| 0 <= i < shared.design_keys@.len() ==> is_design_key(seed, (#[trigger] shared.design_keys@[i])@),
            forall|x: int| 0 <= x < g ==> faction_resolves(seed, #[trigger] &seed.factions@[x]),
            seed.factions@.len() > 0 ==> forall|i: int|
                0 <= i < shared.chains@.len() ==> #[trigger] shared.chains@[i].commodities@.len() > 0,
            forall|x: int| 0 <= x < seed.factions@.len() ==> faction_actor(w@, seed.factions@[x], #[trigger] faction_ids@[x]),
            forall|i: int, j: int| 0 <= i < j < loc_ids@.len() ==> (#[trigger] loc_ids@[i]).0 < (#[trigger] loc_ids@[j]).0,
            shared.chains@.len() == seed.materials@.len(),
            homes.len() == g,
            hidx.len() == g,
            forall|x: int|
                0 <= x < g ==> 0 <= #[trigger] hidx[x] < loc_ids@.len() && homes[x] == loc_ids@[hidx[x]]
                    && loc_keys@[hidx[x]]@ == seed.factions@[x].home_location_key@ && forall|j: int|
                    hidx[x] < j < loc_keys@.len() ==> loc_keys@[j]@ != seed.factions@[x].home_location_key@,
            forall|i: int| 0 <= i < loc_ids@.len() ==> w@.locations.dom().contains((#[trigger] loc_ids@[i]).0),
            forall|i: int, x: int|
                0 <= i < seed.locations@.len() && 0 <= x < seed.factions@.len() && #[trigger] names_controller(seed, i, x)
                    ==> w@.locations[loc_ids@[i].0].controller == Some(faction_ids@[x]),
            forall|x: int|
                0 <= x < g ==> forces_seeded(
                    w@,
                    seed.factions@[x],
                    faction_ids@[x],
                    #[trigger] homes[x],
                    seed.economy.refineries_per_faction + 1,
                ),
            forall|x: int|
                0 <= x < g ==> home_unshared(seed, x) ==> home_seeded(
                    w@,
                    seed.factions@[x],
                    faction_ids@[x],
                    #[trigger] homes[x],
                    seed.materials@.len() as int,
                ),
            treasuries_sound(seed) ==> crate::invariants::consistent(w@),
        decreases seed.factions@.len() - g,
    {
        let fs = &seed.factions[g];
        let owner = faction_ids[g];
        let ghost mut hi: int = 0;
        let home = match find_key(&loc_keys, &fs.home_location_key) {
            Some(x) => {
                proof {
                    assert(seed.locations@[x as int].key@ == fs.home_location_key@);
                    hi = x as int;
                }
                loc_ids[x]
            },
            None => {
                return Err(
                    about(
                        "faction",
                        fs.key.as_str(),
                        "unknown home_location_key ".to_owned().concat(quoted(fs.home_location_key.as_str()).as_str()).as_str(),
                    ),
                );
            },
        };
        let ghost before = w@;
        seed_faction(&mut w, seed, fs, owner, home, &shared)?;
        proof {
            assert(faction_resolves(seed, &seed.factions@[g as int]));
            assert forall|x: int| 0 <= x < g implies forces_seeded(
                w@,
                seed.factions@[x],
                faction_ids@[x],
                #[trigger] homes[x],
                seed.economy.refineries_per_faction + 1,
            ) by {
                lemma_forces_kept(before, w@, seed.factions@[x], faction_ids@[x], homes[x], seed.economy.refineries_per_faction + 1);
            }
            assert forall|x: int| 0 <= x < g && home_unshared(seed, x) implies home_seeded(
                w@,
                seed.factions@[x],
                faction_ids@[x],
                #[trigger] homes[x],
                seed.materials@.len() as int,
            ) by {
                assert(seed.factions@[g as int].home_location_key@ != seed.factions@[x].home_location_key@);
                assert(hidx[x] != hi);
                if hidx[x] < hi {
                    assert(loc_ids@[hidx[x]].0 < loc_ids@[hi].0);
                } else {
                    assert(loc_ids@[hi].0 < loc_ids@[hidx[x]].0);
                }
                assert(w@.locations[homes[x].0] == before.locations[homes[x].0]);
            }
            assert forall|i: int, x: int|
                0 <= i < seed.locations@.len() && 0 <= x < seed.factions@.len() && #[trigger] names_controller(seed, i, x)
                    implies w@.locations[loc_ids@[i].0].controller == Some(faction_ids@[x]) by {
                assert(before.locations[loc_ids@[i].0].controller == Some(faction_ids@[x]));
            }
            assert forall|i: int| 0 <= i < loc_ids@.len() implies w@.locations.dom().contains((#[trigger] loc_ids@[i]).0) by {
                assert(before.locations.dom().contains(loc_ids@[i].0));
            }
            homes = homes.push(home);
            hidx = hidx.push(hi);
            assert(forces_seeded(w@, seed.factions@[g as int], faction_ids@[g as int], homes[g as int], seed.economy.refineries_per_faction + 1));
            assert forall|x: int| 0 <= x < g + 1 implies 0 <= #[trigger] hidx[x] < loc_ids@.len() && homes[x] == loc_ids@[hidx[x]]
                && loc_keys@[hidx[x]]@ == seed.factions@[x].home_location_key@ && forall|j: int|
                hidx[x] < j < loc_keys@.len() ==> loc_keys@[j]@ != seed.factions@[x].home_location_key@ by {
                if x < g {
                    assert(hidx[x] == hidx.drop_last()[x]);
                    assert(homes[x] == homes.drop_last()[x]);
                }
            }
        }
        g = g + 1;
    }
    proof {
        assert forall|x: int| 0 <= x < seed.factions@.len() implies #[trigger] faction_built(w@, seed, x) by {
            assert(faction_actor(w@, seed.factions@[x], faction_ids@[x]));
            assert(forces_seeded(w@, seed.factions@[x], faction_ids@[x], homes[x], seed.economy.refineries_per_faction + 1));
            assert forall|i: int|
                0 <= i < seed.locations@.len() && #[trigger] home_entry(seed, x, i) && names_controller(seed, i, x)
                    implies w@.locations[homes[x].0].controller == Some(faction_ids@[x]) by {
                let hx = hidx[x];
                if i < hx {
                    assert(seed.locations@[hx].key@ == loc_keys@[hx]@);
                } else if i > hx {
                    assert(loc_keys@[i]@ == seed.locations@[i].key@);
                }
            }
            assert(faction_seeded(w@, seed, x, faction_ids@[x], homes[x]));
        }
    }
    Ok(w)
}

} // verus!
