//! Concrete checks of the library's formulas, error cases and laws.

use adona_sim::actors::ActorKind;
use adona_sim::assets::{AssetKind, AssetOrigin, ComponentCategory};
use adona_sim::content::TieredChainSpec;
use adona_sim::events::{Event, EventKind};
use adona_sim::goods::{LegalStatus, LotOrigin, QualityGrade, UnitOfMeasure};
use adona_sim::ids::{CommodityId, ComponentDefId, ComponentId, EventId, LotId};
use adona_sim::locations::{population_after, unrest_after, CivilianNeed, LocationKind, MineReserves};
use adona_sim::markets::OrderScope;
use adona_sim::production::{recipe_offer_from_inventory, ComponentRequirement, JobState, Recipe, RecipeOutputs};
use adona_sim::ids::RecipeId;
use adona_sim::seed::{build_world, DesignSeed, EconomySeed, FactionSeed, LocationSeed, MaterialSeed, RouteSeed, SlotSeed, ToeSlotSeed, WorldSeedFile};
use adona_sim::storage::{parse_quarter, InMemoryStore, SimStore, StorageError};
use adona_sim::tiers::{check_tier, scale_by_tier, tier_multiplier_pct};
use adona_sim::toe::FormationState;
use adona_sim::time::DayQuarter;
use adona_sim::world::fnv1a;
use adona_sim::{SimError, World};

#[test]
fn tier_ladder_bounds_and_curve() {
    assert_eq!(check_tier(1), Ok(1));
    assert_eq!(check_tier(13), Ok(13));
    assert_eq!(check_tier(0), Err(SimError::InvalidTier(0)));
    assert_eq!(check_tier(14), Err(SimError::InvalidTier(14)));
    assert_eq!(tier_multiplier_pct(1), 100);
    assert_eq!(tier_multiplier_pct(13), 280);
    assert_eq!(tier_multiplier_pct(0), 100);
    assert_eq!(tier_multiplier_pct(200), 280);
    assert_eq!(scale_by_tier(10, 3), 13);
    assert_eq!(scale_by_tier(u64::MAX, 13), u64::MAX / 100);
}

#[test]
fn fnv1a_matches_the_reference_digest() {
    assert_eq!(fnv1a(b""), 0xcbf2_9ce4_8422_2325);
    assert_eq!(fnv1a(b"a"), 0xaf63_dc4c_8601_ec8c);
    assert_eq!(fnv1a(b"foobar"), 0x8594_4171_f739_67e8);
    assert_ne!(fnv1a(b"ab"), fnv1a(b"ba"));
}

#[test]
fn quarters_parse_back_and_garbage_is_a_codec_error() {
    assert_eq!(parse_quarter("Q1").ok(), Some(DayQuarter::Q1));
    assert_eq!(parse_quarter("Q4").ok(), Some(DayQuarter::Q4));
    match parse_quarter("Q5") {
        Err(StorageError::Codec(m)) => assert_eq!(m, "unknown quarter \"Q5\""),
        other => panic!("expected a codec error, got {other:?}"),
    }
    assert_eq!(
        StorageError::Backend("down".to_owned()).message(),
        "storage backend error: down"
    );
}

fn event(seq: u64) -> Event {
    Event { id: EventId(seq + 100), seq, day: 0, quarter: DayQuarter::Q1, kind: EventKind::DayAdvanced { day: seq } }
}

#[test]
fn in_memory_store_keeps_events_in_order_and_filters_by_seq() {
    let mut store = InMemoryStore::new();
    assert_eq!(store.load_latest_snapshot().unwrap(), None);
    store.append_events(&[event(0), event(1)]).unwrap();
    store.append_events(&[event(2)]).unwrap();
    let all = store.load_events_from(0).unwrap();
    assert_eq!(all.iter().map(|e| e.seq).collect::<Vec<_>>(), vec![0, 1, 2]);
    let tail = store.load_events_from(2).unwrap();
    assert_eq!(tail, vec![event(2)]);
    assert!(store.load_events_from(3).unwrap().is_empty());
    store.save_snapshot("{}".to_owned()).unwrap();
    store.save_snapshot("{\"day\":3}".to_owned()).unwrap();
    assert_eq!(store.load_latest_snapshot().unwrap(), Some("{\"day\":3}".to_owned()));
}

#[test]
fn unrest_and_population_follow_the_daily_rules() {
    assert_eq!(unrest_after(0, true), 10);
    assert_eq!(unrest_after(95, true), 100);
    assert_eq!(unrest_after(3, false), 0);
    assert_eq!(unrest_after(40, false), 35);
    // Content: +5 basis points. Unrest above 30: -20 basis points.
    assert_eq!(population_after(10_000, 0), 10_005);
    assert_eq!(population_after(10_000, 31), 9_980);
    assert_eq!(population_after(100, 0), 100);
    assert_eq!(population_after(u64::MAX, 0), u64::MAX);
}

#[test]
fn negative_treasury_is_reported_as_a_violation() {
    let mut w = World::new(3);
    assert!(w.check_invariants().is_empty());
    w.create_actor("Debtor", ActorKind::Faction, -5);
    let v = w.check_invariants();
    assert_eq!(v.len(), 1);
    assert_eq!(v[0], "ActorId#1 has negative treasury -5");
}

#[test]
fn tiered_chain_generates_every_tier_and_link() {
    let mut w = World::new(9);
    let base = w.events().len();
    let spec = TieredChainSpec {
        material_name: "Ferrite".to_owned(),
        tier_names: vec!["Crude".to_owned(), "Refined".to_owned(), "Pure".to_owned()],
        unit: UnitOfMeasure::Kilograms,
        base_price: 7,
        component_category: ComponentCategory::MechOrEquipment,
        refine_input_qty: 10,
        refine_output_qty: 8,
        refine_duration_days: 0,
        convert_input_qty: 5,
        convert_duration_days: 2,
    };
    let h = w.generate_tiered_material_chain(&spec);
    assert_eq!(h.commodities.len(), 3);
    assert_eq!(h.component_defs.len(), 3);
    assert_eq!(h.convert_recipes.len(), 3);
    assert_eq!(h.refine_recipes.len(), 2);
    // One id and one event per definition, in order.
    assert_eq!(h.commodities[0], CommodityId(1));
    assert_eq!(h.component_defs[0], ComponentDefId(7));
    assert_eq!(h.convert_recipes[0], RecipeId(13));
    assert_eq!(h.refine_recipes[1], RecipeId(21));
    assert_eq!(w.events().len(), base + 11);
    let c = w.commodity(h.commodities[1]).unwrap();
    assert_eq!(c.name, "Refined Ferrite");
    assert_eq!(c.tier, 2);
    assert_eq!(w.component_def(h.component_defs[2]).unwrap().name, "Pure Ferrite Component");
    let refine = w.recipe(h.refine_recipes[0]).unwrap();
    assert_eq!(refine.name, "Refine Crude Ferrite to Refined Ferrite");
    assert_eq!(refine.inputs, vec![(h.commodities[0], 10)]);
    assert_eq!(refine.outputs, RecipeOutputs::Commodity { commodity: h.commodities[1], quantity: 8 });
    assert_eq!(refine.duration_days, 1);
    let convert = w.recipe(h.convert_recipes[2]).unwrap();
    assert_eq!(convert.name, "Convert Pure Ferrite to Component");
    assert_eq!(convert.outputs, RecipeOutputs::Components { def: h.component_defs[2], count: 1 });
    let req = h.any_tier_requirement(2);
    assert_eq!(req.accepts, h.component_defs);
    assert_eq!(req.count, 2);
    assert!(w.check_invariants().is_empty());
}

fn recipe(inputs: Vec<(CommodityId, u64)>, comps: Vec<ComponentRequirement>) -> Recipe {
    Recipe {
        id: RecipeId(1),
        name: "r".to_owned(),
        inputs,
        component_inputs: comps,
        outputs: RecipeOutputs::Commodity { commodity: CommodityId(9), quantity: 1 },
        duration_days: 1,
        required_tooling_design: None,
    }
}

#[test]
fn inventory_offer_takes_every_matching_lot_and_the_first_free_components() {
    let ore = CommodityId(1);
    let coal = CommodityId(2);
    let lots = vec![(ore, LotId(10), 30), (coal, LotId(11), 5), (ore, LotId(12), 30)];
    let d1 = ComponentDefId(3);
    let d2 = ComponentDefId(4);
    let comps = vec![(d1, ComponentId(20)), (d2, ComponentId(21)), (d1, ComponentId(22))];
    let r = recipe(
        vec![(ore, 50), (coal, 5)],
        vec![
            ComponentRequirement { accepts: vec![d2, d1], count: 2 },
            ComponentRequirement { accepts: vec![d1], count: 1 },
        ],
    );
    let (l, c) = recipe_offer_from_inventory(&r, &lots, &comps).unwrap();
    assert_eq!(l, vec![LotId(10), LotId(12), LotId(11)]);
    assert_eq!(c, vec![ComponentId(21), ComponentId(20), ComponentId(22)]);
    // Not enough ore: no offer.
    let short = recipe(vec![(ore, 61)], vec![]);
    assert!(recipe_offer_from_inventory(&short, &lots, &comps).is_none());
    // Not enough free components: no offer.
    let greedy = recipe(vec![], vec![ComponentRequirement { accepts: vec![d1], count: 3 }]);
    assert!(recipe_offer_from_inventory(&greedy, &lots, &comps).is_none());
}

#[test]
fn sim_error_text_names_the_record() {
    assert_eq!(SimError::UnknownActor(adona_sim::ids::ActorId(4)).text(), "unknown actor ActorId#4");
    assert_eq!(
        SimError::InsufficientQuantity { commodity: CommodityId(2), missing: 7 }.text(),
        "insufficient real stock of CommodityId#2: 7 short"
    );
    assert_eq!(SimError::InvalidState("x".to_owned()).text(), "invalid state: x");
}

fn small_seed() -> WorldSeedFile {
    let materials: Vec<MaterialSeed> = ["a", "b", "c", "d", "e"]
        .iter()
        .map(|k| MaterialSeed {
            key: k.to_string(),
            material_name: format!("Metal {k}"),
            component_role: format!("Role {k}"),
        })
        .collect();
    WorldSeedFile {
        seed: 77,
        tier_names: vec!["Raw".to_owned(), "Fine".to_owned()],
        materials,
        designs: vec![DesignSeed {
            key: "truck".to_owned(),
            name: "Truck".to_owned(),
            kind: AssetKind::Vehicle,
            cargo_capacity_kg: Some(1_000),
            slots: vec![],
        }],
        locations: vec![
            LocationSeed {
                key: "home".to_owned(),
                name: "Home".to_owned(),
                kind: LocationKind::City,
                position: (0, 0),
                controller_key: Some("red".to_owned()),
                mine_reserves: None,
                yields_material_key: None,
                yield_quantity_per_day: None,
            },
            LocationSeed {
                key: "pit".to_owned(),
                name: "Pit".to_owned(),
                kind: LocationKind::Mine,
                position: (3, 0),
                controller_key: None,
                mine_reserves: None,
                yields_material_key: Some("a".to_owned()),
                yield_quantity_per_day: Some(4),
            },
        ],
        routes: vec![RouteSeed { from_key: "home".to_owned(), to_key: "pit".to_owned(), distance_days: 2 }],
        factions: vec![FactionSeed {
            key: "red".to_owned(),
            name: "Red Faction".to_owned(),
            kind: ActorKind::Faction,
            starting_treasury: 1_000,
            doctrine: "line".to_owned(),
            home_location_key: "home".to_owned(),
            population: 500,
            tax_rate_per_capita: 1,
            toe: vec![
                ToeSlotSeed { role: "Mech".to_owned(), design_key: "universal_mech".to_owned(), count: 2 },
                ToeSlotSeed { role: "Haul".to_owned(), design_key: "truck".to_owned(), count: 1 },
            ],
        }],
        economy: EconomySeed {
            mine_starting_reserve: 100,
            mine_yield_per_day: 5,
            refineries_per_faction: 2,
            refine_input_qty: 10,
            refine_output_qty: 8,
            refine_duration_days: 1,
            convert_input_qty: 5,
            convert_duration_days: 1,
            assembly_duration_days: 2,
        },
    }
}

#[test]
fn seed_file_builds_a_consistent_faction_economy() {
    let w = build_world(&small_seed()).unwrap();
    assert_eq!(w.seed, 77);
    let red = w.actors_iter().find(|a| a.name == "Red Faction").unwrap().id;
    let formations: Vec<_> = w.formations_iter().filter(|f| f.owner == red).collect();
    assert_eq!(formations.len(), 2, "one starting formation per TO&E role");
    assert!(formations.iter().all(|f| !f.assets.is_empty()));
    let home = w.locations_iter().find(|l| l.name == "Home").unwrap();
    assert_eq!(home.controller, Some(red));
    assert_eq!(home.population, 500);
    assert_eq!(home.yields.len(), 5);
    let factories: Vec<_> = w.factories_iter().filter(|f| f.owner == red).collect();
    assert_eq!(factories.len(), 3);
    assert!(factories.iter().all(|f| f.is_operational()));
    let pit = w.locations_iter().find(|l| l.name == "Pit").unwrap();
    assert_eq!(pit.yields.len(), 1);
    assert!(w.check_invariants().is_empty());
    let actor = w.actors_iter().find(|a| a.id == red).unwrap();
    assert_eq!(actor.treasury, 1_000);
    assert_eq!(actor.kind, ActorKind::Faction);
    assert_eq!(home.authority, Some(red));
    assert_eq!(home.tax_rate_per_capita, 1);
    let mut names: Vec<String> = formations.iter().map(|f| f.name.clone()).collect();
    names.sort();
    assert_eq!(names, vec!["Red Faction Haul".to_owned(), "Red Faction Mech".to_owned()]);
    assert!(formations.iter().all(|f| f.state == FormationState::Stationed { at: home.id }));
    assert!(formations.iter().any(|f| f.name == "Red Faction Mech" && f.assets.len() >= 2));
}

#[test]
fn seed_file_with_an_unknown_key_is_refused() {
    let mut s = small_seed();
    s.routes[0].to_key = "nowhere".to_owned();
    assert_eq!(build_world(&s).err(), Some("route: unknown to_key \"nowhere\"".to_owned()));
    let mut s = small_seed();
    s.designs[0].slots.push(SlotSeed { name: "Bay".to_owned(), component_def_key: "zz".to_owned() });
    assert_eq!(
        build_world(&s).err(),
        Some("design \"truck\" slot \"Bay\": unknown component_def_key \"zz\"".to_owned())
    );
    let mut s = small_seed();
    s.factions[0].home_location_key = "moon".to_owned();
    assert_eq!(build_world(&s).err(), Some("faction \"red\": unknown home_location_key \"moon\"".to_owned()));
}

#[test]
fn a_day_of_ticking_keeps_money_conserved_and_advances_the_clock() {
    let mut w = build_world(&small_seed()).unwrap();
    for day in 1..=15u64 {
        let before = w.events().len();
        w.tick();
        assert_eq!(w.today(), day);
        assert_eq!(w.events()[before].kind, EventKind::DayAdvanced { day });
        assert!(w.check_invariants().is_empty(), "day {day}");
    }
}

#[test]
fn seed_file_needs_one_material_per_mech_slot() {
    let mut s = small_seed();
    s.materials.pop();
    assert_eq!(
        build_world(&s).err(),
        Some(
            "universal mech design: Mech design declares 4 component slot(s), which violates the slot-count rule for that kind"
                .to_owned()
        )
    );
}

#[test]
fn seed_file_refuses_unknown_controller_design_and_yield_keys() {
    let mut s = small_seed();
    s.locations[0].controller_key = Some("blue".to_owned());
    assert_eq!(build_world(&s).err(), Some("location \"home\": unknown controller_key \"blue\"".to_owned()));
    let mut s = small_seed();
    s.factions[0].toe[1].design_key = "tank".to_owned();
    assert_eq!(build_world(&s).err(), Some("faction \"red\" TO&E: unknown design_key \"tank\"".to_owned()));
    let mut s = small_seed();
    s.locations[1].yields_material_key = Some("zz".to_owned());
    assert_eq!(build_world(&s).err(), Some("location \"pit\": unknown yields_material_key \"zz\"".to_owned()));
}

#[test]
fn seed_file_refuses_flat_or_looping_routes_and_misplaced_mines() {
    let mut s = small_seed();
    s.routes[0].distance_days = 0;
    assert_eq!(build_world(&s).err(), Some("route \"home\"->\"pit\": invalid quantity".to_owned()));
    let mut s = small_seed();
    s.routes[0].to_key = "home".to_owned();
    assert_eq!(build_world(&s).err(), Some("route \"home\"->\"home\": invalid quantity".to_owned()));
    let mut s = small_seed();
    s.locations[0].mine_reserves = Some(MineReserves::Finite { remaining: 3 });
    let e = build_world(&s).err().unwrap();
    assert!(e.starts_with("location \"home\": LocationId#"), "{e}");
    assert!(e.ends_with(" is the wrong kind of location"), "{e}");
}

#[test]
fn a_mine_with_seeded_reserves_and_a_bonus_yield_builds() {
    let mut s = small_seed();
    s.locations[1].mine_reserves = Some(MineReserves::Finite { remaining: 40 });
    let w = build_world(&s).unwrap();
    let pit = w.locations_iter().find(|l| l.name == "Pit").unwrap();
    assert_eq!(pit.mine_reserves, Some(MineReserves::Finite { remaining: 40 }));
    assert_eq!(pit.yields.len(), 1);
}

#[test]
fn a_job_completes_on_its_due_day_with_this_jobs_provenance() {
    let mut w = World::new(5);
    let owner = w.create_actor("Smith", ActorKind::FactoryOwner, 100);
    let site = w.create_location("Works", LocationKind::FactorySite, (0, 0));
    let ore = w.define_commodity("Ore", UnitOfMeasure::Kilograms, 1, 2);
    let bar = w.define_commodity("Bar", UnitOfMeasure::Kilograms, 2, 9);
    let lot = w
        .seed_lot(
            owner,
            ore,
            50,
            QualityGrade::Standard,
            LegalStatus::Legitimate,
            site,
            LotOrigin::SeededHistorical { note: "stock".into() },
        )
        .unwrap();
    let factory = w.create_factory(owner, site, 1).unwrap();
    for category in ComponentCategory::FACTORY_SLOTS {
        let def = w.define_component_def("Plant", 1, category);
        let comp = w
            .seed_component(owner, def, site, QualityGrade::Standard, AssetOrigin::SeededHistorical { note: "plant".into() })
            .unwrap();
        w.fit_factory_component(factory, comp).unwrap();
    }
    let recipe = w.define_recipe(
        "Smelt",
        vec![(ore, 50)],
        vec![],
        RecipeOutputs::Commodity { commodity: bar, quantity: 20 },
        2,
        None,
    );
    let job = w.start_production(factory, recipe, &[lot], &[]).unwrap();
    w.tick();
    assert_eq!(w.production_job(job).unwrap().state, JobState::InProgress);
    w.tick();
    let JobState::Completed { output_lots, output_assets, output_components } = w.production_job(job).unwrap().state.clone() else {
        panic!("the job is due on day 2");
    };
    assert_eq!(output_lots.len(), 1);
    assert!(output_assets.is_empty() && output_components.is_empty());
    let out = w.lot(output_lots[0]).unwrap();
    assert_eq!((out.owner, out.commodity, out.quantity), (owner, bar, 20));
    assert_eq!(w.root_origins(out.id).unwrap(), vec![LotOrigin::Produced { factory, job }]);
    assert!(w.check_invariants().is_empty());
}

#[test]
fn civilian_demand_bids_once_at_ten_percent_over_the_base_price() {
    let mut w = World::new(9);
    let council = w.create_actor("Council", ActorKind::CityAuthority, 10_000);
    let town = w.create_location("Town", LocationKind::City, (0, 0));
    let food = w.define_commodity("Food", UnitOfMeasure::Kilograms, 1, 10);
    let market = w.create_market("Town Market", town, None).unwrap();
    w.configure_city(town, 100, Some(council), vec![CivilianNeed { commodity: food, quantity_per_day: 5 }]).unwrap();
    for _ in 0..2 {
        w.tick();
        let bids: Vec<_> = w.buy_orders_iter().filter(|o| o.buyer == council).collect();
        assert_eq!(bids.len(), 1, "an open bid is not placed again");
        assert_eq!(bids[0].scope, OrderScope::Market(market));
        assert_eq!((bids[0].commodity, bids[0].quantity, bids[0].limit_price_per_unit), (food, 5, 11));
    }
    assert!(w.check_invariants().is_empty());
}

#[test]
fn a_broke_authority_places_no_civilian_bid() {
    let mut w = World::new(9);
    let council = w.create_actor("Council", ActorKind::CityAuthority, 20);
    let town = w.create_location("Town", LocationKind::City, (0, 0));
    let food = w.define_commodity("Food", UnitOfMeasure::Kilograms, 1, 10);
    w.create_market("Town Market", town, None).unwrap();
    w.configure_city(town, 100, Some(council), vec![CivilianNeed { commodity: food, quantity_per_day: 5 }]).unwrap();
    w.tick();
    assert_eq!(w.buy_orders_iter().filter(|o| o.buyer == council).count(), 0);
    assert!(w.check_invariants().is_empty());
}

#[test]
fn sim_error_text_writes_numbers_and_lists() {
    assert_eq!(
        SimError::InsufficientFunds { actor: adona_sim::ids::ActorId(3), needed: 100, available: -5 }.text(),
        "ActorId#3 needs 100 credits but has -5"
    );
    assert_eq!(
        SimError::InsufficientComponents { accepts: vec![ComponentDefId(4), ComponentDefId(17)], missing: 2 }.text(),
        "insufficient real components matching [ComponentDefId(4), ComponentDefId(17)]: 2 short"
    );
    assert_eq!(
        SimError::FactoryIncomplete {
            factory: adona_sim::ids::FactoryId(20),
            missing: vec![ComponentCategory::FactoryLabor, ComponentCategory::FactoryPower],
        }
        .text(),
        "FactoryId#20 is missing sub-system component(s): [FactoryLabor, FactoryPower]"
    );
    assert_eq!(
        SimError::InsufficientFunds { actor: adona_sim::ids::ActorId(0), needed: i64::MIN, available: 0 }.text(),
        "ActorId#0 needs -9223372036854775808 credits but has 0"
    );
    assert_eq!(
        SimError::SalvageCapExceeded { contract: adona_sim::ids::ContractId(9), requested: 1205, cap: 1000 }.text(),
        "ContractId#9 salvage of 1205 units exceeds the 1000-unit cap"
    );
}

#[test]
fn admin_edits_describe_what_changed() {
    let mut w = World::new(1);
    let boss = w.create_actor("Boss", ActorKind::Faction, 0);
    let town = w.create_location("Town", LocationKind::City, (0, 0));
    let description = |w: &World| match &w.events().last().unwrap().kind {
        EventKind::AdminEdit { description, .. } => description.clone(),
        other => panic!("expected an admin edit, got {other:?}"),
    };
    w.configure_city(town, 500, Some(boss), vec![]).unwrap();
    assert_eq!(description(&w), format!("configured city {}: population 500", "LocationId#".to_owned() + &town.0.to_string()));
    w.set_tax_rate(town, -2).unwrap();
    assert_eq!(description(&w), format!("set LocationId#{} tax rate to -2/capita", town.0));
    w.set_territory_controller(town, Some(boss)).unwrap();
    assert_eq!(description(&w), format!("set LocationId#{} controller to Some(ActorId({}))", town.0, boss.0));
    w.set_territory_controller(town, None).unwrap();
    assert_eq!(description(&w), format!("set LocationId#{} controller to None", town.0));
}

fn grunt_world(seed: u64) -> (World, adona_sim::ids::ActorId, adona_sim::ids::ActorId, adona_sim::ids::LocationId, adona_sim::ids::DesignId) {
    let mut w = World::new(seed);
    let strong = w.create_actor("Strong Faction", ActorKind::Faction, 0);
    let weak = w.create_actor("Weak Faction", ActorKind::Faction, 0);
    let site = w.create_location("Contested Ridge", LocationKind::Battlefield, (0, 0));
    let slots: Vec<_> = (0..5)
        .map(|i| {
            let def = w.define_component_def(&format!("Part {i}"), 1, ComponentCategory::MechOrEquipment);
            adona_sim::assets::ComponentSlot { name: format!("Slot {i}"), accepts: vec![def] }
        })
        .collect();
    let design = w.define_design("Grunt", AssetKind::Mech, slots, None, None).unwrap();
    (w, strong, weak, site, design)
}

#[test]
fn a_captured_site_counts_its_control_from_the_day_of_the_battle() {
    let (mut w, strong, weak, site, design) = grunt_world(5);
    w.set_territory_controller(site, Some(weak)).unwrap();
    assert_eq!(w.location(site).unwrap().controlled_since, 0);
    for _ in 0..3 {
        w.tick();
    }
    let note = || AssetOrigin::SeededHistorical { note: "line mech".into() };
    let strong_assets: Vec<_> =
        (0..10).map(|_| w.seed_asset(strong, design, site, QualityGrade::Standard, note(), None).unwrap()).collect();
    let weak_asset = w.seed_asset(weak, design, site, QualityGrade::Standard, note(), None).unwrap();
    let outcome = w.resolve_battle(site, strong, &strong_assets, weak, &[weak_asset]).unwrap();
    assert!(outcome.attacker_won);
    let l = w.location(site).unwrap();
    assert_eq!(l.controller, Some(strong));
    assert_eq!(l.controlled_since, w.today());
    assert_eq!(w.today(), 3);
    assert!(w.check_invariants().is_empty());
}

#[test]
fn a_vehicle_on_one_convoy_cannot_join_another() {
    let mut w = World::new(9);
    let owner = w.create_actor("Hauler", ActorKind::Faction, 0);
    let yard = w.create_location("Yard", LocationKind::FactorySite, (0, 0));
    let truck_design = w.define_design("Truck", AssetKind::Vehicle, vec![], Some(1_000), None).unwrap();
    let truck = w
        .seed_asset(owner, truck_design, yard, QualityGrade::Standard, AssetOrigin::SeededHistorical { note: "t".into() }, None)
        .unwrap();
    let first = w.form_convoy(owner, yard, &[truck]).unwrap();
    assert!(matches!(w.form_convoy(owner, yard, &[truck]), Err(SimError::InvalidState(_))));
    assert_eq!(w.convoy(first).unwrap().vehicles, vec![truck]);
    assert!(w.check_invariants().is_empty());
}

#[test]
fn a_seeded_asset_carries_its_given_name() {
    let (mut w, strong, _weak, site, design) = grunt_world(3);
    let a = w
        .seed_asset(strong, design, site, QualityGrade::Standard, AssetOrigin::SeededHistorical { note: "n".into() }, Some("Old Faithful"))
        .unwrap();
    assert_eq!(w.asset(a).unwrap().name.as_deref(), Some("Old Faithful"));
}

#[test]
fn a_controlled_location_yields_every_day_and_a_taxed_city_pays_its_authority() {
    let mut w = World::new(21);
    let lord = w.create_actor("Lord", ActorKind::Faction, 0);
    let city = w.create_location("Town", LocationKind::City, (0, 0));
    let ore = w.define_commodity("Ore", UnitOfMeasure::Kilograms, 1, 2);
    w.set_territory_controller(city, Some(lord)).unwrap();
    w.add_location_yield(city, ore, 7, MineReserves::Finite { remaining: 10 }).unwrap();
    w.configure_city(city, 1_000, Some(lord), vec![]).unwrap();
    w.set_tax_rate(city, 2).unwrap();
    let before = w.actor(lord).unwrap().treasury;
    w.tick();
    assert_eq!(w.actor(lord).unwrap().treasury, before + 2_000);
    let made: u64 = w.lots_iter().filter(|l| l.owner == lord && l.commodity == ore).map(|l| l.quantity).sum();
    assert_eq!(made, 7);
    assert_eq!(w.location(city).unwrap().yields[0].reserves, MineReserves::Finite { remaining: 3 });
    assert!(w.check_invariants().is_empty());
}

#[test]
fn a_sound_seed_without_factions_always_builds() {
    let mut s = small_seed();
    s.factions.clear();
    s.locations[0].controller_key = None;
    let w = build_world(&s).unwrap();
    assert_eq!(w.locations_iter().count(), 2);
    assert!(w.check_invariants().is_empty());
}

#[test]
fn split_and_merge_add_no_root_origin() {
    let mut w = World::new(9);
    let owner = w.create_actor("Trader", ActorKind::Faction, 0);
    let site = w.create_location("Depot", LocationKind::City, (0, 0));
    let ore = w.define_commodity("Ore", UnitOfMeasure::Kilograms, 1, 10);
    let a = w
        .seed_lot(owner, ore, 40, QualityGrade::Standard, LegalStatus::Legitimate, site, LotOrigin::SeededHistorical { note: "old stock".into() })
        .unwrap();
    let b = w
        .seed_lot(owner, ore, 60, QualityGrade::Standard, LegalStatus::Legitimate, site, LotOrigin::Imported { source: "abroad".into() })
        .unwrap();
    let child = w.split_lot(a, 15).unwrap();
    assert_eq!(w.root_origins(child).unwrap(), w.root_origins(a).unwrap());
    let merged = w.merge_lots(&[child, b]).unwrap();
    let origins = w.root_origins(merged).unwrap();
    assert_eq!(origins.len(), 2);
    assert!(origins.contains(&LotOrigin::SeededHistorical { note: "old stock".into() }));
    assert!(origins.contains(&LotOrigin::Imported { source: "abroad".into() }));
    assert!(w.check_invariants().is_empty());
}
