//! The world aggregate: all strategic state, the deterministic tick, the
//! event log, and the invariant checker.
//!
//! Determinism contract: same seed + same ordered API calls = same strategic
//! state. Id allocation is a single monotonic counter, every table is
//! iterated in key order, the RNG is seeded SplitMix64 carried in state, and
//! there are no floats anywhere.

use crate::actors::Actor;
use crate::assets::{ComponentDef, ComponentInstance, ItemDesign, SerialAsset};
use crate::convoys::{Convoy, Route};
use crate::events::{Event, EventKind};
use crate::faction_ai::FactionGoal;
use crate::goods::{CommodityDef, Lot};
use crate::ids::{ActorId, AssetId, BuyOrderId, CommodityId, ComponentDefId, ComponentId, ConvoyId, DesignId, EventId, FactoryId, FormationId, IntelId, LocationId, LotId, MarketId, ProductionJobId, RecipeId, RouteId, SellListingId, StockpileId, ToeTemplateId};
use crate::intel::IntelObservation;
use crate::locations::Location;
use crate::markets::{BuyOrder, Market, SellListing};
use crate::production::{Factory, ProductionJob, Recipe};
use crate::rng::SimRng;
use crate::stockpiles::Stockpile;
use crate::table::Table;
use crate::time::{DayQuarter, SimClock};
use crate::toe::{Formation, ToeTemplate};
use vstd::prelude::*;

verus! {

#[derive(Debug)]
pub struct World {
    pub seed: u64,
    pub clock: SimClock,
    pub(crate) rng: SimRng,
    pub(crate) next_id: u64,
    pub(crate) next_event_seq: u64,
    /// Total credits ever issued minus credits burned. The money
    /// conservation invariant checks all treasuries and escrows against it.
    pub(crate) money_issued: i128,
    pub(crate) actors: Table<Actor>,
    pub(crate) locations: Table<Location>,
    pub(crate) commodities: Table<CommodityDef>,
    pub(crate) lots: Table<Lot>,
    pub(crate) designs: Table<ItemDesign>,
    pub(crate) component_defs: Table<ComponentDef>,
    pub(crate) components: Table<ComponentInstance>,
    pub(crate) assets: Table<SerialAsset>,
    pub(crate) markets: Table<Market>,
    pub(crate) sell_listings: Table<SellListing>,
    pub(crate) buy_orders: Table<BuyOrder>,
    pub(crate) stockpiles: Table<Stockpile>,
    pub(crate) factories: Table<Factory>,
    pub(crate) recipes: Table<Recipe>,
    pub(crate) production_jobs: Table<ProductionJob>,
    pub(crate) routes: Table<Route>,
    pub(crate) convoys: Table<Convoy>,
    pub(crate) intel: Table<IntelObservation>,
    pub(crate) toe_templates: Table<ToeTemplate>,
    pub(crate) formations: Table<Formation>,
    pub(crate) faction_goals: Table<FactionGoal>,
    /// Price discovery: an exponential moving average per market, per
    /// commodity, over executed trades. Never set directly.
    pub(crate) price_index: Table<Table<i64>>,
    /// Append-only event/provenance log.
    pub(crate) events: Vec<Event>,
}

/// The mathematical state of a world: every table as a map from id to
/// record, the event log as a sequence.
#[verifier::ext_equal]
pub struct WorldView {
    pub seed: u64,
    pub clock: SimClock,
    pub rng: SimRng,
    pub next_id: u64,
    pub next_event_seq: u64,
    pub money_issued: i128,
    pub actors: Map<u64, Actor>,
    /// Actor ids in table (iteration) order.
    pub actor_keys: Seq<u64>,
    pub locations: Map<u64, Location>,
    pub commodities: Map<u64, CommodityDef>,
    pub lots: Map<u64, Lot>,
    pub designs: Map<u64, ItemDesign>,
    pub component_defs: Map<u64, ComponentDef>,
    pub components: Map<u64, ComponentInstance>,
    pub assets: Map<u64, SerialAsset>,
    pub markets: Map<u64, Market>,
    pub sell_listings: Map<u64, SellListing>,
    pub buy_orders: Map<u64, BuyOrder>,
    /// Buy order ids in table (iteration) order.
    pub order_keys: Seq<u64>,
    pub stockpiles: Map<u64, Stockpile>,
    pub factories: Map<u64, Factory>,
    pub recipes: Map<u64, Recipe>,
    pub production_jobs: Map<u64, ProductionJob>,
    pub routes: Map<u64, Route>,
    pub convoys: Map<u64, Convoy>,
    pub intel: Map<u64, IntelObservation>,
    pub toe_templates: Map<u64, ToeTemplate>,
    pub formations: Map<u64, Formation>,
    pub faction_goals: Map<u64, FactionGoal>,
    pub price_index: Map<u64, Map<u64, i64>>,
    pub events: Seq<Event>,
}

/// The price index entry for a (market, commodity) pair.
pub open spec fn price_of(v: WorldView, market: u64, commodity: u64) -> Option<i64> {
    if v.price_index.dom().contains(market) && v.price_index[market].dom().contains(commodity) {
        Some(v.price_index[market][commodity])
    } else {
        None
    }
}

/// `w`'s event log extends `v`'s: the log is append-only.
pub open spec fn log_extends(v: WorldView, w: WorldView) -> bool {
    &&& v.events.len() <= w.events.len()
    &&& forall|i: int| 0 <= i < v.events.len() ==> #[trigger] w.events[i] == v.events[i]
}

/// Log extension is transitive.
pub proof fn lemma_log_extends_trans(a: WorldView, b: WorldView, c: WorldView)
    requires
        log_extends(a, b),
        log_extends(b, c),
    ensures
        log_extends(a, c),
{
}

/// Appending one event extends the log.
pub proof fn lemma_log_extends_log(v: WorldView, kind: EventKind)
    ensures
        log_extends(v, v.log(kind)),
{
}

/// Ids are only ever handed out forward, no production job record
/// disappears, and a completed job stays completed.
pub open spec fn jobs_settled(v: WorldView, w: WorldView) -> bool {
    &&& v.next_id <= w.next_id
    &&& v.production_jobs.dom().subset_of(w.production_jobs.dom())
    &&& forall|k: u64|
        #[trigger] v.production_jobs.dom().contains(k) && v.production_jobs[k].state is Completed
            ==> w.production_jobs[k].state is Completed
}

/// What every phase of the daily tick keeps: the log only grows, the seed
/// and clock stay, no asset or lot record disappears, and production jobs
/// are settled as `jobs_settled` says.
pub open spec fn phase_ok(v: WorldView, w: WorldView) -> bool {
    &&& log_extends(v, w)
    &&& w.seed == v.seed
    &&& w.clock == v.clock
    &&& v.assets.dom().subset_of(w.assets.dom())
    &&& v.lots.dom().subset_of(w.lots.dom())
    &&& jobs_settled(v, w)
}

/// Phases compose.
pub proof fn lemma_phase_trans(a: WorldView, b: WorldView, c: WorldView)
    requires
        phase_ok(a, b),
        phase_ok(b, c),
    ensures
        phase_ok(a, c),
{
    lemma_log_extends_trans(a, b, c);
}

/// Every key of a table was allocated before `bound`.
pub open spec fn keys_below<T>(m: Map<u64, T>, bound: u64) -> bool {
    forall|k: u64| #[trigger] m.dom().contains(k) ==> k < bound
}

impl WorldView {
    /// The state after allocating one id.
    pub open spec fn bump(self) -> WorldView {
        WorldView { next_id: (self.next_id + 1) as u64, ..self }
    }

    /// The state after appending one event to the log (which allocates the
    /// event's own id).
    pub open spec fn log(self, kind: EventKind) -> WorldView {
        WorldView {
            next_id: (self.next_id + 1) as u64,
            next_event_seq: (self.next_event_seq + 1) as u64,
            events: self.events.push(
                Event {
                    id: EventId(self.next_id),
                    seq: self.next_event_seq,
                    day: self.clock.day,
                    quarter: self.clock.quarter,
                    kind,
                },
            ),
            ..self
        }
    }

    /// Event sequence numbers are dense from 0, every event took an id, and
    /// event days never run ahead of the clock or backwards along the log.
    pub open spec fn log_wf(self) -> bool {
        &&& self.next_event_seq == self.events.len()
        &&& self.next_event_seq <= self.next_id
        &&& forall|i: int| 0 <= i < self.events.len() ==> #[trigger] self.events[i].seq == i
        &&& forall|i: int| 0 <= i < self.events.len() ==> #[trigger] self.events[i].day <= self.clock.day
        &&& forall|i: int, j: int|
            0 <= i < j < self.events.len() ==> #[trigger] self.events[i].day <= #[trigger] self.events[j].day
    }

    /// Every record's key was allocated from the id counter.
    pub open spec fn ids_wf(self) -> bool {
        &&& keys_below(self.actors, self.next_id)
        &&& keys_below(self.locations, self.next_id)
        &&& keys_below(self.commodities, self.next_id)
        &&& keys_below(self.lots, self.next_id)
        &&& keys_below(self.designs, self.next_id)
        &&& keys_below(self.component_defs, self.next_id)
        &&& keys_below(self.components, self.next_id)
        &&& keys_below(self.assets, self.next_id)
        &&& keys_below(self.markets, self.next_id)
        &&& keys_below(self.sell_listings, self.next_id)
        &&& keys_below(self.buy_orders, self.next_id)
        &&& keys_below(self.stockpiles, self.next_id)
        &&& keys_below(self.factories, self.next_id)
        &&& keys_below(self.recipes, self.next_id)
        &&& keys_below(self.production_jobs, self.next_id)
        &&& keys_below(self.routes, self.next_id)
        &&& keys_below(self.convoys, self.next_id)
        &&& keys_below(self.intel, self.next_id)
        &&& keys_below(self.toe_templates, self.next_id)
        &&& keys_below(self.formations, self.next_id)
        &&& keys_below(self.faction_goals, self.next_id)
    }

    /// The ordered key lists the view carries agree with their maps.
    pub open spec fn keys_wf(self) -> bool {
        &&& crate::table::strictly_increasing(self.actor_keys)
        &&& forall|k: u64| #[trigger] self.actors.dom().contains(k) <==> self.actor_keys.contains(k)
        &&& crate::table::strictly_increasing(self.order_keys)
        &&& forall|k: u64| #[trigger] self.buy_orders.dom().contains(k) <==> self.order_keys.contains(k)
    }

    /// Market records keep the shape their constructors give them: every
    /// listing asks a positive price; every open buy order wants a positive
    /// quantity at a positive limit and holds exactly `quantity * limit` in
    /// escrow.
    pub open spec fn market_wf(self) -> bool {
        &&& forall|k: u64| #[trigger] self.sell_listings.dom().contains(k) ==> self.sell_listings[k].price_per_unit > 0
        &&& forall|k: u64| #[trigger] self.buy_orders.dom().contains(k) ==> {
            let o = self.buy_orders[k];
            &&& o.quantity > 0
            &&& o.limit_price_per_unit > 0
            &&& o.escrow == o.quantity * o.limit_price_per_unit
        }
    }

    pub open spec fn wf(self) -> bool {
        self.log_wf() && self.ids_wf() && self.keys_wf() && self.market_wf()
    }

    /// Credits in circulation: every treasury plus every buy-order escrow.
    pub open spec fn circulation(self) -> int {
        crate::table::sum_over(self.actor_keys, self.actors, |a: Actor| a.treasury as int)
            + crate::table::sum_over(self.order_keys, self.buy_orders, |o: BuyOrder| o.escrow as int)
    }

    /// Money conservation: what circulates is exactly what was issued.
    pub open spec fn money_conserved(self) -> bool {
        self.circulation() == self.money_issued as int
    }

    /// Money is conserved and has room to move: no treasury is negative,
    /// every open order's buyer exists, and what was issued fits a single
    /// credit amount.
    pub open spec fn money_sound(self) -> bool {
        &&& self.money_conserved()
        &&& forall|k: u64| #[trigger] self.actors.dom().contains(k) ==> self.actors[k].treasury >= 0
        &&& forall|k: u64| #[trigger] self.buy_orders.dom().contains(k) ==> self.actors.dom().contains(
            self.buy_orders[k].buyer.0,
        )
        &&& self.money_issued <= i64::MAX
    }

    /// No entity of any kind exists yet.
    pub open spec fn is_empty_world(self) -> bool {
        &&& self.actors.is_empty()
        &&& self.locations.is_empty()
        &&& self.commodities.is_empty()
        &&& self.lots.is_empty()
        &&& self.designs.is_empty()
        &&& self.component_defs.is_empty()
        &&& self.components.is_empty()
        &&& self.assets.is_empty()
        &&& self.markets.is_empty()
        &&& self.sell_listings.is_empty()
        &&& self.buy_orders.is_empty()
        &&& self.stockpiles.is_empty()
        &&& self.factories.is_empty()
        &&& self.recipes.is_empty()
        &&& self.production_jobs.is_empty()
        &&& self.routes.is_empty()
        &&& self.convoys.is_empty()
        &&& self.intel.is_empty()
        &&& self.toe_templates.is_empty()
        &&& self.formations.is_empty()
        &&& self.faction_goals.is_empty()
        &&& self.price_index.is_empty()
    }

    /// There is room to allocate `n` more ids.
    pub open spec fn has_room(self, n: int) -> bool {
        self.next_id + n <= u64::MAX
    }
}

impl World {
    pub open(crate) spec fn view(&self) -> WorldView {
        WorldView {
            seed: self.seed,
            clock: self.clock,
            rng: self.rng,
            next_id: self.next_id,
            next_event_seq: self.next_event_seq,
            money_issued: self.money_issued,
            actors: self.actors@,
            actor_keys: self.actors.keys(),
            locations: self.locations@,
            commodities: self.commodities@,
            lots: self.lots@,
            designs: self.designs@,
            component_defs: self.component_defs@,
            components: self.components@,
            assets: self.assets@,
            markets: self.markets@,
            sell_listings: self.sell_listings@,
            buy_orders: self.buy_orders@,
            order_keys: self.buy_orders.keys(),
            stockpiles: self.stockpiles@,
            factories: self.factories@,
            recipes: self.recipes@,
            production_jobs: self.production_jobs@,
            routes: self.routes@,
            convoys: self.convoys@,
            intel: self.intel@,
            toe_templates: self.toe_templates@,
            formations: self.formations@,
            faction_goals: self.faction_goals@,
            price_index: self.price_index@.map_values(|t: Table<i64>| t@),
            events: self.events@,
        }
    }

    pub proof fn lemma_keys_wf(&self)
        requires
            self.tables_wf(),
        ensures
            self.view().keys_wf(),
    {
        self.actors.lemma_facts();
        self.buy_orders.lemma_facts();
    }

    /// Asset ids in id order.
    pub open(crate) spec fn asset_keys(&self) -> Seq<u64> {
        self.assets.keys()
    }

    /// Every lots record in id order.
    pub open(crate) spec fn lots_in_order(&self) -> Seq<Lot> {
        self.lots.values()
    }

    /// Every assets record in id order.
    pub open(crate) spec fn assets_in_order(&self) -> Seq<SerialAsset> {
        self.assets.values()
    }

    /// Every buy_orders record in id order.
    pub open(crate) spec fn buy_orders_in_order(&self) -> Seq<BuyOrder> {
        self.buy_orders.values()
    }

    /// Every convoys record in id order.
    pub open(crate) spec fn convoys_in_order(&self) -> Seq<Convoy> {
        self.convoys.values()
    }

    /// Every actors record in id order.
    pub open(crate) spec fn actors_in_order(&self) -> Seq<Actor> {
        self.actors.values()
    }

    /// Every locations record in id order.
    pub open(crate) spec fn locations_in_order(&self) -> Seq<Location> {
        self.locations.values()
    }

    /// Every formations record in id order.
    pub open(crate) spec fn formations_in_order(&self) -> Seq<Formation> {
        self.formations.values()
    }

    /// Every routes record in id order.
    pub open(crate) spec fn routes_in_order(&self) -> Seq<Route> {
        self.routes.values()
    }

    /// Every factories record in id order.
    pub open(crate) spec fn factories_in_order(&self) -> Seq<Factory> {
        self.factories.values()
    }

    /// Every table is a well-formed ordered table.
    pub open(crate) spec fn tables_wf(&self) -> bool {
        &&& self.actors.wf()
        &&& self.locations.wf()
        &&& self.commodities.wf()
        &&& self.lots.wf()
        &&& self.designs.wf()
        &&& self.component_defs.wf()
        &&& self.components.wf()
        &&& self.assets.wf()
        &&& self.markets.wf()
        &&& self.sell_listings.wf()
        &&& self.buy_orders.wf()
        &&& self.stockpiles.wf()
        &&& self.factories.wf()
        &&& self.recipes.wf()
        &&& self.production_jobs.wf()
        &&& self.routes.wf()
        &&& self.convoys.wf()
        &&& self.intel.wf()
        &&& self.toe_templates.wf()
        &&& self.formations.wf()
        &&& self.faction_goals.wf()
        &&& self.price_index.wf()
        &&& forall|m: u64| #[trigger] self.price_index@.dom().contains(m) ==> self.price_index@[m].wf()
    }

    /// Structural well-formedness of the world: ordered tables, ids drawn
    /// from the counter, a dense event log.
    pub open(crate) spec fn wf(&self) -> bool {
        self.tables_wf() && self.view().wf()
    }

    pub fn new(seed: u64) -> (w: Self)
        ensures
            w.wf(),
            w@.seed == seed,
            w@.clock == (SimClock { day: 0, quarter: crate::time::DayQuarter::Q1 }),
            w@.rng.state() == seed,
            w@.money_issued == 0,
            w@.next_id == 1,
            w@.events.len() == 1,
            w@.events[0] == (Event {
                id: EventId(0),
                seq: 0,
                day: 0,
                quarter: crate::time::DayQuarter::Q1,
                kind: EventKind::WorldCreated { seed },
            }),
            w@.is_empty_world(),
    {
        let mut w = World {
            seed,
            clock: SimClock::start(),
            rng: SimRng::new(seed),
            next_id: 0,
            next_event_seq: 0,
            money_issued: 0,
            actors: Table::new(),
            locations: Table::new(),
            commodities: Table::new(),
            lots: Table::new(),
            designs: Table::new(),
            component_defs: Table::new(),
            components: Table::new(),
            assets: Table::new(),
            markets: Table::new(),
            sell_listings: Table::new(),
            buy_orders: Table::new(),
            stockpiles: Table::new(),
            factories: Table::new(),
            recipes: Table::new(),
            production_jobs: Table::new(),
            routes: Table::new(),
            convoys: Table::new(),
            intel: Table::new(),
            toe_templates: Table::new(),
            formations: Table::new(),
            faction_goals: Table::new(),
            price_index: Table::new(),
            events: Vec::new(),
        };
        assert(w@.price_index =~= Map::<u64, Map<u64, i64>>::empty());
        proof {
            w.lemma_keys_wf();
        }
        w.push_event(EventKind::WorldCreated { seed });
        w
    }

    /// Deterministic id allocation: one monotonic counter across all types.
    pub(crate) fn alloc_id(&mut self) -> (id: u64)
        requires
            old(self).wf(),
            old(self)@.has_room(1),
        ensures
            final(self).wf(),
            id == old(self)@.next_id,
            final(self)@ == old(self)@.bump(),
    {
        let id = self.next_id;
        self.next_id = self.next_id + 1;
        id
    }

    pub(crate) fn push_event(&mut self, kind: EventKind) -> (id: EventId)
        requires
            old(self).tables_wf(),
            old(self)@.log_wf(),
            old(self)@.has_room(1),
        ensures
            final(self).tables_wf(),
            final(self)@.log_wf(),
            id == EventId(old(self)@.next_id),
            final(self)@ == old(self)@.log(kind),
    {
        let id = EventId(self.next_id);
        self.next_id = self.next_id + 1;
        let seq = self.next_event_seq;
        self.next_event_seq = self.next_event_seq + 1;
        let ev = Event { id, seq, day: self.clock.day, quarter: self.clock.quarter, kind };
        self.events.push(ev);
        id
    }

    pub fn today(&self) -> (d: u64)
        ensures
            d == self@.clock.day,
    {
        self.clock.day
    }

    /// Whether `n` more ids can still be allocated: what operations that
    /// create records ask of their caller.
    pub fn has_room_for(&self, n: u64) -> (b: bool)
        ensures
            b == self@.has_room(n as int),
    {
        self.next_id <= u64::MAX - n
    }

    pub fn actor(&self, id: ActorId) -> (r: Option<&Actor>)
        requires
            self.wf(),
        ensures
            match r {
                Some(x) => self@.actors.dom().contains(id.0) && *x == self@.actors[id.0],
                None => !self@.actors.dom().contains(id.0),
            },
    {
        self.actors.get(id.0)
    }

    pub fn location(&self, id: LocationId) -> (r: Option<&Location>)
        requires
            self.wf(),
        ensures
            match r {
                Some(x) => self@.locations.dom().contains(id.0) && *x == self@.locations[id.0],
                None => !self@.locations.dom().contains(id.0),
            },
    {
        self.locations.get(id.0)
    }

    pub fn commodity(&self, id: CommodityId) -> (r: Option<&CommodityDef>)
        requires
            self.wf(),
        ensures
            match r {
                Some(x) => self@.commodities.dom().contains(id.0) && *x == self@.commodities[id.0],
                None => !self@.commodities.dom().contains(id.0),
            },
    {
        self.commodities.get(id.0)
    }

    pub fn lot(&self, id: LotId) -> (r: Option<&Lot>)
        requires
            self.wf(),
        ensures
            match r {
                Some(x) => self@.lots.dom().contains(id.0) && *x == self@.lots[id.0],
                None => !self@.lots.dom().contains(id.0),
            },
    {
        self.lots.get(id.0)
    }

    pub fn design(&self, id: DesignId) -> (r: Option<&ItemDesign>)
        requires
            self.wf(),
        ensures
            match r {
                Some(x) => self@.designs.dom().contains(id.0) && *x == self@.designs[id.0],
                None => !self@.designs.dom().contains(id.0),
            },
    {
        self.designs.get(id.0)
    }

    pub fn component_def(&self, id: ComponentDefId) -> (r: Option<&ComponentDef>)
        requires
            self.wf(),
        ensures
            match r {
                Some(x) => self@.component_defs.dom().contains(id.0) && *x == self@.component_defs[id.0],
                None => !self@.component_defs.dom().contains(id.0),
            },
    {
        self.component_defs.get(id.0)
    }

    pub fn component(&self, id: ComponentId) -> (r: Option<&ComponentInstance>)
        requires
            self.wf(),
        ensures
            match r {
                Some(x) => self@.components.dom().contains(id.0) && *x == self@.components[id.0],
                None => !self@.components.dom().contains(id.0),
            },
    {
        self.components.get(id.0)
    }

    pub fn asset(&self, id: AssetId) -> (r: Option<&SerialAsset>)
        requires
            self.wf(),
        ensures
            match r {
                Some(x) => self@.assets.dom().contains(id.0) && *x == self@.assets[id.0],
                None => !self@.assets.dom().contains(id.0),
            },
    {
        self.assets.get(id.0)
    }

    pub fn market(&self, id: MarketId) -> (r: Option<&Market>)
        requires
            self.wf(),
        ensures
            match r {
                Some(x) => self@.markets.dom().contains(id.0) && *x == self@.markets[id.0],
                None => !self@.markets.dom().contains(id.0),
            },
    {
        self.markets.get(id.0)
    }

    pub fn listing(&self, id: SellListingId) -> (r: Option<&SellListing>)
        requires
            self.wf(),
        ensures
            match r {
                Some(x) => self@.sell_listings.dom().contains(id.0) && *x == self@.sell_listings[id.0],
                None => !self@.sell_listings.dom().contains(id.0),
            },
    {
        self.sell_listings.get(id.0)
    }

    pub fn buy_order(&self, id: BuyOrderId) -> (r: Option<&BuyOrder>)
        requires
            self.wf(),
        ensures
            match r {
                Some(x) => self@.buy_orders.dom().contains(id.0) && *x == self@.buy_orders[id.0],
                None => !self@.buy_orders.dom().contains(id.0),
            },
    {
        self.buy_orders.get(id.0)
    }

    pub fn stockpile(&self, id: StockpileId) -> (r: Option<&Stockpile>)
        requires
            self.wf(),
        ensures
            match r {
                Some(x) => self@.stockpiles.dom().contains(id.0) && *x == self@.stockpiles[id.0],
                None => !self@.stockpiles.dom().contains(id.0),
            },
    {
        self.stockpiles.get(id.0)
    }

    pub fn factory(&self, id: FactoryId) -> (r: Option<&Factory>)
        requires
            self.wf(),
        ensures
            match r {
                Some(x) => self@.factories.dom().contains(id.0) && *x == self@.factories[id.0],
                None => !self@.factories.dom().contains(id.0),
            },
    {
        self.factories.get(id.0)
    }

    pub fn recipe(&self, id: RecipeId) -> (r: Option<&Recipe>)
        requires
            self.wf(),
        ensures
            match r {
                Some(x) => self@.recipes.dom().contains(id.0) && *x == self@.recipes[id.0],
                None => !self@.recipes.dom().contains(id.0),
            },
    {
        self.recipes.get(id.0)
    }

    pub fn production_job(&self, id: ProductionJobId) -> (r: Option<&ProductionJob>)
        requires
            self.wf(),
        ensures
            match r {
                Some(x) => self@.production_jobs.dom().contains(id.0) && *x == self@.production_jobs[id.0],
                None => !self@.production_jobs.dom().contains(id.0),
            },
    {
        self.production_jobs.get(id.0)
    }

    pub fn route(&self, id: RouteId) -> (r: Option<&Route>)
        requires
            self.wf(),
        ensures
            match r {
                Some(x) => self@.routes.dom().contains(id.0) && *x == self@.routes[id.0],
                None => !self@.routes.dom().contains(id.0),
            },
    {
        self.routes.get(id.0)
    }

    pub fn convoy(&self, id: ConvoyId) -> (r: Option<&Convoy>)
        requires
            self.wf(),
        ensures
            match r {
                Some(x) => self@.convoys.dom().contains(id.0) && *x == self@.convoys[id.0],
                None => !self@.convoys.dom().contains(id.0),
            },
    {
        self.convoys.get(id.0)
    }

    pub fn intel_record(&self, id: IntelId) -> (r: Option<&IntelObservation>)
        requires
            self.wf(),
        ensures
            match r {
                Some(x) => self@.intel.dom().contains(id.0) && *x == self@.intel[id.0],
                None => !self@.intel.dom().contains(id.0),
            },
    {
        self.intel.get(id.0)
    }

    pub fn toe_template(&self, id: ToeTemplateId) -> (r: Option<&ToeTemplate>)
        requires
            self.wf(),
        ensures
            match r {
                Some(x) => self@.toe_templates.dom().contains(id.0) && *x == self@.toe_templates[id.0],
                None => !self@.toe_templates.dom().contains(id.0),
            },
    {
        self.toe_templates.get(id.0)
    }

    pub fn formation(&self, id: FormationId) -> (r: Option<&Formation>)
        requires
            self.wf(),
        ensures
            match r {
                Some(x) => self@.formations.dom().contains(id.0) && *x == self@.formations[id.0],
                None => !self@.formations.dom().contains(id.0),
            },
    {
        self.formations.get(id.0)
    }

    /// Every record of this kind, in id order.
    pub fn lots_iter(&self) -> (it: std::slice::Iter<'_, Lot>)
        ensures
            vstd::std_specs::iter::IteratorSpec::remaining(&it).map_values(|x: &_| *x) == self.lots_in_order(),
    {
        broadcast use vstd::std_specs::slice::group_slice_axioms;

        self.lots.as_slice().iter()
    }

    /// Every record of this kind, in id order.
    pub fn assets_iter(&self) -> (it: std::slice::Iter<'_, SerialAsset>)
        ensures
            vstd::std_specs::iter::IteratorSpec::remaining(&it).map_values(|x: &_| *x) == self.assets_in_order(),
    {
        broadcast use vstd::std_specs::slice::group_slice_axioms;

        self.assets.as_slice().iter()
    }

    /// Every record of this kind, in id order.
    pub fn buy_orders_iter(&self) -> (it: std::slice::Iter<'_, BuyOrder>)
        ensures
            vstd::std_specs::iter::IteratorSpec::remaining(&it).map_values(|x: &_| *x) == self.buy_orders_in_order(),
    {
        broadcast use vstd::std_specs::slice::group_slice_axioms;

        self.buy_orders.as_slice().iter()
    }

    /// Every record of this kind, in id order.
    pub fn convoys_iter(&self) -> (it: std::slice::Iter<'_, Convoy>)
        ensures
            vstd::std_specs::iter::IteratorSpec::remaining(&it).map_values(|x: &_| *x) == self.convoys_in_order(),
    {
        broadcast use vstd::std_specs::slice::group_slice_axioms;

        self.convoys.as_slice().iter()
    }

    /// Every record of this kind, in id order.
    pub fn actors_iter(&self) -> (it: std::slice::Iter<'_, Actor>)
        ensures
            vstd::std_specs::iter::IteratorSpec::remaining(&it).map_values(|x: &_| *x) == self.actors_in_order(),
    {
        broadcast use vstd::std_specs::slice::group_slice_axioms;

        self.actors.as_slice().iter()
    }

    /// Every record of this kind, in id order.
    pub fn locations_iter(&self) -> (it: std::slice::Iter<'_, Location>)
        ensures
            vstd::std_specs::iter::IteratorSpec::remaining(&it).map_values(|x: &_| *x) == self.locations_in_order(),
    {
        broadcast use vstd::std_specs::slice::group_slice_axioms;

        self.locations.as_slice().iter()
    }

    /// Every record of this kind, in id order.
    pub fn formations_iter(&self) -> (it: std::slice::Iter<'_, Formation>)
        ensures
            vstd::std_specs::iter::IteratorSpec::remaining(&it).map_values(|x: &_| *x) == self.formations_in_order(),
    {
        broadcast use vstd::std_specs::slice::group_slice_axioms;

        self.formations.as_slice().iter()
    }

    /// Every record of this kind, in id order.
    pub fn routes_iter(&self) -> (it: std::slice::Iter<'_, Route>)
        ensures
            vstd::std_specs::iter::IteratorSpec::remaining(&it).map_values(|x: &_| *x) == self.routes_in_order(),
    {
        broadcast use vstd::std_specs::slice::group_slice_axioms;

        self.routes.as_slice().iter()
    }

    /// Every record of this kind, in id order.
    pub fn factories_iter(&self) -> (it: std::slice::Iter<'_, Factory>)
        ensures
            vstd::std_specs::iter::IteratorSpec::remaining(&it).map_values(|x: &_| *x) == self.factories_in_order(),
    {
        broadcast use vstd::std_specs::slice::group_slice_axioms;

        self.factories.as_slice().iter()
    }

    /// The price-discovery index for a commodity at a market: an
    /// exponential moving average over its real trade history. `None` means
    /// no trade has ever executed there yet.
    pub fn price_index(&self, market: MarketId, commodity: CommodityId) -> (r: Option<i64>)
        requires
            self.wf(),
        ensures
            r == crate::world::price_of(self@, market.0, commodity.0),
    {
        match self.price_index.get(market.0) {
            Some(inner) => match inner.get(commodity.0) {
                Some(p) => Some(*p),
                None => None,
            },
            None => None,
        }
    }

    pub fn events(&self) -> (e: &[Event])
        ensures
            e@ == self@.events,
    {
        self.events.as_slice()
    }
}


/// What a whole day keeps: the log only grows, the seed stays, and no
/// asset or lot record disappears.
pub open spec fn day_ok(v: WorldView, w: WorldView) -> bool {
    &&& log_extends(v, w)
    &&& w.seed == v.seed
    &&& v.assets.dom().subset_of(w.assets.dom())
    &&& v.lots.dom().subset_of(w.lots.dom())
}

impl World {
    /// Whether `n` more ids can still be allocated.
    fn room_for(&self, n: usize, per: u64) -> (b: bool)
        requires
            per <= 2,
        ensures
            b == (self@.next_id + per * n <= u64::MAX),
    {
        let a: u128 = self.next_id as u128;
        let b: u128 = per as u128;
        let c: u128 = n as u128;
        assert(b * c <= 2 * 0xFFFF_FFFF_FFFF_FFFF) by (nonlinear_arith)
            requires
                b <= 2,
                c <= 0xFFFF_FFFF_FFFF_FFFF,
        ;
        a + b * c <= u64::MAX as u128
    }

    /// Advance one day. Phase order: the day rolls over and is logged; four
    /// quarters of convoy contact rolls; production completions; location
    /// yields; convoy arrivals; formation arrivals; civilian demand; the faction AI;
    /// faction deployment; war; market matching; population. A phase that
    /// would need more ids than the id counter has left is skipped.
    #[verifier::rlimit(80)]
    #[verifier::spinoff_prover]
    pub fn tick(&mut self)
        requires
            old(self).wf(),
            old(self)@.clock.day < u64::MAX,
        ensures
            final(self).wf(),
            final(self)@.clock.day == old(self)@.clock.day + 1,
            day_ok(old(self)@, final(self)@),
            old(self)@.has_room(1) ==> final(self)@.events.len() > old(self)@.events.len() && final(self)@.events[old(
                self,
            )@.events.len() as int].kind == (EventKind::DayAdvanced { day: (old(self)@.clock.day + 1) as u64 }),
            old(self)@.money_sound() ==> final(self)@.money_conserved(),
            jobs_settled(old(self)@, final(self)@),
            forall|k: u64| #[trigger]
                old(self)@.production_jobs.dom().contains(k) ==> crate::production::completed_when_due(
                    old(self)@,
                    final(self)@.clock.day,
                    final(self)@,
                    k,
                ),
            exists|c: Seq<WorldView>, t: Seq<WorldView>| #[trigger] tick_day(old(self)@, final(self)@, c, t),
    {
        self.clock.advance_day();
        let day = self.clock.day;
        let ghost s0 = self@;
        proof {
            self.lemma_keys_wf();
        }
        if self.next_id < u64::MAX {
            self.push_event(EventKind::DayAdvanced { day });
            proof {
                lemma_log_extends_log(s0, EventKind::DayAdvanced { day });
            }
        }
        let ghost s1 = self@;
        proof {
            assert(day_ok(old(self)@, s1));
        }
        proof {
            assert(s1 == day_rolled(old(self)@));
        }
        let ghost mut qs: Seq<WorldView> = seq![self@];
        let mut q: usize = 0;
        while q < 4
            invariant
                self.wf(),
                q <= 4,
                qs.len() == q + 1,
                qs[0] == s1,
                qs[q as int] == self@,
                forall|x: int| 0 <= x < q ==> #[trigger] quarter_rolled(qs[x], quarter_at(x), qs[x + 1]),
                self@.clock.day == day,
                day == old(self)@.clock.day + 1,
                day_ok(old(self)@, self@),
                day_ok(s1, self@),
                s1.events.len() <= self@.events.len(),
                old(self)@.money_sound() ==> self@.money_sound(),
                self@.production_jobs == old(self)@.production_jobs,
                self@.recipes == old(self)@.recipes,
                self@.factories == old(self)@.factories,
                old(self)@.next_id <= self@.next_id,
            decreases 4 - q,
        {
            let ghost sq0 = self@;
            self.clock.quarter = quarter_for(q);
            proof {
                self.lemma_keys_wf();
            }
            let ghost sq = self@;
            proof {
                self.convoys.lemma_key_order();
            }
            if self.room_for(self.convoys.len(), 2) {
                proof {
                    self.convoys.lemma_facts();
                }
                self.tick_quarter_convoy_contacts();
            }
            proof {
                lemma_log_extends_trans(old(self)@, sq, self@);
                lemma_log_extends_trans(s1, sq, self@);
                assert(quarter_rolled(sq0, quarter_at(q as int), self@));
                let qs0 = qs;
                qs = qs.push(self@);
                assert forall|x: int| 0 <= x < q + 1 implies #[trigger] quarter_rolled(qs[x], quarter_at(x), qs[x + 1]) by {
                    if x < q {
                        assert(qs[x] == qs0[x] && qs[x + 1] == qs0[x + 1]);
                        assert(quarter_rolled(qs0[x], quarter_at(x), qs0[x + 1]));
                    }
                }
            }
            q = q + 1;
        }
        let ghost s2 = self@;
        let ghost qs_done = qs;
        self.tick_production();
        proof {
            assert(production_ran(s2, self@));
        }
        proof {
            lemma_log_extends_trans(old(self)@, s2, self@);
            lemma_log_extends_trans(s1, s2, self@);
            assert forall|k: u64| #[trigger] old(self)@.production_jobs.dom().contains(k)
                implies crate::production::completed_when_due(old(self)@, day, self@, k) by {
                assert(crate::production::due_handled(s2, self@, k));
            }
        }
        let ghost t0 = self@;
        self.tick_location_yields();
        proof {
            assert(yields_ran(t0, self@));
            lemma_log_extends_trans(old(self)@, t0, self@);
            lemma_log_extends_trans(s1, t0, self@);
            crate::production::lemma_due_carried(old(self)@, day, t0, self@);
        }
        let ghost s3 = self@;
        proof {
            self.convoys.lemma_key_order();
        }
        if self.room_for(self.convoys.len(), 1) {
            proof {
                self.convoys.lemma_facts();
            }
            self.tick_convoys();
        }
        proof {
            lemma_log_extends_trans(old(self)@, s3, self@);
            lemma_log_extends_trans(s1, s3, self@);
            crate::production::lemma_due_carried(old(self)@, day, s3, self@);
        }
        let ghost s4 = self@;
        proof {
            self.formations.lemma_key_order();
        }
        if self.room_for(self.formations.len(), 1) {
            proof {
                self.formations.lemma_facts();
            }
            self.tick_formations();
        }
        proof {
            lemma_log_extends_trans(old(self)@, s4, self@);
            lemma_log_extends_trans(s1, s4, self@);
            crate::production::lemma_due_carried(old(self)@, day, s4, self@);
        }
        let ghost s5 = self@;
        self.tick_civilian_demand();
        proof {
            assert(demand_ran(s5, self@));
            lemma_log_extends_trans(old(self)@, s5, self@);
            lemma_log_extends_trans(s1, s5, self@);
            crate::production::lemma_due_carried(old(self)@, day, s5, self@);
        }
        let ghost s6 = self@;
        self.tick_faction_ai();
        proof {
            lemma_log_extends_trans(old(self)@, s6, self@);
            lemma_log_extends_trans(s1, s6, self@);
            crate::production::lemma_due_carried(old(self)@, day, s6, self@);
        }
        let ghost s7 = self@;
        proof {
            self.formations.lemma_key_order();
        }
        if self.room_for(self.formations.len(), 1) {
            proof {
                self.formations.lemma_facts();
            }
            self.tick_faction_deployment();
        }
        proof {
            lemma_log_extends_trans(old(self)@, s7, self@);
            lemma_log_extends_trans(s1, s7, self@);
            crate::production::lemma_due_carried(old(self)@, day, s7, self@);
        }
        let ghost s8 = self@;
        self.tick_faction_war();
        proof {
            assert(war_ran(s8, self@));
            lemma_log_extends_trans(old(self)@, s8, self@);
            lemma_log_extends_trans(s1, s8, self@);
            crate::production::lemma_due_carried(old(self)@, day, s8, self@);
        }
        let ghost s9 = self@;
        proof {
            self.buy_orders.lemma_key_order();
        }
        self.tick_market_matching();
        proof {
            lemma_log_extends_trans(old(self)@, s9, self@);
            lemma_log_extends_trans(s1, s9, self@);
            crate::production::lemma_due_carried(old(self)@, day, s9, self@);
        }
        let ghost s10 = self@;
        self.tick_population();
        proof {
            assert(population_ran(s10, self@));
            lemma_log_extends_trans(old(self)@, s10, self@);
            lemma_log_extends_trans(s1, s10, self@);
            crate::production::lemma_due_carried(old(self)@, day, s10, self@);
            if old(self)@.has_room(1) {
                assert(s1.events[old(self)@.events.len() as int].kind == (EventKind::DayAdvanced { day }));
                assert(self@.events[old(self)@.events.len() as int] == s1.events[old(self)@.events.len() as int]);
            }
            let t = seq![t0, s3, s4, s5, s6, s7, s8, s9, s10];
            assert(tick_trace(old(self)@, self@, t));
            let c = qs_done.push(t0);
            assert(c[4] == s2);
            assert forall|x: int| 0 <= x < 4 implies #[trigger] quarter_rolled(c[x], quarter_at(x), c[x + 1]) by {
                assert(c[x] == qs_done[x] && c[x + 1] == qs_done[x + 1]);
            }
            assert(day_opening(old(self)@, c));
            assert(tick_day(old(self)@, self@, c, t));
        }
    }
}

/// The state once the day rolls over: the clock moves to the first quarter
/// of the next day, and the new day is logged when an id remains for it.
pub open spec fn day_rolled(v: WorldView) -> WorldView {
    let r = WorldView { clock: SimClock { day: (v.clock.day + 1) as u64, quarter: DayQuarter::Q1 }, ..v };
    if r.next_id < u64::MAX {
        r.log(EventKind::DayAdvanced { day: r.clock.day })
    } else {
        r
    }
}

/// The `q`-th quarter of a day, from zero.
pub open spec fn quarter_at(q: int) -> DayQuarter {
    if q == 0 {
        DayQuarter::Q1
    } else if q == 1 {
        DayQuarter::Q2
    } else if q == 2 {
        DayQuarter::Q3
    } else {
        DayQuarter::Q4
    }
}

fn quarter_for(q: usize) -> (r: DayQuarter)
    ensures
        r == quarter_at(q as int),
{
    if q == 0 {
        DayQuarter::Q1
    } else if q == 1 {
        DayQuarter::Q2
    } else if q == 2 {
        DayQuarter::Q3
    } else {
        DayQuarter::Q4
    }
}

/// One quarter's contact phase from `a` to `b`: the clock moves to quarter
/// `q`, then every convoy en route draws its contact roll (skipped only when
/// ids run short).
pub open spec fn quarter_rolled(a: WorldView, q: DayQuarter, b: WorldView) -> bool {
    let a2 = WorldView { clock: SimClock { quarter: q, ..a.clock }, ..a };
    b == if a2.has_room(2 * a2.convoys.dom().len() as int) {
        crate::convoys::convoy_contacts(a2, crate::table::key_order(a2.convoys), b)
    } else {
        a2
    }
}

/// The production phase from `a` to `b`: every job is kept or completed,
/// every job due today is handled, and nothing else of note moves.
pub open spec fn production_ran(a: WorldView, b: WorldView) -> bool {
    &&& phase_ok(a, b)
    &&& crate::combat::money_untouched(b, a)
    &&& b.production_jobs.dom() == a.production_jobs.dom()
    &&& forall|k: u64| #[trigger]
        a.production_jobs.dom().contains(k) ==> b.production_jobs[k] == a.production_jobs[k]
            || crate::production::job_completed(a, b, k)
    &&& forall|k: u64| #[trigger] a.production_jobs.dom().contains(k) ==> crate::production::due_handled(a, b, k)
}

/// The opening of a day from `v`, state by state: the day rolls over
/// (`c[0]`), the four quarters of contact rolls (`c[1]` to `c[4]`), and the
/// production completions, which leave `c[5]`.
pub open spec fn day_opening(v: WorldView, c: Seq<WorldView>) -> bool {
    &&& c.len() == 6
    &&& c[0] == day_rolled(v)
    &&& forall|x: int| 0 <= x < 4 ==> #[trigger] quarter_rolled(c[x], quarter_at(x), c[x + 1])
    &&& production_ran(c[4], c[5])
}

/// A whole day from `v` to `w`: its opening `c`, then its later phases `t`.
pub open spec fn tick_day(v: WorldView, w: WorldView, c: Seq<WorldView>, t: Seq<WorldView>) -> bool {
    &&& day_opening(v, c)
    &&& c[5] == t[0]
    &&& tick_trace(v, w, t)
}

/// One day's phases after the day rolled over, the contact rolls and the
/// production completions, state by state (`t[0]` is the state they left):
/// location yields; convoy arrivals and formation arrivals (each skipped
/// only when ids run short); civilian demand; the faction AI; faction
/// deployment (skipped only when ids run short); war; market matching; and
/// population, which leaves `w`.
pub open spec fn tick_trace(v: WorldView, w: WorldView, t: Seq<WorldView>) -> bool {
    &&& t.len() == 9
    &&& t[0].clock.day == v.clock.day + 1
    &&& yields_ran(t[0], t[1])
    &&& t[2] == if t[1].has_room(t[1].convoys.dom().len() as int) {
        crate::convoys::convoys_arrived(t[1], crate::table::key_order(t[1].convoys), t[1].clock.day)
    } else {
        t[1]
    }
    &&& t[3] == if t[2].has_room(t[2].formations.dom().len() as int) {
        crate::toe::formations_arrived(t[2], crate::table::key_order(t[2].formations), t[2].clock.day)
    } else {
        t[2]
    }
    &&& demand_ran(t[3], t[4])
    &&& crate::faction_ai::planned_for_goals(t[4], t[5])
    &&& t[6] == if t[5].has_room(t[5].formations.dom().len() as int) {
        crate::faction_ai::deployed(t[5], crate::table::key_order(t[5].formations))
    } else {
        t[5]
    }
    &&& war_ran(t[6], t[7])
    &&& t[8] == crate::markets::match_orders(t[7], crate::table::key_order(t[7].buy_orders))
    &&& population_ran(t[8], w)
}

/// Every yield line of every location was answered.
pub open spec fn yields_ran(a: WorldView, b: WorldView) -> bool {
    forall|loc: u64, i: int|
        #![trigger crate::locations::line_answered(a, b, loc, i)]
        a.locations.dom().contains(loc) && 0 <= i < a.locations[loc].yields@.len() ==> crate::locations::line_answered(
            a,
            b,
            loc,
            i,
        )
}

/// Every need of every bidding city was answered at its first market.
pub open spec fn demand_ran(a: WorldView, b: WorldView) -> bool {
    forall|city: u64, j: int, m: MarketId|
        #![trigger crate::markets::need_answered(a, b, city, j, m)]
        crate::markets::bidding_city(a, city) && 0 <= j < a.locations[city].civilian_needs@.len()
            && crate::markets::first_market_at(a, LocationId(city), m) ==> crate::markets::need_answered(a, b, city, j, m)
}

/// Every site in id order fought out its ready battle, and control of a site
/// changed only through a logged battle there.
pub open spec fn war_ran(a: WorldView, b: WorldView) -> bool {
    &&& exists|ss: Seq<WorldView>| #[trigger] crate::war::sites_fought(a, b, ss)
    &&& b.locations.dom() == a.locations.dom()
    &&& forall|k: u64| #[trigger]
        a.locations.dom().contains(k) && b.locations[k].controller != a.locations[k].controller
            ==> crate::combat::battle_logged(a, b, LocationId(k))
}

/// Every populated city lived its day and paid its tax; every other
/// location is unchanged.
pub open spec fn population_ran(a: WorldView, b: WorldView) -> bool {
    &&& exists|cs: Seq<WorldView>, ks: Seq<u64>| #[trigger] crate::locations::cities_taxed(a, b, cs, ks)
    &&& b.locations.dom() == a.locations.dom()
    &&& forall|k: u64| #[trigger]
        a.locations.dom().contains(k) ==> if a.locations[k].population > 0 {
            crate::locations::city_day(a.locations[k], b.locations[k])
        } else {
            b.locations[k] == a.locations[k]
        }
}


/// The FNV-1a offset basis.
pub const FNV_OFFSET: u64 = 0xcbf2_9ce4_8422_2325;
/// The FNV-1a prime.
pub const FNV_PRIME: u64 = 0x0000_0100_0000_01b3;

/// 64-bit FNV-1a over a byte string: start from the offset basis, then for
/// each byte xor it in and multiply by the prime (wrapping).
pub open spec fn fnv1a_spec(bytes: Seq<u8>) -> u64
    decreases bytes.len(),
{
    if bytes.len() == 0 {
        FNV_OFFSET
    } else {
        (fnv1a_spec(bytes.drop_last()) ^ (bytes.last() as u64)).wrapping_mul(FNV_PRIME)
    }
}

/// 64-bit FNV-1a hash of a byte string: the stable digest behind the
/// world's state digest.
pub fn fnv1a(bytes: &[u8]) -> (h: u64)
    ensures
        h == fnv1a_spec(bytes@),
{
    let mut hash: u64 = FNV_OFFSET;
    let mut i: usize = 0;
    while i < bytes.len()
        invariant
            i <= bytes@.len(),
            hash == fnv1a_spec(bytes@.take(i as int)),
        decreases bytes@.len() - i,
    {
        proof {
            assert(bytes@.take(i + 1).drop_last() =~= bytes@.take(i as int));
            assert(bytes@.take(i + 1).last() == bytes@[i as int]);
        }
        hash = (hash ^ (bytes[i] as u64)).wrapping_mul(FNV_PRIME);
        i = i + 1;
    }
    proof {
        assert(bytes@.take(bytes@.len() as int) =~= bytes@);
    }
    hash
}

/// In a sound world, one treasury plus one order's escrow never exceeds
/// what was issued.
pub proof fn lemma_treasury_and_escrow(v: WorldView, a: u64, o: u64)
    requires
        v.wf(),
        v.money_sound(),
        v.actors.dom().contains(a),
        v.buy_orders.dom().contains(o),
    ensures
        v.actors[a].treasury + v.buy_orders[o].escrow <= v.money_issued,
        v.actors[a].treasury >= 0,
        v.buy_orders[o].escrow >= 0,
{
    let fa = |x: Actor| x.treasury as int;
    let fo = |x: BuyOrder| x.escrow as int;
    assert forall|i: int| 0 <= i < v.actor_keys.len() implies #[trigger] fa(v.actors[v.actor_keys[i]]) >= 0 by {
        assert(v.actors.dom().contains(v.actor_keys[i]));
    }
    assert forall|i: int| 0 <= i < v.order_keys.len() implies #[trigger] fo(v.buy_orders[v.order_keys[i]]) >= 0 by {
        assert(v.buy_orders.dom().contains(v.order_keys[i]));
        assert(v.buy_orders[v.order_keys[i]].escrow == v.buy_orders[v.order_keys[i]].quantity
            * v.buy_orders[v.order_keys[i]].limit_price_per_unit);
        let q = v.buy_orders[v.order_keys[i]].quantity;
        let l = v.buy_orders[v.order_keys[i]].limit_price_per_unit;
        assert(q * l >= 0) by (nonlinear_arith)
            requires
                q > 0,
                l > 0,
        ;
    }
    let ia = choose|i: int| 0 <= i < v.actor_keys.len() && v.actor_keys[i] == a;
    let io = choose|i: int| 0 <= i < v.order_keys.len() && v.order_keys[i] == o;
    assert(v.actor_keys.contains(a));
    assert(v.order_keys.contains(o));
    crate::table::lemma_sum_ge_term(v.actor_keys, v.actors, fa, ia);
    crate::table::lemma_sum_ge_term(v.order_keys, v.buy_orders, fo, io);
    assert(fo(v.buy_orders[v.order_keys[io]]) >= 0);
}
} // verus!
