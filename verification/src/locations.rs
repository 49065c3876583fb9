//! Locations: physical places and the holding hierarchy.
//!
//! Every physical lot, asset, and loose component has exactly one current
//! holder, expressed as a `LocationRef`. Holders can nest (a lot in a
//! container, the container on a convoy), but everything resolves to at most
//! one physical site at a time, or to none when the holder is on the road.

use crate::actors::Credits;
use crate::arith::{abs_diff_i64, max_u64};
use crate::convoys::convoy_state_site;
use crate::error::SimError;
use crate::events::EventKind;
use crate::toe::formation_state_site;
use crate::world::{World, WorldView};
use vstd::string::*;
use crate::ids::{ActorId, LocationId, CommodityId, AssetId, StockpileId, ConvoyId, FormationId, LotId};
use crate::goods::{LegalStatus, Lineage, LotOrigin, LotState, QualityGrade};
use vstd::prelude::*;

verus! {

#[derive(Debug, Clone, Copy, PartialEq, Eq, Structural)]
pub enum LocationKind {
    City,
    Mine,
    Refinery,
    FactorySite,
    Warehouse,
    Depot,
    Port,
    MilitaryBase,
    Battlefield,
    Ruin,
    /// Explicit admin holding area.
    AdminHolding,
}

/// Mine depletion modes: infinite or finite.
#[derive(Debug, Clone, Copy, PartialEq, Eq, Structural)]
pub enum MineReserves {
    Infinite,
    Finite { remaining: u64 },
}

/// One independent automatic-production line at a location.
#[derive(Debug, Clone, Copy, PartialEq, Eq, Structural)]
pub struct LocationYield {
    pub commodity: CommodityId,
    pub quantity_per_day: u64,
    pub reserves: MineReserves,
}

/// A daily civilian demand line for a city.
#[derive(Debug, Clone, Copy, PartialEq, Eq, Structural)]
pub struct CivilianNeed {
    pub commodity: CommodityId,
    pub quantity_per_day: u64,
}

#[derive(Debug)]
pub struct Location {
    pub id: LocationId,
    pub name: String,
    pub kind: LocationKind,
    /// Abstract map grid position.
    pub position: (i64, i64),
    pub population: u64,
    /// The actor that buys on behalf of the civilian population.
    pub authority: Option<ActorId>,
    pub civilian_needs: Vec<CivilianNeed>,
    /// Per-capita daily tax revenue credited to `authority`.
    pub tax_rate_per_capita: Credits,
    /// 0-100. Climbs when civilian needs go unmet, decays when satisfied.
    pub unrest_pct: u32,
    /// `Some` only for mines; gates on-demand extraction.
    pub mine_reserves: Option<MineReserves>,
    /// Automatic daily production lines.
    pub yields: Vec<LocationYield>,
    /// The faction currently holding this site, if any.
    pub controller: Option<ActorId>,
    /// The day `controller` last changed hands.
    pub controlled_since: u64,
}

/// Where a physical thing currently is.
#[derive(Debug, Clone, Copy, PartialEq, Eq, Structural)]
pub enum LocationRef {
    /// At a site, in the open local economy of that site.
    Site(LocationId),
    /// Inside a specific stockpile warehouse (which is itself at a site).
    Stockpile(StockpileId),
    /// Aboard a convoy.
    Convoy(ConvoyId),
    /// Inside a serial cargo container (which itself is somewhere).
    Container(AssetId),
    /// Assigned to a military formation.
    Formation(FormationId),
}

} // verus!

verus! {

/// The holder a location reference names actually exists.
pub open spec fn ref_valid(v: WorldView, loc: LocationRef) -> bool {
    match loc {
        LocationRef::Site(id) => v.locations.dom().contains(id.0),
        LocationRef::Stockpile(id) => v.stockpiles.dom().contains(id.0),
        LocationRef::Convoy(id) => v.convoys.dom().contains(id.0),
        LocationRef::Container(id) => v.assets.dom().contains(id.0),
        LocationRef::Formation(id) => v.formations.dom().contains(id.0),
    }
}

/// The physical site a holder chain resolves to, following at most `fuel`
/// containers.
pub open spec fn site_of(v: WorldView, loc: LocationRef, fuel: nat) -> Option<LocationId>
    decreases fuel,
{
    if fuel == 0 {
        None
    } else {
        match loc {
            LocationRef::Site(s) => Some(s),
            LocationRef::Stockpile(s) => if v.stockpiles.dom().contains(s.0) {
                Some(v.stockpiles[s.0].site)
            } else {
                None
            },
            LocationRef::Convoy(c) => if v.convoys.dom().contains(c.0) {
                convoy_state_site(v.convoys[c.0].state)
            } else {
                None
            },
            LocationRef::Container(a) => if v.assets.dom().contains(a.0) {
                site_of(v, v.assets[a.0].location, (fuel - 1) as nat)
            } else {
                None
            },
            LocationRef::Formation(f) => if v.formations.dom().contains(f.0) {
                formation_state_site(v.formations[f.0].state)
            } else {
                None
            },
        }
    }
}

/// Holder chains are short; the depth bound only guards against a corrupted
/// cyclic chain.
pub open spec fn resolve(v: WorldView, loc: LocationRef) -> Option<LocationId> {
    site_of(v, loc, 16)
}

/// `|a - b|` in the Chebyshev (king-move) metric.
pub open spec fn spec_chebyshev(a: (i64, i64), b: (i64, i64)) -> int {
    let dx = if a.0 >= b.0 { a.0 - b.0 } else { b.0 - a.0 };
    let dy = if a.1 >= b.1 { a.1 - b.1 } else { b.1 - a.1 };
    if dx >= dy {
        dx
    } else {
        dy
    }
}

pub fn chebyshev_distance(a: (i64, i64), b: (i64, i64)) -> (d: u64)
    ensures
        d == spec_chebyshev(a, b),
{
    let dx = abs_diff_i64(a.0, b.0);
    let dy = abs_diff_i64(a.1, b.1);
    max_u64(dx, dy)
}

/// The Chebyshev distance is symmetric.
pub proof fn lemma_chebyshev_symmetric(a: (i64, i64), b: (i64, i64))
    ensures
        spec_chebyshev(a, b) == spec_chebyshev(b, a),
{
}

/// The text `Name#n` that identifies an entity in messages.
pub open spec fn id_label(kind: Seq<char>, n: u64) -> Seq<char> {
    kind + "#"@ + crate::decimal::decimal(n as nat)
}

/// The text `Name#n` that identifies an entity in messages.
pub(crate) fn id_text(kind: &str, n: u64) -> (s: String)
    ensures
        s@ == id_label(kind@, n),
        s@.len() >= kind@.len(),
{
    let t = kind.to_owned();
    let t = t.concat("#");
    let digits = crate::decimal::decimal_text(n);
    t.concat(digits.as_str())
}

/// An optional controller as written in messages: `Some(ActorId(n))` or
/// `None`.
pub open spec fn controller_label(c: Option<ActorId>) -> Seq<char> {
    match c {
        Some(a) => "Some(ActorId("@ + crate::decimal::decimal(a.0 as nat) + "))"@,
        None => "None"@,
    }
}

/// The text of an optional controller in messages.
fn controller_text(c: Option<ActorId>) -> (s: String)
    ensures
        s@ == controller_label(c),
{
    match c {
        Some(a) => "Some(ActorId(".to_owned().concat(crate::decimal::decimal_text(a.0).as_str()).concat("))"),
        None => "None".to_owned(),
    }
}

/// Line `i` of location `loc` is due in `v`: the location has a controller
/// and the line holds at least a day's quantity in reserve, or is unlimited.
pub open spec fn line_due(v: WorldView, loc: u64, i: int) -> bool {
    &&& v.locations.dom().contains(loc)
    &&& v.locations[loc].controller is Some
    &&& 0 <= i < v.locations[loc].yields@.len()
    &&& match v.locations[loc].yields@[i].reserves {
        MineReserves::Infinite => true,
        MineReserves::Finite { remaining } => remaining >= v.locations[loc].yields@[i].quantity_per_day,
    }
}

/// Reserves after a day's quantity `q` is taken.
pub open spec fn depleted(r: MineReserves, q: u64) -> MineReserves {
    match r {
        MineReserves::Finite { remaining } => MineReserves::Finite { remaining: (remaining - q) as u64 },
        MineReserves::Infinite => MineReserves::Infinite,
    }
}

/// Line `i` of `loc` yielded in `w`: a new lot holds its output and its
/// reserves went down by its daily quantity.
pub open spec fn line_yielded(v: WorldView, w: WorldView, loc: u64, i: int) -> bool {
    &&& exists|k: u64| #[trigger]
        w.lots.dom().contains(k) && !v.lots.dom().contains(k) && yield_line_lot(v, loc, i, w.lots[k])
    &&& w.locations[loc].yields@[i].reserves == depleted(
        v.locations[loc].yields@[i].reserves,
        v.locations[loc].yields@[i].quantity_per_day,
    )
}

/// Line `i` of `loc` was handled as the day's yield asks: a line that is
/// not due keeps its reserves; a due line either yielded, or kept its
/// reserves where its lot could not be made (refused, or no ids left).
pub open spec fn line_answered(v: WorldView, w: WorldView, loc: u64, i: int) -> bool {
    let l = v.locations[loc];
    let y = l.yields@[i];
    &&& !line_due(v, loc, i) ==> w.locations[loc].yields@[i].reserves == y.reserves
    &&& line_due(v, loc, i) ==> {
        ||| line_yielded(v, w, loc, i)
        ||| w.locations[loc].yields@[i].reserves == y.reserves && (crate::goods::lot_create_error(
            v,
            l.controller->0,
            y.commodity,
            y.quantity_per_day,
            LocationRef::Site(LocationId(loc)),
        ) is Some || w.next_id > u64::MAX - 3)
    }
}

/// Entry `a` comes before entry `b`: by location id, then line.
pub open spec fn entry_before(a: (LocationId, ActorId, usize, CommodityId, u64), b: (LocationId, ActorId, usize, CommodityId, u64)) -> bool {
    a.0.0 < b.0.0 || (a.0.0 == b.0.0 && a.2 < b.2)
}

/// The entries list line `i` of `loc`.
pub open spec fn lists_line(s: Seq<(LocationId, ActorId, usize, CommodityId, u64)>, loc: u64, i: int) -> bool {
    exists|x: int| 0 <= x < s.len() && (#[trigger] s[x]).0.0 == loc && s[x].2 == i
}

/// Passing over entry `d - 1` leaves its line answered and everything else
/// as it was.
pub proof fn lemma_yield_skip(v: WorldView, w: WorldView, due: Seq<(LocationId, ActorId, usize, CommodityId, u64)>, d: int)
    requires
        1 <= d <= due.len(),
        line_due(v, due[d - 1].0.0, due[d - 1].2 as int),
        due_line(v, due[d - 1]),
        !lists_line(due.take(d - 1), due[d - 1].0.0, due[d - 1].2 as int),
        due.take(d).drop_last() == due.take(d - 1),
        due.take(d).last() == due[d - 1],
        forall|loc: u64, yy: int|
            #![trigger w.locations[loc].yields@[yy]]
            v.locations.dom().contains(loc) && 0 <= yy < v.locations[loc].yields@.len() && !lists_line(due.take(d - 1), loc, yy)
                ==> w.locations[loc].yields@[yy].reserves == v.locations[loc].yields@[yy].reserves,
        w.next_id > u64::MAX - 3 || crate::goods::lot_create_error(
            v,
            due[d - 1].1,
            due[d - 1].3,
            due[d - 1].4,
            LocationRef::Site(due[d - 1].0),
        ) is Some,
        forall|x: int| 0 <= x < d - 1 ==> line_answered(v, w, (#[trigger] due[x]).0.0, due[x].2 as int),
    ensures
        forall|x: int| 0 <= x < d ==> line_answered(v, w, (#[trigger] due[x]).0.0, due[x].2 as int),
        forall|loc: u64, yy: int|
            #![trigger w.locations[loc].yields@[yy]]
            v.locations.dom().contains(loc) && 0 <= yy < v.locations[loc].yields@.len() && !lists_line(due.take(d), loc, yy)
                ==> w.locations[loc].yields@[yy].reserves == v.locations[loc].yields@[yy].reserves,
{
    let e = due[d - 1];
    assert(w.locations[e.0.0].yields@[e.2 as int].reserves == v.locations[e.0.0].yields@[e.2 as int].reserves);
    assert forall|loc: u64, yy: int|
        v.locations.dom().contains(loc) && 0 <= yy < v.locations[loc].yields@.len() && !lists_line(due.take(d), loc, yy)
            implies #[trigger] w.locations[loc].yields@[yy].reserves == v.locations[loc].yields@[yy].reserves by {
        if lists_line(due.take(d - 1), loc, yy) {
            let x = choose|x: int| 0 <= x < due.take(d - 1).len() && (#[trigger] due.take(d - 1)[x]).0.0 == loc && due.take(d - 1)[x].2 == yy;
            assert(due.take(d)[x] == due.take(d - 1)[x]);
        }
    }
}

/// Yielding entry `d - 1` (a new lot `lot`, its line's reserves taken
/// down) leaves its line answered and keeps earlier answers.
pub proof fn lemma_yield_step(
    v: WorldView,
    s: WorldView,
    w: WorldView,
    due: Seq<(LocationId, ActorId, usize, CommodityId, u64)>,
    d: int,
    lot: u64,
)
    requires
        1 <= d <= due.len(),
        line_due(v, due[d - 1].0.0, due[d - 1].2 as int),
        due_line(v, due[d - 1]),
        !lists_line(due.take(d - 1), due[d - 1].0.0, due[d - 1].2 as int),
        due.take(d).drop_last() == due.take(d - 1),
        due.take(d).last() == due[d - 1],
        forall|x: int, z: int| 0 <= x < z < due.len() ==> entry_before(#[trigger] due[x], #[trigger] due[z]),
        forall|x: int| 0 <= x < due.len() ==> due_line(v, #[trigger] due[x]),
        lines_kept(v, s),
        lines_kept(v, w),
        forall|k: u64| #[trigger] s.lots.dom().contains(k) ==> w.lots.dom().contains(k) && w.lots[k] == s.lots[k],
        w.lots.dom().contains(lot) && !v.lots.dom().contains(lot),
        yield_line_lot(v, due[d - 1].0.0, due[d - 1].2 as int, w.lots[lot]),
        s.next_id <= w.next_id,
        forall|loc: u64, yy: int|
            #![trigger s.locations[loc].yields@[yy]]
            v.locations.dom().contains(loc) && 0 <= yy < v.locations[loc].yields@.len() && !lists_line(due.take(d - 1), loc, yy)
                ==> s.locations[loc].yields@[yy].reserves == v.locations[loc].yields@[yy].reserves,
        forall|loc: u64, yy: int|
            #![trigger w.locations[loc].yields@[yy]]
            v.locations.dom().contains(loc) && 0 <= yy < v.locations[loc].yields@.len() && (loc != due[d - 1].0.0 || yy
                != due[d - 1].2) ==> w.locations[loc].yields@[yy].reserves == s.locations[loc].yields@[yy].reserves,
        w.locations[due[d - 1].0.0].yields@[due[d - 1].2 as int].reserves == depleted(
            s.locations[due[d - 1].0.0].yields@[due[d - 1].2 as int].reserves,
            v.locations[due[d - 1].0.0].yields@[due[d - 1].2 as int].quantity_per_day,
        ),
        forall|x: int| 0 <= x < d - 1 ==> line_answered(v, s, (#[trigger] due[x]).0.0, due[x].2 as int),
    ensures
        forall|x: int| 0 <= x < d ==> line_answered(v, w, (#[trigger] due[x]).0.0, due[x].2 as int),
        forall|loc: u64, yy: int|
            #![trigger w.locations[loc].yields@[yy]]
            v.locations.dom().contains(loc) && 0 <= yy < v.locations[loc].yields@.len() && !lists_line(due.take(d), loc, yy)
                ==> w.locations[loc].yields@[yy].reserves == v.locations[loc].yields@[yy].reserves,
{
    let e = due[d - 1];
    assert(s.locations[e.0.0].yields@[e.2 as int].reserves == v.locations[e.0.0].yields@[e.2 as int].reserves);
    assert(line_yielded(v, w, e.0.0, e.2 as int));
    assert forall|x: int| 0 <= x < d implies line_answered(v, w, (#[trigger] due[x]).0.0, due[x].2 as int) by {
        if x < d - 1 {
            let f = due[x];
            assert(entry_before(f, e));
            assert(due_line(v, f));
            assert(w.locations[f.0.0].yields@[f.2 as int].reserves == s.locations[f.0.0].yields@[f.2 as int].reserves);
            assert(line_answered(v, s, f.0.0, f.2 as int));
            if line_due(v, f.0.0, f.2 as int) && line_yielded(v, s, f.0.0, f.2 as int) {
                let k = choose|k: u64| #[trigger]
                    s.lots.dom().contains(k) && !v.lots.dom().contains(k) && yield_line_lot(v, f.0.0, f.2 as int, s.lots[k]);
                assert(w.lots.dom().contains(k));
            }
        }
    }
    assert forall|loc: u64, yy: int|
        v.locations.dom().contains(loc) && 0 <= yy < v.locations[loc].yields@.len() && !lists_line(due.take(d), loc, yy)
            implies #[trigger] w.locations[loc].yields@[yy].reserves == v.locations[loc].yields@[yy].reserves by {
        assert(due.take(d)[d - 1] == e);
        if lists_line(due.take(d - 1), loc, yy) {
            let x = choose|x: int| 0 <= x < due.take(d - 1).len() && (#[trigger] due.take(d - 1)[x]).0.0 == loc && due.take(d - 1)[x].2 == yy;
            assert(due.take(d)[x] == due.take(d - 1)[x]);
        }
    }
}

/// `l` is the same location as `o` as far as its yield lines go: same
/// controller, and the same lines producing the same commodities at the
/// same daily quantities (reserves may have moved).
pub open spec fn same_lines(o: Location, l: Location) -> bool {
    &&& l.controller == o.controller
    &&& l.yields@.len() == o.yields@.len()
    &&& forall|i: int|
        0 <= i < o.yields@.len() ==> (#[trigger] l.yields@[i]).commodity == o.yields@[i].commodity
            && l.yields@[i].quantity_per_day == o.yields@[i].quantity_per_day
}

/// Keeping the same lines composes.
pub proof fn lemma_same_lines_trans(a: Location, b: Location, c: Location)
    requires
        same_lines(a, b),
        same_lines(b, c),
    ensures
        same_lines(a, c),
{
    assert forall|i: int| 0 <= i < a.yields@.len() implies (#[trigger] c.yields@[i]).commodity == a.yields@[i].commodity
        && c.yields@[i].quantity_per_day == a.yields@[i].quantity_per_day by {
        assert(b.yields@[i].commodity == a.yields@[i].commodity);
    }
}

/// Every location of `v` keeps its yield lines in `w`.
pub open spec fn lines_kept(v: WorldView, w: WorldView) -> bool {
    &&& w.locations.dom() == v.locations.dom()
    &&& forall|k: u64| #[trigger] v.locations.dom().contains(k) ==> same_lines(v.locations[k], w.locations[k])
}

/// Lot `l` is a day's output of yield line `i` of controlled location `loc`
/// in `v`: the controller's, of the line's commodity and daily quantity, at
/// the location, rooted in mining there.
pub open spec fn yield_line_lot(v: WorldView, loc: u64, i: int, l: crate::goods::Lot) -> bool {
    &&& v.locations.dom().contains(loc)
    &&& v.locations[loc].controller == Some(l.owner)
    &&& 0 <= i < v.locations[loc].yields@.len()
    &&& l.commodity == v.locations[loc].yields@[i].commodity
    &&& l.quantity == v.locations[loc].yields@[i].quantity_per_day
    &&& l.location == LocationRef::Site(LocationId(loc))
    &&& l.lineage == Lineage::Root(LotOrigin::Mined { mine: LocationId(loc) })
}

/// Lot `l` is a day's output of some yield line in `v`.
pub open spec fn yield_lot(v: WorldView, l: crate::goods::Lot) -> bool {
    exists|loc: u64, i: int| #[trigger] yield_line_lot(v, loc, i, l)
}

/// A due entry names a line of a controlled location of `v`, its controller,
/// commodity and daily quantity.
pub open spec fn due_line(v: WorldView, e: (LocationId, ActorId, usize, CommodityId, u64)) -> bool {
    &&& v.locations.dom().contains(e.0.0)
    &&& v.locations[e.0.0].controller == Some(e.1)
    &&& e.2 < v.locations[e.0.0].yields@.len()
    &&& e.3 == v.locations[e.0.0].yields@[e.2 as int].commodity
    &&& e.4 == v.locations[e.0.0].yields@[e.2 as int].quantity_per_day
}

/// Route `r` of `w` runs from `from` to `to` over `days` days.
pub open spec fn route_between(w: WorldView, r: u64, from: u64, to: u64, days: u64) -> bool {
    &&& w.routes.dom().contains(r)
    &&& w.routes[r].from == LocationId(from)
    &&& w.routes[r].to == LocationId(to)
    &&& w.routes[r].distance_days == days
}

/// Location `k` of `w` is a mine found by prospectors: an unclaimed,
/// unpopulated mine with reserves, named after its id, joined both ways to
/// a location of `v` by routes of the same length of at least a day.
pub open spec fn discovered_mine(v: WorldView, w: WorldView, k: u64) -> bool {
    &&& w.locations[k].kind == LocationKind::Mine
    &&& w.locations[k].controller is None
    &&& w.locations[k].population == 0
    &&& w.locations[k].name@ == "Prospect Site "@ + crate::decimal::decimal(k as nat)
    &&& w.locations[k].mine_reserves is Some
    &&& exists|n: u64, r1: u64, r2: u64, days: u64|
        #![trigger route_between(w, r1, k, n, days), route_between(w, r2, n, k, days)]
        v.locations.dom().contains(n) && days >= 1 && route_between(w, r1, k, n, days) && route_between(w, r2, n, k, days)
}

/// A fresh location record.
pub open spec fn new_location(
    id: LocationId,
    name: String,
    kind: LocationKind,
    position: (i64, i64),
    civilian_needs: Vec<CivilianNeed>,
    yields: Vec<LocationYield>,
) -> Location {
    Location {
        id,
        name,
        kind,
        position,
        population: 0,
        authority: None,
        civilian_needs,
        tax_rate_per_capita: 0,
        unrest_pct: 0,
        mine_reserves: if kind == LocationKind::Mine {
            Some(MineReserves::Infinite)
        } else {
            None
        },
        yields,
        controller: None,
        controlled_since: 0,
    }
}

impl World {
    pub fn create_location(&mut self, name: &str, kind: LocationKind, position: (i64, i64)) -> (id: LocationId)
        requires
            old(self).wf(),
            old(self)@.has_room(2),
        ensures
            final(self).wf(),
            crate::world::phase_ok(old(self)@, final(self)@),
            crate::combat::money_untouched(final(self)@, old(self)@),
            id == LocationId(old(self)@.next_id),
            final(self)@.locations[id.0].name@ == name@,
            final(self)@.locations[id.0].civilian_needs@ == Seq::<CivilianNeed>::empty(),
            final(self)@.locations[id.0].yields@ == Seq::<LocationYield>::empty(),
            final(self)@ == (WorldView {
                locations: old(self)@.locations.insert(
                    id.0,
                    new_location(
                        id,
                        final(self)@.locations[id.0].name,
                        kind,
                        position,
                        final(self)@.locations[id.0].civilian_needs,
                        final(self)@.locations[id.0].yields,
                    ),
                ),
                ..old(self)@.bump()
            }).log(EventKind::LocationCreated { location: id }),
            crate::invariants::consistent(old(self)@) ==> crate::invariants::consistent(final(self)@),
    {
        let id = LocationId(self.alloc_id());
        let mine_reserves = if matches!(kind, LocationKind::Mine) {
            Some(MineReserves::Infinite)
        } else {
            None
        };
        let loc = Location {
            id,
            name: name.to_owned(),
            kind,
            position,
            population: 0,
            authority: None,
            civilian_needs: Vec::new(),
            tax_rate_per_capita: 0,
            unrest_pct: 0,
            mine_reserves,
            yields: Vec::new(),
            controller: None,
            controlled_since: 0,
        };
        proof {
            self.locations.lemma_fresh(id.0);
        }
        self.locations.insert_new(id.0, loc);
        proof {
            self.lemma_keys_wf();
        }
        self.push_event(EventKind::LocationCreated { location: id });
        proof {
            let o = old(self)@;
            if crate::invariants::consistent(o) {
                assert(crate::invariants::grows_soundly(o, self@));
                crate::invariants::lemma_consistent_grows(o, self@);
            }
        }
        id
    }

    /// True if the holder referenced actually exists.
    pub(crate) fn location_ref_valid(&self, loc: LocationRef) -> (b: bool)
        requires
            self.wf(),
        ensures
            b == ref_valid(self@, loc),
    {
        match loc {
            LocationRef::Site(id) => self.locations.contains(id.0),
            LocationRef::Stockpile(id) => self.stockpiles.contains(id.0),
            LocationRef::Convoy(id) => self.convoys.contains(id.0),
            LocationRef::Container(id) => self.assets.contains(id.0),
            LocationRef::Formation(id) => self.formations.contains(id.0),
        }
    }

    /// Resolve a holder chain to the physical site it is currently at, if it
    /// is at one. A convoy or formation en route resolves to `None`: the
    /// thing is real but on the road.
    pub fn resolve_site(&self, loc: LocationRef) -> (r: Option<LocationId>)
        requires
            self.wf(),
        ensures
            r == resolve(self@, loc),
    {
        let mut current = loc;
        let mut i: u64 = 0;
        while i < 16
            invariant
                self.wf(),
                i <= 16,
                site_of(self@, loc, 16) == site_of(self@, current, (16 - i) as nat),
            decreases 16 - i,
        {
            match current {
                LocationRef::Site(site) => {
                    return Some(site);
                },
                LocationRef::Stockpile(s) => {
                    return match self.stockpiles.get(s.0) {
                        Some(sp) => Some(sp.site),
                        None => None,
                    };
                },
                LocationRef::Convoy(c) => {
                    return match self.convoys.get(c.0) {
                        Some(cv) => cv.current_site(),
                        None => None,
                    };
                },
                LocationRef::Container(a) => {
                    match self.assets.get(a.0) {
                        Some(asset) => {
                            current = asset.location;
                        },
                        None => {
                            return None;
                        },
                    }
                },
                LocationRef::Formation(fm) => {
                    return match self.formations.get(fm.0) {
                        Some(f) => f.current_site(),
                        None => None,
                    };
                },
            }
            i = i + 1;
        }
        None
    }

    /// Add an automatic daily production line to a location.
    pub fn add_location_yield(
        &mut self,
        location: LocationId,
        commodity: CommodityId,
        quantity_per_day: u64,
        reserves: MineReserves,
    ) -> (r: Result<(), SimError>)
        requires
            old(self).wf(),
            old(self)@.has_room(1),
        ensures
            final(self).wf(),
            !old(self)@.commodities.dom().contains(commodity.0) ==> r == Err::<(), SimError>(
                SimError::UnknownCommodity(commodity),
            ) && final(self)@ == old(self)@,
            old(self)@.commodities.dom().contains(commodity.0) && !old(self)@.locations.dom().contains(
                location.0,
            ) ==> r == Err::<(), SimError>(SimError::UnknownLocation(location)) && final(self)@ == old(self)@,
            old(self)@.commodities.dom().contains(commodity.0) && old(self)@.locations.dom().contains(
                location.0,
            ) ==> r is Ok && final(self)@.locations[location.0].yields@ == old(
                self,
            )@.locations[location.0].yields@.push(LocationYield { commodity, quantity_per_day, reserves })
                && final(self)@ == (WorldView {
                locations: old(self)@.locations.insert(
                    location.0,
                    Location {
                        yields: final(self)@.locations[location.0].yields,
                        ..old(self)@.locations[location.0]
                    },
                ),
                ..old(self)@
            }).log(
                EventKind::AdminEdit {
                    operator: None,
                    description: final(self)@.events.last().kind->description,
                },
            ),
            old(self)@.commodities.dom().contains(commodity.0) && old(self)@.locations.dom().contains(location.0) ==> final(self)@.events.last().kind->description@ == "added a "@ + crate::decimal::decimal(quantity_per_day as nat) + "/day yield to "@ + id_label("LocationId"@, location.0),
            crate::invariants::consistent(old(self)@) ==> crate::invariants::consistent(final(self)@),
    {
        if !self.commodities.contains(commodity.0) {
            return Err(SimError::UnknownCommodity(commodity));
        }
        if !self.locations.contains(location.0) {
            return Err(SimError::UnknownLocation(location));
        }
        let loc = self.locations.get_mut(location.0);
        loc.yields.push(LocationYield { commodity, quantity_per_day, reserves });
        let description = "added a ".to_owned().concat(crate::decimal::decimal_text(quantity_per_day).as_str()).concat("/day yield to ").concat(
            id_text("LocationId", location.0).as_str(),
        );
        proof {
            self.lemma_keys_wf();
        }
        self.push_event(EventKind::AdminEdit { operator: None, description });
        proof {
            let o = old(self)@;
            if crate::invariants::consistent(o) {
                assert(crate::invariants::grows_soundly(o, self@));
                crate::invariants::lemma_consistent_grows(o, self@);
            }
        }
        Ok(())
    }
    /// Set population, purchasing authority, and daily civilian needs for a
    /// city. Recorded as an explicit admin edit.
    pub fn configure_city(
        &mut self,
        city: LocationId,
        population: u64,
        authority: Option<ActorId>,
        needs: Vec<CivilianNeed>,
    ) -> (r: Result<(), SimError>)
        requires
            old(self).wf(),
            old(self)@.has_room(1),
        ensures
            final(self).wf(),
            authority matches Some(a) && !old(self)@.actors.dom().contains(a.0) ==> r == Err::<(), SimError>(
                SimError::UnknownActor(authority.unwrap()),
            ) && final(self)@ == old(self)@,
            !(authority matches Some(a) && !old(self)@.actors.dom().contains(a.0))
                && !old(self)@.locations.dom().contains(city.0) ==> r == Err::<(), SimError>(
                SimError::UnknownLocation(city),
            ) && final(self)@ == old(self)@,
            !(authority matches Some(a) && !old(self)@.actors.dom().contains(a.0))
                && old(self)@.locations.dom().contains(city.0) ==> r is Ok && final(self)@ == (WorldView {
                locations: old(self)@.locations.insert(
                    city.0,
                    Location {
                        population,
                        authority,
                        civilian_needs: needs,
                        ..old(self)@.locations[city.0]
                    },
                ),
                ..old(self)@
            }).log(
                EventKind::AdminEdit {
                    operator: None,
                    description: final(self)@.events.last().kind->description,
                },
            ),
            !(authority matches Some(a) && !old(self)@.actors.dom().contains(a.0)) && old(self)@.locations.dom().contains(city.0) ==> final(self)@.events.last().kind->description@ == "configured city "@ + id_label("LocationId"@, city.0) + ": population "@ + crate::decimal::decimal(population as nat),
            crate::invariants::consistent(old(self)@) ==> crate::invariants::consistent(final(self)@),
    {
        if let Some(a) = authority {
            if !self.actors.contains(a.0) {
                return Err(SimError::UnknownActor(a));
            }
        }
        if !self.locations.contains(city.0) {
            return Err(SimError::UnknownLocation(city));
        }
        let loc = self.locations.get_mut(city.0);
        loc.population = population;
        loc.authority = authority;
        loc.civilian_needs = needs;
        let description = "configured city ".to_owned().concat(id_text("LocationId", city.0).as_str()).concat(": population ").concat(
            crate::decimal::decimal_text(population).as_str(),
        );
        proof {
            self.lemma_keys_wf();
        }
        self.push_event(EventKind::AdminEdit { operator: None, description });
        proof {
            let o = old(self)@;
            if crate::invariants::consistent(o) {
                assert(crate::invariants::grows_soundly(o, self@));
                crate::invariants::lemma_consistent_grows(o, self@);
            }
        }
        Ok(())
    }

    /// Set a city's per-capita tax rate credited to its authority each day.
    pub fn set_tax_rate(&mut self, city: LocationId, rate_per_capita: Credits) -> (r: Result<(), SimError>)
        requires
            old(self).wf(),
            old(self)@.has_room(1),
        ensures
            final(self).wf(),
            !old(self)@.locations.dom().contains(city.0) ==> r == Err::<(), SimError>(
                SimError::UnknownLocation(city),
            ) && final(self)@ == old(self)@,
            old(self)@.locations.dom().contains(city.0) ==> r is Ok && final(self)@ == (WorldView {
                locations: old(self)@.locations.insert(
                    city.0,
                    Location { tax_rate_per_capita: rate_per_capita, ..old(self)@.locations[city.0] },
                ),
                ..old(self)@
            }).log(
                EventKind::AdminEdit {
                    operator: None,
                    description: final(self)@.events.last().kind->description,
                },
            ),
            old(self)@.locations.dom().contains(city.0) ==> final(self)@.events.last().kind->description@ == "set "@ + id_label("LocationId"@, city.0) + " tax rate to "@ + crate::decimal::signed_decimal(rate_per_capita as int) + "/capita"@,
            crate::invariants::consistent(old(self)@) ==> crate::invariants::consistent(final(self)@),
    {
        if !self.locations.contains(city.0) {
            return Err(SimError::UnknownLocation(city));
        }
        let loc = self.locations.get_mut(city.0);
        loc.tax_rate_per_capita = rate_per_capita;
        let description = "set ".to_owned().concat(id_text("LocationId", city.0).as_str()).concat(" tax rate to ").concat(
            crate::decimal::signed_decimal_text(rate_per_capita).as_str(),
        ).concat("/capita");
        proof {
            self.lemma_keys_wf();
        }
        self.push_event(EventKind::AdminEdit { operator: None, description });
        proof {
            let o = old(self)@;
            if crate::invariants::consistent(o) {
                assert(crate::invariants::grows_soundly(o, self@));
                crate::invariants::lemma_consistent_grows(o, self@);
            }
        }
        Ok(())
    }

    /// Seed a site's initial controlling faction. After this, only combat
    /// changes control.
    pub fn set_territory_controller(&mut self, site: LocationId, controller: Option<ActorId>) -> (r: Result<
        (),
        SimError,
    >)
        requires
            old(self).wf(),
            old(self)@.has_room(1),
        ensures
            final(self).wf(),
            controller matches Some(a) && !old(self)@.actors.dom().contains(a.0) ==> r == Err::<(), SimError>(
                SimError::UnknownActor(controller.unwrap()),
            ) && final(self)@ == old(self)@,
            !(controller matches Some(a) && !old(self)@.actors.dom().contains(a.0))
                && !old(self)@.locations.dom().contains(site.0) ==> r == Err::<(), SimError>(
                SimError::UnknownLocation(site),
            ) && final(self)@ == old(self)@,
            !(controller matches Some(a) && !old(self)@.actors.dom().contains(a.0))
                && old(self)@.locations.dom().contains(site.0) ==> r is Ok && final(self)@ == (WorldView {
                locations: old(self)@.locations.insert(
                    site.0,
                    Location {
                        controller,
                        controlled_since: old(self)@.clock.day,
                        ..old(self)@.locations[site.0]
                    },
                ),
                ..old(self)@
            }).log(
                EventKind::AdminEdit {
                    operator: None,
                    description: final(self)@.events.last().kind->description,
                },
            ),
            !(controller matches Some(a) && !old(self)@.actors.dom().contains(a.0)) && old(self)@.locations.dom().contains(site.0) ==> final(self)@.events.last().kind->description@ == "set "@ + id_label("LocationId"@, site.0) + " controller to "@ + controller_label(controller),
            crate::invariants::consistent(old(self)@) ==> crate::invariants::consistent(final(self)@),
    {
        if let Some(owner) = controller {
            if !self.actors.contains(owner.0) {
                return Err(SimError::UnknownActor(owner));
            }
        }
        let day = self.clock.day;
        if !self.locations.contains(site.0) {
            return Err(SimError::UnknownLocation(site));
        }
        let loc = self.locations.get_mut(site.0);
        loc.controller = controller;
        loc.controlled_since = day;
        let description = "set ".to_owned().concat(id_text("LocationId", site.0).as_str()).concat(" controller to ").concat(
            controller_text(controller).as_str(),
        );
        proof {
            self.lemma_keys_wf();
        }
        self.push_event(EventKind::AdminEdit { operator: None, description });
        proof {
            let o = old(self)@;
            if crate::invariants::consistent(o) {
                assert(crate::invariants::grows_soundly(o, self@));
                crate::invariants::lemma_consistent_grows(o, self@);
            }
        }
        Ok(())
    }

    /// Set a mine's depletion mode. Recorded as an explicit admin edit.
    pub fn configure_mine(&mut self, mine: LocationId, reserves: MineReserves) -> (r: Result<(), SimError>)
        requires
            old(self).wf(),
            old(self)@.has_room(1),
        ensures
            final(self).wf(),
            crate::world::phase_ok(old(self)@, final(self)@),
            crate::combat::money_untouched(final(self)@, old(self)@),
            !old(self)@.locations.dom().contains(mine.0) ==> r == Err::<(), SimError>(
                SimError::UnknownLocation(mine),
            ) && final(self)@ == old(self)@,
            old(self)@.locations.dom().contains(mine.0) && old(self)@.locations[mine.0].kind
                != LocationKind::Mine ==> r == Err::<(), SimError>(SimError::InvalidLocationKind(mine))
                && final(self)@ == old(self)@,
            old(self)@.locations.dom().contains(mine.0) && old(self)@.locations[mine.0].kind
                == LocationKind::Mine ==> r is Ok && final(self)@ == (WorldView {
                locations: old(self)@.locations.insert(
                    mine.0,
                    Location { mine_reserves: Some(reserves), ..old(self)@.locations[mine.0] },
                ),
                ..old(self)@
            }).log(
                EventKind::AdminEdit {
                    operator: None,
                    description: final(self)@.events.last().kind->description,
                },
            ),
            old(self)@.locations.dom().contains(mine.0) && old(self)@.locations[mine.0].kind == LocationKind::Mine ==> final(self)@.events.last().kind->description@ == "configured mine "@ + id_label("LocationId"@, mine.0) + " reserves"@,
            crate::invariants::consistent(old(self)@) ==> crate::invariants::consistent(final(self)@),
    {
        if !self.locations.contains(mine.0) {
            return Err(SimError::UnknownLocation(mine));
        }
        let loc = self.locations.get_mut(mine.0);
        if !matches!(loc.kind, LocationKind::Mine) {
            return Err(SimError::InvalidLocationKind(mine));
        }
        loc.mine_reserves = Some(reserves);
        let description = "configured mine ".to_owned().concat(id_text("LocationId", mine.0).as_str()).concat(" reserves");
        proof {
            self.lemma_keys_wf();
        }
        self.push_event(EventKind::AdminEdit { operator: None, description });
        proof {
            let o = old(self)@;
            if crate::invariants::consistent(o) {
                assert(crate::invariants::grows_soundly(o, self@));
                crate::invariants::lemma_consistent_grows(o, self@);
            }
        }
        Ok(())
    }
}


/// Unrest after a day: up ten points (capped at 100) when a need went
/// unmet, else down five (never below zero).
pub open spec fn next_unrest(unrest: u32, shortfall: bool) -> u32 {
    if shortfall {
        if unrest + 10 >= 100 {
            100
        } else {
            (unrest + 10) as u32
        }
    } else if unrest >= 5 {
        (unrest - 5) as u32
    } else {
        0
    }
}

/// Population after a day, in basis points: growth of 5bp while content,
/// decline of 20bp under unrest above 30 percent.
pub open spec fn next_population(population: u64, unrest: u32) -> int {
    if unrest > 30 {
        population - population * 20 / 10_000
    } else {
        crate::arith::clamp_u64(population + population * 5 / 10_000)
    }
}

pub fn unrest_after(unrest: u32, shortfall: bool) -> (r: u32)
    ensures
        r == next_unrest(unrest, shortfall),
{
    if shortfall {
        if unrest >= 90 {
            100
        } else {
            unrest + 10
        }
    } else if unrest >= 5 {
        unrest - 5
    } else {
        0
    }
}

pub fn population_after(population: u64, unrest: u32) -> (r: u64)
    ensures
        r == next_population(population, unrest),
{
    let p: u128 = population as u128;
    if unrest > 30 {
        let d: u128 = p * 20 / 10_000;
        (p - d) as u64
    } else {
        let g: u128 = p + p * 5 / 10_000;
        if g > u64::MAX as u128 {
            u64::MAX
        } else {
            g as u64
        }
    }
}

/// One city's day, as its record shows it: unrest moved by the rule for
/// a met or an unmet need (met for sure when there is no need, unmet for
/// sure when there is need but no authority to buy), population by the
/// rule for the new unrest, and nothing else changed.
pub open spec fn city_day(o: Location, f: Location) -> bool {
    &&& (f.unrest_pct == next_unrest(o.unrest_pct, true) || f.unrest_pct == next_unrest(o.unrest_pct, false))
    &&& (o.authority is None || o.civilian_needs@.len() == 0 ==> f.unrest_pct == next_unrest(
        o.unrest_pct,
        o.civilian_needs@.len() > 0,
    ))
    &&& f.population == next_population(o.population, f.unrest_pct)
    &&& f == (Location { unrest_pct: f.unrest_pct, population: f.population, ..o })
}

impl World {
    /// Automatic daily production: every location with a controller makes,
    /// from each of its yield lines that still has the capacity, a real lot
    /// for that controller at the site, and draws the line's finite
    /// reserves down by what it made.
    pub(crate) fn tick_location_yields(&mut self)
        requires
            old(self).wf(),
        ensures
            final(self).wf(),
            crate::world::phase_ok(old(self)@, final(self)@),
            crate::combat::money_untouched(final(self)@, old(self)@),
            lines_kept(old(self)@, final(self)@),
            forall|k: u64| #[trigger]
                final(self)@.lots.dom().contains(k) && !old(self)@.lots.dom().contains(k) ==> yield_lot(
                    old(self)@,
                    final(self)@.lots[k],
                ),
            forall|loc: u64, i: int|
                #![trigger line_answered(old(self)@, final(self)@, loc, i)]
                old(self)@.locations.dom().contains(loc) && 0 <= i < old(self)@.locations[loc].yields@.len()
                    ==> line_answered(old(self)@, final(self)@, loc, i),
    {
        let ghost v = self@;
        let mut due: Vec<(LocationId, ActorId, usize, CommodityId, u64)> = Vec::new();
        let n = self.locations.len();
        proof {
            self.locations.lemma_facts();
        }
        let mut i: usize = 0;
        while i < n
            invariant
                self.wf(),
                self@ == v,
                n == self.locations.keys().len(),
                i <= n,
                crate::table::strictly_increasing(self.locations.keys()),
                forall|k: u64| #[trigger] v.locations.dom().contains(k) <==> self.locations.keys().contains(k),
                forall|x: int| 0 <= x < due@.len() ==> due_line(v, #[trigger] due@[x]),
                forall|x: int| 0 <= x < due@.len() ==> line_due(v, (#[trigger] due@[x]).0.0, due@[x].2 as int),
                forall|x: int, z: int| 0 <= x < z < due@.len() ==> entry_before(#[trigger] due@[x], #[trigger] due@[z]),
                forall|x: int|
                    0 <= x < due@.len() ==> exists|j: int| 0 <= j < i && self.locations.keys()[j] == (#[trigger] due@[x]).0.0,
                forall|j: int, y: int|
                    0 <= j < i && #[trigger] line_due(v, self.locations.keys()[j], y) ==> lists_line(due@, self.locations.keys()[j], y),
            decreases n - i,
        {
            let k = self.locations.key_at(i);
            let l = self.locations.val_at(i);
            proof {
                assert forall|x: int| 0 <= x < due@.len() implies (#[trigger] due@[x]).0.0 < k by {
                    let j = choose|j: int| 0 <= j < i && self.locations.keys()[j] == due@[x].0.0;
                }
            }
            let ghost dstart = due@;
            i = i + 1;
            let controller = match l.controller {
                Some(c) => c,
                None => {
                    proof {
                        assert forall|j: int, y: int|
                            0 <= j < i && #[trigger] line_due(v, self.locations.keys()[j], y) implies lists_line(
                            due@,
                            self.locations.keys()[j],
                            y,
                        ) by {
                        }
                        assert forall|x: int| 0 <= x < due@.len() implies exists|j: int|
                            0 <= j < i && self.locations.keys()[j] == (#[trigger] due@[x]).0.0 by {
                            let j = choose|j: int| 0 <= j < i - 1 && self.locations.keys()[j] == due@[x].0.0;
                        }
                    }
                    continue;
                },
            };
            let mut y: usize = 0;
            while y < l.yields.len()
                invariant
                    y <= l.yields@.len(),
                    v.locations.dom().contains(k),
                    *l == v.locations[k],
                    l.controller == Some(controller),
                    k == self.locations.keys()[i - 1],
                    1 <= i <= n,
                    n == self.locations.keys().len(),
                    crate::table::strictly_increasing(self.locations.keys()),
                    dstart.len() <= due@.len(),
                    forall|x: int| 0 <= x < dstart.len() ==> due@[x] == dstart[x],
                    forall|x: int| 0 <= x < dstart.len() ==> (#[trigger] dstart[x]).0.0 < k,
                    forall|x: int| dstart.len() <= x < due@.len() ==> (#[trigger] due@[x]).0.0 == k && due@[x].2 < y,
                    forall|x: int| 0 <= x < due@.len() ==> due_line(v, #[trigger] due@[x]),
                    forall|x: int| 0 <= x < due@.len() ==> line_due(v, (#[trigger] due@[x]).0.0, due@[x].2 as int),
                    forall|x: int, z: int| 0 <= x < z < due@.len() ==> entry_before(#[trigger] due@[x], #[trigger] due@[z]),
                    forall|j: int, yy: int|
                        0 <= j < i - 1 && #[trigger] line_due(v, self.locations.keys()[j], yy) ==> lists_line(
                            dstart,
                            self.locations.keys()[j],
                            yy,
                        ),
                    forall|yy: int| 0 <= yy < y && line_due(v, k, yy) ==> #[trigger] lists_line(due@, k, yy),
                decreases l.yields@.len() - y,
            {
                let yl = l.yields[y];
                let has_capacity = match yl.reserves {
                    MineReserves::Infinite => true,
                    MineReserves::Finite { remaining } => remaining >= yl.quantity_per_day,
                };
                if has_capacity {
                    let ghost d0 = due@;
                    due.push((LocationId(k), controller, y, yl.commodity, yl.quantity_per_day));
                    proof {
                        assert forall|x: int| 0 <= x < due@.len() implies due_line(v, #[trigger] due@[x]) by {
                            if x < d0.len() {
                                assert(due@[x] == d0[x]);
                            }
                        }
                        assert forall|x: int| 0 <= x < due@.len() implies line_due(v, (#[trigger] due@[x]).0.0, due@[x].2 as int) by {
                            if x < d0.len() {
                                assert(due@[x] == d0[x]);
                            }
                        }
                        assert forall|x: int, z: int| 0 <= x < z < due@.len() implies entry_before(#[trigger] due@[x], #[trigger] due@[z]) by {
                            if z == d0.len() {
                                if x < dstart.len() {
                                    assert(dstart[x].0.0 < k);
                                }
                            } else {
                                assert(due@[x] == d0[x] && due@[z] == d0[z]);
                            }
                        }
                        assert forall|yy: int| 0 <= yy < y + 1 && line_due(v, k, yy) implies #[trigger] lists_line(due@, k, yy) by {
                            if yy == y {
                                assert(due@[d0.len() as int].0.0 == k && due@[d0.len() as int].2 == yy);
                            } else {
                                assert(lists_line(d0, k, yy));
                                let x = choose|x: int| 0 <= x < d0.len() && d0[x].0.0 == k && d0[x].2 == yy;
                                assert(due@[x] == d0[x]);
                            }
                        }
                    }
                }
                y = y + 1;
            }
            proof {
                assert forall|j: int, yy: int|
                    0 <= j < i && #[trigger] line_due(v, self.locations.keys()[j], yy) implies lists_line(
                    due@,
                    self.locations.keys()[j],
                    yy,
                ) by {
                    if j < i - 1 {
                        let x = choose|x: int| 0 <= x < dstart.len() && dstart[x].0.0 == self.locations.keys()[j] && dstart[x].2 == yy;
                        assert(due@[x] == dstart[x]);
                    } else {
                        assert(0 <= yy < l.yields@.len());
                        assert(lists_line(due@, k, yy));
                    }
                }
                assert forall|x: int| 0 <= x < due@.len() implies exists|j: int|
                    0 <= j < i && self.locations.keys()[j] == (#[trigger] due@[x]).0.0 by {
                    if x < dstart.len() {
                        assert(due@[x] == dstart[x]);
                        let j = choose|j: int| 0 <= j < i - 1 && self.locations.keys()[j] == dstart[x].0.0;
                    } else {
                        assert(self.locations.keys()[i - 1] == due@[x].0.0);
                    }
                }
            }
        }
        proof {
            assert forall|loc: u64, yy: int| line_due(v, loc, yy) implies #[trigger] lists_line(due@, loc, yy) by {
                let j = choose|j: int| 0 <= j < self.locations.keys().len() && self.locations.keys()[j] == loc;
                assert(line_due(v, self.locations.keys()[j], yy));
            }
        }
        let mut d: usize = 0;
        while d < due.len()
            invariant
                self.wf(),
                v == old(self)@,
                d <= due@.len(),
                crate::world::phase_ok(old(self)@, self@),
                crate::combat::money_untouched(self@, old(self)@),
                forall|x: int| 0 <= x < due@.len() ==> due_line(v, #[trigger] due@[x]),
                forall|x: int| 0 <= x < due@.len() ==> line_due(v, (#[trigger] due@[x]).0.0, due@[x].2 as int),
                forall|x: int, z: int| 0 <= x < z < due@.len() ==> entry_before(#[trigger] due@[x], #[trigger] due@[z]),
                forall|loc: u64, yy: int| line_due(v, loc, yy) ==> #[trigger] lists_line(due@, loc, yy),
                lines_kept(v, self@),
                self@.actors == v.actors,
                self@.commodities == v.commodities,
                v.next_id <= self@.next_id,
                forall|k: u64| #[trigger] v.lots.dom().contains(k) ==> self@.lots.dom().contains(k),
                forall|k: u64| #[trigger]
                    self@.lots.dom().contains(k) && !v.lots.dom().contains(k) ==> yield_lot(v, self@.lots[k]),
                forall|x: int| 0 <= x < d ==> line_answered(v, self@, (#[trigger] due@[x]).0.0, due@[x].2 as int),
                forall|loc: u64, yy: int|
                    #![trigger self@.locations[loc].yields@[yy]]
                    v.locations.dom().contains(loc) && 0 <= yy < v.locations[loc].yields@.len() && !lists_line(
                        due@.take(d as int),
                        loc,
                        yy,
                    ) ==> self@.locations[loc].yields@[yy].reserves == v.locations[loc].yields@[yy].reserves,
            decreases due@.len() - d,
        {
            let (location, controller, index, commodity, quantity) = due[d];
            let ghost s_in = self@;
            proof {
                assert(due_line(v, due@[d as int]));
                assert(line_due(v, due@[d as int].0.0, due@[d as int].2 as int));
                assert(due@.take(d + 1).drop_last() =~= due@.take(d as int));
                assert(due@.take(d + 1).last() == due@[d as int]);
                assert(!lists_line(due@.take(d as int), location.0, index as int)) by {
                    if lists_line(due@.take(d as int), location.0, index as int) {
                        let x = choose|x: int|
                            0 <= x < due@.take(d as int).len() && due@.take(d as int)[x].0.0 == location.0
                                && due@.take(d as int)[x].2 == index as int;
                        assert(entry_before(due@[x], due@[d as int]));
                    }
                }
            }
            d = d + 1;
            if self.next_id > u64::MAX - 3 {
                proof {
                    lemma_yield_skip(v, self@, due@, d as int);
                }
                continue;
            }
            let ghost s0 = self@;
            let made = self.create_lot_raw(
                controller,
                commodity,
                quantity,
                QualityGrade::Standard,
                LegalStatus::Legitimate,
                LocationRef::Site(location),
                Lineage::Root(LotOrigin::Mined { mine: location }),
            );
            proof {
                crate::world::lemma_phase_trans(old(self)@, s0, self@);
                self.lemma_keys_wf();
                assert(!s0.lots.dom().contains(s0.next_id));
                assert forall|k: u64| #[trigger]
                    self@.lots.dom().contains(k) && !v.lots.dom().contains(k) implies yield_lot(v, self@.lots[k]) by {
                    if !s0.lots.dom().contains(k) {
                        assert(yield_line_lot(v, location.0, index as int, self@.lots[k]));
                    } else {
                        assert(self@.lots[k] == s0.lots[k]);
                    }
                }
                assert(crate::locations::ref_valid(s0, LocationRef::Site(location)) == crate::locations::ref_valid(
                    v,
                    LocationRef::Site(location),
                ));
            }
            let lot = match made {
                Ok(l) => l,
                Err(_) => {
                    proof {
                        lemma_yield_skip(v, self@, due@, d as int);
                    }
                    continue;
                },
            };
            let ghost s1 = self@;
            proof {
                assert(self@.lots.dom().contains(lot.0) && !v.lots.dom().contains(lot.0));
                assert(yield_line_lot(v, location.0, index as int, self@.lots[lot.0]));
            }
            if self.locations.contains(location.0) {
                let loc = self.locations.get_mut(location.0);
                if index < loc.yields.len() {
                    let yl = loc.yields[index];
                    match yl.reserves {
                        MineReserves::Finite { remaining } => {
                            if remaining >= quantity {
                                loc.yields.set(
                                    index,
                                    LocationYield { reserves: MineReserves::Finite { remaining: remaining - quantity }, ..yl },
                                );
                            }
                        },
                        MineReserves::Infinite => {},
                    }
                }
                proof {
                    self.lemma_keys_wf();
                    assert(crate::world::phase_ok(s1, self@));
                    crate::world::lemma_phase_trans(old(self)@, s1, self@);
                    assert(self@.locations.dom() =~= s1.locations.dom());
                    assert(lines_kept(v, self@)) by {
                        assert forall|k: u64| #[trigger] v.locations.dom().contains(k) implies same_lines(
                            v.locations[k],
                            self@.locations[k],
                        ) by {
                            if k == location.0 {
                                assert(same_lines(s1.locations[k], self@.locations[k]));
                                lemma_same_lines_trans(v.locations[k], s1.locations[k], self@.locations[k]);
                            }
                        }
                    }
                }
            }
            let ghost s2 = self@;
            self.push_event(EventKind::MineYield { mine: location, lot, quantity });
            proof {
                crate::world::lemma_log_extends_log(s2, EventKind::MineYield { mine: location, lot, quantity });
                crate::world::lemma_phase_trans(old(self)@, s2, self@);
                lemma_yield_step(v, s_in, self@, due@, d as int, lot.0);
            }
        }
        proof {
            assert(due@.take(due@.len() as int) =~= due@);
            assert forall|loc: u64, yy: int|
                old(self)@.locations.dom().contains(loc) && 0 <= yy < old(self)@.locations[loc].yields@.len()
                    implies #[trigger] line_answered(old(self)@, self@, loc, yy) by {
                if line_due(v, loc, yy) {
                    assert(lists_line(due@, loc, yy));
                    let x = choose|x: int| 0 <= x < due@.len() && due@[x].0.0 == loc && due@[x].2 == yy;
                    assert(line_answered(v, self@, due@[x].0.0, due@[x].2 as int));
                } else {
                    assert(!lists_line(due@, loc, yy)) by {
                        if lists_line(due@, loc, yy) {
                            let x = choose|x: int| 0 <= x < due@.len() && due@[x].0.0 == loc && due@[x].2 == yy;
                            assert(line_due(v, due@[x].0.0, due@[x].2 as int));
                        }
                    }
                    assert(self@.locations[loc].yields@[yy].reserves == v.locations[loc].yields@[yy].reserves);
                }
            }
        }
    }

    /// Population phase: each populated city's authority eats its daily
    /// needs out of its own active stock at the city (oldest lots first);
    /// unrest climbs on any shortfall and eases otherwise; the population
    /// grows or declines with unrest; and the authority collects the
    /// per-capita tax as newly issued money.
    pub(crate) fn tick_population(&mut self)
        requires
            old(self).wf(),
        ensures
            final(self).wf(),
            crate::world::phase_ok(old(self)@, final(self)@),
            crate::faction_ai::money_kept(old(self)@, final(self)@),
            final(self)@.locations.dom() == old(self)@.locations.dom(),
            forall|k: u64| #[trigger]
                old(self)@.locations.dom().contains(k) ==> if old(self)@.locations[k].population > 0 {
                    city_day(old(self)@.locations[k], final(self)@.locations[k])
                } else {
                    final(self)@.locations[k] == old(self)@.locations[k]
                },
            exists|cs: Seq<WorldView>, ks: Seq<u64>| #[trigger] cities_taxed(old(self)@, final(self)@, cs, ks),
    {
        let mut cities: Vec<u64> = Vec::new();
        let n = self.locations.len();
        let mut i: usize = 0;
        proof {
            self.locations.lemma_facts();
        }
        while i < n
            invariant
                self.wf(),
                n == self.locations.keys().len(),
                i <= n,
                forall|x: int| 0 <= x < cities@.len() ==> self@.locations.dom().contains(#[trigger] cities@[x]),
                forall|x: int, y: int| 0 <= x < y < cities@.len() ==> cities@[x] < cities@[y],
                forall|x: int| 0 <= x < cities@.len() ==> #[trigger] cities@[x] < (if i < n {
                    self.locations.keys()[i as int]
                } else {
                    u64::MAX
                }) || i == n,
                forall|x: int|
                    0 <= x < cities@.len() ==> self@.locations[#[trigger] cities@[x]].population > 0,
                forall|j: int|
                    0 <= j < i && self@.locations[self.locations.keys()[j]].population > 0 ==> cities@.contains(
                        #[trigger] self.locations.keys()[j],
                    ),
                forall|x: int| 0 <= x < cities@.len() ==> exists|j: int| 0 <= j < i && self.locations.keys()[j] == #[trigger] cities@[x],
            decreases n - i,
        {
            let k = self.locations.key_at(i);
            proof {
                self.locations.lemma_facts();
                assert forall|x: int| 0 <= x < cities@.len() implies #[trigger] cities@[x] < k by {
                    let j = choose|j: int| 0 <= j < i && self.locations.keys()[j] == cities@[x];
                    assert(self.locations.keys()[j] < self.locations.keys()[i as int]);
                }
            }
            let ghost prev = cities@;
            if self.locations.val_at(i).population > 0 {
                cities.push(k);
            }
            proof {
                assert forall|j: int|
                    0 <= j < i + 1 && self@.locations[self.locations.keys()[j]].population > 0 implies cities@.contains(
                    #[trigger] self.locations.keys()[j],
                ) by {
                    if j < i {
                        let x = choose|x: int| 0 <= x < prev.len() && prev[x] == self.locations.keys()[j];
                        assert(cities@[x] == self.locations.keys()[j]);
                    } else {
                        assert(cities@[cities@.len() - 1] == k);
                    }
                }
                assert forall|x: int| 0 <= x < cities@.len() implies exists|j: int|
                    0 <= j < i + 1 && self.locations.keys()[j] == #[trigger] cities@[x] by {
                    if x < prev.len() {
                        assert(cities@[x] == prev[x]);
                    } else {
                        assert(self.locations.keys()[i as int] == cities@[x]);
                    }
                }
            }
            i = i + 1;
        }
        proof {
            self.locations.lemma_facts();
        }
        let ghost v = self@;
        let ghost mut cs: Seq<WorldView> = seq![self@];
        let mut c: usize = 0;
        while c < cities.len()
            invariant
                self.wf(),
                c <= cities@.len(),
                cs.len() == c + 1,
                cs[0] == v,
                cs[c as int] == self@,
                forall|x: int| 0 <= x < c ==> #[trigger] city_taxed(cs[x], cs[x + 1], cities@[x]) && city_fed(cs[x], cs[x + 1], cities@[x]),
                crate::world::phase_ok(old(self)@, self@),
                crate::faction_ai::money_kept(old(self)@, self@),
                v == old(self)@,
                forall|x: int| 0 <= x < cities@.len() ==> v.locations.dom().contains(#[trigger] cities@[x]),
                forall|x: int, y: int| 0 <= x < y < cities@.len() ==> cities@[x] < cities@[y],
                forall|x: int| 0 <= x < cities@.len() ==> v.locations[#[trigger] cities@[x]].population > 0,
                forall|k: u64| #[trigger]
                    v.locations.dom().contains(k) && v.locations[k].population > 0 ==> cities@.contains(k),
                self@.locations.dom() == v.locations.dom(),
                forall|k: u64| #[trigger]
                    self@.locations.dom().contains(k) ==> if cities@.take(c as int).contains(k) {
                        city_day(v.locations[k], self@.locations[k])
                    } else {
                        self@.locations[k] == v.locations[k]
                    },
            decreases cities@.len() - c,
        {
            let city = cities[c];
            proof {
                assert(cities@.take(c + 1) =~= cities@.take(c as int).push(city));
                assert(!cities@.take(c as int).contains(city)) by {
                    if cities@.take(c as int).contains(city) {
                        let x = choose|x: int| 0 <= x < c && cities@.take(c as int)[x] == city;
                        assert(cities@[x] < cities@[c as int]);
                    }
                }
            }
            let ghost before = self@;
            let (authority, needs, population, tax_rate, unrest) = match self.locations.get(city) {
                Some(l) => (
                    l.authority,
                    crate::table::copy_slice(l.civilian_needs.as_slice()),
                    l.population,
                    l.tax_rate_per_capita,
                    l.unrest_pct,
                ),
                None => {
                    c = c + 1;
                    continue;
                },
            };
            let ghost o = before.locations[city];
            proof {
                assert(before.locations.dom().contains(city));
                assert(o == v.locations[city]);
            }
            let ghost mut ns: Seq<WorldView> = seq![self@];
            let ghost mut cov: Seq<bool> = Seq::empty();
            let mut shortfall = needs.len() > 0 && authority.is_none();
            match authority {
                None => {},
                Some(a) => {
                    let mut j: usize = 0;
                    while j < needs.len()
                        invariant
                            self.wf(),
                            j <= needs@.len(),
                            crate::combat::money_untouched(self@, before),
                            crate::world::phase_ok(old(self)@, self@),
                            crate::faction_ai::money_kept(old(self)@, self@),
                            self@.locations == before.locations,
                            ns.len() == j + 1,
                            cov.len() == j,
                            ns[0] == before,
                            ns[j as int] == self@,
                            forall|jj: int|
                                0 <= jj < j ==> #[trigger] need_drawn(
                                    ns[jj],
                                    ns[jj + 1],
                                    a,
                                    city,
                                    needs@[jj].commodity,
                                    needs@[jj].quantity_per_day,
                                    cov[jj],
                                ),
                            shortfall == exists|jj: int| 0 <= jj < j && !cov[jj],
                        decreases needs@.len() - j,
                    {
                        let need = needs[j];
                        let ghost x0 = self@;
                        let ghost lots0 = self.lots;
                        proof {
                            self.lots.lemma_key_order();
                            self.lots.lemma_facts();
                        }
                        let ghost keys = crate::table::key_order(x0.lots);
                        let ghost t = stock_term(x0, a, city, need.commodity);
                        let mut remaining = need.quantity_per_day;
                        let mut candidates: Vec<u64> = Vec::new();
                        let m = self.lots.len();
                        let mut x: usize = 0;
                        while x < m
                            invariant
                                self.wf(),
                                self@ == x0,
                                self.lots == lots0,
                                m == self.lots.keys().len(),
                                self.lots.keys() == keys,
                                crate::table::strictly_increasing(keys),
                                forall|k: u64| #[trigger] x0.lots.dom().contains(k) <==> keys.contains(k),
                                forall|p: int| 0 <= p < keys.len() ==> x0.lots[#[trigger] keys[p]] == self.lots.values()[p],
                                x <= m,
                                forall|i1: int, i2: int| 0 <= i1 < i2 < candidates@.len() ==> candidates@[i1] < candidates@[i2],
                                forall|i1: int| 0 <= i1 < candidates@.len() ==> exists|p: int| 0 <= p < x && keys[p] == #[trigger] candidates@[i1],
                                forall|i1: int|
                                    0 <= i1 < candidates@.len() ==> x0.lots.dom().contains(#[trigger] candidates@[i1]) && is_city_stock(
                                        x0,
                                        x0.lots[candidates@[i1]],
                                        a,
                                        city,
                                        need.commodity,
                                    ),
                                forall|p: int|
                                    0 <= p < x && is_city_stock(x0, x0.lots[#[trigger] keys[p]], a, city, need.commodity)
                                        ==> candidates@.contains(keys[p]),
                            decreases m - x,
                        {
                            let lid = self.lots.key_at(x);
                            let l = self.lots.val_at(x);
                            let ghost c0 = candidates@;
                            if l.owner.0 == a.0 && l.commodity.0 == need.commodity.0 && matches!(l.state, LotState::Active)
                                && crate::intel::same_site(self.resolve_site(l.location), LocationId(city)) {
                                candidates.push(lid);
                                proof {
                                    assert forall|i1: int| 0 <= i1 < c0.len() implies c0[i1] < lid by {
                                        let p = choose|p: int| 0 <= p < x && keys[p] == #[trigger] c0[i1];
                                        assert(keys[p] < keys[x as int]);
                                    }
                                    assert forall|i1: int| 0 <= i1 < candidates@.len() implies exists|p: int|
                                        0 <= p < x + 1 && keys[p] == #[trigger] candidates@[i1] by {
                                        if i1 < c0.len() {
                                            assert(candidates@[i1] == c0[i1]);
                                            let p = choose|p: int| 0 <= p < x && keys[p] == #[trigger] c0[i1];
                                        } else {
                                            assert(keys[x as int] == candidates@[i1]);
                                        }
                                    }
                                    assert forall|p: int|
                                        0 <= p < x + 1 && is_city_stock(x0, x0.lots[#[trigger] keys[p]], a, city, need.commodity)
                                            implies candidates@.contains(keys[p]) by {
                                        if p < x {
                                            assert(c0.contains(keys[p]));
                                            let i1 = choose|i1: int| 0 <= i1 < c0.len() && c0[i1] == keys[p];
                                            assert(candidates@[i1] == c0[i1]);
                                        } else {
                                            assert(candidates@[c0.len() as int] == keys[p]);
                                        }
                                    }
                                }
                            } else {
                                proof {
                                    assert forall|i1: int| 0 <= i1 < candidates@.len() implies exists|p: int|
                                        0 <= p < x + 1 && keys[p] == #[trigger] candidates@[i1] by {
                                        let p = choose|p: int| 0 <= p < x && keys[p] == #[trigger] candidates@[i1];
                                    }
                                }
                            }
                            x = x + 1;
                        }
                        proof {
                            assert forall|k: u64| #[trigger]
                                x0.lots.dom().contains(k) && is_city_stock(x0, x0.lots[k], a, city, need.commodity) implies candidates@.contains(
                                k,
                            ) by {
                                let p = choose|p: int| 0 <= p < keys.len() && keys[p] == k;
                                assert(is_city_stock(x0, x0.lots[keys[p]], a, city, need.commodity));
                            }
                        }
                        let ghost cand = candidates@;
                        let ghost q = need.quantity_per_day;
                        let mut y: usize = 0;
                        while y < candidates.len() && remaining > 0
                            invariant
                                self.wf(),
                                y <= candidates@.len(),
                                candidates@ == cand,
                                crate::combat::money_untouched(self@, before),
                                crate::world::phase_ok(old(self)@, self@),
                                crate::faction_ai::money_kept(old(self)@, self@),
                                self@.locations == before.locations,
                                self@ == (WorldView {
                                    lots: self@.lots,
                                    next_id: self@.next_id,
                                    next_event_seq: self@.next_event_seq,
                                    events: self@.events,
                                    ..x0
                                }),
                                self@.lots.dom() == x0.lots.dom(),
                                x0.next_id <= self@.next_id,
                                crate::table::strictly_increasing(keys),
                                forall|k: u64| #[trigger] x0.lots.dom().contains(k) <==> keys.contains(k),
                                remaining <= q,
                                t == stock_term(x0, a, city, need.commodity),
                                crate::table::sum_over(keys, self@.lots, t) == crate::table::sum_over(keys, x0.lots, t) - (q
                                    - remaining),
                                forall|i1: int, i2: int| 0 <= i1 < i2 < cand.len() ==> cand[i1] < cand[i2],
                                forall|i1: int|
                                    0 <= i1 < cand.len() ==> x0.lots.dom().contains(#[trigger] cand[i1]) && is_city_stock(
                                        x0,
                                        x0.lots[cand[i1]],
                                        a,
                                        city,
                                        need.commodity,
                                    ),
                                forall|k: u64| #[trigger]
                                    x0.lots.dom().contains(k) && is_city_stock(x0, x0.lots[k], a, city, need.commodity)
                                        ==> cand.contains(k),
                                forall|yy: int| y <= yy < cand.len() ==> self@.lots[#[trigger] cand[yy]] == x0.lots[cand[yy]],
                                forall|k: u64| #[trigger]
                                    x0.lots.dom().contains(k) && !is_city_stock(x0, x0.lots[k], a, city, need.commodity)
                                        ==> self@.lots[k] == x0.lots[k],
                                forall|yy: int|
                                    0 <= yy < y ==> (remaining > 0 && self@.next_id < u64::MAX ==> t(
                                        self@.lots[#[trigger] cand[yy]],
                                    ) == 0),
                                forall|k1: u64, k2: u64|
                                    #![trigger self@.lots[k1], self@.lots[k2]]
                                    x0.lots.dom().contains(k1) && x0.lots.dom().contains(k2) && k1 < k2 && is_city_stock(
                                        x0,
                                        x0.lots[k1],
                                        a,
                                        city,
                                        need.commodity,
                                    ) && self@.lots[k2] != x0.lots[k2] ==> t(self@.lots[k1]) == 0,
                            decreases candidates@.len() - y,
                        {
                            let lid = candidates[y];
                            let ghost yi = y as int;
                            y = y + 1;
                            let have = match self.lots.get(lid) {
                                Some(l) => l.quantity,
                                None => 0,
                            };
                            let take = crate::arith::min_u64(remaining, have);
                            if take > 0 && self.next_id < u64::MAX {
                                let ghost s0 = self@;
                                proof {
                                    assert(s0.lots[lid] == x0.lots[lid]);
                                    assert(is_city_stock(x0, x0.lots[lid], a, city, need.commodity));
                                    assert(keys.contains(lid));
                                }
                                let r = self.consume_lot_quantity(LotId(lid), take);
                                proof {
                                    crate::world::lemma_phase_trans(old(self)@, s0, self@);
                                    let nl = self@.lots[lid];
                                    assert(self@.lots == s0.lots.insert(lid, nl));
                                    assert(t(nl) == t(s0.lots[lid]) - take);
                                    crate::table::lemma_sum_update(keys, s0.lots, lid, nl, t);
                                    assert forall|k1: u64, k2: u64|
                                        #![trigger self@.lots[k1], self@.lots[k2]]
                                        x0.lots.dom().contains(k1) && x0.lots.dom().contains(k2) && k1 < k2 && is_city_stock(
                                            x0,
                                            x0.lots[k1],
                                            a,
                                            city,
                                            need.commodity,
                                        ) && self@.lots[k2] != x0.lots[k2] implies t(self@.lots[k1]) == 0 by {
                                        if k2 == lid {
                                            assert(cand.contains(k1));
                                            let i1 = choose|i1: int| 0 <= i1 < cand.len() && cand[i1] == k1;
                                            if i1 >= yi {
                                                if i1 > yi {
                                                    assert(cand[yi] < cand[i1]);
                                                }
                                            }
                                            assert(i1 < yi);
                                            assert(t(s0.lots[cand[i1]]) == 0);
                                        } else {
                                            assert(s0.lots[k2] == self@.lots[k2]);
                                            if k1 == lid {
                                                assert(cand.contains(k2));
                                                let i2 = choose|i2: int| 0 <= i2 < cand.len() && cand[i2] == k2;
                                                if i2 >= yi {
                                                    if i2 > yi {
                                                        assert(s0.lots[cand[i2]] == x0.lots[cand[i2]]);
                                                    }
                                                }
                                                assert(cand[i2] < cand[yi]);
                                            }
                                        }
                                    }
                                }
                                if r.is_ok() {
                                    remaining = remaining - take;
                                }
                            }
                        }
                        let ghost cov_old = cov;
                        let ghost old_short = shortfall;
                        proof {
                            lemma_zero_terms(keys, self@.lots, t);
                            crate::table::lemma_sum_nonneg(keys, self@.lots, t);
                            let covered = remaining == 0;
                            let before_s = city_stock(x0, x0.lots, a, city, need.commodity);
                            let after_s = city_stock(x0, self@.lots, a, city, need.commodity);
                            assert(before_s == crate::table::sum_over(keys, x0.lots, t));
                            assert(after_s == crate::table::sum_over(keys, self@.lots, t));
                            if !covered && self@.next_id < u64::MAX {
                                assert(y == cand.len());
                                assert forall|i: int| 0 <= i < keys.len() implies #[trigger] t(self@.lots[keys[i]]) == 0 by {
                                    let k = keys[i];
                                    assert(x0.lots.dom().contains(k));
                                    if is_city_stock(x0, x0.lots[k], a, city, need.commodity) {
                                        assert(cand.contains(k));
                                        let yy = choose|yy: int| 0 <= yy < cand.len() && cand[yy] == k;
                                        assert(t(self@.lots[cand[yy]]) == 0);
                                    } else {
                                        assert(self@.lots[k] == x0.lots[k]);
                                    }
                                }
                                assert(after_s == 0);
                            }
                            assert(covered ==> q <= before_s && after_s == before_s - q);
                            assert(!covered ==> (before_s < q && after_s == 0) || self@.next_id == u64::MAX);
                            assert(need_drawn(x0, self@, a, city, need.commodity, q, covered));
                            ns = ns.push(self@);
                            cov = cov.push(covered);
                        }
                        let ghost cov_before_push = cov_old;
                        if remaining > 0 {
                            shortfall = true;
                        }
                        proof {
                            assert(cov == cov_old.push(remaining == 0));
                            assert forall|jj: int| 0 <= jj < j implies cov[jj] == cov_before_push[jj] by {}
                            if old_short {
                                let jj = choose|jj: int| 0 <= jj < j && !cov_before_push[jj];
                                assert(!cov[jj]);
                            }
                            if remaining > 0 {
                                assert(cov[j as int] == (remaining == 0));
                                assert(!cov[j as int]);
                            }
                            if exists|jj: int| 0 <= jj < j + 1 && !cov[jj] {
                                let jj = choose|jj: int| 0 <= jj < j + 1 && !cov[jj];
                                if jj < j {
                                    assert(!cov_before_push[jj]);
                                }
                            }
                        }
                        j = j + 1;
                    }
                },
            }
            let ghost after_needs = self@;
            let new_unrest = unrest_after(unrest, shortfall);
            let new_population = population_after(population, new_unrest);
            match authority {
                None => {},
                Some(a) => {
                    if tax_rate > 0 {
                        let pop: i64 = if population > i64::MAX as u64 {
                            i64::MAX
                        } else {
                            population as i64
                        };
                        let revenue = crate::arith::sat_mul_i64(pop, tax_rate);
                        proof {
                            assert(revenue == tax_revenue(o));
                        }
                        if revenue > 0 && self.money_issued <= i128::MAX - revenue as i128 {
                            let ghost s0 = self@;
                            let _ = self.issue_money(a, revenue);
                            proof {
                                crate::world::lemma_phase_trans(old(self)@, s0, self@);
                                assert(self@.locations == s0.locations);
                            }
                        }
                    }
                },
            }
            if self.locations.contains(city) {
                let ghost s1 = self@;
                let loc = self.locations.get_mut(city);
                loc.unrest_pct = new_unrest;
                loc.population = new_population;
                proof {
                    self.lemma_keys_wf();
                    assert(crate::world::phase_ok(s1, self@));
                    crate::world::lemma_phase_trans(old(self)@, s1, self@);
                    assert(s1.locations == before.locations);
                    assert(self@.locations == before.locations.insert(
                        city,
                        Location { unrest_pct: new_unrest, population: new_population, ..o },
                    ));
                    assert(city_day(o, self@.locations[city]));
                    assert forall|k: u64| #[trigger] self@.locations.dom().contains(k) implies (if cities@.take(
                        c + 1,
                    ).contains(k) {
                        city_day(v.locations[k], self@.locations[k])
                    } else {
                        self@.locations[k] == v.locations[k]
                    }) by {
                        if k != city {
                            assert(cities@.take(c + 1).contains(k) == cities@.take(c as int).contains(k));
                            assert(self@.locations[k] == before.locations[k]);
                        } else {
                            assert(cities@.take(c + 1)[c as int] == city);
                            assert(cities@.take(c + 1).contains(k));
                        }
                    }
                }
            }
            proof {
                assert(city_taxed(before, self@, city));
                assert(self@.lots == after_needs.lots);
                if o.authority is Some {
                    let ax = o.authority->Some_0;
                    assert(needs@ == o.civilian_needs@);
                    assert(ns[ns.len() - 1] == after_needs);
                    assert(needs_drawn(before, ax, city, o.civilian_needs@, ns, cov));
                    assert(self@.locations[city].unrest_pct == next_unrest(
                        o.unrest_pct,
                        exists|j: int| 0 <= j < cov.len() && !cov[j],
                    ));
                }
                assert(city_fed(before, self@, city));
                let cs0 = cs;
                cs = cs.push(self@);
                assert forall|x: int| 0 <= x < c + 1 implies #[trigger] city_taxed(cs[x], cs[x + 1], cities@[x]) && city_fed(cs[x], cs[x + 1], cities@[x]) by {
                    if x < c {
                        assert(cs[x] == cs0[x] && cs[x + 1] == cs0[x + 1]);
                        assert(city_taxed(cs0[x], cs0[x + 1], cities@[x]));
                    }
                }
            }
            c = c + 1;
        }
        proof {
            assert(cities@.take(cities@.len() as int) =~= cities@);
            assert(crate::table::strictly_increasing(cities@));
            assert forall|k: u64| cities@.contains(k) <==> v.locations.dom().contains(k) && v.locations[k].population > 0 by {
                if cities@.contains(k) {
                    let x = choose|x: int| 0 <= x < cities@.len() && cities@[x] == k;
                    assert(v.locations[cities@[x]].population > 0);
                }
            }
            assert(cities_taxed(v, self@, cs, cities@));
        }
    }
}


/// A sum whose terms are all zero is zero; one whose terms are never
/// negative is never negative.
proof fn lemma_zero_terms(keys: Seq<u64>, m: Map<u64, crate::goods::Lot>, f: spec_fn(crate::goods::Lot) -> int)
    ensures
        (forall|i: int| 0 <= i < keys.len() ==> #[trigger] f(m[keys[i]]) == 0) ==> crate::table::sum_over(keys, m, f) == 0,
    decreases keys.len(),
{
    if keys.len() > 0 {
        let p = keys.drop_last();
        lemma_zero_terms(p, m, f);
        if forall|i: int| 0 <= i < keys.len() ==> #[trigger] f(m[keys[i]]) == 0 {
            assert forall|i: int| 0 <= i < p.len() implies #[trigger] f(m[p[i]]) == 0 by {
                assert(p[i] == keys[i]);
            }
            assert(f(m[keys[keys.len() - 1]]) == 0);
        }
    }
}

/// Lot `l` is stock the authority `auth` holds of `c` at `city`, placed as
/// `v` places it: its own, active, and there.
pub open spec fn is_city_stock(v: WorldView, l: crate::goods::Lot, auth: ActorId, city: u64, c: CommodityId) -> bool {
    &&& l.owner == auth
    &&& l.commodity == c
    &&& l.state == LotState::Active
    &&& resolve(v, l.location) == Some(LocationId(city))
}

/// What a lot counts toward the authority's stock of `c` at `city`.
pub open spec fn stock_term(v: WorldView, auth: ActorId, city: u64, c: CommodityId) -> spec_fn(crate::goods::Lot) -> int {
    |l: crate::goods::Lot| if is_city_stock(v, l, auth, city, c) {
        l.quantity as int
    } else {
        0
    }
}

/// The authority's stock of `c` at `city` among `lots` (over `v`'s lot ids,
/// placed as `v` places them).
pub open spec fn city_stock(v: WorldView, lots: Map<u64, crate::goods::Lot>, auth: ActorId, city: u64, c: CommodityId) -> int {
    crate::table::sum_over(crate::table::key_order(v.lots), lots, stock_term(v, auth, city, c))
}

/// One civilian need drawn from `x` to `y`: covered, its quantity comes out
/// of the authority's stock at the city; not covered, that stock was short
/// and is now used up (unless ids ran out first). Only that stock changes,
/// oldest lot first.
pub open spec fn need_drawn(x: WorldView, y: WorldView, auth: ActorId, city: u64, c: CommodityId, q: u64, covered: bool) -> bool {
    let before = city_stock(x, x.lots, auth, city, c);
    let after = city_stock(x, y.lots, auth, city, c);
    let t = stock_term(x, auth, city, c);
    &&& y == WorldView { lots: y.lots, next_id: y.next_id, next_event_seq: y.next_event_seq, events: y.events, ..x }
    &&& y.lots.dom() == x.lots.dom()
    &&& forall|k: u64| #[trigger]
        x.lots.dom().contains(k) && !is_city_stock(x, x.lots[k], auth, city, c) ==> y.lots[k] == x.lots[k]
    &&& forall|k1: u64, k2: u64|
        #![trigger y.lots[k1], y.lots[k2]]
        x.lots.dom().contains(k1) && x.lots.dom().contains(k2) && k1 < k2 && is_city_stock(x, x.lots[k1], auth, city, c)
            && y.lots[k2] != x.lots[k2] ==> t(y.lots[k1]) == 0
    &&& covered ==> q <= before && after == before - q
    &&& !covered ==> (before < q && after == 0) || y.next_id == u64::MAX
}

/// The needs of a city drawn in order: `ns[j]` is the state before need `j`,
/// `cov[j]` whether it was covered.
pub open spec fn needs_drawn(
    a: WorldView,
    auth: ActorId,
    city: u64,
    needs: Seq<CivilianNeed>,
    ns: Seq<WorldView>,
    cov: Seq<bool>,
) -> bool {
    &&& ns.len() == needs.len() + 1
    &&& cov.len() == needs.len()
    &&& ns[0] == a
    &&& forall|j: int|
        0 <= j < needs.len() ==> #[trigger] need_drawn(
            ns[j],
            ns[j + 1],
            auth,
            city,
            needs[j].commodity,
            needs[j].quantity_per_day,
            cov[j],
        )
}

/// A city with an authority feeds its people from that authority's stock
/// there, need by need, and its unrest moves by whether every need was
/// covered.
pub open spec fn city_fed(a: WorldView, b: WorldView, city: u64) -> bool {
    let o = a.locations[city];
    o.authority matches Some(x) ==> exists|ns: Seq<WorldView>, cov: Seq<bool>|
        #[trigger] needs_drawn(a, x, city, o.civilian_needs@, ns, cov) && b.lots == ns[ns.len() - 1].lots
            && b.locations[city].unrest_pct == next_unrest(
            o.unrest_pct,
            exists|j: int| 0 <= j < cov.len() && !cov[j],
        )
}

/// A city's daily tax: its population (capped at the credit range) times its
/// per-capita rate, saturating.
pub open spec fn tax_revenue(o: Location) -> i64 {
    crate::arith::clamp_i64(
        (if o.population > i64::MAX {
            i64::MAX as int
        } else {
            o.population as int
        }) * o.tax_rate_per_capita,
    ) as i64
}

/// One city's turn from `a` to `b`: a city with an authority and a positive
/// tax has it credited to that authority, newly issued, when the amount fits;
/// no one else's treasury moves.
pub open spec fn city_taxed(a: WorldView, b: WorldView, city: u64) -> bool {
    let o = a.locations[city];
    let rev = tax_revenue(o);
    let x = o.authority->Some_0;
    if o.authority is Some && o.tax_rate_per_capita > 0 && rev > 0 && a.money_issued + rev <= i128::MAX
        && a.actors.dom().contains(x.0) && a.actors[x.0].treasury + rev <= i64::MAX {
        &&& b.actors == a.actors.insert(x.0, crate::actors::Actor { treasury: (a.actors[x.0].treasury + rev) as i64, ..a.actors[x.0] })
        &&& b.money_issued == a.money_issued + rev
    } else {
        b.actors == a.actors && b.money_issued == a.money_issued
    }
}

/// The population phase from `v` to `w`, city by city: `ks` lists the
/// populated locations in id order, `cs[i]` is the state when city `i`'s turn
/// came, and every city was taxed by the rule.
pub open spec fn cities_taxed(v: WorldView, w: WorldView, cs: Seq<WorldView>, ks: Seq<u64>) -> bool {
    &&& crate::table::strictly_increasing(ks)
    &&& forall|k: u64| ks.contains(k) <==> v.locations.dom().contains(k) && v.locations[k].population > 0
    &&& cs.len() == ks.len() + 1
    &&& cs[0] == v
    &&& cs[ks.len() as int] == w
    &&& forall|i: int| 0 <= i < ks.len() ==> #[trigger] city_taxed(cs[i], cs[i + 1], ks[i]) && city_fed(cs[i], cs[i + 1], ks[i])
}

/// Daily chance, in percent, that prospectors turn up a new mine.
pub const DISCOVERY_CHANCE_PCT: u8 = 3;
/// Chance, in percent, that a discovered mine never runs out.
pub const INFINITE_CHANCE_PCT: u8 = 10;

/// Every location of `v` lies within 2^62 of the origin on both axes, so
/// that a point sampled near the map stays representable.
pub open spec fn positions_moderate(v: WorldView) -> bool {
    forall|k: u64| #[trigger]
        v.locations.dom().contains(k) ==> -0x4000_0000_0000_0000 <= v.locations[k].position.0 <= 0x4000_0000_0000_0000
            && -0x4000_0000_0000_0000 <= v.locations[k].position.1 <= 0x4000_0000_0000_0000
}

/// A point lies inside a box `(min_x, max_x, min_y, max_y)`.
pub open spec fn within_box(pt: (i64, i64), b: (i64, i64, i64, i64)) -> bool {
    b.0 <= pt.0 <= b.1 && b.2 <= pt.1 <= b.3
}

/// `b` is the smallest box holding every location of `v`: it holds them
/// all and each of its sides touches one.
pub open spec fn bounds_box(v: WorldView, b: (i64, i64, i64, i64)) -> bool {
    &&& forall|k: u64| #[trigger] v.locations.dom().contains(k) ==> within_box(v.locations[k].position, b)
    &&& exists|k: u64| #[trigger] v.locations.dom().contains(k) && v.locations[k].position.0 == b.0
    &&& exists|k: u64| #[trigger] v.locations.dom().contains(k) && v.locations[k].position.0 == b.1
    &&& exists|k: u64| #[trigger] v.locations.dom().contains(k) && v.locations[k].position.1 == b.2
    &&& exists|k: u64| #[trigger] v.locations.dom().contains(k) && v.locations[k].position.1 == b.3
}

impl World {
    /// The bounding box of every known location's position, or `None`
    /// when there are none.
    fn map_bounds(&self) -> (r: Option<(i64, i64, i64, i64)>)
        requires
            self.wf(),
        ensures
            r is None <==> self@.locations.dom() =~= Set::<u64>::empty(),
            r matches Some(b) ==> b.0 <= b.1 && b.2 <= b.3 && bounds_box(self@, b),
    {
        let n = self.locations.len();
        proof {
            self.locations.lemma_facts();
        }
        if n == 0 {
            proof {
                assert forall|k: u64| !self@.locations.dom().contains(k) by {
                    if self@.locations.dom().contains(k) {
                        assert(self.locations.keys().contains(k));
                    }
                }
            }
            return None;
        }
        let first = self.locations.val_at(0).position;
        let mut b: (i64, i64, i64, i64) = (first.0, first.0, first.1, first.1);
        let mut i: usize = 1;
        while i < n
            invariant
                self.wf(),
                n == self.locations.keys().len(),
                1 <= i <= n,
                b.0 <= b.1 && b.2 <= b.3,
                forall|k: u64| #[trigger] self@.locations.dom().contains(k) <==> self.locations.keys().contains(k),
                forall|x: int| 0 <= x < i ==> within_box(self@.locations[#[trigger] self.locations.keys()[x]].position, b),
                exists|x: int| 0 <= x < i && #[trigger] self@.locations[self.locations.keys()[x]].position.0 == b.0,
                exists|x: int| 0 <= x < i && #[trigger] self@.locations[self.locations.keys()[x]].position.0 == b.1,
                exists|x: int| 0 <= x < i && #[trigger] self@.locations[self.locations.keys()[x]].position.1 == b.2,
                exists|x: int| 0 <= x < i && #[trigger] self@.locations[self.locations.keys()[x]].position.1 == b.3,
            decreases n - i,
        {
            let (x, y) = self.locations.val_at(i).position;
            let ghost b0 = b;
            if x < b.0 {
                b.0 = x;
            }
            if x > b.1 {
                b.1 = x;
            }
            if y < b.2 {
                b.2 = y;
            }
            if y > b.3 {
                b.3 = y;
            }
            proof {
                let pi = self@.locations[self.locations.keys()[i as int]].position;
                assert(pi == (x, y));
                assert forall|z: int| 0 <= z < i + 1 implies within_box(
                    self@.locations[#[trigger] self.locations.keys()[z]].position,
                    b,
                ) by {
                    if z < i {
                        assert(within_box(self@.locations[self.locations.keys()[z]].position, b0));
                    }
                }
                if b.0 == x {
                    assert(self@.locations[self.locations.keys()[i as int]].position.0 == b.0);
                }
                if b.1 == x {
                    assert(self@.locations[self.locations.keys()[i as int]].position.0 == b.1);
                }
                if b.2 == y {
                    assert(self@.locations[self.locations.keys()[i as int]].position.1 == b.2);
                }
                if b.3 == y {
                    assert(self@.locations[self.locations.keys()[i as int]].position.1 == b.3);
                }
            }
            i = i + 1;
        }
        proof {
            assert forall|k: u64| #[trigger] self@.locations.dom().contains(k) implies within_box(
                self@.locations[k].position,
                b,
            ) by {
                let x = choose|x: int| 0 <= x < self.locations.keys().len() && self.locations.keys()[x] == k;
                assert(within_box(self@.locations[self.locations.keys()[x]].position, b));
            }
            let x0 = choose|x: int| 0 <= x < i && #[trigger] self@.locations[self.locations.keys()[x]].position.0 == b.0;
            let x1 = choose|x: int| 0 <= x < i && #[trigger] self@.locations[self.locations.keys()[x]].position.0 == b.1;
            let x2 = choose|x: int| 0 <= x < i && #[trigger] self@.locations[self.locations.keys()[x]].position.1 == b.2;
            let x3 = choose|x: int| 0 <= x < i && #[trigger] self@.locations[self.locations.keys()[x]].position.1 == b.3;
            assert(self@.locations.dom().contains(self.locations.keys()[x0]));
            assert(self@.locations.dom().contains(self.locations.keys()[x1]));
            assert(self@.locations.dom().contains(self.locations.keys()[x2]));
            assert(self@.locations.dom().contains(self.locations.keys()[x3]));
            assert(self@.locations.dom().contains(self.locations.keys()[0]));
        }
        Some(b)
    }

    /// The first location (by id) nearest to a point, with its distance.
    fn nearest_location(&self, p: (i64, i64)) -> (r: Option<(LocationId, u64)>)
        requires
            self.wf(),
        ensures
            r is None <==> self@.locations.dom() =~= Set::<u64>::empty(),
            r matches Some(x) ==> self@.locations.dom().contains(x.0.0) && x.1 == spec_chebyshev(
                self@.locations[x.0.0].position,
                p,
            ) && forall|k: u64| #[trigger]
                self@.locations.dom().contains(k) ==> (x.1 <= spec_chebyshev(self@.locations[k].position, p) && (k < x.0.0
                    ==> x.1 < spec_chebyshev(self@.locations[k].position, p))),
    {
        let n = self.locations.len();
        proof {
            self.locations.lemma_facts();
        }
        let mut best: Option<(LocationId, u64)> = None;
        let mut i: usize = 0;
        while i < n
            invariant
                self.wf(),
                n == self.locations.keys().len(),
                i <= n,
                crate::table::strictly_increasing(self.locations.keys()),
                forall|k: u64| #[trigger] self@.locations.dom().contains(k) <==> self.locations.keys().contains(k),
                best is None <==> i == 0,
                best matches Some(x) ==> self@.locations.dom().contains(x.0.0) && x.1 == spec_chebyshev(
                    self@.locations[x.0.0].position,
                    p,
                ) && (exists|y: int| 0 <= y < i && self.locations.keys()[y] == x.0.0) && forall|z: int|
                    0 <= z < i ==> (x.1 <= spec_chebyshev(self@.locations[#[trigger] self.locations.keys()[z]].position, p)
                        && (self.locations.keys()[z] < x.0.0 ==> x.1 < spec_chebyshev(
                        self@.locations[self.locations.keys()[z]].position,
                        p,
                    ))),
            decreases n - i,
        {
            let k = self.locations.key_at(i);
            let d = chebyshev_distance(self.locations.val_at(i).position, p);
            proof {
                self.locations.lemma_facts();
            }
            let ghost b0 = best;
            let closer = match best {
                None => true,
                Some((_, bd)) => d < bd,
            };
            if closer {
                best = Some((LocationId(k), d));
            }
            proof {
                if closer && b0 is Some {
                    let bx = b0->Some_0;
                    let bk = (bx.0).0;
                    let y = choose|y: int| 0 <= y < i && self.locations.keys()[y] == bk;
                    assert forall|z: int| 0 <= z < i + 1 implies (d <= spec_chebyshev(
                        self@.locations[#[trigger] self.locations.keys()[z]].position,
                        p,
                    ) && (self.locations.keys()[z] < k ==> d < spec_chebyshev(
                        self@.locations[self.locations.keys()[z]].position,
                        p,
                    ))) by {
                        if z < i {
                            assert(self.locations.keys()[z] < self.locations.keys()[i as int]);
                        }
                    }
                } else if !closer {
                    let bx = b0->Some_0;
                    let bk = (bx.0).0;
                    let y = choose|y: int| 0 <= y < i && self.locations.keys()[y] == bk;
                    assert(self.locations.keys()[y] < self.locations.keys()[i as int]);
                }
            }
            i = i + 1;
        }
        proof {
            if n == 0 {
                assert forall|k: u64| !self@.locations.dom().contains(k) by {
                    if self@.locations.dom().contains(k) {
                        assert(self.locations.keys().contains(k));
                    }
                }
            } else {
                assert(self@.locations.dom().contains(self.locations.keys()[0]));
                let x = best->0;
                assert forall|k: u64| #[trigger] self@.locations.dom().contains(k) implies (x.1 <= spec_chebyshev(
                    self@.locations[k].position,
                    p,
                ) && (k < x.0.0 ==> x.1 < spec_chebyshev(self@.locations[k].position, p))) by {
                    let z = choose|z: int| 0 <= z < self.locations.keys().len() && self.locations.keys()[z] == k;
                }
            }
        }
        best
    }

    /// World generation: on a small daily chance, prospectors find a new,
    /// unclaimed mine near the known map (within its bounding box plus a
    /// margin), finite or, rarely, inexhaustible, linked both ways by route
    /// to the nearest known location.
    pub(crate) fn tick_mine_discovery(&mut self)
        requires
            old(self).wf(),
        ensures
            final(self).wf(),
            crate::world::phase_ok(old(self)@, final(self)@),
            crate::combat::money_untouched(final(self)@, old(self)@),
            old(self)@.locations.dom().subset_of(final(self)@.locations.dom()),
            forall|k: u64| #[trigger]
                final(self)@.locations.dom().contains(k) && !old(self)@.locations.dom().contains(k) ==> discovered_mine(
                    old(self)@,
                    final(self)@,
                    k,
                ),
            forall|k1: u64, k2: u64|
                #![trigger final(self)@.locations[k1], final(self)@.locations[k2]]
                final(self)@.locations.dom().contains(k1) && !old(self)@.locations.dom().contains(k1)
                    && final(self)@.locations.dom().contains(k2) && !old(self)@.locations.dom().contains(k2) ==> k1 == k2,
            !(old(self)@.locations.dom() =~= Set::<u64>::empty()) && (old(self)@.rng.percent_roll() as int)
                < DISCOVERY_CHANCE_PCT && old(self)@.next_id <= u64::MAX - 8 && positions_moderate(old(self)@)
                ==> exists|k: u64| #[trigger]
                final(self)@.locations.dom().contains(k) && !old(self)@.locations.dom().contains(k),
    {
        let ghost v = self@;
        let bounds = match self.map_bounds() {
            Some(b) => b,
            None => {
                return;
            },
        };
        if self.rng.roll_percent() >= DISCOVERY_CHANCE_PCT {
            return;
        }
        let (min_x, max_x, min_y, max_y) = bounds;
        let margin: i128 = 10;
        let wx: i128 = max_x as i128 - min_x as i128 + 2 * margin;
        let wy: i128 = max_y as i128 - min_y as i128 + 2 * margin;
        if wx > u64::MAX as i128 || wy > u64::MAX as i128 {
            return;
        }
        let span_x: u64 = wx as u64;
        let span_y: u64 = wy as u64;
        let x: i128 = min_x as i128 - margin + self.rng.roll_range(span_x) as i128;
        let y: i128 = min_y as i128 - margin + self.rng.roll_range(span_y) as i128;
        if x < i64::MIN as i128 || x > i64::MAX as i128 || y < i64::MIN as i128 || y > i64::MAX as i128 {
            return;
        }
        let point: (i64, i64) = (x as i64, y as i64);
        let (nearest, dist) = match self.nearest_location(point) {
            Some(r) => r,
            None => {
                return;
            },
        };
        let distance_days: u64 = if dist / 4 >= 1 {
            dist / 4
        } else {
            1
        };
        if self.next_id > u64::MAX - 8 {
            return;
        }
        let name = "Prospect Site ".to_owned().concat(crate::decimal::decimal_text(self.next_id).as_str());
        let ghost s0 = self@;
        let mine = self.create_location(name.as_str(), LocationKind::Mine, point);
        let reserves = if self.rng.roll_percent() < INFINITE_CHANCE_PCT {
            MineReserves::Infinite
        } else {
            MineReserves::Finite { remaining: 5_000 + self.rng.roll_range(45_000) }
        };
        let ghost s1 = self@;
        let _ = self.configure_mine(mine, reserves);
        let ghost s2 = self@;
        let _ = self.create_route(mine, nearest, distance_days);
        let ghost s3 = self@;
        let _ = self.create_route(nearest, mine, distance_days);
        let ghost s4 = self@;
        self.push_event(EventKind::MineDiscovered { mine });
        proof {
            crate::world::lemma_log_extends_log(s4, EventKind::MineDiscovered { mine });
            crate::world::lemma_phase_trans(s0, s1, s2);
            crate::world::lemma_phase_trans(s0, s2, s3);
            crate::world::lemma_phase_trans(s0, s3, s4);
            crate::world::lemma_phase_trans(s0, s4, self@);
            crate::world::lemma_phase_trans(old(self)@, s0, self@);
            let r1 = s2.next_id;
            let r2 = s3.next_id;
            assert(self@.routes.dom().contains(r1) && self@.routes.dom().contains(r2));
            assert(route_between(self@, r1, mine.0, nearest.0, distance_days));
            assert(route_between(self@, r2, nearest.0, mine.0, distance_days));
            assert(self@.locations.dom() =~= old(self)@.locations.dom().insert(mine.0));
            assert(discovered_mine(old(self)@, self@, mine.0));
            assert(self@.locations.dom().contains(mine.0) && !old(self)@.locations.dom().contains(mine.0));
        }
    }
}

} // verus!
