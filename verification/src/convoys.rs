//! Convoys: first-class physical transport.
//!
//! A convoy is real vehicles carrying real cargo, guarded by real guards.
//! Cargo can only be loaded where the convoy physically is; while the convoy
//! is en route the cargo is at no site.

use crate::assets::{AssetKind, SerialAsset};
use crate::error::{error_matches, invalid_state, SimError};
use crate::events::EventKind;
use crate::goods::LotState;
use crate::ids::{ActorId, LocationId, LotId, AssetId, RouteId, ConvoyId};
use crate::intel::{observation_error, observation_recorded, IntelSubject};
use crate::locations::{resolve, LocationRef};
use crate::stockpiles::{asset_moved, lot_moved};
use crate::world::{World, WorldView};
use vstd::prelude::*;

verus! {

#[derive(Debug, Clone, Copy, PartialEq, Eq, Structural)]
pub struct Route {
    pub id: RouteId,
    pub from: LocationId,
    pub to: LocationId,
    pub distance_days: u64,
}

#[derive(Debug, Clone, Copy, PartialEq, Eq, Structural)]
pub enum ConvoyState {
    /// Assembling at a site; cargo can be loaded and unloaded.
    Forming { at: LocationId },
    /// On the road. Cargo is physically aboard and at no site.
    EnRoute { route: RouteId, departed_day: u64, arrives_day: u64 },
    /// At the destination; cargo can be unloaded, convoy can re-depart.
    Arrived { at: LocationId },
    /// Dissolved; vehicles and cargo were returned to the site.
    Disbanded,
}

#[derive(Debug, Clone, PartialEq)]
pub struct Convoy {
    pub id: ConvoyId,
    pub owner: ActorId,
    /// Transport vehicles.
    pub vehicles: Vec<AssetId>,
    /// Guard assets.
    pub guards: Vec<AssetId>,
    /// Bulk cargo aboard.
    pub cargo_lots: Vec<LotId>,
    /// Serial cargo aboard.
    pub cargo_assets: Vec<AssetId>,
    pub state: ConvoyState,
    pub formed_day: u64,
}

/// The site a convoy in this state is at, if it is at one.
pub open spec fn convoy_state_site(s: ConvoyState) -> Option<LocationId> {
    match s {
        ConvoyState::Forming { at } => Some(at),
        ConvoyState::Arrived { at } => Some(at),
        _ => None,
    }
}

impl Convoy {
    /// The site the convoy is currently at, if it is at one.
    pub fn current_site(&self) -> (r: Option<LocationId>)
        ensures
            r == convoy_state_site(self.state),
    {
        match self.state {
            ConvoyState::Forming { at } => Some(at),
            ConvoyState::Arrived { at } => Some(at),
            ConvoyState::EnRoute { .. } => None,
            ConvoyState::Disbanded => None,
        }
    }
}


/// Owner and current site of a convoy that is at a site (forming or
/// arrived); an error when it is unknown, en route, or disbanded.
pub open spec fn convoy_at(v: WorldView, convoy: ConvoyId) -> Result<(ActorId, LocationId), SimError> {
    if !v.convoys.dom().contains(convoy.0) {
        Err(SimError::UnknownConvoy(convoy))
    } else {
        match convoy_state_site(v.convoys[convoy.0].state) {
            Some(at) => Ok((v.convoys[convoy.0].owner, at)),
            None => Err(SimError::ConvoyNotAtSite(convoy)),
        }
    }
}

/// Why this asset cannot join a convoy of `owner` at `at` as a vehicle or
/// guard, if it cannot: it must be a mech or vehicle, owned by `owner`,
/// physically at `at`.
pub open spec fn transport_error(v: WorldView, owner: ActorId, at: LocationId, a: AssetId) -> Option<SimError> {
    if !v.assets.dom().contains(a.0) {
        Some(SimError::UnknownAsset(a))
    } else if !v.designs.dom().contains(v.assets[a.0].design.0) {
        Some(SimError::UnknownDesign(v.assets[a.0].design))
    } else if v.designs[v.assets[a.0].design.0].kind != AssetKind::Vehicle && v.designs[v.assets[a.0].design.0].kind
        != AssetKind::Mech {
        Some(SimError::InvalidAssetKind(a))
    } else if v.assets[a.0].owner != owner {
        Some(SimError::NotOwner { actor: v.assets[a.0].owner })
    } else if resolve(v, v.assets[a.0].location) != Some(at) {
        Some(SimError::NotColocated)
    } else if v.assets[a.0].location is Convoy || v.assets[a.0].location is Formation {
        Some(invalid_state())
    } else {
        None
    }
}

/// The first vehicle, in order, that cannot join the convoy.
pub open spec fn first_transport_error(v: WorldView, owner: ActorId, at: LocationId, vehicles: Seq<AssetId>) -> Option<
    SimError,
>
    decreases vehicles.len(),
{
    if vehicles.len() == 0 {
        None
    } else {
        match first_transport_error(v, owner, at, vehicles.drop_last()) {
            Some(e) => Some(e),
            None => transport_error(v, owner, at, vehicles.last()),
        }
    }
}

/// The state after moving every listed asset, in order, to `to`.
pub open spec fn assets_moved(v: WorldView, assets: Seq<AssetId>, to: LocationRef) -> WorldView
    decreases assets.len(),
{
    if assets.len() == 0 {
        v
    } else {
        asset_moved(assets_moved(v, assets.drop_last(), to), assets.last(), to)
    }
}

/// Moving assets leaves every other table alone and keeps the asset ids.
pub proof fn lemma_assets_moved(v: WorldView, assets: Seq<AssetId>, to: LocationRef)
    requires
        forall|i: int| 0 <= i < assets.len() ==> v.assets.dom().contains(#[trigger] assets[i].0),
        v.next_id + assets.len() <= u64::MAX,
        v.next_event_seq <= v.next_id,
    ensures
        assets_moved(v, assets, to).assets.dom() == v.assets.dom(),
        assets_moved(v, assets, to).convoys == v.convoys,
        assets_moved(v, assets, to).lots == v.lots,
        assets_moved(v, assets, to).formations == v.formations,
        assets_moved(v, assets, to).clock == v.clock,
        assets_moved(v, assets, to).seed == v.seed,
        assets_moved(v, assets, to).next_id == v.next_id + assets.len(),
        assets_moved(v, assets, to).events.len() == v.events.len() + assets.len(),
    decreases assets.len(),
{
    if assets.len() > 0 {
        let prev = assets.drop_last();
        assert forall|i: int| 0 <= i < prev.len() implies v.assets.dom().contains(#[trigger] prev[i].0) by {
            assert(prev[i] == assets[i]);
        }
        lemma_assets_moved(v, prev, to);
        let w = assets_moved(v, prev, to);
        assert(v.assets.dom().contains(assets[assets.len() - 1].0));
        assert(w.assets.insert(assets.last().0, SerialAsset { location: to, ..w.assets[assets.last().0] }).dom() =~= w.assets.dom());
    }
}

/// Moving assets touches no actor, location, factory or formation.
pub proof fn lemma_assets_moved_frame(v: WorldView, assets: Seq<AssetId>, to: LocationRef)
    ensures
        assets_moved(v, assets, to).actors == v.actors,
        assets_moved(v, assets, to).locations == v.locations,
        assets_moved(v, assets, to).factories == v.factories,
        assets_moved(v, assets, to).formations == v.formations,
        assets_moved(v, assets, to).convoys == v.convoys,
        assets_moved(v, assets, to).lots == v.lots,
        assets_moved(v, assets, to).components == v.components,
        assets_moved(v, assets, to).component_defs == v.component_defs,
        assets_moved(v, assets, to).designs == v.designs,
        assets_moved(v, assets, to).markets == v.markets,
        assets_moved(v, assets, to).sell_listings == v.sell_listings,
        assets_moved(v, assets, to).buy_orders == v.buy_orders,
        assets_moved(v, assets, to).order_keys == v.order_keys,
        assets_moved(v, assets, to).actor_keys == v.actor_keys,
        assets_moved(v, assets, to).money_issued == v.money_issued,
        assets_moved(v, assets, to).stockpiles == v.stockpiles,
        assets_moved(v, assets, to).production_jobs == v.production_jobs,
    decreases assets.len(),
{
    if assets.len() > 0 {
        lemma_assets_moved_frame(v, assets.drop_last(), to);
    }
}

/// Moving assets relocates exactly the listed ones, to `to`, changing
/// nothing else about them.
pub proof fn lemma_assets_moved_content(v: WorldView, assets: Seq<AssetId>, to: LocationRef)
    requires
        forall|i: int| 0 <= i < assets.len() ==> v.assets.dom().contains(#[trigger] assets[i].0),
    ensures
        assets_moved(v, assets, to).assets.dom() == v.assets.dom(),
        forall|k: u64| #[trigger] v.assets.dom().contains(k) ==> assets_moved(v, assets, to).assets[k] == if assets.contains(
            AssetId(k),
        ) {
            SerialAsset { location: to, ..v.assets[k] }
        } else {
            v.assets[k]
        },
    decreases assets.len(),
{
    if assets.len() > 0 {
        let prev = assets.drop_last();
        assert forall|i: int| 0 <= i < prev.len() implies v.assets.dom().contains(#[trigger] prev[i].0) by {
            assert(prev[i] == assets[i]);
        }
        lemma_assets_moved_content(v, prev, to);
        let u = assets_moved(v, prev, to);
        let a = assets.last();
        assert(v.assets.dom().contains(assets[assets.len() - 1].0));
        assert(u.assets.insert(a.0, SerialAsset { location: to, ..u.assets[a.0] }).dom() =~= u.assets.dom());
        assert forall|k: u64| #[trigger] v.assets.dom().contains(k) implies assets_moved(v, assets, to).assets[k] == if assets.contains(
            AssetId(k),
        ) {
            SerialAsset { location: to, ..v.assets[k] }
        } else {
            v.assets[k]
        } by {
            if k == a.0 {
                assert(assets.contains(AssetId(k)));
            } else {
                if assets.contains(AssetId(k)) {
                    let i = choose|i: int| 0 <= i < assets.len() && assets[i] == AssetId(k);
                    assert(prev[i] == assets[i]);
                } else if prev.contains(AssetId(k)) {
                    let i = choose|i: int| 0 <= i < prev.len() && prev[i] == AssetId(k);
                    assert(assets[i] == prev[i]);
                }
            }
        }
    }
}

/// Every vehicle of a convoy that forms without error can join it.
pub proof fn lemma_transport_ok_each(v: WorldView, owner: ActorId, at: LocationId, vehicles: Seq<AssetId>)
    requires
        first_transport_error(v, owner, at, vehicles) is None,
    ensures
        forall|i: int| 0 <= i < vehicles.len() ==> transport_error(v, owner, at, #[trigger] vehicles[i]) is None,
    decreases vehicles.len(),
{
    if vehicles.len() > 0 {
        let prev = vehicles.drop_last();
        lemma_transport_ok_each(v, owner, at, prev);
        assert forall|i: int| 0 <= i < vehicles.len() implies transport_error(v, owner, at, #[trigger] vehicles[i]) is None by {
            if i < prev.len() {
                assert(prev[i] == vehicles[i]);
            }
        }
    }
}

/// Unloading every listed lot at `at`, in order: each is moved to the
/// site and the unloading logged. Stops at the first lot that does not
/// exist, returning the state reached and the error.
pub open spec fn lots_unloaded(v: WorldView, convoy: ConvoyId, lots: Seq<LotId>, at: LocationId) -> (WorldView, Option<
    SimError,
>)
    decreases lots.len(),
{
    if lots.len() == 0 {
        (v, None)
    } else {
        let prev = lots_unloaded(v, convoy, lots.drop_last(), at);
        if prev.1 is Some {
            prev
        } else if !prev.0.lots.dom().contains(lots.last().0) {
            (prev.0, Some(SimError::UnknownLot(lots.last())))
        } else {
            (
                lot_moved(prev.0, lots.last(), LocationRef::Site(at)).log(
                    EventKind::CargoLotUnloaded { convoy, lot: lots.last(), at },
                ),
                None,
            )
        }
    }
}

/// Moving every listed asset to `at`, in order; stops at the first asset
/// that does not exist.
pub open spec fn assets_returned(v: WorldView, assets: Seq<AssetId>, at: LocationId) -> (WorldView, Option<SimError>)
    decreases assets.len(),
{
    if assets.len() == 0 {
        (v, None)
    } else {
        let prev = assets_returned(v, assets.drop_last(), at);
        if prev.1 is Some {
            prev
        } else if !prev.0.assets.dom().contains(assets.last().0) {
            (prev.0, Some(SimError::UnknownAsset(assets.last())))
        } else {
            (asset_moved(prev.0, assets.last(), LocationRef::Site(at)), None)
        }
    }
}

/// The first position at which `x` occurs.
pub open spec fn first_index<T>(s: Seq<T>, x: T) -> int {
    choose|i: int| 0 <= i < s.len() && s[i] == x && forall|j: int| 0 <= j < i ==> s[j] != x
}

/// Convoys whose arrival is due: the ids, in key order, of those en route
/// on a known route with an arrival day no later than `today`.
pub open spec fn arrival_site(v: WorldView, k: u64, today: u64) -> Option<LocationId> {
    match v.convoys[k].state {
        ConvoyState::EnRoute { route, arrives_day, .. } => if arrives_day <= today && v.routes.dom().contains(
            route.0,
        ) {
            Some(v.routes[route.0].to)
        } else {
            None
        },
        _ => None,
    }
}

/// Every due convoy, in key order, arrives at its route's destination and
/// the arrival is logged.
pub open spec fn convoys_arrived(v: WorldView, keys: Seq<u64>, today: u64) -> WorldView
    decreases keys.len(),
{
    if keys.len() == 0 {
        v
    } else {
        let w = convoys_arrived(v, keys.drop_last(), today);
        let k = keys.last();
        match arrival_site(v, k, today) {
            Some(at) => (WorldView {
                convoys: w.convoys.insert(k, Convoy { state: ConvoyState::Arrived { at }, ..w.convoys[k] }),
                ..w
            }).log(EventKind::ConvoyArrived { convoy: ConvoyId(k), at }),
            None => w,
        }
    }
}

/// The number of ids disbanding a convoy uses: two log entries per lot,
/// one per asset, one for the disbanding itself.
pub open spec fn disband_cost(c: Convoy) -> int {
    (2 * c.cargo_lots@.len() + c.cargo_assets@.len() + c.guards@.len() + c.vehicles@.len() + 1) as int
}

impl World {
    /// Owner and current site of a convoy that is at a site.
    pub(crate) fn convoy_site(&self, convoy: ConvoyId) -> (r: Result<(ActorId, LocationId), SimError>)
        requires
            self.wf(),
        ensures
            r == convoy_at(self@, convoy),
    {
        match self.convoys.get(convoy.0) {
            None => Err(SimError::UnknownConvoy(convoy)),
            Some(c) => match c.current_site() {
                Some(at) => Ok((c.owner, at)),
                None => Err(SimError::ConvoyNotAtSite(convoy)),
            },
        }
    }

    /// The first asset-eligibility error of one candidate vehicle or guard.
    fn check_transport(&self, owner: ActorId, at: LocationId, a: AssetId) -> (r: Option<SimError>)
        requires
            self.wf(),
        ensures
            match transport_error(self@, owner, at, a) {
                Some(e) => r matches Some(x) && error_matches(x, e),
                None => r is None,
            },
    {
        let kind = match self.asset_kind(a) {
            Err(e) => {
                return Some(e);
            },
            Ok(k) => k,
        };
        if !matches!(kind, AssetKind::Vehicle) && !matches!(kind, AssetKind::Mech) {
            return Some(SimError::InvalidAssetKind(a));
        }
        let (a_owner, a_location) = match self.assets.get(a.0) {
            Some(x) => (x.owner, x.location),
            None => {
                return Some(SimError::UnknownAsset(a));
            },
        };
        if a_owner.0 != owner.0 {
            return Some(SimError::NotOwner { actor: a_owner });
        }
        let here = self.resolve_site(a_location);
        let colocated = match here {
            Some(s) => s.0 == at.0,
            None => false,
        };
        if !colocated {
            return Some(SimError::NotColocated);
        }
        match a_location {
            LocationRef::Convoy(_) | LocationRef::Formation(_) => {
                return Some(
                    SimError::InvalidState("an asset already aboard a convoy or in a formation cannot join".to_owned()),
                );
            },
            _ => {},
        }
        None
    }

    pub fn create_route(&mut self, from: LocationId, to: LocationId, distance_days: u64) -> (r: Result<
        RouteId,
        SimError,
    >)
        requires
            old(self).wf(),
            old(self)@.has_room(2),
        ensures
            final(self).wf(),
            crate::world::phase_ok(old(self)@, final(self)@),
            crate::combat::money_untouched(final(self)@, old(self)@),
            !old(self)@.locations.dom().contains(from.0) ==> r == Err::<RouteId, SimError>(
                SimError::UnknownLocation(from),
            ) && final(self)@ == old(self)@,
            old(self)@.locations.dom().contains(from.0) && !old(self)@.locations.dom().contains(to.0) ==> r
                == Err::<RouteId, SimError>(SimError::UnknownLocation(to)) && final(self)@ == old(self)@,
            old(self)@.locations.dom().contains(from.0) && old(self)@.locations.dom().contains(to.0) && (
            distance_days == 0 || from == to) ==> r == Err::<RouteId, SimError>(SimError::InvalidQuantity)
                && final(self)@ == old(self)@,
            old(self)@.locations.dom().contains(from.0) && old(self)@.locations.dom().contains(to.0) && distance_days
                != 0 && from != to ==> {
                let id = RouteId(old(self)@.next_id);
                r == Ok::<RouteId, SimError>(id) && final(self)@ == (WorldView {
                    routes: old(self)@.routes.insert(id.0, Route { id, from, to, distance_days }),
                    ..old(self)@.bump()
                }).log(EventKind::RouteCreated { route: id })
            },
            crate::invariants::consistent(old(self)@) ==> crate::invariants::consistent(final(self)@),
    {
        if !self.locations.contains(from.0) {
            return Err(SimError::UnknownLocation(from));
        }
        if !self.locations.contains(to.0) {
            return Err(SimError::UnknownLocation(to));
        }
        if distance_days == 0 || from.0 == to.0 {
            return Err(SimError::InvalidQuantity);
        }
        let id = RouteId(self.alloc_id());
        proof {
            self.routes.lemma_fresh(id.0);
        }
        self.routes.insert_new(id.0, Route { id, from, to, distance_days });
        proof {
            self.lemma_keys_wf();
        }
        self.push_event(EventKind::RouteCreated { route: id });
        proof {
            let o = old(self)@;
            if crate::invariants::consistent(o) {
                assert(crate::invariants::grows_soundly(o, self@));
                crate::invariants::lemma_consistent_grows(o, self@);
            }
        }
        Ok(id)
    }

    /// Form a convoy at a site from real vehicles the owner has there.
    pub fn form_convoy(&mut self, owner: ActorId, at: LocationId, vehicles: &[AssetId]) -> (r: Result<
        ConvoyId,
        SimError,
    >)
        requires
            old(self).wf(),
            old(self)@.has_room(2 + vehicles@.len() as int),
        ensures
            final(self).wf(),
            !old(self)@.actors.dom().contains(owner.0) ==> r == Err::<ConvoyId, SimError>(
                SimError::UnknownActor(owner),
            ) && final(self)@ == old(self)@,
            old(self)@.actors.dom().contains(owner.0) && !old(self)@.locations.dom().contains(at.0) ==> r
                == Err::<ConvoyId, SimError>(SimError::UnknownLocation(at)) && final(self)@ == old(self)@,
            old(self)@.actors.dom().contains(owner.0) && old(self)@.locations.dom().contains(at.0) && vehicles@.len()
                == 0 ==> (r matches Err(x) && error_matches(x, invalid_state())) && final(self)@ == old(self)@,
            old(self)@.actors.dom().contains(owner.0) && old(self)@.locations.dom().contains(at.0) && vehicles@.len()
                > 0 ==> match first_transport_error(old(self)@, owner, at, vehicles@) {
                Some(e) => (r matches Err(x) && error_matches(x, e)) && final(self)@ == old(self)@,
                None => {
                    let id = ConvoyId(old(self)@.next_id);
                    let c = final(self)@.convoys[id.0];
                    &&& r == Ok::<ConvoyId, SimError>(id)
                    &&& c.vehicles@ == vehicles@
                    &&& c.guards@.len() == 0
                    &&& c.cargo_lots@.len() == 0
                    &&& c.cargo_assets@.len() == 0
                    &&& final(self)@ == assets_moved(
                        WorldView {
                            convoys: old(self)@.convoys.insert(
                                id.0,
                                Convoy {
                                    id,
                                    owner,
                                    vehicles: c.vehicles,
                                    guards: c.guards,
                                    cargo_lots: c.cargo_lots,
                                    cargo_assets: c.cargo_assets,
                                    state: ConvoyState::Forming { at },
                                    formed_day: old(self)@.clock.day,
                                },
                            ),
                            ..old(self)@.bump()
                        },
                        vehicles@,
                        LocationRef::Convoy(id),
                    ).log(EventKind::ConvoyFormed { convoy: id, at })
                },
            },
            crate::invariants::consistent(old(self)@) ==> crate::invariants::consistent(final(self)@),
    {
        if !self.actors.contains(owner.0) {
            return Err(SimError::UnknownActor(owner));
        }
        if !self.locations.contains(at.0) {
            return Err(SimError::UnknownLocation(at));
        }
        if vehicles.len() == 0 {
            return Err(SimError::InvalidState("a convoy needs at least one vehicle".to_owned()));
        }
        let mut i: usize = 0;
        while i < vehicles.len()
            invariant
                self.wf(),
                i <= vehicles@.len(),
                self@ == old(self)@,
                self@.actors.dom().contains(owner.0),
                self@.locations.dom().contains(at.0),
                first_transport_error(self@, owner, at, vehicles@.take(i as int)) is None,
            decreases vehicles@.len() - i,
        {
            proof {
                assert(vehicles@.take(i + 1).drop_last() =~= vehicles@.take(i as int));
            }
            match self.check_transport(owner, at, vehicles[i]) {
                Some(e) => {
                    proof {
                        lemma_first_error_prefix(self@, owner, at, vehicles@, i + 1);
                    }
                    return Err(e);
                },
                None => {},
            }
            i = i + 1;
        }
        proof {
            assert(vehicles@.take(vehicles@.len() as int) =~= vehicles@);
            lemma_no_first_error(self@, owner, at, vehicles@);
        }
        let ghost v = self@;
        let id = ConvoyId(self.alloc_id());
        let formed_day = self.clock.day;
        proof {
            self.convoys.lemma_fresh(id.0);
        }
        self.convoys.insert_new(
            id.0,
            Convoy {
                id,
                owner,
                vehicles: crate::table::copy_slice(vehicles),
                guards: Vec::new(),
                cargo_lots: Vec::new(),
                cargo_assets: Vec::new(),
                state: ConvoyState::Forming { at },
                formed_day,
            },
        );
        proof {
            self.lemma_keys_wf();
        }
        let ghost v1 = self@;
        let mut j: usize = 0;
        while j < vehicles.len()
            invariant
                self.wf(),
                j <= vehicles@.len(),
                v1.assets.dom() == v.assets.dom(),
                v1.next_id == v.next_id + 1,
                v1.next_event_seq <= v1.next_id,
                v.next_id + 2 + vehicles@.len() <= u64::MAX,
                forall|k: int| 0 <= k < vehicles@.len() ==> v.assets.dom().contains(#[trigger] vehicles@[k].0),
                self@ == assets_moved(v1, vehicles@.take(j as int), LocationRef::Convoy(id)),
            decreases vehicles@.len() - j,
        {
            proof {
                lemma_assets_moved(v1, vehicles@.take(j as int), LocationRef::Convoy(id));
                assert(vehicles@.take(j + 1).drop_last() =~= vehicles@.take(j as int));
                assert(vehicles@.take(j + 1).last() == vehicles@[j as int]);
            }
            let _ = self.move_asset_raw(vehicles[j], LocationRef::Convoy(id));
            j = j + 1;
        }
        proof {
            assert(vehicles@.take(vehicles@.len() as int) =~= vehicles@);
            lemma_assets_moved(v1, vehicles@, LocationRef::Convoy(id));
        }
        self.push_event(EventKind::ConvoyFormed { convoy: id, at });
        proof {
            if crate::invariants::consistent(old(self)@) {
                crate::invariants::law_form_convoy_keeps_invariants(old(self)@, self@, owner, at, vehicles@);
            }
        }
        Ok(id)
    }
}

/// The first error of a whole list is the first error of any prefix that
/// already has one.
pub proof fn lemma_first_error_prefix(v: WorldView, owner: ActorId, at: LocationId, s: Seq<AssetId>, n: int)
    requires
        0 <= n <= s.len(),
        first_transport_error(v, owner, at, s.take(n)) is Some,
    ensures
        first_transport_error(v, owner, at, s) == first_transport_error(v, owner, at, s.take(n)),
    decreases s.len(),
{
    if n == s.len() {
        assert(s.take(n) =~= s);
    } else {
        let p = s.drop_last();
        assert(p.take(n) =~= s.take(n));
        lemma_first_error_prefix(v, owner, at, p, n);
    }
}

/// A list with no first error has no error anywhere.
pub proof fn lemma_no_first_error(v: WorldView, owner: ActorId, at: LocationId, s: Seq<AssetId>)
    requires
        first_transport_error(v, owner, at, s) is None,
    ensures
        forall|i: int| 0 <= i < s.len() ==> transport_error(v, owner, at, #[trigger] s[i]) is None,
        forall|i: int| 0 <= i < s.len() ==> v.assets.dom().contains(#[trigger] s[i].0),
    decreases s.len(),
{
    if s.len() > 0 {
        let p = s.drop_last();
        lemma_no_first_error(v, owner, at, p);
        assert forall|i: int| 0 <= i < s.len() implies transport_error(v, owner, at, #[trigger] s[i]) is None by {
            if i < s.len() - 1 {
                assert(s[i] == p[i]);
            }
        }
        assert forall|i: int| 0 <= i < s.len() implies v.assets.dom().contains(#[trigger] s[i].0) by {
            assert(transport_error(v, owner, at, s[i]) is None);
        }
    }
}


/// The state after the loading step of a convoy operation: `moved` is the
/// state once the thing is aboard, and the convoy record takes `updated`.
pub open spec fn with_convoy(v: WorldView, convoy: ConvoyId, updated: Convoy) -> WorldView {
    WorldView { convoys: v.convoys.insert(convoy.0, updated), ..v }
}

/// Why loading this lot aboard this convoy fails, if it does.
pub open spec fn load_lot_error(v: WorldView, convoy: ConvoyId, lot: LotId) -> Option<SimError> {
    match convoy_at(v, convoy) {
        Err(e) => Some(e),
        Ok((owner, at)) => if !v.lots.dom().contains(lot.0) {
            Some(SimError::UnknownLot(lot))
        } else if v.lots[lot.0].state != LotState::Active {
            Some(SimError::LotNotActive(lot))
        } else if v.lots[lot.0].owner != owner {
            Some(SimError::NotOwner { actor: v.lots[lot.0].owner })
        } else if resolve(v, v.lots[lot.0].location) != Some(at) {
            Some(SimError::NotColocated)
        } else {
            None
        },
    }
}

/// Why loading this asset aboard this convoy as cargo fails, if it does.
pub open spec fn load_asset_error(v: WorldView, convoy: ConvoyId, asset: AssetId) -> Option<SimError> {
    match convoy_at(v, convoy) {
        Err(e) => Some(e),
        Ok((owner, at)) => if !v.assets.dom().contains(asset.0) {
            Some(SimError::UnknownAsset(asset))
        } else if v.assets[asset.0].owner != owner {
            Some(SimError::NotOwner { actor: v.assets[asset.0].owner })
        } else if resolve(v, v.assets[asset.0].location) != Some(at) {
            Some(SimError::NotColocated)
        } else if v.assets[asset.0].location is Convoy {
            Some(invalid_state())
        } else {
            None
        },
    }
}

impl World {
    /// Assign a real guard asset (mech or vehicle) to a convoy at a site.
    pub fn assign_guard(&mut self, convoy: ConvoyId, asset: AssetId) -> (r: Result<(), SimError>)
        requires
            old(self).wf(),
            old(self)@.has_room(2),
        ensures
            final(self).wf(),
            match convoy_at(old(self)@, convoy) {
                Err(e) => r == Err::<(), SimError>(e) && final(self)@ == old(self)@,
                Ok((owner, at)) => match transport_error(old(self)@, owner, at, asset) {
                    Some(e) => (r matches Err(x) && error_matches(x, e)) && final(self)@ == old(self)@,
                    None => {
                        let c = old(self)@.convoys[convoy.0];
                        let g = final(self)@.convoys[convoy.0].guards;
                        &&& r is Ok
                        &&& g@ == c.guards@.push(asset)
                        &&& final(self)@ == with_convoy(
                            asset_moved(old(self)@, asset, LocationRef::Convoy(convoy)),
                            convoy,
                            Convoy { guards: g, ..c },
                        ).log(EventKind::GuardAssigned { convoy, asset })
                    },
                },
            },
    {
        let (owner, at) = match self.convoy_site(convoy) {
            Err(e) => {
                return Err(e);
            },
            Ok(p) => p,
        };
        match self.check_transport(owner, at, asset) {
            Some(e) => {
                return Err(e);
            },
            None => {},
        }
        let _ = self.move_asset_raw(asset, LocationRef::Convoy(convoy));
        let c = self.convoys.get_mut(convoy.0);
        c.guards.push(asset);
        proof {
            self.lemma_keys_wf();
        }
        self.push_event(EventKind::GuardAssigned { convoy, asset });
        Ok(())
    }

    /// Load a real lot aboard. The lot must exist, be active, be owned by
    /// the convoy owner, and be physically at the convoy's current site.
    pub fn load_lot_onto_convoy(&mut self, convoy: ConvoyId, lot: LotId) -> (r: Result<(), SimError>)
        requires
            old(self).wf(),
            old(self)@.has_room(2),
        ensures
            final(self).wf(),
            match load_lot_error(old(self)@, convoy, lot) {
                Some(e) => r == Err::<(), SimError>(e) && final(self)@ == old(self)@,
                None => {
                    let c = old(self)@.convoys[convoy.0];
                    let cl = final(self)@.convoys[convoy.0].cargo_lots;
                    &&& r is Ok
                    &&& cl@ == c.cargo_lots@.push(lot)
                    &&& final(self)@ == with_convoy(
                        lot_moved(old(self)@, lot, LocationRef::Convoy(convoy)),
                        convoy,
                        Convoy { cargo_lots: cl, ..c },
                    ).log(EventKind::CargoLotLoaded { convoy, lot })
                },
            },
    {
        let (owner, at) = match self.convoy_site(convoy) {
            Err(e) => {
                return Err(e);
            },
            Ok(p) => p,
        };
        let (lot_owner, state, location) = match self.lots.get(lot.0) {
            None => {
                return Err(SimError::UnknownLot(lot));
            },
            Some(l) => (l.owner, l.state, l.location),
        };
        if !matches!(state, LotState::Active) {
            return Err(SimError::LotNotActive(lot));
        }
        if lot_owner.0 != owner.0 {
            return Err(SimError::NotOwner { actor: lot_owner });
        }
        let here = self.resolve_site(location);
        let colocated = match here {
            Some(s) => s.0 == at.0,
            None => false,
        };
        if !colocated {
            return Err(SimError::NotColocated);
        }
        let _ = self.move_lot_raw(lot, LocationRef::Convoy(convoy));
        let c = self.convoys.get_mut(convoy.0);
        c.cargo_lots.push(lot);
        proof {
            self.lemma_keys_wf();
        }
        self.push_event(EventKind::CargoLotLoaded { convoy, lot });
        Ok(())
    }

    /// Load a serial asset aboard as cargo.
    pub fn load_asset_onto_convoy(&mut self, convoy: ConvoyId, asset: AssetId) -> (r: Result<(), SimError>)
        requires
            old(self).wf(),
            old(self)@.has_room(2),
        ensures
            final(self).wf(),
            match load_asset_error(old(self)@, convoy, asset) {
                Some(e) => (r matches Err(x) && error_matches(x, e)) && final(self)@ == old(self)@,
                None => {
                    let c = old(self)@.convoys[convoy.0];
                    let ca = final(self)@.convoys[convoy.0].cargo_assets;
                    &&& r is Ok
                    &&& ca@ == c.cargo_assets@.push(asset)
                    &&& final(self)@ == with_convoy(
                        asset_moved(old(self)@, asset, LocationRef::Convoy(convoy)),
                        convoy,
                        Convoy { cargo_assets: ca, ..c },
                    ).log(EventKind::CargoAssetLoaded { convoy, asset })
                },
            },
    {
        let (owner, at) = match self.convoy_site(convoy) {
            Err(e) => {
                return Err(e);
            },
            Ok(p) => p,
        };
        let (a_owner, a_location) = match self.assets.get(asset.0) {
            None => {
                return Err(SimError::UnknownAsset(asset));
            },
            Some(a) => (a.owner, a.location),
        };
        if a_owner.0 != owner.0 {
            return Err(SimError::NotOwner { actor: a_owner });
        }
        let here = self.resolve_site(a_location);
        let colocated = match here {
            Some(s) => s.0 == at.0,
            None => false,
        };
        if !colocated {
            return Err(SimError::NotColocated);
        }
        if matches!(a_location, LocationRef::Convoy(_)) {
            return Err(SimError::InvalidState("asset is already aboard a convoy".to_owned()));
        }
        let _ = self.move_asset_raw(asset, LocationRef::Convoy(convoy));
        let c = self.convoys.get_mut(convoy.0);
        c.cargo_assets.push(asset);
        proof {
            self.lemma_keys_wf();
        }
        self.push_event(EventKind::CargoAssetLoaded { convoy, asset });
        Ok(())
    }

    /// Depart along a route. The convoy must be at the route's origin.
    pub fn depart_convoy(&mut self, convoy: ConvoyId, route: RouteId) -> (r: Result<(), SimError>)
        requires
            old(self).wf(),
            old(self)@.has_room(1),
            old(self)@.routes.dom().contains(route.0) ==> old(self)@.clock.day + old(
                self,
            )@.routes[route.0].distance_days <= u64::MAX,
        ensures
            final(self).wf(),
            match convoy_at(old(self)@, convoy) {
                Err(e) => r == Err::<(), SimError>(e) && final(self)@ == old(self)@,
                Ok((_, at)) => if !old(self)@.routes.dom().contains(route.0) {
                    r == Err::<(), SimError>(SimError::UnknownRoute(route)) && final(self)@ == old(self)@
                } else if old(self)@.routes[route.0].from != at {
                    r == Err::<(), SimError>(SimError::NotColocated) && final(self)@ == old(self)@
                } else {
                    let day = old(self)@.clock.day;
                    let arrives_day = (day + old(self)@.routes[route.0].distance_days) as u64;
                    r is Ok && final(self)@ == with_convoy(
                        old(self)@,
                        convoy,
                        Convoy {
                            state: ConvoyState::EnRoute { route, departed_day: day, arrives_day },
                            ..old(self)@.convoys[convoy.0]
                        },
                    ).log(EventKind::ConvoyDeparted { convoy, route, arrives_day })
                },
            },
    {
        let (_, at) = match self.convoy_site(convoy) {
            Err(e) => {
                return Err(e);
            },
            Ok(p) => p,
        };
        let rt = match self.routes.get(route.0) {
            None => {
                return Err(SimError::UnknownRoute(route));
            },
            Some(x) => *x,
        };
        if rt.from.0 != at.0 {
            return Err(SimError::NotColocated);
        }
        let departed_day = self.clock.day;
        let arrives_day = departed_day + rt.distance_days;
        let c = self.convoys.get_mut(convoy.0);
        c.state = ConvoyState::EnRoute { route, departed_day, arrives_day };
        proof {
            self.lemma_keys_wf();
        }
        self.push_event(EventKind::ConvoyDeparted { convoy, route, arrives_day });
        Ok(())
    }

    /// Unload a lot at the convoy's current site.
    pub fn unload_lot(&mut self, convoy: ConvoyId, lot: LotId) -> (r: Result<(), SimError>)
        requires
            old(self).wf(),
            old(self)@.has_room(2),
        ensures
            final(self).wf(),
            match convoy_at(old(self)@, convoy) {
                Err(e) => r == Err::<(), SimError>(e) && final(self)@ == old(self)@,
                Ok((_, at)) => {
                    let c = old(self)@.convoys[convoy.0];
                    if !c.cargo_lots@.contains(lot) {
                        (r matches Err(x) && error_matches(x, invalid_state())) && final(self)@ == old(self)@
                    } else {
                        let cl = final(self)@.convoys[convoy.0].cargo_lots;
                        let w = with_convoy(old(self)@, convoy, Convoy { cargo_lots: cl, ..c });
                        &&& cl@ == c.cargo_lots@.remove(first_index(c.cargo_lots@, lot))
                        &&& !old(self)@.lots.dom().contains(lot.0) ==> r == Err::<(), SimError>(
                            SimError::UnknownLot(lot),
                        ) && final(self)@ == w
                        &&& old(self)@.lots.dom().contains(lot.0) ==> r is Ok && final(self)@ == lot_moved(
                            w,
                            lot,
                            LocationRef::Site(at),
                        ).log(EventKind::CargoLotUnloaded { convoy, lot, at })
                    }
                },
            },
    {
        let (_, at) = match self.convoy_site(convoy) {
            Err(e) => {
                return Err(e);
            },
            Ok(p) => p,
        };
        let pos = match self.convoys.get(convoy.0) {
            Some(c) => position_of_lot(&c.cargo_lots, lot),
            None => None,
        };
        let pos = match pos {
            None => {
                return Err(SimError::InvalidState("lot is not aboard this convoy".to_owned()));
            },
            Some(p) => p,
        };
        let c = self.convoys.get_mut(convoy.0);
        c.cargo_lots.remove(pos);
        proof {
            self.lemma_keys_wf();
        }
        self.move_lot_raw(lot, LocationRef::Site(at))?;
        self.push_event(EventKind::CargoLotUnloaded { convoy, lot, at });
        Ok(())
    }

    /// Unload a serial asset at the convoy's current site.
    pub fn unload_asset(&mut self, convoy: ConvoyId, asset: AssetId) -> (r: Result<(), SimError>)
        requires
            old(self).wf(),
            old(self)@.has_room(2),
        ensures
            final(self).wf(),
            match convoy_at(old(self)@, convoy) {
                Err(e) => r == Err::<(), SimError>(e) && final(self)@ == old(self)@,
                Ok((_, at)) => {
                    let c = old(self)@.convoys[convoy.0];
                    if !c.cargo_assets@.contains(asset) {
                        (r matches Err(x) && error_matches(x, invalid_state())) && final(self)@ == old(self)@
                    } else {
                        let ca = final(self)@.convoys[convoy.0].cargo_assets;
                        let w = with_convoy(old(self)@, convoy, Convoy { cargo_assets: ca, ..c });
                        &&& ca@ == c.cargo_assets@.remove(first_index(c.cargo_assets@, asset))
                        &&& !old(self)@.assets.dom().contains(asset.0) ==> r == Err::<(), SimError>(
                            SimError::UnknownAsset(asset),
                        ) && final(self)@ == w
                        &&& old(self)@.assets.dom().contains(asset.0) ==> r is Ok && final(self)@ == asset_moved(
                            w,
                            asset,
                            LocationRef::Site(at),
                        ).log(EventKind::CargoAssetUnloaded { convoy, asset, at })
                    }
                },
            },
    {
        let (_, at) = match self.convoy_site(convoy) {
            Err(e) => {
                return Err(e);
            },
            Ok(p) => p,
        };
        let pos = match self.convoys.get(convoy.0) {
            Some(c) => position_of_asset(&c.cargo_assets, asset),
            None => None,
        };
        let pos = match pos {
            None => {
                return Err(SimError::InvalidState("asset is not aboard this convoy".to_owned()));
            },
            Some(p) => p,
        };
        let c = self.convoys.get_mut(convoy.0);
        c.cargo_assets.remove(pos);
        proof {
            self.lemma_keys_wf();
        }
        self.move_asset_raw(asset, LocationRef::Site(at))?;
        self.push_event(EventKind::CargoAssetUnloaded { convoy, asset, at });
        Ok(())
    }
}

/// The first position of a lot in a cargo list.
pub fn position_of_lot(s: &Vec<LotId>, x: LotId) -> (r: Option<usize>)
    ensures
        match r {
            Some(i) => i < s@.len() && i == first_index(s@, x) && s@.contains(x),
            None => !s@.contains(x),
        },
{
    let mut i: usize = 0;
    while i < s.len()
        invariant
            i <= s@.len(),
            forall|j: int| 0 <= j < i ==> s@[j] != x,
        decreases s@.len() - i,
    {
        if s[i].0 == x.0 {
            proof {
                assert(s@[i as int] == x);
                let f = first_index(s@, x);
                assert(0 <= f < s@.len() && s@[f] == x && forall|j: int| 0 <= j < f ==> s@[j] != x) by {
                    assert(0 <= i < s@.len() && s@[i as int] == x && forall|j: int| 0 <= j < i ==> s@[j] != x);
                }
                if f < i {
                    assert(s@[f] != x);
                } else if f > i {
                    assert(s@[i as int] != x);
                }
            }
            return Some(i);
        }
        i = i + 1;
    }
    None
}

/// The first position of an asset in a cargo list.
pub fn position_of_asset(s: &Vec<AssetId>, x: AssetId) -> (r: Option<usize>)
    ensures
        match r {
            Some(i) => i < s@.len() && i == first_index(s@, x) && s@.contains(x),
            None => !s@.contains(x),
        },
{
    let mut i: usize = 0;
    while i < s.len()
        invariant
            i <= s@.len(),
            forall|j: int| 0 <= j < i ==> s@[j] != x,
        decreases s@.len() - i,
    {
        if s[i].0 == x.0 {
            proof {
                assert(s@[i as int] == x);
                let f = first_index(s@, x);
                assert(0 <= f < s@.len() && s@[f] == x && forall|j: int| 0 <= j < f ==> s@[j] != x) by {
                    assert(0 <= i < s@.len() && s@[i as int] == x && forall|j: int| 0 <= j < i ==> s@[j] != x);
                }
                if f < i {
                    assert(s@[f] != x);
                } else if f > i {
                    assert(s@[i as int] != x);
                }
            }
            return Some(i);
        }
        i = i + 1;
    }
    None
}


/// Unloading lots touches only lots and the log.
pub proof fn lemma_lots_unloaded(v: WorldView, convoy: ConvoyId, lots: Seq<LotId>, at: LocationId)
    requires
        v.next_id + 2 * lots.len() <= u64::MAX,
    ensures
        lots_unloaded(v, convoy, lots, at).0.convoys == v.convoys,
        lots_unloaded(v, convoy, lots, at).0.assets == v.assets,
        lots_unloaded(v, convoy, lots, at).0.clock == v.clock,
        v.next_id <= lots_unloaded(v, convoy, lots, at).0.next_id <= v.next_id + 2 * lots.len(),
    decreases lots.len(),
{
    if lots.len() > 0 {
        lemma_lots_unloaded(v, convoy, lots.drop_last(), at);
    }
}

/// Once a prefix has failed, the whole unloading has failed the same way.
pub proof fn lemma_lots_unloaded_prefix(v: WorldView, convoy: ConvoyId, lots: Seq<LotId>, at: LocationId, n: int)
    requires
        0 <= n <= lots.len(),
        lots_unloaded(v, convoy, lots.take(n), at).1 is Some,
    ensures
        lots_unloaded(v, convoy, lots, at) == lots_unloaded(v, convoy, lots.take(n), at),
    decreases lots.len(),
{
    if n == lots.len() {
        assert(lots.take(n) =~= lots);
    } else {
        let p = lots.drop_last();
        assert(p.take(n) =~= lots.take(n));
        lemma_lots_unloaded_prefix(v, convoy, p, at, n);
    }
}

/// Returning assets touches only assets and the id counter.
pub proof fn lemma_assets_returned(v: WorldView, assets: Seq<AssetId>, at: LocationId)
    requires
        v.next_id + assets.len() <= u64::MAX,
    ensures
        assets_returned(v, assets, at).0.convoys == v.convoys,
        assets_returned(v, assets, at).0.clock == v.clock,
        v.next_id <= assets_returned(v, assets, at).0.next_id <= v.next_id + assets.len(),
    decreases assets.len(),
{
    if assets.len() > 0 {
        lemma_assets_returned(v, assets.drop_last(), at);
    }
}

/// Once a prefix has failed, returning the whole list has failed the same
/// way.
pub proof fn lemma_assets_returned_prefix(v: WorldView, assets: Seq<AssetId>, at: LocationId, n: int)
    requires
        0 <= n <= assets.len(),
        assets_returned(v, assets.take(n), at).1 is Some,
    ensures
        assets_returned(v, assets, at) == assets_returned(v, assets.take(n), at),
    decreases assets.len(),
{
    if n == assets.len() {
        assert(assets.take(n) =~= assets);
    } else {
        let p = assets.drop_last();
        assert(p.take(n) =~= assets.take(n));
        lemma_assets_returned_prefix(v, p, at, n);
    }
}

/// Arrivals touch only the arriving convoys' states and the log.
pub proof fn lemma_convoys_arrived(v: WorldView, keys: Seq<u64>, today: u64)
    requires
        v.next_id + keys.len() <= u64::MAX,
        forall|i: int| 0 <= i < keys.len() ==> v.convoys.dom().contains(#[trigger] keys[i]),
    ensures
        convoys_arrived(v, keys, today).convoys.dom() == v.convoys.dom(),
        forall|k: u64| !keys.contains(k) ==> #[trigger] convoys_arrived(v, keys, today).convoys[k] == v.convoys[k],
        convoys_arrived(v, keys, today).routes == v.routes,
        convoys_arrived(v, keys, today).clock == v.clock,
        v.next_id <= convoys_arrived(v, keys, today).next_id <= v.next_id + keys.len(),
    decreases keys.len(),
{
    if keys.len() > 0 {
        let p = keys.drop_last();
        assert forall|i: int| 0 <= i < p.len() implies v.convoys.dom().contains(#[trigger] p[i]) by {
            assert(p[i] == keys[i]);
        }
        lemma_convoys_arrived(v, p, today);
        let w = convoys_arrived(v, p, today);
        let k = keys.last();
        assert(v.convoys.dom().contains(keys[keys.len() - 1]));
        assert forall|x: u64| !keys.contains(x) implies #[trigger] convoys_arrived(v, keys, today).convoys[x]
            == v.convoys[x] by {
            assert(!p.contains(x)) by {
                if p.contains(x) {
                    let j = choose|j: int| 0 <= j < p.len() && p[j] == x;
                    assert(keys[j] == x);
                }
            }
            assert(x != k) by {
                assert(keys[keys.len() - 1] == k);
            }
        }
        match arrival_site(v, k, today) {
            Some(at) => {
                assert(w.convoys.insert(k, Convoy { state: ConvoyState::Arrived { at }, ..w.convoys[k] }).dom()
                    =~= w.convoys.dom());
            },
            None => {},
        }
    }
}

/// Concatenation of three asset lists.
fn concat_assets(a: &Vec<AssetId>, b: &Vec<AssetId>, c: &Vec<AssetId>) -> (r: Vec<AssetId>)
    ensures
        r@ == a@ + b@ + c@,
{
    let mut r: Vec<AssetId> = crate::table::copy_slice(a.as_slice());
    let mut i: usize = 0;
    while i < b.len()
        invariant
            i <= b@.len(),
            r@ == a@ + b@.take(i as int),
        decreases b@.len() - i,
    {
        r.push(b[i]);
        i = i + 1;
        assert(r@ =~= a@ + b@.take(i as int));
    }
    assert(b@.take(b@.len() as int) =~= b@);
    let mut j: usize = 0;
    while j < c.len()
        invariant
            j <= c@.len(),
            r@ == a@ + b@ + c@.take(j as int),
        decreases c@.len() - j,
    {
        r.push(c[j]);
        j = j + 1;
        assert(r@ =~= a@ + b@ + c@.take(j as int));
    }
    assert(c@.take(c@.len() as int) =~= c@);
    r
}

impl World {
    /// Disband a convoy at a site: all cargo, guards, and vehicles return to
    /// the open site.
    pub fn disband_convoy(&mut self, convoy: ConvoyId) -> (r: Result<(), SimError>)
        requires
            old(self).wf(),
            old(self)@.has_room(1),
            old(self)@.convoys.dom().contains(convoy.0) ==> old(self)@.has_room(
                disband_cost(old(self)@.convoys[convoy.0]),
            ),
        ensures
            final(self).wf(),
            match convoy_at(old(self)@, convoy) {
                Err(e) => r == Err::<(), SimError>(e) && final(self)@ == old(self)@,
                Ok((_, at)) => {
                    let c = old(self)@.convoys[convoy.0];
                    let u = lots_unloaded(old(self)@, convoy, c.cargo_lots@, at);
                    let a = assets_returned(u.0, c.cargo_assets@ + c.guards@ + c.vehicles@, at);
                    let fc = final(self)@.convoys[convoy.0];
                    if u.1 is Some {
                        r == Err::<(), SimError>(u.1->0) && final(self)@ == u.0
                    } else if a.1 is Some {
                        r == Err::<(), SimError>(a.1->0) && final(self)@ == a.0
                    } else {
                        &&& r is Ok
                        &&& fc.vehicles@.len() == 0
                        &&& fc.guards@.len() == 0
                        &&& fc.cargo_lots@.len() == 0
                        &&& fc.cargo_assets@.len() == 0
                        &&& final(self)@ == with_convoy(
                            a.0,
                            convoy,
                            Convoy {
                                vehicles: fc.vehicles,
                                guards: fc.guards,
                                cargo_lots: fc.cargo_lots,
                                cargo_assets: fc.cargo_assets,
                                state: ConvoyState::Disbanded,
                                ..c
                            },
                        ).log(EventKind::ConvoyDisbanded { convoy, at })
                    }
                },
            },
    {
        let (_, at) = match self.convoy_site(convoy) {
            Err(e) => {
                return Err(e);
            },
            Ok(p) => p,
        };
        let ghost v = self@;
        let ghost c = v.convoys[convoy.0];
        let (lots, others) = match self.convoys.get(convoy.0) {
            Some(cv) => (
                crate::table::copy_slice(cv.cargo_lots.as_slice()),
                concat_assets(&cv.cargo_assets, &cv.guards, &cv.vehicles),
            ),
            None => (Vec::new(), Vec::new()),
        };
        let mut i: usize = 0;
        while i < lots.len()
            invariant
                self.wf(),
                i <= lots@.len(),
                lots@ == c.cargo_lots@,
                v == old(self)@,
                c == v.convoys[convoy.0],
                convoy_at(v, convoy) matches Ok((_, a)) && a == at,
                v.next_id + disband_cost(c) <= u64::MAX,
                lots_unloaded(v, convoy, lots@.take(i as int), at) == (self@, None::<SimError>),
            decreases lots@.len() - i,
        {
            proof {
                lemma_lots_unloaded(v, convoy, lots@.take(i as int), at);
                assert(lots@.take(i + 1).drop_last() =~= lots@.take(i as int));
                assert(lots@.take(i + 1).last() == lots@[i as int]);
            }
            let lot = lots[i];
            match self.move_lot_raw(lot, LocationRef::Site(at)) {
                Err(e) => {
                    proof {
                        assert(lots_unloaded(v, convoy, lots@.take(i + 1), at) == (self@, Some(e)));
                        lemma_lots_unloaded_prefix(v, convoy, lots@, at, i + 1);
                        assert(lots_unloaded(v, convoy, lots@, at) == (self@, Some(e)));
                    }
                    return Err(e);
                },
                Ok(()) => {},
            }
            self.push_event(EventKind::CargoLotUnloaded { convoy, lot, at });
            i = i + 1;
        }
        proof {
            assert(lots@.take(lots@.len() as int) =~= lots@);
            lemma_lots_unloaded(v, convoy, lots@, at);
        }
        let ghost u = self@;
        let mut j: usize = 0;
        while j < others.len()
            invariant
                self.wf(),
                j <= others@.len(),
                others@ == c.cargo_assets@ + c.guards@ + c.vehicles@,
                u.next_id + others@.len() + 1 <= u64::MAX,
                u.convoys == v.convoys,
                v == old(self)@,
                c == v.convoys[convoy.0],
                convoy_at(v, convoy) matches Ok((_, a)) && a == at,
                lots_unloaded(v, convoy, c.cargo_lots@, at) == (u, None::<SimError>),
                assets_returned(u, others@.take(j as int), at) == (self@, None::<SimError>),
            decreases others@.len() - j,
        {
            proof {
                lemma_assets_returned(u, others@.take(j as int), at);
                assert(others@.take(j + 1).drop_last() =~= others@.take(j as int));
                assert(others@.take(j + 1).last() == others@[j as int]);
            }
            match self.move_asset_raw(others[j], LocationRef::Site(at)) {
                Err(e) => {
                    proof {
                        assert(assets_returned(u, others@.take(j + 1), at) == (self@, Some(e)));
                        lemma_assets_returned_prefix(u, others@, at, j + 1);
                        assert(assets_returned(u, others@, at) == (self@, Some(e)));
                    }
                    return Err(e);
                },
                Ok(()) => {},
            }
            j = j + 1;
        }
        proof {
            assert(others@.take(others@.len() as int) =~= others@);
            lemma_assets_returned(u, others@, at);
            assert(self@.convoys.dom().contains(convoy.0));
        }
        let cv = self.convoys.get_mut(convoy.0);
        cv.cargo_lots = Vec::new();
        cv.cargo_assets = Vec::new();
        cv.guards = Vec::new();
        cv.vehicles = Vec::new();
        cv.state = ConvoyState::Disbanded;
        proof {
            self.lemma_keys_wf();
        }
        self.push_event(EventKind::ConvoyDisbanded { convoy, at });
        Ok(())
    }

    /// Advance convoys: arrivals fire when the clock reaches the arrival day.
    pub(crate) fn tick_convoys(&mut self)
        requires
            old(self).wf(),
            old(self)@.has_room(old(self).convoys.keys().len() as int),
        ensures
            final(self).wf(),
            final(self)@ == convoys_arrived(old(self)@, old(self).convoys.keys(), old(self)@.clock.day),
            crate::world::phase_ok(old(self)@, final(self)@),
            crate::combat::money_untouched(final(self)@, old(self)@),
    {
        let today = self.clock.day;
        let keys = self.convoys.key_vec();
        let ghost v = self@;
        proof {
            self.convoys.lemma_facts();
        }
        let mut i: usize = 0;
        while i < keys.len()
            invariant
                self.wf(),
                i <= keys@.len(),
                keys@ == old(self).convoys.keys(),
                v == old(self)@,
                today == v.clock.day,
                v.next_id + keys@.len() <= u64::MAX,
                crate::table::strictly_increasing(keys@),
                forall|x: int| 0 <= x < keys@.len() ==> v.convoys.dom().contains(#[trigger] keys@[x]),
                self@ == convoys_arrived(v, keys@.take(i as int), today),
                crate::world::phase_ok(old(self)@, self@),
                crate::combat::money_untouched(self@, old(self)@),
            decreases keys@.len() - i,
        {
            let ghost pre = keys@.take(i as int);
            proof {
                lemma_convoys_arrived(v, pre, today);
                assert(keys@.take(i + 1).drop_last() =~= pre);
                assert(keys@.take(i + 1).last() == keys@[i as int]);
                assert(!pre.contains(keys@[i as int])) by {
                    if pre.contains(keys@[i as int]) {
                        let j = choose|j: int| 0 <= j < pre.len() && pre[j] == keys@[i as int];
                        assert(keys@[j] < keys@[i as int]);
                    }
                }
            }
            let k = keys[i];
            let state = match self.convoys.get(k) {
                Some(c) => c.state,
                None => ConvoyState::Disbanded,
            };
            let arrive = match state {
                ConvoyState::EnRoute { route, arrives_day, .. } => {
                    if arrives_day <= today {
                        match self.routes.get(route.0) {
                            Some(r) => Some(r.to),
                            None => None,
                        }
                    } else {
                        None
                    }
                },
                _ => None,
            };
            match arrive {
                Some(at) => {
                    let c = self.convoys.get_mut(k);
                    c.state = ConvoyState::Arrived { at };
                    proof {
                        self.lemma_keys_wf();
                    }
                    let ghost s1 = self@;
                    self.push_event(EventKind::ConvoyArrived { convoy: ConvoyId(k), at });
                    proof {
                        crate::world::lemma_log_extends_log(s1, EventKind::ConvoyArrived { convoy: ConvoyId(k), at });
                        crate::world::lemma_phase_trans(old(self)@, s1, self@);
                    }
                },
                None => {},
            }
            i = i + 1;
        }
        proof {
            assert(keys@.take(keys@.len() as int) =~= keys@);
        }
    }
}


/// The percentage below which a quarter's roll spots a convoy en route.
pub const CONTACT_CHANCE_PCT: u8 = 15;

/// The last known site of a convoy en route on a known route: where it set
/// out from.
pub open spec fn contact_site(v: WorldView, k: u64) -> Option<LocationId> {
    match v.convoys[k].state {
        ConvoyState::EnRoute { route, .. } => if v.routes.dom().contains(route.0) {
            Some(v.routes[route.0].from)
        } else {
            None
        },
        _ => None,
    }
}

/// One quarter's contact rolls, over the given convoys in order: each
/// convoy en route draws one roll; a roll under the contact chance records
/// an anonymous sighting at its last known site (when the sighting can be
/// recorded). New intel records take their free text from `fin`.
pub open spec fn convoy_contacts(v: WorldView, keys: Seq<u64>, fin: WorldView) -> WorldView
    decreases keys.len(),
{
    if keys.len() == 0 {
        v
    } else {
        let w = convoy_contacts(v, keys.drop_last(), fin);
        let k = keys.last();
        match contact_site(v, k) {
            None => w,
            Some(site) => {
                let rolled = WorldView { rng: w.rng.advanced(), ..w };
                let subject = IntelSubject::Convoy(ConvoyId(k));
                if w.rng.percent_roll() < CONTACT_CHANCE_PCT && observation_error(rolled, None, subject, site) is None {
                    observation_recorded(rolled, fin.intel[rolled.next_id], None, subject, site, 60, 20)
                } else {
                    rolled
                }
            },
        }
    }
}

/// What the contact rolls leave alone, and how far they move the counter.
pub proof fn lemma_convoy_contacts(v: WorldView, keys: Seq<u64>, fin: WorldView)
    requires
        v.next_id + 2 * keys.len() <= u64::MAX,
        crate::world::keys_below(v.intel, v.next_id),
    ensures
        convoy_contacts(v, keys, fin).convoys == v.convoys,
        convoy_contacts(v, keys, fin).routes == v.routes,
        convoy_contacts(v, keys, fin).locations == v.locations,
        convoy_contacts(v, keys, fin).clock == v.clock,
        convoy_contacts(v, keys, fin).production_jobs == v.production_jobs,
        convoy_contacts(v, keys, fin).recipes == v.recipes,
        convoy_contacts(v, keys, fin).factories == v.factories,
        v.intel.dom().subset_of(convoy_contacts(v, keys, fin).intel.dom()),
        forall|k: u64| #[trigger] v.intel.dom().contains(k) ==> convoy_contacts(v, keys, fin).intel[k] == v.intel[k],
        v.next_id <= convoy_contacts(v, keys, fin).next_id <= v.next_id + 2 * keys.len(),
    decreases keys.len(),
{
    if keys.len() > 0 {
        lemma_convoy_contacts(v, keys.drop_last(), fin);
        let w = convoy_contacts(v, keys.drop_last(), fin);
        assert(!v.intel.dom().contains(w.next_id));
    }
}

/// The contact rolls read `fin` only at the records they create.
pub proof fn lemma_convoy_contacts_frame(v: WorldView, keys: Seq<u64>, f1: WorldView, f2: WorldView)
    requires
        v.next_id + 2 * keys.len() <= u64::MAX,
        crate::world::keys_below(v.intel, v.next_id),
        forall|k: u64| #[trigger] convoy_contacts(v, keys, f1).intel.dom().contains(k) && !v.intel.dom().contains(k)
            ==> f1.intel[k] == f2.intel[k],
    ensures
        convoy_contacts(v, keys, f1) == convoy_contacts(v, keys, f2),
    decreases keys.len(),
{
    if keys.len() > 0 {
        let p = keys.drop_last();
        let w1 = convoy_contacts(v, p, f1);
        lemma_convoy_contacts(v, p, f1);
        lemma_convoy_contacts(v, keys, f1);
        let full = convoy_contacts(v, keys, f1);
        assert(w1.intel.dom().subset_of(full.intel.dom())) by {
            let k = keys.last();
            match contact_site(v, k) {
                None => {},
                Some(site) => {
                    let rolled = WorldView { rng: w1.rng.advanced(), ..w1 };
                    let subject = IntelSubject::Convoy(ConvoyId(k));
                    if w1.rng.percent_roll() < CONTACT_CHANCE_PCT && observation_error(rolled, None, subject, site)
                        is None {
                        assert(full.intel.dom() =~= w1.intel.dom().insert(rolled.next_id));
                    }
                },
            }
        }
        lemma_convoy_contacts_frame(v, p, f1, f2);
        let k = keys.last();
        match contact_site(v, k) {
            None => {},
            Some(site) => {
                let rolled = WorldView { rng: w1.rng.advanced(), ..w1 };
                let subject = IntelSubject::Convoy(ConvoyId(k));
                if w1.rng.percent_roll() < CONTACT_CHANCE_PCT && observation_error(rolled, None, subject, site)
                    is None {
                    assert(full.intel.dom().contains(rolled.next_id));
                    assert(!v.intel.dom().contains(rolled.next_id)) by {
                        if v.intel.dom().contains(rolled.next_id) {
                            assert(w1.intel.dom().contains(rolled.next_id));
                        }
                    }
                }
            },
        }
    }
}

impl World {
    /// Sub-day interception window: every convoy en route rolls a real
    /// chance of being spotted this quarter. A contact records a genuine,
    /// anonymous observation at the convoy's last known site, not a perfect
    /// read of its live position.
    #[verifier::rlimit(40)]
    pub(crate) fn tick_quarter_convoy_contacts(&mut self)
        requires
            old(self).wf(),
            old(self)@.has_room(2 * old(self).convoys.keys().len() as int),
        ensures
            final(self).wf(),
            final(self)@ == convoy_contacts(old(self)@, old(self).convoys.keys(), final(self)@),
            forall|k: u64|
                #![trigger final(self)@.intel[k]]
                final(self)@.intel.dom().contains(k) && !old(self)@.intel.dom().contains(k)
                    ==> final(self)@.intel[k].detail@ == "contact: spotted en route"@
                    && final(self)@.intel[k].chain@.len() == 0,
            crate::world::phase_ok(old(self)@, final(self)@),
            crate::combat::money_untouched(final(self)@, old(self)@),
            final(self)@.production_jobs == old(self)@.production_jobs,
            final(self)@.recipes == old(self)@.recipes,
            final(self)@.factories == old(self)@.factories,
    {
        let keys = self.convoys.key_vec();
        let ghost v = self@;
        proof {
            self.convoys.lemma_facts();
        }
        let mut i: usize = 0;
        while i < keys.len()
            invariant
                self.wf(),
                i <= keys@.len(),
                keys@ == old(self).convoys.keys(),
                v == old(self)@,
                v.wf(),
                v.next_id + 2 * keys@.len() <= u64::MAX,
                forall|x: int| 0 <= x < keys@.len() ==> v.convoys.dom().contains(#[trigger] keys@[x]),
                self@ == convoy_contacts(v, keys@.take(i as int), self@),
                forall|k: u64|
                    #![trigger self@.intel[k]]
                    self@.intel.dom().contains(k) && !v.intel.dom().contains(k) ==> self@.intel[k].detail@
                        == "contact: spotted en route"@ && self@.intel[k].chain@.len() == 0,
                crate::world::phase_ok(old(self)@, self@),
                crate::combat::money_untouched(self@, old(self)@),
            decreases keys@.len() - i,
        {
            let ghost pre = keys@.take(i as int);
            let ghost s0 = self@;
            proof {
                lemma_convoy_contacts(v, pre, s0);
                assert(keys@.take(i + 1).drop_last() =~= pre);
                assert(keys@.take(i + 1).last() == keys@[i as int]);
            }
            let k = keys[i];
            let site = match self.convoys.get(k) {
                Some(c) => match c.state {
                    ConvoyState::EnRoute { route, .. } => match self.routes.get(route.0) {
                        Some(r) => Some(r.from),
                        None => None,
                    },
                    _ => None,
                },
                None => None,
            };
            match site {
                Some(site) => {
                    let roll = self.rng.roll_percent();
                    proof {
                        self.lemma_keys_wf();
                    }
                    proof {
                        crate::world::lemma_phase_trans(old(self)@, s0, self@);
                    }
                    if roll < CONTACT_CHANCE_PCT {
                        let ghost s1 = self@;
                        let _ = self.record_observation(
                            None,
                            IntelSubject::Convoy(ConvoyId(k)),
                            site,
                            "contact: spotted en route",
                            60,
                            20,
                        );
                        proof {
                            crate::world::lemma_phase_trans(old(self)@, s1, self@);
                        }
                    }
                },
                None => {},
            }
            proof {
                lemma_convoy_contacts_frame(v, pre, s0, self@);
            }
            i = i + 1;
        }
        proof {
            assert(keys@.take(keys@.len() as int) =~= keys@);
            lemma_convoy_contacts(v, keys@, self@);
        }
    }
}

} // verus!
