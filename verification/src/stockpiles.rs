//! Faction stockpiles: physical warehouses, possibly sequestered.
//!
//! A stockpile is a real warehouse at a real site. Goods deposited into a
//! sequestered stockpile cannot be listed on markets until withdrawn:
//! sequestration is a physical and legal state, not a display flag.

use crate::assets::{with_asset, SerialAsset};
use crate::error::{error_matches, invalid_state, SimError};
use crate::events::EventKind;
use crate::goods::{with_lot, Lot, LotState};
use crate::ids::{ActorId, AssetId, LocationId, LotId, StockpileId};
use crate::locations::{resolve, LocationRef};
use crate::world::{World, WorldView};
use vstd::prelude::*;

verus! {

#[derive(Debug, Clone, Copy, PartialEq, Eq, Structural)]
pub struct Stockpile {
    pub id: StockpileId,
    pub owner: ActorId,
    pub site: LocationId,
    /// Sequestered gear is out of the open economy until deliberately
    /// released, sold, transferred, lost, or captured.
    pub sequestered: bool,
}

} // verus!

verus! {

/// The state after moving a lot to a new holder (and logging the move).
pub open spec fn lot_moved(v: WorldView, lot: LotId, to: LocationRef) -> WorldView {
    with_lot(v, lot.0, Lot { location: to, ..v.lots[lot.0] }).log(
        EventKind::LotMoved { lot, from: v.lots[lot.0].location, to },
    )
}

/// The state after moving an asset to a new holder (and logging the move).
pub open spec fn asset_moved(v: WorldView, asset: AssetId, to: LocationRef) -> WorldView {
    with_asset(v, asset.0, SerialAsset { location: to, ..v.assets[asset.0] }).log(
        EventKind::AssetMoved { asset, from: v.assets[asset.0].location, to },
    )
}

/// Why depositing this lot into this stockpile fails, if it does.
pub open spec fn deposit_lot_error(v: WorldView, lot: LotId, stockpile: StockpileId) -> Option<SimError> {
    if !v.stockpiles.dom().contains(stockpile.0) {
        Some(SimError::UnknownStockpile(stockpile))
    } else if !v.lots.dom().contains(lot.0) {
        Some(SimError::UnknownLot(lot))
    } else if v.lots[lot.0].state != LotState::Active {
        Some(SimError::LotNotActive(lot))
    } else if v.lots[lot.0].owner != v.stockpiles[stockpile.0].owner {
        Some(SimError::NotOwner { actor: v.lots[lot.0].owner })
    } else if resolve(v, v.lots[lot.0].location) != Some(v.stockpiles[stockpile.0].site) {
        Some(SimError::NotColocated)
    } else {
        None
    }
}

/// Why depositing this asset into this stockpile fails, if it does.
pub open spec fn deposit_asset_error(v: WorldView, asset: AssetId, stockpile: StockpileId) -> Option<SimError> {
    if !v.stockpiles.dom().contains(stockpile.0) {
        Some(SimError::UnknownStockpile(stockpile))
    } else if !v.assets.dom().contains(asset.0) {
        Some(SimError::UnknownAsset(asset))
    } else if v.assets[asset.0].owner != v.stockpiles[stockpile.0].owner {
        Some(SimError::NotOwner { actor: v.assets[asset.0].owner })
    } else if resolve(v, v.assets[asset.0].location) != Some(v.stockpiles[stockpile.0].site) {
        Some(SimError::NotColocated)
    } else {
        None
    }
}

/// Where withdrawing from a holder puts a thing: the open site of the
/// stockpile it is in. `Err` when the holder is no stockpile, or an unknown
/// one.
pub open spec fn withdraw_target(v: WorldView, location: LocationRef) -> Result<LocationRef, SimError> {
    match location {
        LocationRef::Stockpile(sp) => if v.stockpiles.dom().contains(sp.0) {
            Ok(LocationRef::Site(v.stockpiles[sp.0].site))
        } else {
            Err(SimError::UnknownStockpile(sp))
        },
        _ => Err(invalid_state()),
    }
}

/// Every stockpile stands at a real location.
pub open spec fn stockpile_sites_real(v: WorldView) -> bool {
    forall|k: u64| #[trigger] v.stockpiles.dom().contains(k) ==> v.locations.dom().contains(v.stockpiles[k].site.0)
}

impl World {
    pub fn create_stockpile(&mut self, owner: ActorId, site: LocationId, sequestered: bool) -> (r: Result<
        StockpileId,
        SimError,
    >)
        requires
            old(self).wf(),
            old(self)@.has_room(2),
        ensures
            final(self).wf(),
            !old(self)@.actors.dom().contains(owner.0) ==> r == Err::<StockpileId, SimError>(
                SimError::UnknownActor(owner),
            ) && final(self)@ == old(self)@,
            old(self)@.actors.dom().contains(owner.0) && !old(self)@.locations.dom().contains(site.0) ==> r
                == Err::<StockpileId, SimError>(SimError::UnknownLocation(site)) && final(self)@ == old(self)@,
            old(self)@.actors.dom().contains(owner.0) && old(self)@.locations.dom().contains(site.0) ==> {
                let id = StockpileId(old(self)@.next_id);
                r == Ok::<StockpileId, SimError>(id) && final(self)@ == (WorldView {
                    stockpiles: old(self)@.stockpiles.insert(id.0, Stockpile { id, owner, site, sequestered }),
                    ..old(self)@.bump()
                }).log(EventKind::StockpileCreated { stockpile: id })
            },
            crate::invariants::consistent(old(self)@) ==> crate::invariants::consistent(final(self)@),
    {
        if !self.actors.contains(owner.0) {
            return Err(SimError::UnknownActor(owner));
        }
        if !self.locations.contains(site.0) {
            return Err(SimError::UnknownLocation(site));
        }
        let id = StockpileId(self.alloc_id());
        proof {
            self.stockpiles.lemma_fresh(id.0);
        }
        self.stockpiles.insert_new(id.0, Stockpile { id, owner, site, sequestered });
        proof {
            self.lemma_keys_wf();
        }
        self.push_event(EventKind::StockpileCreated { stockpile: id });
        proof {
            let o = old(self)@;
            if crate::invariants::consistent(o) {
                assert(crate::invariants::grows_soundly(o, self@));
                crate::invariants::lemma_consistent_grows(o, self@);
            }
        }
        Ok(id)
    }

    /// Deposit an active lot into a stockpile. It must be owned by the
    /// stockpile owner and physically at the stockpile's site.
    pub fn deposit_lot(&mut self, lot: LotId, stockpile: StockpileId) -> (r: Result<(), SimError>)
        requires
            old(self).wf(),
            old(self)@.has_room(1),
        ensures
            final(self).wf(),
            match deposit_lot_error(old(self)@, lot, stockpile) {
                Some(e) => r == Err::<(), SimError>(e) && final(self)@ == old(self)@,
                None => r is Ok && final(self)@ == lot_moved(old(self)@, lot, LocationRef::Stockpile(stockpile)),
            },
            crate::invariants::consistent(old(self)@) && !crate::invariants::on_manifest(old(self)@, lot)
                ==> crate::invariants::consistent(final(self)@),
    {
        let sp = match self.stockpiles.get(stockpile.0) {
            None => {
                return Err(SimError::UnknownStockpile(stockpile));
            },
            Some(s) => *s,
        };
        let (owner, state, location) = match self.lots.get(lot.0) {
            None => {
                return Err(SimError::UnknownLot(lot));
            },
            Some(l) => (l.owner, l.state, l.location),
        };
        if !matches!(state, LotState::Active) {
            return Err(SimError::LotNotActive(lot));
        }
        if owner.0 != sp.owner.0 {
            return Err(SimError::NotOwner { actor: owner });
        }
        let here = self.resolve_site(location);
        let colocated = match here {
            Some(s) => s.0 == sp.site.0,
            None => false,
        };
        if !colocated {
            return Err(SimError::NotColocated);
        }
        let r = self.move_lot_raw(lot, LocationRef::Stockpile(stockpile));
        proof {
            let o = old(self)@;
            if crate::invariants::consistent(o) && !crate::invariants::on_manifest(o, lot) {
                crate::invariants::law_active_lot_change_keeps_invariants(
                    o,
                    self@,
                    lot,
                    Lot { location: LocationRef::Stockpile(stockpile), ..o.lots[lot.0] },
                    EventKind::LotMoved { lot, from: o.lots[lot.0].location, to: LocationRef::Stockpile(stockpile) },
                );
            }
        }
        r
    }

    /// Withdraw a lot from a stockpile back to the open site.
    pub fn withdraw_lot(&mut self, lot: LotId) -> (r: Result<(), SimError>)
        requires
            old(self).wf(),
            old(self)@.has_room(1),
        ensures
            final(self).wf(),
            !old(self)@.lots.dom().contains(lot.0) ==> r == Err::<(), SimError>(SimError::UnknownLot(lot))
                && final(self)@ == old(self)@,
            old(self)@.lots.dom().contains(lot.0) ==> match withdraw_target(
                old(self)@,
                old(self)@.lots[lot.0].location,
            ) {
                Err(e) => (r matches Err(x) && error_matches(x, e)) && final(self)@ == old(self)@,
                Ok(to) => r is Ok && final(self)@ == lot_moved(old(self)@, lot, to),
            },
            crate::invariants::consistent(old(self)@) && stockpile_sites_real(old(self)@)
                ==> crate::invariants::consistent(final(self)@),
    {
        let location = match self.lots.get(lot.0) {
            None => {
                return Err(SimError::UnknownLot(lot));
            },
            Some(l) => l.location,
        };
        let sp = match location {
            LocationRef::Stockpile(sp) => sp,
            _ => {
                return Err(SimError::InvalidState("lot is not in a stockpile".to_owned()));
            },
        };
        let site = match self.stockpiles.get(sp.0) {
            None => {
                return Err(SimError::UnknownStockpile(sp));
            },
            Some(s) => s.site,
        };
        let r = self.move_lot_raw(lot, LocationRef::Site(site));
        proof {
            let o = old(self)@;
            if crate::invariants::consistent(o) && stockpile_sites_real(o) {
                crate::invariants::law_withdraw_keeps_invariants(
                    o,
                    self@,
                    lot,
                    sp,
                    EventKind::LotMoved { lot, from: o.lots[lot.0].location, to: LocationRef::Site(site) },
                );
            }
        }
        r
    }

    /// Deposit a serial asset into a stockpile.
    pub fn deposit_asset(&mut self, asset: AssetId, stockpile: StockpileId) -> (r: Result<(), SimError>)
        requires
            old(self).wf(),
            old(self)@.has_room(1),
        ensures
            final(self).wf(),
            match deposit_asset_error(old(self)@, asset, stockpile) {
                Some(e) => r == Err::<(), SimError>(e) && final(self)@ == old(self)@,
                None => r is Ok && final(self)@ == asset_moved(
                    old(self)@,
                    asset,
                    LocationRef::Stockpile(stockpile),
                ),
            },
    {
        let sp = match self.stockpiles.get(stockpile.0) {
            None => {
                return Err(SimError::UnknownStockpile(stockpile));
            },
            Some(s) => *s,
        };
        let (owner, location) = match self.assets.get(asset.0) {
            None => {
                return Err(SimError::UnknownAsset(asset));
            },
            Some(a) => (a.owner, a.location),
        };
        if owner.0 != sp.owner.0 {
            return Err(SimError::NotOwner { actor: owner });
        }
        let here = self.resolve_site(location);
        let colocated = match here {
            Some(s) => s.0 == sp.site.0,
            None => false,
        };
        if !colocated {
            return Err(SimError::NotColocated);
        }
        self.move_asset_raw(asset, LocationRef::Stockpile(stockpile))
    }

    /// Withdraw a serial asset from a stockpile back to the open site.
    pub fn withdraw_asset(&mut self, asset: AssetId) -> (r: Result<(), SimError>)
        requires
            old(self).wf(),
            old(self)@.has_room(1),
        ensures
            final(self).wf(),
            !old(self)@.assets.dom().contains(asset.0) ==> r == Err::<(), SimError>(
                SimError::UnknownAsset(asset),
            ) && final(self)@ == old(self)@,
            old(self)@.assets.dom().contains(asset.0) ==> match withdraw_target(
                old(self)@,
                old(self)@.assets[asset.0].location,
            ) {
                Err(e) => (r matches Err(x) && error_matches(x, e)) && final(self)@ == old(self)@,
                Ok(to) => r is Ok && final(self)@ == asset_moved(old(self)@, asset, to),
            },
    {
        let location = match self.assets.get(asset.0) {
            None => {
                return Err(SimError::UnknownAsset(asset));
            },
            Some(a) => a.location,
        };
        let sp = match location {
            LocationRef::Stockpile(sp) => sp,
            _ => {
                return Err(SimError::InvalidState("asset is not in a stockpile".to_owned()));
            },
        };
        let site = match self.stockpiles.get(sp.0) {
            None => {
                return Err(SimError::UnknownStockpile(sp));
            },
            Some(s) => s.site,
        };
        self.move_asset_raw(asset, LocationRef::Site(site))
    }
}

} // verus!
