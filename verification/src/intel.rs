//! Intel: immutable observations.
//!
//! An observation stays true-as-of-its-day forever; it goes stale because
//! the world moves, not because the record decays. Relaying produces a new
//! record with decayed confidence; misinformation is flagged.

use crate::convoys::convoy_state_site;
use crate::error::SimError;
use crate::events::{Event, EventKind};
use crate::ids::{ActorId, LocationId, AssetId, MarketId, ConvoyId, IntelId, FormationId};
use crate::locations::resolve;
use crate::toe::formation_state_site;
use crate::world::{World, WorldView};
use vstd::prelude::*;

verus! {

#[derive(Debug, Clone, Copy, PartialEq, Eq, Structural)]
pub enum IntelSubject {
    Convoy(ConvoyId),
    Asset(AssetId),
    Formation(FormationId),
    StockpileSite(LocationId),
    Battle { site: LocationId },
    Market(MarketId),
}

#[derive(Debug, Clone, PartialEq)]
pub struct IntelObservation {
    pub id: IntelId,
    /// Day the observation was made.
    pub observed_day: u64,
    /// Event-log sequence number at the moment of observation.
    pub observed_seq: u64,
    /// Observer, if known.
    pub observer: Option<ActorId>,
    pub subject: IntelSubject,
    /// Where the subject was observed.
    pub observed_at: LocationId,
    /// Freeform detail.
    pub detail: String,
    /// 0-100. How sure the source was.
    pub confidence_pct: u8,
    /// 0-100. How mangled the report got in transit.
    pub corruption_pct: u8,
    /// Chain of custody, oldest first.
    pub chain: Vec<ActorId>,
    /// The record this one was relayed from, if it is a rumor.
    pub derived_from: Option<IntelId>,
    /// Deliberately false intel about a real subject.
    pub fabricated: bool,
}


/// Why recording an observation with these inputs fails, if it does: the
/// place and the observer must exist, and so must the subject.
pub open spec fn observation_error(
    v: WorldView,
    observer: Option<ActorId>,
    subject: IntelSubject,
    observed_at: LocationId,
) -> Option<SimError> {
    if !v.locations.dom().contains(observed_at.0) {
        Some(SimError::UnknownLocation(observed_at))
    } else if observer matches Some(o) && !v.actors.dom().contains(o.0) {
        Some(SimError::UnknownActor(observer->0))
    } else {
        match subject {
            IntelSubject::Convoy(c) => if !v.convoys.dom().contains(c.0) {
                Some(SimError::UnknownConvoy(c))
            } else {
                None
            },
            IntelSubject::Asset(a) => if !v.assets.dom().contains(a.0) {
                Some(SimError::UnknownAsset(a))
            } else {
                None
            },
            IntelSubject::Formation(f) => if !v.formations.dom().contains(f.0) {
                Some(SimError::UnknownFormation(f))
            } else {
                None
            },
            IntelSubject::StockpileSite(s) => if !v.locations.dom().contains(s.0) {
                Some(SimError::UnknownLocation(s))
            } else {
                None
            },
            IntelSubject::Battle { site } => if !v.locations.dom().contains(site.0) {
                Some(SimError::UnknownLocation(site))
            } else {
                None
            },
            IntelSubject::Market(m) => if !v.markets.dom().contains(m.0) {
                Some(SimError::UnknownMarket(m))
            } else {
                None
            },
        }
    }
}

/// A percentage capped at 100.
pub open spec fn cap_pct(x: u8) -> u8 {
    if x > 100 {
        100
    } else {
        x
    }
}

/// The chain of custody a fresh observation starts with: its observer, if
/// known.
pub open spec fn initial_chain(observer: Option<ActorId>) -> Seq<ActorId> {
    match observer {
        Some(o) => seq![o],
        None => Seq::empty(),
    }
}

/// The state after recording an observation under the next id. The
/// record's detail text and custody chain are taken from `rec`.
pub open spec fn observation_recorded(
    v: WorldView,
    rec: IntelObservation,
    observer: Option<ActorId>,
    subject: IntelSubject,
    observed_at: LocationId,
    confidence_pct: u8,
    corruption_pct: u8,
) -> WorldView {
    let id = IntelId(v.next_id);
    (WorldView {
        intel: v.intel.insert(
            id.0,
            IntelObservation {
                id,
                observed_day: v.clock.day,
                observed_seq: v.next_event_seq,
                observer,
                subject,
                observed_at,
                detail: rec.detail,
                confidence_pct: cap_pct(confidence_pct),
                corruption_pct: cap_pct(corruption_pct),
                chain: rec.chain,
                derived_from: None,
                fabricated: false,
            },
        ),
        ..v.bump()
    }).log(EventKind::IntelRecorded { intel: id })
}

/// Confidence after a relay decays it by `decay` percent (capped at 100).
pub open spec fn relayed_confidence(confidence: u8, decay: u8) -> u8 {
    (confidence * (100 - cap_pct(decay)) / 100) as u8
}

/// Corruption after a relay: it grows by half the decay, capped at 100.
pub open spec fn relayed_corruption(corruption: u8, decay: u8) -> u8 {
    let grown = corruption + cap_pct(decay) / 2;
    if grown > 100 {
        100
    } else {
        grown as u8
    }
}

/// Some lot moved into or out of a holder at `site` after event sequence
/// number `seq` (holders resolved against the current world).
pub open spec fn cargo_moved_since(v: WorldView, site: LocationId, seq: u64) -> bool {
    exists|i: int|
        0 <= i < v.events.len() && #[trigger] lot_move_touches(v, v.events[i], site) && v.events[i].seq > seq
}

/// A logged lot move whose origin or destination is at `site`.
pub open spec fn lot_move_touches(v: WorldView, e: Event, site: LocationId) -> bool {
    match e.kind {
        EventKind::LotMoved { from, to, .. } => resolve(v, from) == Some(site) || resolve(v, to) == Some(
            site,
        ),
        _ => false,
    }
}

/// Whether an observation is stale against the live world: `None` where
/// this subject kind has no staleness test; an error where the subject has
/// vanished.
pub open spec fn staleness(v: WorldView, obs: IntelObservation) -> Result<Option<bool>, SimError> {
    match obs.subject {
        IntelSubject::Convoy(c) => if !v.convoys.dom().contains(c.0) {
            Err(SimError::UnknownConvoy(c))
        } else {
            Ok(Some(convoy_state_site(v.convoys[c.0].state) != Some(obs.observed_at)))
        },
        IntelSubject::Asset(a) => if !v.assets.dom().contains(a.0) {
            Err(SimError::UnknownAsset(a))
        } else {
            Ok(Some(resolve(v, v.assets[a.0].location) != Some(obs.observed_at)))
        },
        IntelSubject::Formation(f) => if !v.formations.dom().contains(f.0) {
            Err(SimError::UnknownFormation(f))
        } else {
            Ok(Some(formation_state_site(v.formations[f.0].state) != Some(obs.observed_at)))
        },
        IntelSubject::StockpileSite(site) => Ok(Some(cargo_moved_since(v, site, obs.observed_seq))),
        IntelSubject::Market(_) => Ok(None),
        IntelSubject::Battle { .. } => Ok(None),
    }
}

/// A sighting of a known asset is stale exactly when the asset is no
/// longer at the observed site: fresh while it resolves there, stale once
/// it resolves to another site or to none.
pub proof fn law_asset_sighting_staleness(v: WorldView, obs: IntelObservation, a: AssetId)
    requires
        obs.subject == IntelSubject::Asset(a),
        v.assets.dom().contains(a.0),
    ensures
        resolve(v, v.assets[a.0].location) == Some(obs.observed_at) ==> staleness(v, obs) == Ok::<
            Option<bool>,
            SimError,
        >(Some(false)),
        resolve(v, v.assets[a.0].location) != Some(obs.observed_at) ==> staleness(v, obs) == Ok::<
            Option<bool>,
            SimError,
        >(Some(true)),
{
}

/// A sighting of a known convoy is stale exactly when the convoy is not
/// standing at the observed site (moved on, on the road, or disbanded).
pub proof fn law_convoy_sighting_staleness(v: WorldView, obs: IntelObservation, c: ConvoyId)
    requires
        obs.subject == IntelSubject::Convoy(c),
        v.convoys.dom().contains(c.0),
    ensures
        convoy_state_site(v.convoys[c.0].state) == Some(obs.observed_at) ==> staleness(v, obs) == Ok::<
            Option<bool>,
            SimError,
        >(Some(false)),
        convoy_state_site(v.convoys[c.0].state) != Some(obs.observed_at) ==> staleness(v, obs) == Ok::<
            Option<bool>,
            SimError,
        >(Some(true)),
{
}

/// A sighting of a known formation is stale exactly when the formation is
/// not stationed at the observed site.
pub proof fn law_formation_sighting_staleness(v: WorldView, obs: IntelObservation, f: FormationId)
    requires
        obs.subject == IntelSubject::Formation(f),
        v.formations.dom().contains(f.0),
    ensures
        v.formations[f.0].state == (crate::toe::FormationState::Stationed { at: obs.observed_at })
            ==> staleness(v, obs) == Ok::<Option<bool>, SimError>(Some(false)),
        v.formations[f.0].state != (crate::toe::FormationState::Stationed { at: obs.observed_at })
            ==> staleness(v, obs) == Ok::<Option<bool>, SimError>(Some(true)),
{
}

fn min_pct(x: u8) -> (r: u8)
    ensures
        r == cap_pct(x),
{
    if x > 100 {
        100
    } else {
        x
    }
}

impl World {
    /// Record an observation. The subject must actually exist: intel is
    /// created by observation of real things, never conjured. The record is
    /// immutable once stored.
    pub fn record_observation(
        &mut self,
        observer: Option<ActorId>,
        subject: IntelSubject,
        observed_at: LocationId,
        detail: &str,
        confidence_pct: u8,
        corruption_pct: u8,
    ) -> (r: Result<IntelId, SimError>)
        requires
            old(self).wf(),
            old(self)@.has_room(2),
        ensures
            final(self).wf(),
            crate::world::phase_ok(old(self)@, final(self)@),
            crate::combat::money_untouched(final(self)@, old(self)@),
            match observation_error(old(self)@, observer, subject, observed_at) {
                Some(e) => r == Err::<IntelId, SimError>(e) && final(self)@ == old(self)@,
                None => {
                    let id = IntelId(old(self)@.next_id);
                    let rec = final(self)@.intel[id.0];
                    &&& r == Ok::<IntelId, SimError>(id)
                    &&& rec.detail@ == detail@
                    &&& rec.chain@ == initial_chain(observer)
                    &&& final(self)@ == observation_recorded(
                        old(self)@,
                        rec,
                        observer,
                        subject,
                        observed_at,
                        confidence_pct,
                        corruption_pct,
                    )
                },
            },
            crate::invariants::consistent(old(self)@) ==> crate::invariants::consistent(final(self)@),
    {
        if !self.locations.contains(observed_at.0) {
            return Err(SimError::UnknownLocation(observed_at));
        }
        match observer {
            Some(o) => {
                if !self.actors.contains(o.0) {
                    return Err(SimError::UnknownActor(o));
                }
            },
            None => {},
        }
        match subject {
            IntelSubject::Convoy(c) => {
                if !self.convoys.contains(c.0) {
                    return Err(SimError::UnknownConvoy(c));
                }
            },
            IntelSubject::Asset(a) => {
                if !self.assets.contains(a.0) {
                    return Err(SimError::UnknownAsset(a));
                }
            },
            IntelSubject::Formation(f) => {
                if !self.formations.contains(f.0) {
                    return Err(SimError::UnknownFormation(f));
                }
            },
            IntelSubject::StockpileSite(s) => {
                if !self.locations.contains(s.0) {
                    return Err(SimError::UnknownLocation(s));
                }
            },
            IntelSubject::Battle { site } => {
                if !self.locations.contains(site.0) {
                    return Err(SimError::UnknownLocation(site));
                }
            },
            IntelSubject::Market(m) => {
                if !self.markets.contains(m.0) {
                    return Err(SimError::UnknownMarket(m));
                }
            },
        }
        let id = IntelId(self.alloc_id());
        let observed_day = self.clock.day;
        let observed_seq = self.next_event_seq;
        let mut chain: Vec<ActorId> = Vec::new();
        match observer {
            Some(o) => chain.push(o),
            None => {},
        }
        proof {
            assert(chain@ =~= initial_chain(observer));
            self.intel.lemma_fresh(id.0);
        }
        self.intel.insert_new(
            id.0,
            IntelObservation {
                id,
                observed_day,
                observed_seq,
                observer,
                subject,
                observed_at,
                detail: detail.to_owned(),
                confidence_pct: min_pct(confidence_pct),
                corruption_pct: min_pct(corruption_pct),
                chain,
                derived_from: None,
                fabricated: false,
            },
        );
        proof {
            self.lemma_keys_wf();
        }
        self.push_event(EventKind::IntelRecorded { intel: id });
        proof {
            let o = old(self)@;
            if crate::invariants::consistent(o) {
                assert(crate::invariants::grows_soundly(o, self@));
                crate::invariants::lemma_consistent_grows(o, self@);
            }
        }
        Ok(id)
    }

    /// Relay an existing record through a broker or the rumor mill. The
    /// source record is untouched; the relay is a new observation with
    /// confidence decayed, corruption increased, and `via` appended to the
    /// chain of custody. Its observer is unknown: a broker only knows what
    /// reached them.
    pub fn relay_intel(&mut self, source: IntelId, via: ActorId, confidence_decay_pct: u8) -> (r: Result<
        IntelId,
        SimError,
    >)
        requires
            old(self).wf(),
            old(self)@.has_room(2),
        ensures
            final(self).wf(),
            !old(self)@.actors.dom().contains(via.0) ==> r == Err::<IntelId, SimError>(SimError::UnknownActor(via))
                && final(self)@ == old(self)@,
            old(self)@.actors.dom().contains(via.0) && !old(self)@.intel.dom().contains(source.0) ==> r == Err::<
                IntelId,
                SimError,
            >(SimError::UnknownIntel(source)) && final(self)@ == old(self)@,
            old(self)@.actors.dom().contains(via.0) && old(self)@.intel.dom().contains(source.0) ==> {
                let src = old(self)@.intel[source.0];
                let id = IntelId(old(self)@.next_id);
                let rec = final(self)@.intel[id.0];
                &&& r == Ok::<IntelId, SimError>(id)
                &&& rec.chain@ == src.chain@.push(via)
                &&& final(self)@ == (WorldView {
                    intel: old(self)@.intel.insert(
                        id.0,
                        IntelObservation {
                            id,
                            observer: None,
                            confidence_pct: relayed_confidence(src.confidence_pct, confidence_decay_pct),
                            corruption_pct: relayed_corruption(src.corruption_pct, confidence_decay_pct),
                            chain: rec.chain,
                            derived_from: Some(source),
                            ..src
                        },
                    ),
                    ..old(self)@.bump()
                }).log(EventKind::IntelRelayed { source, relayed: id, via })
            },
    {
        if !self.actors.contains(via.0) {
            return Err(SimError::UnknownActor(via));
        }
        let (observed_day, observed_seq, subject, observed_at, detail, confidence, corruption, mut chain, fabricated) =
            match self.intel.get(source.0) {
            None => {
                return Err(SimError::UnknownIntel(source));
            },
            Some(src) => (
                src.observed_day,
                src.observed_seq,
                src.subject,
                src.observed_at,
                src.detail.clone(),
                src.confidence_pct,
                src.corruption_pct,
                crate::table::copy_slice(src.chain.as_slice()),
                src.fabricated,
            ),
        };
        let decay: u32 = min_pct(confidence_decay_pct) as u32;
        proof {
            assert(confidence as u32 * (100 - decay) <= 25500) by (nonlinear_arith)
                requires
                    decay <= 100,
                    confidence <= 255,
            ;
        }
        let scaled: u32 = confidence as u32 * (100 - decay);
        let new_confidence: u8 = (scaled / 100) as u8;
        let grown: u32 = corruption as u32 + decay / 2;
        let new_corruption: u8 = if grown > 100 {
            100
        } else {
            grown as u8
        };
        chain.push(via);
        let id = IntelId(self.alloc_id());
        proof {
            self.intel.lemma_fresh(id.0);
            assert(scaled / 100 <= 255) by (nonlinear_arith)
                requires
                    scaled == confidence as u32 * (100 - decay),
                    decay <= 100,
                    confidence <= 255,
            ;
        }
        self.intel.insert_new(
            id.0,
            IntelObservation {
                id,
                observed_day,
                observed_seq,
                observer: None,
                subject,
                observed_at,
                detail,
                confidence_pct: new_confidence,
                corruption_pct: new_corruption,
                chain,
                derived_from: Some(source),
                fabricated,
            },
        );
        proof {
            self.lemma_keys_wf();
        }
        self.push_event(EventKind::IntelRelayed { source, relayed: id, via });
        Ok(id)
    }

    /// Plant deliberate misinformation about a real subject. The subject
    /// must still physically exist; the record is flagged `fabricated` and
    /// claims full corruption.
    pub fn plant_misinformation(
        &mut self,
        planter: Option<ActorId>,
        subject: IntelSubject,
        observed_at: LocationId,
        false_detail: &str,
        claimed_confidence_pct: u8,
    ) -> (r: Result<IntelId, SimError>)
        requires
            old(self).wf(),
            old(self)@.has_room(3),
        ensures
            final(self).wf(),
            match observation_error(old(self)@, planter, subject, observed_at) {
                Some(e) => r == Err::<IntelId, SimError>(e) && final(self)@ == old(self)@,
                None => {
                    let id = IntelId(old(self)@.next_id);
                    let rec = final(self)@.intel[id.0];
                    let recorded = observation_recorded(
                        old(self)@,
                        rec,
                        planter,
                        subject,
                        observed_at,
                        claimed_confidence_pct,
                        100,
                    );
                    &&& r == Ok::<IntelId, SimError>(id)
                    &&& rec.detail@ == false_detail@
                    &&& rec.chain@ == initial_chain(planter)
                    &&& final(self)@ == (WorldView {
                        intel: recorded.intel.insert(id.0, IntelObservation { fabricated: true, ..recorded.intel[id.0] }),
                        ..recorded
                    }).log(EventKind::MisinformationPlanted { intel: id, planter })
                },
            },
    {
        let id = self.record_observation(planter, subject, observed_at, false_detail, claimed_confidence_pct, 100)?;
        let rec = self.intel.get_mut(id.0);
        rec.fabricated = true;
        proof {
            self.lemma_keys_wf();
        }
        self.push_event(EventKind::MisinformationPlanted { intel: id, planter });
        Ok(id)
    }

    /// Is this observation stale: true when made, but the world has moved
    /// since? `Some(..)` where staleness is decidable for the subject kind,
    /// `None` otherwise. The observation itself is never touched.
    pub fn intel_is_stale(&self, intel: IntelId) -> (r: Result<Option<bool>, SimError>)
        requires
            self.wf(),
        ensures
            !self@.intel.dom().contains(intel.0) ==> r == Err::<Option<bool>, SimError>(
                SimError::UnknownIntel(intel),
            ),
            self@.intel.dom().contains(intel.0) ==> r == staleness(self@, self@.intel[intel.0]),
    {
        let (subject, observed_at, observed_seq) = match self.intel.get(intel.0) {
            None => {
                return Err(SimError::UnknownIntel(intel));
            },
            Some(o) => (o.subject, o.observed_at, o.observed_seq),
        };
        match subject {
            IntelSubject::Convoy(c) => match self.convoys.get(c.0) {
                None => Err(SimError::UnknownConvoy(c)),
                Some(cv) => {
                    let here = cv.current_site();
                    Ok(Some(!same_site(here, observed_at)))
                },
            },
            IntelSubject::Asset(a) => match self.assets.get(a.0) {
                None => Err(SimError::UnknownAsset(a)),
                Some(asset) => {
                    let here = self.resolve_site(asset.location);
                    Ok(Some(!same_site(here, observed_at)))
                },
            },
            IntelSubject::Formation(f) => match self.formations.get(f.0) {
                None => Err(SimError::UnknownFormation(f)),
                Some(fm) => {
                    let here = fm.current_site();
                    Ok(Some(!same_site(here, observed_at)))
                },
            },
            IntelSubject::StockpileSite(site) => {
                let mut moved = false;
                let mut i: usize = 0;
                while i < self.events.len()
                    invariant
                        self.wf(),
                        i <= self@.events.len(),
                        moved == exists|j: int|
                            0 <= j < i && #[trigger] lot_move_touches(self@, self@.events[j], site)
                                && self@.events[j].seq > observed_seq,
                    decreases self@.events.len() - i,
                {
                    let e = &self.events[i];
                    proof {
                        assert(self@.events[i as int] == *e);
                    }
                    let touches = if e.seq > observed_seq {
                        match e.kind {
                            EventKind::LotMoved { from, to, .. } => {
                                let a = self.resolve_site(from);
                                let b = self.resolve_site(to);
                                same_site(a, site) || same_site(b, site)
                            },
                            _ => false,
                        }
                    } else {
                        false
                    };
                    assert(touches == (lot_move_touches(self@, self@.events[i as int], site) && self@.events[i as int].seq
                        > observed_seq));
                    moved = moved || touches;
                    i = i + 1;
                }
                Ok(Some(moved))
            },
            IntelSubject::Market(_) => Ok(None),
            IntelSubject::Battle { .. } => Ok(None),
        }
    }
}

/// `a == Some(b)` on site ids.
pub fn same_site(a: Option<LocationId>, b: LocationId) -> (r: bool)
    ensures
        r == (a == Some(b)),
{
    match a {
        Some(x) => x.0 == b.0,
        None => false,
    }
}

} // verus!
