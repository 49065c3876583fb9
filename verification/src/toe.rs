//! Table of Organization & Equipment: the core faction-AI target.
//!
//! Doctrine defines desired formations; the economy fills them with real
//! assets. A formation cannot contain a single asset the faction does not own
//! and physically hold. Missing assets are reported as typed shortages.

use crate::convoys::assets_moved;
use crate::error::{error_matches, SimError};
use crate::events::EventKind;
use crate::ids::{ActorId, LocationId, DesignId, AssetId, RouteId, ToeTemplateId, FormationId};
use crate::locations::{resolve, LocationRef};
use crate::world::{World, WorldView};
use vstd::prelude::*;

verus! {

/// One line of a TO&E template: this many assets of this exact design.
#[derive(Debug, Clone, PartialEq)]
pub struct ToeSlot {
    /// Role label.
    pub role: String,
    pub design: DesignId,
    pub count: u32,
}

#[derive(Debug, Clone, PartialEq)]
pub struct ToeTemplate {
    pub id: ToeTemplateId,
    pub name: String,
    /// Doctrine tag this template belongs to.
    pub doctrine: String,
    pub slots: Vec<ToeSlot>,
}

/// A concrete shortage: real demand for real gear.
#[derive(Debug, Clone, PartialEq)]
pub struct ToeShortage {
    pub role: String,
    pub design: DesignId,
    pub missing: u32,
}

/// Where a formation physically is.
#[derive(Debug, Clone, Copy, PartialEq, Eq, Structural)]
pub enum FormationState {
    Stationed { at: LocationId },
    EnRoute { route: RouteId, departed_day: u64, arrives_day: u64 },
}

#[derive(Debug, Clone, PartialEq)]
pub struct Formation {
    pub id: FormationId,
    pub owner: ActorId,
    pub template: ToeTemplateId,
    pub name: String,
    /// The real serial assets filling this formation.
    pub assets: Vec<AssetId>,
    pub state: FormationState,
    pub formed_day: u64,
}

/// The site a formation in this state is at, if it is at one.
pub open spec fn formation_state_site(s: FormationState) -> Option<LocationId> {
    match s {
        FormationState::Stationed { at } => Some(at),
        FormationState::EnRoute { .. } => None,
    }
}

impl Formation {
    /// The site this formation is currently at (`None` while en route).
    pub fn current_site(&self) -> (r: Option<LocationId>)
        ensures
            r == formation_state_site(self.state),
    {
        match self.state {
            FormationState::Stationed { at } => Some(at),
            FormationState::EnRoute { .. } => None,
        }
    }
}


/// An asset of `owner` that can fill a slot of `design` at `site`: not
/// already chosen, not in a formation or aboard a convoy, physically there.
pub open spec fn free_for(v: WorldView, owner: ActorId, site: LocationId, design: DesignId, prior: Seq<AssetId>, k: u64) -> bool {
    &&& v.assets.dom().contains(k)
    &&& v.assets[k].owner == owner
    &&& v.assets[k].design == design
    &&& !prior.contains(AssetId(k))
    &&& !(v.assets[k].location is Formation)
    &&& !(v.assets[k].location is Convoy)
    &&& resolve(v, v.assets[k].location) == Some(site)
}

/// The assets picked for one slot: scanning assets in id order, take free
/// ones until the slot's count is met.
pub open spec fn pick_for_slot(
    v: WorldView,
    owner: ActorId,
    site: LocationId,
    design: DesignId,
    count: u32,
    keys: Seq<u64>,
    prior: Seq<AssetId>,
) -> Seq<AssetId>
    decreases keys.len(),
{
    if keys.len() == 0 {
        Seq::empty()
    } else {
        let p = pick_for_slot(v, owner, site, design, count, keys.drop_last(), prior);
        if p.len() >= count {
            p
        } else if free_for(v, owner, site, design, prior, keys.last()) {
            p.push(AssetId(keys.last()))
        } else {
            p
        }
    }
}

/// Filling a template's slots in order: the assets chosen, and for every
/// slot left short its design, how many are missing, and its role.
pub open spec fn assemble_plan(v: WorldView, owner: ActorId, site: LocationId, slots: Seq<ToeSlot>, keys: Seq<u64>) -> (Seq<
    AssetId,
>, Seq<(DesignId, u32, Seq<char>)>)
    decreases slots.len(),
{
    if slots.len() == 0 {
        (Seq::empty(), Seq::empty())
    } else {
        let prev = assemble_plan(v, owner, site, slots.drop_last(), keys);
        let slot = slots.last();
        let picked = pick_for_slot(v, owner, site, slot.design, slot.count, keys, prev.0);
        (
            prev.0 + picked,
            if picked.len() < slot.count {
                prev.1.push((slot.design, (slot.count - picked.len()) as u32, slot.role@))
            } else {
                prev.1
            },
        )
    }
}

/// A shortage list says exactly what a plan's shortages say.
pub open spec fn shortages_match(r: Seq<ToeShortage>, s: Seq<(DesignId, u32, Seq<char>)>) -> bool {
    &&& r.len() == s.len()
    &&& forall|i: int|
        0 <= i < r.len() ==> (#[trigger] r[i]).design == s[i].0 && r[i].missing == s[i].1 && r[i].role@ == s[i].2
}

/// A roster without one asset.
pub open spec fn without_asset(s: Seq<AssetId>, a: AssetId) -> Seq<AssetId>
    decreases s.len(),
{
    if s.len() == 0 {
        s
    } else if s.last() == a {
        without_asset(s.drop_last(), a)
    } else {
        without_asset(s.drop_last(), a).push(s.last())
    }
}

/// The site a formation in this state would arrive at today, if due.
pub open spec fn formation_arrival(v: WorldView, k: u64, today: u64) -> Option<LocationId> {
    match v.formations[k].state {
        FormationState::EnRoute { route, arrives_day, .. } => if arrives_day <= today && v.routes.dom().contains(
            route.0,
        ) {
            Some(v.routes[route.0].to)
        } else {
            None
        },
        _ => None,
    }
}

/// Every due formation, in key order, arrives and the arrival is logged.
pub open spec fn formations_arrived(v: WorldView, keys: Seq<u64>, today: u64) -> WorldView
    decreases keys.len(),
{
    if keys.len() == 0 {
        v
    } else {
        let w = formations_arrived(v, keys.drop_last(), today);
        let k = keys.last();
        match formation_arrival(v, k, today) {
            Some(at) => (WorldView {
                formations: w.formations.insert(
                    k,
                    Formation { state: FormationState::Stationed { at }, ..w.formations[k] },
                ),
                ..w
            }).log(EventKind::FormationArrived { formation: FormationId(k), at }),
            None => w,
        }
    }
}

pub proof fn lemma_formations_arrived(v: WorldView, keys: Seq<u64>, today: u64)
    requires
        v.next_id + keys.len() <= u64::MAX,
        forall|i: int| 0 <= i < keys.len() ==> v.formations.dom().contains(#[trigger] keys[i]),
    ensures
        formations_arrived(v, keys, today).formations.dom() == v.formations.dom(),
        forall|k: u64| !keys.contains(k) ==> #[trigger] formations_arrived(v, keys, today).formations[k] == v.formations[k],
        formations_arrived(v, keys, today).routes == v.routes,
        formations_arrived(v, keys, today).clock == v.clock,
        v.next_id <= formations_arrived(v, keys, today).next_id <= v.next_id + keys.len(),
    decreases keys.len(),
{
    if keys.len() > 0 {
        let p = keys.drop_last();
        assert forall|i: int| 0 <= i < p.len() implies v.formations.dom().contains(#[trigger] p[i]) by {
            assert(p[i] == keys[i]);
        }
        lemma_formations_arrived(v, p, today);
        let w = formations_arrived(v, p, today);
        let k = keys.last();
        assert(v.formations.dom().contains(keys[keys.len() - 1]));
        assert forall|x: u64| !keys.contains(x) implies #[trigger] formations_arrived(v, keys, today).formations[x]
            == v.formations[x] by {
            assert(!p.contains(x)) by {
                if p.contains(x) {
                    let j = choose|j: int| 0 <= j < p.len() && p[j] == x;
                    assert(keys[j] == x);
                }
            }
            assert(x != k) by {
                assert(keys[keys.len() - 1] == k);
            }
        }
        match formation_arrival(v, k, today) {
            Some(at) => {
                assert(w.formations.insert(k, Formation { state: FormationState::Stationed { at }, ..w.formations[k] }).dom()
                    =~= w.formations.dom());
            },
            None => {},
        }
    }
}

impl World {
    pub fn define_toe_template(&mut self, name: &str, doctrine: &str, slots: Vec<ToeSlot>) -> (id: ToeTemplateId)
        requires
            old(self).wf(),
            old(self)@.has_room(2),
        ensures
            final(self).wf(),
            id == ToeTemplateId(old(self)@.next_id),
            final(self)@.toe_templates[id.0].name@ == name@,
            final(self)@.toe_templates[id.0].doctrine@ == doctrine@,
            final(self)@ == (WorldView {
                toe_templates: old(self)@.toe_templates.insert(
                    id.0,
                    ToeTemplate {
                        id,
                        name: final(self)@.toe_templates[id.0].name,
                        doctrine: final(self)@.toe_templates[id.0].doctrine,
                        slots,
                    },
                ),
                ..old(self)@.bump()
            }).log(EventKind::ToeTemplateDefined { template: id }),
            crate::invariants::consistent(old(self)@) ==> crate::invariants::consistent(final(self)@),
    {
        let id = ToeTemplateId(self.alloc_id());
        proof {
            self.toe_templates.lemma_fresh(id.0);
        }
        self.toe_templates.insert_new(
            id.0,
            ToeTemplate { id, name: name.to_owned(), doctrine: doctrine.to_owned(), slots },
        );
        proof {
            self.lemma_keys_wf();
        }
        self.push_event(EventKind::ToeTemplateDefined { template: id });
        proof {
            let o = old(self)@;
            if crate::invariants::consistent(o) {
                assert(crate::invariants::grows_soundly(o, self@));
                crate::invariants::lemma_consistent_grows(o, self@);
            }
        }
        id
    }

    /// Order a stationed formation to march along a real route. It must be
    /// at the route's origin; until it arrives it cannot fight or take
    /// orders.
    pub fn order_formation_march(&mut self, formation: FormationId, route: RouteId) -> (r: Result<(), SimError>)
        requires
            old(self).wf(),
            old(self)@.has_room(1),
            old(self)@.routes.dom().contains(route.0) ==> old(self)@.clock.day + old(
                self,
            )@.routes[route.0].distance_days <= u64::MAX,
        ensures
            final(self).wf(),
            crate::world::phase_ok(old(self)@, final(self)@),
            crate::combat::money_untouched(final(self)@, old(self)@),
            !old(self)@.formations.dom().contains(formation.0) ==> r == Err::<(), SimError>(
                SimError::UnknownFormation(formation),
            ) && final(self)@ == old(self)@,
            old(self)@.formations.dom().contains(formation.0) ==> match formation_state_site(
                old(self)@.formations[formation.0].state,
            ) {
                None => r == Err::<(), SimError>(SimError::FormationNotAtSite(formation)) && final(self)@ == old(self)@,
                Some(at) => if !old(self)@.routes.dom().contains(route.0) {
                    r == Err::<(), SimError>(SimError::UnknownRoute(route)) && final(self)@ == old(self)@
                } else if old(self)@.routes[route.0].from != at {
                    r == Err::<(), SimError>(SimError::NotColocated) && final(self)@ == old(self)@
                } else {
                    let day = old(self)@.clock.day;
                    let arrives_day = (day + old(self)@.routes[route.0].distance_days) as u64;
                    r is Ok && final(self)@ == (WorldView {
                        formations: old(self)@.formations.insert(
                            formation.0,
                            Formation {
                                state: FormationState::EnRoute { route, departed_day: day, arrives_day },
                                ..old(self)@.formations[formation.0]
                            },
                        ),
                        ..old(self)@
                    }).log(EventKind::FormationMarchOrdered { formation, route, arrives_day })
                },
            },
    {
        let at = match self.formations.get(formation.0) {
            None => {
                return Err(SimError::UnknownFormation(formation));
            },
            Some(f) => match f.current_site() {
                None => {
                    return Err(SimError::FormationNotAtSite(formation));
                },
                Some(at) => at,
            },
        };
        let rt = match self.routes.get(route.0) {
            None => {
                return Err(SimError::UnknownRoute(route));
            },
            Some(x) => *x,
        };
        if rt.from.0 != at.0 {
            return Err(SimError::NotColocated);
        }
        let departed_day = self.clock.day;
        let arrives_day = departed_day + rt.distance_days;
        let f = self.formations.get_mut(formation.0);
        f.state = FormationState::EnRoute { route, departed_day, arrives_day };
        proof {
            self.lemma_keys_wf();
        }
        let ghost s1 = self@;
        self.push_event(EventKind::FormationMarchOrdered { formation, route, arrives_day });
        proof {
            crate::world::lemma_log_extends_log(s1, EventKind::FormationMarchOrdered { formation, route, arrives_day });
        }
        Ok(())
    }

    /// Advance formations: arrivals fire when the clock reaches the
    /// arrival day.
    pub(crate) fn tick_formations(&mut self)
        requires
            old(self).wf(),
            old(self)@.has_room(old(self).formations.keys().len() as int),
        ensures
            final(self).wf(),
            final(self)@ == formations_arrived(old(self)@, old(self).formations.keys(), old(self)@.clock.day),
            crate::world::phase_ok(old(self)@, final(self)@),
            crate::combat::money_untouched(final(self)@, old(self)@),
    {
        let today = self.clock.day;
        let keys = self.formations.key_vec();
        let ghost v = self@;
        proof {
            self.formations.lemma_facts();
        }
        let mut i: usize = 0;
        while i < keys.len()
            invariant
                self.wf(),
                i <= keys@.len(),
                keys@ == old(self).formations.keys(),
                v == old(self)@,
                today == v.clock.day,
                v.next_id + keys@.len() <= u64::MAX,
                crate::table::strictly_increasing(keys@),
                forall|x: int| 0 <= x < keys@.len() ==> v.formations.dom().contains(#[trigger] keys@[x]),
                self@ == formations_arrived(v, keys@.take(i as int), today),
                crate::world::phase_ok(old(self)@, self@),
                crate::combat::money_untouched(self@, old(self)@),
            decreases keys@.len() - i,
        {
            let ghost pre = keys@.take(i as int);
            proof {
                lemma_formations_arrived(v, pre, today);
                assert(keys@.take(i + 1).drop_last() =~= pre);
                assert(keys@.take(i + 1).last() == keys@[i as int]);
                assert(!pre.contains(keys@[i as int])) by {
                    if pre.contains(keys@[i as int]) {
                        let j = choose|j: int| 0 <= j < pre.len() && pre[j] == keys@[i as int];
                        assert(keys@[j] < keys@[i as int]);
                    }
                }
            }
            let k = keys[i];
            let state = match self.formations.get(k) {
                Some(f) => Some(f.state),
                None => None,
            };
            let arrive = match state {
                Some(FormationState::EnRoute { route, arrives_day, .. }) => {
                    if arrives_day <= today {
                        match self.routes.get(route.0) {
                            Some(r) => Some(r.to),
                            None => None,
                        }
                    } else {
                        None
                    }
                },
                _ => None,
            };
            match arrive {
                Some(at) => {
                    let f = self.formations.get_mut(k);
                    f.state = FormationState::Stationed { at };
                    proof {
                        self.lemma_keys_wf();
                    }
                    let ghost s1 = self@;
                    self.push_event(EventKind::FormationArrived { formation: FormationId(k), at });
                    proof {
                        crate::world::lemma_log_extends_log(s1, EventKind::FormationArrived { formation: FormationId(k), at });
                        crate::world::lemma_phase_trans(old(self)@, s1, self@);
                    }
                },
                None => {},
            }
            i = i + 1;
        }
        proof {
            assert(keys@.take(keys@.len() as int) =~= keys@);
        }
    }
}


/// An asset a formation may take at `site`: the owner's, there, and held
/// by neither a convoy nor a formation.
pub open spec fn takeable(v: WorldView, owner: ActorId, site: LocationId, a: AssetId) -> bool {
    &&& v.assets.dom().contains(a.0)
    &&& v.assets[a.0].owner == owner
    &&& !(v.assets[a.0].location is Formation)
    &&& !(v.assets[a.0].location is Convoy)
    &&& resolve(v, v.assets[a.0].location) == Some(site)
}

/// Every pick for a slot is takeable.
pub proof fn lemma_pick_takeable(
    v: WorldView,
    owner: ActorId,
    site: LocationId,
    design: DesignId,
    count: u32,
    keys: Seq<u64>,
    prior: Seq<AssetId>,
)
    ensures
        forall|i: int|
            0 <= i < pick_for_slot(v, owner, site, design, count, keys, prior).len() ==> takeable(
                v,
                owner,
                site,
                #[trigger] pick_for_slot(v, owner, site, design, count, keys, prior)[i],
            ),
    decreases keys.len(),
{
    if keys.len() > 0 {
        lemma_pick_takeable(v, owner, site, design, count, keys.drop_last(), prior);
        let p = pick_for_slot(v, owner, site, design, count, keys.drop_last(), prior);
        let q = pick_for_slot(v, owner, site, design, count, keys, prior);
        assert forall|i: int| 0 <= i < q.len() implies takeable(v, owner, site, #[trigger] q[i]) by {
            if i < p.len() {
                assert(q[i] == p[i]);
            } else {
                assert(free_for(v, owner, site, design, prior, keys.last()));
            }
        }
    }
}

/// Every asset a plan chooses is takeable.
pub proof fn lemma_plan_takeable(v: WorldView, owner: ActorId, site: LocationId, slots: Seq<ToeSlot>, keys: Seq<u64>)
    ensures
        forall|i: int|
            0 <= i < assemble_plan(v, owner, site, slots, keys).0.len() ==> takeable(
                v,
                owner,
                site,
                #[trigger] assemble_plan(v, owner, site, slots, keys).0[i],
            ),
    decreases slots.len(),
{
    if slots.len() > 0 {
        let ps = slots.drop_last();
        lemma_plan_takeable(v, owner, site, ps, keys);
        let prev = assemble_plan(v, owner, site, ps, keys);
        let slot = slots.last();
        lemma_pick_takeable(v, owner, site, slot.design, slot.count, keys, prev.0);
        let picked = pick_for_slot(v, owner, site, slot.design, slot.count, keys, prev.0);
        let cur = prev.0 + picked;
        assert forall|i: int| 0 <= i < cur.len() implies takeable(v, owner, site, #[trigger] cur[i]) by {
            if i < prev.0.len() {
                assert(cur[i] == prev.0[i]);
            } else {
                assert(cur[i] == picked[i - prev.0.len()]);
            }
        }
    }
}

/// Picks for one slot exist, are new, and come in increasing id order.
pub proof fn lemma_pick(
    v: WorldView,
    owner: ActorId,
    site: LocationId,
    design: DesignId,
    count: u32,
    keys: Seq<u64>,
    prior: Seq<AssetId>,
)
    requires
        crate::table::strictly_increasing(keys),
    ensures
        forall|i: int|
            0 <= i < pick_for_slot(v, owner, site, design, count, keys, prior).len() ==> {
                let a = #[trigger] pick_for_slot(v, owner, site, design, count, keys, prior)[i];
                &&& v.assets.dom().contains(a.0)
                &&& !prior.contains(a)
                &&& keys.contains(a.0)
            },
        forall|i: int, j: int|
            0 <= i < j < pick_for_slot(v, owner, site, design, count, keys, prior).len() ==> (#[trigger] pick_for_slot(
                v,
                owner,
                site,
                design,
                count,
                keys,
                prior,
            )[i]).0 < (#[trigger] pick_for_slot(v, owner, site, design, count, keys, prior)[j]).0,
    decreases keys.len(),
{
    if keys.len() > 0 {
        let pk = keys.drop_last();
        assert(crate::table::strictly_increasing(pk));
        lemma_pick(v, owner, site, design, count, pk, prior);
        let p = pick_for_slot(v, owner, site, design, count, pk, prior);
        let cur = pick_for_slot(v, owner, site, design, count, keys, prior);
        assert forall|i: int| 0 <= i < p.len() implies keys.contains(#[trigger] p[i].0) by {
            let j = choose|j: int| 0 <= j < pk.len() && pk[j] == p[i].0;
            assert(keys[j] == pk[j]);
        }
        assert forall|i: int| 0 <= i < p.len() implies (#[trigger] p[i]).0 < keys.last() by {
            let j = choose|j: int| 0 <= j < pk.len() && pk[j] == p[i].0;
            assert(keys[j] < keys[keys.len() - 1]);
        }
        assert(keys.contains(keys.last())) by {
            assert(keys[keys.len() - 1] == keys.last());
        }
    }
}

/// A whole plan's choices exist and are distinct.
pub proof fn lemma_plan(v: WorldView, owner: ActorId, site: LocationId, slots: Seq<ToeSlot>, keys: Seq<u64>)
    requires
        crate::table::strictly_increasing(keys),
    ensures
        forall|i: int|
            0 <= i < assemble_plan(v, owner, site, slots, keys).0.len() ==> v.assets.dom().contains(
                (#[trigger] assemble_plan(v, owner, site, slots, keys).0[i]).0,
            ) && keys.contains(assemble_plan(v, owner, site, slots, keys).0[i].0),
        assemble_plan(v, owner, site, slots, keys).0.no_duplicates(),
    decreases slots.len(),
{
    if slots.len() > 0 {
        let ps = slots.drop_last();
        lemma_plan(v, owner, site, ps, keys);
        let prev = assemble_plan(v, owner, site, ps, keys);
        let slot = slots.last();
        lemma_pick(v, owner, site, slot.design, slot.count, keys, prev.0);
        let picked = pick_for_slot(v, owner, site, slot.design, slot.count, keys, prev.0);
        let cur = prev.0 + picked;
        assert forall|i: int, j: int| 0 <= i < cur.len() && 0 <= j < cur.len() && i != j implies cur[i] != cur[j] by {
            if i < prev.0.len() && j < prev.0.len() {
            } else if i >= prev.0.len() && j >= prev.0.len() {
                let a = i - prev.0.len();
                let b = j - prev.0.len();
                if a < b {
                    assert(picked[a].0 < picked[b].0);
                } else {
                    assert(picked[b].0 < picked[a].0);
                }
            } else if i < prev.0.len() {
                assert(!prev.0.contains(picked[j - prev.0.len()]));
                assert(prev.0[i] == cur[i]);
            } else {
                assert(!prev.0.contains(picked[i - prev.0.len()]));
                assert(prev.0[j] == cur[j]);
            }
        }
        assert forall|i: int| 0 <= i < cur.len() implies v.assets.dom().contains((#[trigger] cur[i]).0) && keys.contains(
            cur[i].0,
        ) by {
            if i >= prev.0.len() {
                assert(cur[i] == picked[i - prev.0.len()]);
            }
        }
    }
}

pub proof fn lemma_pick_done(
    v: WorldView,
    owner: ActorId,
    site: LocationId,
    design: DesignId,
    count: u32,
    keys: Seq<u64>,
    prior: Seq<AssetId>,
    n: int,
)
    requires
        0 <= n <= keys.len(),
        pick_for_slot(v, owner, site, design, count, keys.take(n), prior).len() >= count,
    ensures
        pick_for_slot(v, owner, site, design, count, keys, prior) == pick_for_slot(
            v,
            owner,
            site,
            design,
            count,
            keys.take(n),
            prior,
        ),
    decreases keys.len(),
{
    if n == keys.len() {
        assert(keys.take(n) =~= keys);
    } else {
        let p = keys.drop_last();
        assert(p.take(n) =~= keys.take(n));
        lemma_pick_done(v, owner, site, design, count, p, prior, n);
    }
}

fn contains_asset(s: &Vec<AssetId>, x: AssetId) -> (r: bool)
    ensures
        r == s@.contains(x),
{
    let mut i: usize = 0;
    while i < s.len()
        invariant
            i <= s@.len(),
            forall|j: int| 0 <= j < i ==> s@[j] != x,
        decreases s@.len() - i,
    {
        if s[i].0 == x.0 {
            assert(s@[i as int] == x);
            return true;
        }
        i = i + 1;
    }
    false
}

impl World {
    /// Fill a template's slots from the owner's free assets at `site`:
    /// the assets chosen, and the typed shortages.
    fn plan_assembly(&self, owner: ActorId, site: LocationId, slots: &Vec<ToeSlot>) -> (r: (Vec<AssetId>, Vec<ToeShortage>))
        requires
            self.wf(),
        ensures
            r.0@ == assemble_plan(self@, owner, site, slots@, self.asset_keys()).0,
            shortages_match(r.1@, assemble_plan(self@, owner, site, slots@, self.asset_keys()).1),
    {
        let n = self.assets.len();
        proof {
            self.assets.lemma_facts();
        }
        let ghost keys = self.asset_keys();
        let mut chosen: Vec<AssetId> = Vec::new();
        let mut shortages: Vec<ToeShortage> = Vec::new();
        let mut j: usize = 0;
        while j < slots.len()
            invariant
                self.wf(),
                keys == self.asset_keys(),
                n == keys.len(),
                crate::table::strictly_increasing(keys),
                j <= slots@.len(),
                chosen@ == assemble_plan(self@, owner, site, slots@.take(j as int), keys).0,
                shortages_match(shortages@, assemble_plan(self@, owner, site, slots@.take(j as int), keys).1),
            decreases slots@.len() - j,
        {
            proof {
                assert(slots@.take(j + 1).drop_last() =~= slots@.take(j as int));
                assert(slots@.take(j + 1).last() == slots@[j as int]);
            }
            let slot = &slots[j];
            let ghost prior = chosen@;
            let mut found: u32 = 0;
            proof {
                assert(keys.take(n as int) =~= keys);
                assert(keys.take(0) =~= Seq::<u64>::empty());
                assert(chosen@ =~= prior + Seq::<AssetId>::empty());
            }
            let mut i: usize = 0;
            while i < n
                invariant
                    self.wf(),
                    keys == self.asset_keys(),
                    n == keys.len(),
                    crate::table::strictly_increasing(keys),
                    i <= n,
                    keys.take(n as int) == keys,
                    chosen@ == prior + pick_for_slot(self@, owner, site, slot.design, slot.count, keys.take(i as int), prior),
                    found == pick_for_slot(self@, owner, site, slot.design, slot.count, keys.take(i as int), prior).len(),
                    found <= slot.count,
                ensures
                    self.wf(),
                    chosen@ == prior + pick_for_slot(self@, owner, site, slot.design, slot.count, keys, prior),
                    found == pick_for_slot(self@, owner, site, slot.design, slot.count, keys, prior).len(),
                decreases n - i,
            {
                proof {
                    assert(keys.take(i + 1).drop_last() =~= keys.take(i as int));
                    assert(keys.take(i + 1).last() == keys[i as int]);
                    lemma_pick(self@, owner, site, slot.design, slot.count, keys.take(i as int), prior);
                }
                if found == slot.count {
                    proof {
                        lemma_pick_done(self@, owner, site, slot.design, slot.count, keys, prior, i as int);
                        lemma_pick_done(self@, owner, site, slot.design, slot.count, keys.take(i + 1), prior, i as int);
                        assert(keys.take(i + 1).take(i as int) =~= keys.take(i as int));
                        assert(keys.take(n as int) =~= keys);
                    }
                    break;
                }
                let k = self.assets.key_at(i);
                let a = self.assets.val_at(i);
                let aid = AssetId(k);
                let free = a.owner.0 == owner.0 && a.design.0 == slot.design.0 && !contains_asset(&chosen, aid)
                    && !matches!(a.location, LocationRef::Formation(_)) && !matches!(a.location, LocationRef::Convoy(_))
                    && match self.resolve_site(a.location) {
                    Some(x) => x.0 == site.0,
                    None => false,
                };
                proof {
                    let picks = pick_for_slot(self@, owner, site, slot.design, slot.count, keys.take(i as int), prior);
                    assert(!picks.contains(aid)) by {
                        if picks.contains(aid) {
                            let x = choose|x: int| 0 <= x < picks.len() && picks[x] == aid;
                            let y = choose|y: int| 0 <= y < keys.take(i as int).len() && keys.take(i as int)[y] == aid.0;
                            assert(keys[y] < keys[i as int]);
                        }
                    }
                    assert(chosen@.contains(aid) == prior.contains(aid)) by {
                        if chosen@.contains(aid) && !prior.contains(aid) {
                            let x = choose|x: int| 0 <= x < chosen@.len() && chosen@[x] == aid;
                            assert(picks[x - prior.len()] == aid);
                        }
                        if prior.contains(aid) {
                            let x = choose|x: int| 0 <= x < prior.len() && prior[x] == aid;
                            assert(chosen@[x] == aid);
                        }
                    }
                    assert(free == free_for(self@, owner, site, slot.design, prior, k));
                }
                if free {
                    chosen.push(aid);
                    found = found + 1;
                }
                i = i + 1;
                proof {
                    if i == n {
                        assert(keys.take(n as int) =~= keys);
                    }
                }
            }
            proof {
                assert(chosen@ =~= assemble_plan(self@, owner, site, slots@.take(j + 1), keys).0);
            }
            if found < slot.count {
                shortages.push(ToeShortage { role: slot.role.clone(), design: slot.design, missing: slot.count - found });
            }
            j = j + 1;
        }
        proof {
            assert(slots@.take(slots@.len() as int) =~= slots@);
        }
        (chosen, shortages)
    }

    /// What a faction is short for a template at a site, without
    /// assembling: the raw demand signal for procurement.
    pub fn toe_shortages(&self, owner: ActorId, template_id: ToeTemplateId, site: LocationId) -> (r: Result<
        Vec<ToeShortage>,
        SimError,
    >)
        requires
            self.wf(),
        ensures
            !self@.toe_templates.dom().contains(template_id.0) ==> r == Err::<Vec<ToeShortage>, SimError>(
                SimError::UnknownToeTemplate(template_id),
            ),
            self@.toe_templates.dom().contains(template_id.0) ==> (r matches Ok(x) && shortages_match(
                x@,
                assemble_plan(self@, owner, site, self@.toe_templates[template_id.0].slots@, self.asset_keys()).1,
            )),
    {
        match self.toe_templates.get(template_id.0) {
            None => Err(SimError::UnknownToeTemplate(template_id)),
            Some(t) => {
                let (_, shortages) = self.plan_assembly(owner, site, &t.slots);
                Ok(shortages)
            },
        }
    }
}


/// Every formation's roster without one asset.
pub open spec fn rosters_without(m: Map<u64, Formation>, fin: Map<u64, Formation>, asset: AssetId) -> bool {
    &&& fin.dom() == m.dom()
    &&& forall|k: u64|
        #[trigger] m.dom().contains(k) ==> fin[k] == Formation { assets: fin[k].assets, ..m[k] } && fin[k].assets@
            == without_asset(m[k].assets@, asset)
}

impl World {
    /// Assemble a formation from real, physically present assets the owner
    /// holds at `site` (in the open or in stockpiles there). Fails with a
    /// typed shortage list when the template cannot be filled completely:
    /// nothing is spawned, nothing is partially locked.
    pub fn try_assemble_formation(&mut self, owner: ActorId, template_id: ToeTemplateId, name: &str, site: LocationId) -> (r:
        Result<FormationId, SimError>)
        requires
            old(self).wf(),
            old(self)@.has_room(2 + old(self).asset_keys().len() as int),
        ensures
            final(self).wf(),
            final(self)@.seed == old(self)@.seed,
            !old(self)@.actors.dom().contains(owner.0) ==> r == Err::<FormationId, SimError>(
                SimError::UnknownActor(owner),
            ) && final(self)@ == old(self)@,
            old(self)@.actors.dom().contains(owner.0) && !old(self)@.locations.dom().contains(site.0) ==> r
                == Err::<FormationId, SimError>(SimError::UnknownLocation(site)) && final(self)@ == old(self)@,
            old(self)@.actors.dom().contains(owner.0) && old(self)@.locations.dom().contains(site.0)
                && !old(self)@.toe_templates.dom().contains(template_id.0) ==> r == Err::<FormationId, SimError>(
                SimError::UnknownToeTemplate(template_id),
            ) && final(self)@ == old(self)@,
            old(self)@.actors.dom().contains(owner.0) && old(self)@.locations.dom().contains(site.0) && old(
                self,
            )@.toe_templates.dom().contains(template_id.0) ==> {
                let plan = assemble_plan(
                    old(self)@,
                    owner,
                    site,
                    old(self)@.toe_templates[template_id.0].slots@,
                    old(self).asset_keys(),
                );
                let id = FormationId(old(self)@.next_id);
                let fm = final(self)@.formations[id.0];
                if plan.1.len() > 0 {
                    (r matches Err(SimError::ToeShortage(list)) && shortages_match(list@, plan.1)) && final(self)@
                        == old(self)@
                } else {
                    &&& r == Ok::<FormationId, SimError>(id)
                    &&& fm.name@ == name@
                    &&& fm.assets@ == plan.0
                    &&& final(self)@.events.last().kind->FormationAssembled_assets@ == plan.0
                    &&& final(self)@ == assets_moved(
                        WorldView {
                            formations: old(self)@.formations.insert(
                                id.0,
                                Formation {
                                    id,
                                    owner,
                                    template: template_id,
                                    name: fm.name,
                                    assets: fm.assets,
                                    state: FormationState::Stationed { at: site },
                                    formed_day: old(self)@.clock.day,
                                },
                            ),
                            ..old(self)@.bump()
                        },
                        plan.0,
                        LocationRef::Formation(id),
                    ).log(
                        EventKind::FormationAssembled {
                            formation: id,
                            template: template_id,
                            assets: final(self)@.events.last().kind->FormationAssembled_assets,
                        },
                    )
                }
            },
            crate::invariants::consistent(old(self)@) ==> crate::invariants::consistent(final(self)@),
    {
        if !self.actors.contains(owner.0) {
            return Err(SimError::UnknownActor(owner));
        }
        if !self.locations.contains(site.0) {
            return Err(SimError::UnknownLocation(site));
        }
        let (chosen, shortages) = match self.toe_templates.get(template_id.0) {
            None => {
                return Err(SimError::UnknownToeTemplate(template_id));
            },
            Some(t) => self.plan_assembly(owner, site, &t.slots),
        };
        if shortages.len() > 0 {
            return Err(SimError::ToeShortage(shortages));
        }
        let ghost v = self@;
        proof {
            self.assets.lemma_facts();
            lemma_plan(v, owner, site, v.toe_templates[template_id.0].slots@, self.asset_keys());
            let keys = self.asset_keys();
            let ids = chosen@.map_values(|a: AssetId| a.0);
            assert(ids.no_duplicates()) by {
                assert forall|i: int, j: int| 0 <= i < ids.len() && 0 <= j < ids.len() && i != j implies ids[i]
                    != ids[j] by {
                    assert(chosen@[i] != chosen@[j]);
                }
            }
            crate::table::lemma_increasing_distinct(keys);
            assert forall|i: int| 0 <= i < ids.len() implies keys.contains(#[trigger] ids[i]) by {
                assert(keys.contains(chosen@[i].0));
            }
            crate::table::lemma_distinct_within(ids, keys);
        }
        let id = FormationId(self.alloc_id());
        let formed_day = self.clock.day;
        proof {
            self.formations.lemma_fresh(id.0);
        }
        self.formations.insert_new(
            id.0,
            Formation {
                id,
                owner,
                template: template_id,
                name: name.to_owned(),
                assets: crate::table::copy_slice(chosen.as_slice()),
                state: FormationState::Stationed { at: site },
                formed_day,
            },
        );
        proof {
            self.lemma_keys_wf();
        }
        let ghost v1 = self@;
        let mut j: usize = 0;
        while j < chosen.len()
            invariant
                self.wf(),
                j <= chosen@.len(),
                v1.assets.dom() == v.assets.dom(),
                v1.next_id == v.next_id + 1,
                v1.next_event_seq <= v1.next_id,
                v.next_id + 2 + chosen@.len() <= u64::MAX,
                forall|k: int| 0 <= k < chosen@.len() ==> v.assets.dom().contains(#[trigger] chosen@[k].0),
                self@ == assets_moved(v1, chosen@.take(j as int), LocationRef::Formation(id)),
            decreases chosen@.len() - j,
        {
            proof {
                crate::convoys::lemma_assets_moved(v1, chosen@.take(j as int), LocationRef::Formation(id));
                assert(chosen@.take(j + 1).drop_last() =~= chosen@.take(j as int));
                assert(chosen@.take(j + 1).last() == chosen@[j as int]);
            }
            let _ = self.move_asset_raw(chosen[j], LocationRef::Formation(id));
            j = j + 1;
        }
        proof {
            assert(chosen@.take(chosen@.len() as int) =~= chosen@);
            crate::convoys::lemma_assets_moved(v1, chosen@, LocationRef::Formation(id));
        }
        let ghost w2 = self@;
        self.push_event(EventKind::FormationAssembled { formation: id, template: template_id, assets: chosen });
        proof {
            let fm = self@.formations[id.0];
            assert(fm.assets@ == chosen@);
            assert(w2 == assets_moved(v1, chosen@, LocationRef::Formation(id)));
            assert(v1 == WorldView {
                formations: v.formations.insert(
                    id.0,
                    Formation {
                        id,
                        owner,
                        template: template_id,
                        name: fm.name,
                        assets: fm.assets,
                        state: FormationState::Stationed { at: site },
                        formed_day: v.clock.day,
                    },
                ),
                ..v.bump()
            });
            if crate::invariants::consistent(v) {
                let slots = v.toe_templates[template_id.0].slots@;
                lemma_plan_takeable(v, owner, site, slots, old(self).asset_keys());
                crate::invariants::law_assemble_keeps_invariants(
                    v,
                    self@,
                    owner,
                    site,
                    id,
                    template_id,
                    chosen@,
                    fm,
                    self@.events.last().kind,
                );
            }
        }
        Ok(id)
    }

    /// Strike an asset from every formation roster it is on (a destroyed or
    /// captured unit no longer serves in the formation).
    pub(crate) fn remove_asset_from_formations(&mut self, asset: AssetId)
        requires
            old(self).wf(),
        ensures
            final(self).wf(),
            rosters_without(old(self)@.formations, final(self)@.formations, asset),
            final(self)@ == (WorldView { formations: final(self)@.formations, ..old(self)@ }),
    {
        let keys = self.formations.key_vec();
        proof {
            self.formations.lemma_facts();
        }
        let mut i: usize = 0;
        while i < keys.len()
            invariant
                self.wf(),
                i <= keys@.len(),
                keys@ == old(self).formations.keys(),
                crate::table::strictly_increasing(keys@),
                forall|x: int| 0 <= x < keys@.len() ==> old(self)@.formations.dom().contains(#[trigger] keys@[x]),
                self@ == (WorldView { formations: self@.formations, ..old(self)@ }),
                self@.formations.dom() == old(self)@.formations.dom(),
                forall|k: u64| #[trigger] old(self)@.formations.dom().contains(k) ==> keys@.contains(k),
                forall|x: int|
                    0 <= x < i ==> {
                        let k = #[trigger] keys@[x];
                        self@.formations[k] == Formation { assets: self@.formations[k].assets, ..old(self)@.formations[k] }
                            && self@.formations[k].assets@ == without_asset(old(self)@.formations[k].assets@, asset)
                    },
                forall|x: int| i <= x < keys@.len() ==> #[trigger] self@.formations[keys@[x]] == old(self)@.formations[keys@[x]],
            decreases keys@.len() - i,
        {
            let k = keys[i];
            let kept = match self.formations.get(k) {
                Some(f) => roster_without(&f.assets, asset),
                None => Vec::new(),
            };
            proof {
                assert(old(self)@.formations.dom().contains(k));
            }
            let f = self.formations.get_mut(k);
            f.assets = kept;
            proof {
                self.lemma_keys_wf();
                assert forall|x: int| 0 <= x < i + 1 implies {
                    let kk = #[trigger] keys@[x];
                    self@.formations[kk] == Formation { assets: self@.formations[kk].assets, ..old(self)@.formations[kk] }
                        && self@.formations[kk].assets@ == without_asset(old(self)@.formations[kk].assets@, asset)
                } by {
                    if x < i {
                        assert(keys@[x] < keys@[i as int]);
                    }
                }
                assert forall|x: int| i + 1 <= x < keys@.len() implies #[trigger] self@.formations[keys@[x]] == old(
                    self,
                )@.formations[keys@[x]] by {
                    assert(keys@[i as int] < keys@[x]);
                }
            }
            i = i + 1;
        }
        proof {
            assert forall|k: u64| #[trigger] old(self)@.formations.dom().contains(k) implies self@.formations[k]
                == Formation { assets: self@.formations[k].assets, ..old(self)@.formations[k] }
                && self@.formations[k].assets@ == without_asset(old(self)@.formations[k].assets@, asset) by {
                let x = choose|x: int| 0 <= x < keys@.len() && keys@[x] == k;
                assert(keys@[x] == k);
            }
        }
    }
}

/// A roster without one asset.
fn roster_without(s: &Vec<AssetId>, a: AssetId) -> (r: Vec<AssetId>)
    ensures
        r@ == without_asset(s@, a),
{
    let mut r: Vec<AssetId> = Vec::new();
    let mut i: usize = 0;
    while i < s.len()
        invariant
            i <= s@.len(),
            r@ == without_asset(s@.take(i as int), a),
        decreases s@.len() - i,
    {
        proof {
            assert(s@.take(i + 1).drop_last() =~= s@.take(i as int));
            assert(s@.take(i + 1).last() == s@[i as int]);
        }
        if s[i].0 != a.0 {
            r.push(s[i]);
        }
        i = i + 1;
    }
    proof {
        assert(s@.take(s@.len() as int) =~= s@);
    }
    r
}

} // verus!
