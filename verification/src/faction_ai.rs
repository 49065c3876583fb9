//! Faction procurement AI: the planner that consumes TO&E shortages.
//!
//! A faction goal is a standing order: keep this TO&E template filled at
//! this site. Each tick the world computes real shortages and either starts
//! real production toward them or places real escrowed buy orders for the
//! missing inputs. Nothing here spawns an asset or lot directly: every unit
//! the AI fields still has to come from production or trade.

use crate::actors::Credits;
use crate::combat::money_untouched;
use crate::error::SimError;
use crate::events::EventKind;
use crate::goods::LotState;
use crate::ids::{ActorId, CommodityId, DesignId, FactionGoalId, FactoryId, FormationId, LocationId, LotId, RecipeId, ToeTemplateId};
use crate::markets::OrderScope;
use crate::production::RecipeOutputs;
use crate::toe::{formation_state_site, Formation, FormationState};
use crate::world::{phase_ok, World, WorldView};
use vstd::prelude::*;

verus! {

#[derive(Debug, Clone, Copy, PartialEq, Eq, Structural)]
pub struct FactionGoal {
    pub id: FactionGoalId,
    pub owner: ActorId,
    pub template: ToeTemplateId,
    pub site: LocationId,
}

} // verus!

verus! {

/// A price-index entry for this commodity at this market.
pub open spec fn index_entry(v: WorldView, m: u64, c: CommodityId) -> bool {
    v.price_index.dom().contains(m) && v.price_index[m].dom().contains(c.0)
}

/// The highest price index for a commodity across every market that has
/// ever traded it.
pub open spec fn highest_index(v: WorldView, c: CommodityId, p: i64) -> bool {
    &&& exists|m: u64| index_entry(v, m, c) && v.price_index[m][c.0] == p
    &&& forall|m: u64| #[trigger] index_entry(v, m, c) ==> v.price_index[m][c.0] <= p
}

/// Who controls a site (no one, for an unknown site).
pub open spec fn controller_of(v: WorldView, site: LocationId) -> Option<ActorId> {
    if v.locations.dom().contains(site.0) {
        v.locations[site.0].controller
    } else {
        None
    }
}

/// A route out of `at` toward ground `owner` does not hold.
pub open spec fn pressing_route(v: WorldView, at: LocationId, owner: ActorId, r: u64) -> bool {
    &&& v.routes.dom().contains(r)
    &&& v.routes[r].from == at
    &&& controller_of(v, v.routes[r].to) != Some(owner)
}

/// The first such route by id.
pub open spec fn first_pressing_route(v: WorldView, at: LocationId, owner: ActorId) -> Option<u64> {
    if exists|r: u64| pressing_route(v, at, owner, r) && forall|r2: u64| #[trigger] pressing_route(v, at, owner, r2) ==> r <= r2 {
        Some(choose|r: u64| pressing_route(v, at, owner, r) && forall|r2: u64| #[trigger] pressing_route(v, at, owner, r2) ==> r <= r2)
    } else {
        None
    }
}

/// One formation's deployment decision: stationed on its owner's ground,
/// it marches along the first route (by id) toward ground its owner does
/// not hold.
pub open spec fn deploy_step(w: WorldView, k: u64) -> WorldView {
    if !w.formations.dom().contains(k) {
        w
    } else {
        let f = w.formations[k];
        match formation_state_site(f.state) {
            None => w,
            Some(at) => if controller_of(w, at) != Some(f.owner) {
                w
            } else {
                match first_pressing_route(w, at, f.owner) {
                    None => w,
                    Some(r) => if w.clock.day + w.routes[r].distance_days > u64::MAX {
                        w
                    } else {
                        let arrives_day = (w.clock.day + w.routes[r].distance_days) as u64;
                        (WorldView {
                            formations: w.formations.insert(
                                k,
                                Formation {
                                    state: FormationState::EnRoute {
                                        route: crate::ids::RouteId(r),
                                        departed_day: w.clock.day,
                                        arrives_day,
                                    },
                                    ..f
                                },
                            ),
                            ..w
                        }).log(
                            EventKind::FormationMarchOrdered {
                                formation: FormationId(k),
                                route: crate::ids::RouteId(r),
                                arrives_day,
                            },
                        )
                    },
                }
            },
        }
    }
}

/// A formation stationed on ground its owner controls marches along the
/// lowest-id route out of its site toward ground the owner does not
/// control (held by another faction or by no one), whenever there is one
/// and its arrival day can be counted.
pub proof fn law_deployment_marches_to_unheld_ground(w: WorldView, k: u64, r: u64)
    requires
        w.formations.dom().contains(k),
        w.formations[k].state matches FormationState::Stationed { at } && w.locations.dom().contains(at.0)
            && w.locations[at.0].controller == Some(w.formations[k].owner),
        w.routes.dom().contains(r),
        w.formations[k].state matches FormationState::Stationed { at } && w.routes[r].from == at,
        !(w.locations.dom().contains(w.routes[r].to.0) && w.locations[w.routes[r].to.0].controller == Some(
            w.formations[k].owner,
        )),
        forall|r2: u64|
            #![trigger w.routes[r2]]
            w.routes.dom().contains(r2) && w.routes[r2].from == w.routes[r].from && !(w.locations.dom().contains(
                w.routes[r2].to.0,
            ) && w.locations[w.routes[r2].to.0].controller == Some(w.formations[k].owner)) ==> r <= r2,
        w.clock.day + w.routes[r].distance_days <= u64::MAX,
    ensures
        deploy_step(w, k).formations[k].state == (FormationState::EnRoute {
            route: crate::ids::RouteId(r),
            departed_day: w.clock.day,
            arrives_day: (w.clock.day + w.routes[r].distance_days) as u64,
        }),
        deploy_step(w, k).events.last().kind == (EventKind::FormationMarchOrdered {
            formation: FormationId(k),
            route: crate::ids::RouteId(r),
            arrives_day: (w.clock.day + w.routes[r].distance_days) as u64,
        }),
{
    let f = w.formations[k];
    let at = w.routes[r].from;
    assert(pressing_route(w, at, f.owner, r));
    assert forall|r2: u64| #[trigger] pressing_route(w, at, f.owner, r2) implies r <= r2 by {
        assert(w.routes.dom().contains(r2) && w.routes[r2].from == w.routes[r].from);
    }
    let c = choose|c: u64| pressing_route(w, at, f.owner, c) && forall|r2: u64| #[trigger] pressing_route(w, at, f.owner, r2) ==> c <= r2;
    assert(pressing_route(w, at, f.owner, c));
    assert(c <= r && r <= c);
    assert(first_pressing_route(w, at, f.owner) == Some(r));
}

/// A formation that is not stationed on its owner's ground, or whose site
/// has no route toward ground its owner does not control, stays put.
pub proof fn law_deployment_stays_otherwise(w: WorldView, k: u64)
    requires
        w.formations.dom().contains(k),
        w.formations[k].state matches FormationState::Stationed { at } ==> !(w.locations.dom().contains(at.0)
            && w.locations[at.0].controller == Some(w.formations[k].owner)) || forall|r: u64|
            #![trigger w.routes[r]]
            w.routes.dom().contains(r) && w.routes[r].from == at ==> w.locations.dom().contains(w.routes[r].to.0)
                && w.locations[w.routes[r].to.0].controller == Some(w.formations[k].owner),
    ensures
        deploy_step(w, k) == w,
{
    let f = w.formations[k];
    if let FormationState::Stationed { at } = f.state {
        if controller_of(w, at) == Some(f.owner) {
            if let Some(r) = first_pressing_route(w, at, f.owner) {
                let c = choose|c: u64|
                    pressing_route(w, at, f.owner, c) && forall|r2: u64| #[trigger] pressing_route(w, at, f.owner, r2) ==> c <= r2;
                assert(pressing_route(w, at, f.owner, c));
                assert(w.routes.dom().contains(c) && w.routes[c].from == at);
            }
        }
    }
}

/// The deployment phase over formations in id order.
pub open spec fn deployed(v: WorldView, keys: Seq<u64>) -> WorldView
    decreases keys.len(),
{
    if keys.len() == 0 {
        v
    } else {
        deploy_step(deployed(v, keys.drop_last()), keys.last())
    }
}

pub proof fn lemma_deployed(v: WorldView, keys: Seq<u64>)
    requires
        v.next_id + keys.len() <= u64::MAX,
    ensures
        v.next_id <= deployed(v, keys).next_id <= v.next_id + keys.len(),
    decreases keys.len(),
{
    if keys.len() > 0 {
        lemma_deployed(v, keys.drop_last());
    }
}

impl World {
    /// Register a standing TO&E goal for a faction. The faction AI phase of
    /// the daily tick tries to fill it from real production and trade for
    /// as long as the goal exists.
    pub fn set_faction_goal(&mut self, owner: ActorId, template: ToeTemplateId, site: LocationId) -> (r: Result<
        FactionGoalId,
        SimError,
    >)
        requires
            old(self).wf(),
            old(self)@.has_room(2),
        ensures
            final(self).wf(),
            !old(self)@.actors.dom().contains(owner.0) ==> r == Err::<FactionGoalId, SimError>(
                SimError::UnknownActor(owner),
            ) && final(self)@ == old(self)@,
            old(self)@.actors.dom().contains(owner.0) && !old(self)@.toe_templates.dom().contains(template.0) ==> r
                == Err::<FactionGoalId, SimError>(SimError::UnknownToeTemplate(template)) && final(self)@ == old(
                self,
            )@,
            old(self)@.actors.dom().contains(owner.0) && old(self)@.toe_templates.dom().contains(template.0) && !old(
                self,
            )@.locations.dom().contains(site.0) ==> r == Err::<FactionGoalId, SimError>(SimError::UnknownLocation(site))
                && final(self)@ == old(self)@,
            old(self)@.actors.dom().contains(owner.0) && old(self)@.toe_templates.dom().contains(template.0) && old(
                self,
            )@.locations.dom().contains(site.0) ==> {
                let id = FactionGoalId(old(self)@.next_id);
                r == Ok::<FactionGoalId, SimError>(id) && final(self)@ == (WorldView {
                    faction_goals: old(self)@.faction_goals.insert(id.0, FactionGoal { id, owner, template, site }),
                    ..old(self)@.bump()
                }).log(EventKind::FactionGoalSet { goal: id, owner, template, site })
            },
            crate::invariants::consistent(old(self)@) ==> crate::invariants::consistent(final(self)@),
    {
        if !self.actors.contains(owner.0) {
            return Err(SimError::UnknownActor(owner));
        }
        if !self.toe_templates.contains(template.0) {
            return Err(SimError::UnknownToeTemplate(template));
        }
        if !self.locations.contains(site.0) {
            return Err(SimError::UnknownLocation(site));
        }
        let id = FactionGoalId(self.alloc_id());
        proof {
            self.faction_goals.lemma_fresh(id.0);
        }
        self.faction_goals.insert_new(id.0, FactionGoal { id, owner, template, site });
        proof {
            self.lemma_keys_wf();
        }
        self.push_event(EventKind::FactionGoalSet { goal: id, owner, template, site });
        proof {
            let o = old(self)@;
            if crate::invariants::consistent(o) {
                assert(crate::invariants::grows_soundly(o, self@));
                crate::invariants::lemma_consistent_grows(o, self@);
            }
        }
        Ok(id)
    }

    pub fn faction_goal(&self, id: FactionGoalId) -> (r: Option<&FactionGoal>)
        requires
            self.wf(),
        ensures
            match r {
                Some(g) => self@.faction_goals.dom().contains(id.0) && *g == self@.faction_goals[id.0],
                None => !self@.faction_goals.dom().contains(id.0),
            },
    {
        self.faction_goals.get(id.0)
    }

    /// The highest price index for a commodity across every market that
    /// has ever traded it; `None` when none has.
    pub(crate) fn price_index_anywhere(&self, commodity: CommodityId) -> (r: Option<Credits>)
        requires
            self.wf(),
        ensures
            match r {
                Some(p) => highest_index(self@, commodity, p),
                None => forall|m: u64| !index_entry(self@, m, commodity),
            },
    {
        let ghost v = self@;
        let ghost pi = v.price_index;
        let mut best: Option<i64> = None;
        let n = self.price_index.len();
        proof {
            self.price_index.lemma_facts();
        }
        let ghost keys = self.price_index.keys();
        let mut i: usize = 0;
        while i < n
            invariant
                self.wf(),
                v == self@,
                pi == v.price_index,
                keys == self.price_index.keys(),
                n == keys.len(),
                i <= n,
                forall|k: u64| #[trigger] pi.dom().contains(k) <==> keys.contains(k),
                match best {
                    Some(p) => {
                        &&& exists|j: int| 0 <= j < i && index_entry(v, keys[j], commodity) && pi[keys[j]][commodity.0] == p
                        &&& forall|j: int| 0 <= j < i && index_entry(v, #[trigger] keys[j], commodity) ==> pi[keys[j]][commodity.0] <= p
                    },
                    None => forall|j: int| 0 <= j < i ==> !index_entry(v, #[trigger] keys[j], commodity),
                },
            decreases n - i,
        {
            let m = self.price_index.key_at(i);
            let inner = self.price_index.val_at(i);
            proof {
                assert(pi[m] == inner@);
                assert(keys[i as int] == m);
            }
            let entry = inner.get(commodity.0);
            match entry {
                Some(p) => {
                    let better = match best {
                        None => true,
                        Some(b) => *p > b,
                    };
                    if better {
                        proof {
                            assert(index_entry(v, keys[i as int], commodity) && pi[keys[i as int]][commodity.0] == *p);
                        }
                        best = Some(*p);
                    }
                },
                None => {},
            }
            proof {
                match best {
                    Some(b) => {
                        let w = choose|j: int| 0 <= j < i + 1 && index_entry(v, keys[j], commodity) && pi[keys[j]][commodity.0] == b;
                    },
                    None => {},
                }
            }
            i = i + 1;
        }
        proof {
            match best {
                Some(p) => {
                    assert forall|m: u64| #[trigger] index_entry(v, m, commodity) implies pi[m][commodity.0] <= p by {
                        assert(keys.contains(m));
                        let x = choose|x: int| 0 <= x < keys.len() && keys[x] == m;
                        assert(index_entry(v, keys[x], commodity));
                    }
                    let j = choose|j: int| 0 <= j < n && index_entry(v, keys[j], commodity) && pi[keys[j]][commodity.0] == p;
                    assert(index_entry(v, keys[j], commodity) && v.price_index[keys[j]][commodity.0] == p);
                },
                None => {
                    assert forall|m: u64| !index_entry(v, m, commodity) by {
                        if index_entry(v, m, commodity) {
                            assert(keys.contains(m));
                            let x = choose|x: int| 0 <= x < keys.len() && keys[x] == m;
                            assert(!index_entry(v, keys[x], commodity));
                        }
                    }
                },
            }
        }
        best
    }

    /// The first route by id out of `at` toward ground `owner` does not
    /// hold.
    fn find_pressing_route(&self, at: LocationId, owner: ActorId) -> (r: Option<u64>)
        requires
            self.wf(),
        ensures
            r == first_pressing_route(self@, at, owner),
    {
        let n = self.routes.len();
        proof {
            self.routes.lemma_facts();
        }
        let mut i: usize = 0;
        while i < n
            invariant
                self.wf(),
                n == self.routes.keys().len(),
                i <= n,
                forall|j: int| 0 <= j < i ==> !pressing_route(self@, at, owner, #[trigger] self.routes.keys()[j]),
            decreases n - i,
        {
            let k = self.routes.key_at(i);
            let route = self.routes.val_at(i);
            let dest = match self.locations.get(route.to.0) {
                Some(l) => l.controller,
                None => None,
            };
            let held = match dest {
                Some(c) => c.0 == owner.0,
                None => false,
            };
            if route.from.0 == at.0 && !held {
                proof {
                    let keys = self.routes.keys();
                    self.routes.lemma_facts();
                    assert(pressing_route(self@, at, owner, k));
                    assert forall|r2: u64| #[trigger] pressing_route(self@, at, owner, r2) implies k <= r2 by {
                        assert(keys.contains(r2));
                        let x = choose|x: int| 0 <= x < keys.len() && keys[x] == r2;
                        if x < i {
                            assert(!pressing_route(self@, at, owner, keys[x]));
                        } else if x > i {
                            assert(keys[i as int] < keys[x]);
                        }
                    }
                    let c = choose|r: u64| pressing_route(self@, at, owner, r) && forall|r2: u64| #[trigger] pressing_route(self@, at, owner, r2) ==> r <= r2;
                    assert(c <= k && k <= c);
                }
                return Some(k);
            }
            proof {
                assert(self.routes.keys()[i as int] == k);
            }
            i = i + 1;
        }
        proof {
            let keys = self.routes.keys();
            assert forall|r: u64| !pressing_route(self@, at, owner, r) by {
                if pressing_route(self@, at, owner, r) {
                    assert(keys.contains(r));
                    let x = choose|x: int| 0 <= x < keys.len() && keys[x] == r;
                    assert(!pressing_route(self@, at, owner, keys[x]));
                }
            }
        }
        None
    }

    /// Automatic deployment phase: a formation stationed on ground its own
    /// owner controls marches toward the first (by route id) adjacent site
    /// its owner does not control.
    pub(crate) fn tick_faction_deployment(&mut self)
        requires
            old(self).wf(),
            old(self)@.has_room(old(self).formations.keys().len() as int),
        ensures
            final(self).wf(),
            final(self)@ == deployed(old(self)@, old(self).formations.keys()),
            phase_ok(old(self)@, final(self)@),
            money_untouched(final(self)@, old(self)@),
    {
        let keys = self.formations.key_vec();
        let mut i: usize = 0;
        while i < keys.len()
            invariant
                self.wf(),
                i <= keys@.len(),
                keys@ == old(self).formations.keys(),
                old(self)@.next_id + keys@.len() <= u64::MAX,
                self@ == deployed(old(self)@, keys@.take(i as int)),
                phase_ok(old(self)@, self@),
                money_untouched(self@, old(self)@),
            decreases keys@.len() - i,
        {
            proof {
                lemma_deployed(old(self)@, keys@.take(i as int));
                assert(keys@.take(i + 1).drop_last() =~= keys@.take(i as int));
                assert(keys@.take(i + 1).last() == keys@[i as int]);
            }
            let k = keys[i];
            let (owner, at) = match self.formations.get(k) {
                None => (ActorId(0), None),
                Some(f) => (f.owner, f.current_site()),
            };
            match at {
                None => {},
                Some(at) => {
                    let home = match self.locations.get(at.0) {
                        Some(l) => l.controller,
                        None => None,
                    };
                    let held = match home {
                        Some(c) => c.0 == owner.0,
                        None => false,
                    };
                    if held {
                        match self.find_pressing_route(at, owner) {
                            None => {},
                            Some(r) => {
                                let dist = match self.routes.get(r) {
                                    Some(rt) => rt.distance_days,
                                    None => 0,
                                };
                                if self.clock.day <= u64::MAX - dist {
                                    let ghost s1 = self@;
                                    let _ = self.order_formation_march(FormationId(k), crate::ids::RouteId(r));
                                    proof {
                                        crate::world::lemma_phase_trans(old(self)@, s1, self@);
                                    }
                                }
                            },
                        }
                    }
                },
            }
            i = i + 1;
        }
        proof {
            assert(keys@.take(keys@.len() as int) =~= keys@);
        }
    }
}


/// Recipe `rc` makes serial assets of `design`, and, where `tooling` is
/// given, needs exactly that tooling design.
pub open spec fn recipe_makes(rc: crate::production::Recipe, design: DesignId, tooling: Option<DesignId>) -> bool {
    &&& rc.outputs matches RecipeOutputs::SerialAssets { design: d, .. } && d == design
    &&& tooling matches Some(t) ==> rc.required_tooling_design == Some(t)
}

/// A job the planner may start for `owner`: at one of `owner`'s factories,
/// under a recipe that makes serial assets and needs tooling.
pub open spec fn planned_job(v: WorldView, owner: ActorId, j: crate::production::ProductionJob) -> bool {
    &&& j.owner == owner
    &&& v.factories.dom().contains(j.factory.0)
    &&& v.factories[j.factory.0].owner == owner
    &&& v.recipes.dom().contains(j.recipe.0)
    &&& v.recipes[j.recipe.0].outputs is SerialAssets
    &&& v.recipes[j.recipe.0].required_tooling_design is Some
}

/// An order the planner may place for `owner`: a global bid for a known
/// commodity.
pub open spec fn planned_order(v: WorldView, owner: ActorId, o: crate::markets::BuyOrder) -> bool {
    &&& o.buyer == owner
    &&& o.scope == OrderScope::Global
    &&& v.commodities.dom().contains(o.commodity.0)
}

/// What planning leaves alone: factories, recipes, goals and commodities;
/// and it only adds production jobs and buy orders.
pub open spec fn planning_frame(v: WorldView, w: WorldView) -> bool {
    &&& w.factories == v.factories
    &&& w.recipes == v.recipes
    &&& w.faction_goals == v.faction_goals
    &&& w.commodities == v.commodities
    &&& forall|k: u64| #[trigger]
        v.production_jobs.dom().contains(k) ==> w.production_jobs.dom().contains(k) && w.production_jobs[k]
            == v.production_jobs[k]
    &&& crate::markets::orders_kept(v, w)
}

/// Every job and order new in `w` is one the planner may start or place for
/// `owner`.
pub open spec fn planned_for(v: WorldView, w: WorldView, owner: ActorId) -> bool {
    &&& forall|k: u64| #[trigger]
        w.production_jobs.dom().contains(k) && !v.production_jobs.dom().contains(k) ==> planned_job(
            v,
            owner,
            w.production_jobs[k],
        )
    &&& forall|k: u64| #[trigger]
        w.buy_orders.dom().contains(k) && !v.buy_orders.dom().contains(k) ==> planned_order(v, owner, w.buy_orders[k])
}

/// Every job and order new in `w` is one the planner may start or place for
/// the owner of one of `v`'s goals.
pub open spec fn planned_for_goals(v: WorldView, w: WorldView) -> bool {
    &&& forall|k: u64| #[trigger]
        w.production_jobs.dom().contains(k) && !v.production_jobs.dom().contains(k) ==> exists|g: u64|
            #[trigger] v.faction_goals.dom().contains(g) && planned_job(v, v.faction_goals[g].owner, w.production_jobs[k])
    &&& forall|k: u64| #[trigger]
        w.buy_orders.dom().contains(k) && !v.buy_orders.dom().contains(k) ==> exists|g: u64|
            #[trigger] v.faction_goals.dom().contains(g) && planned_order(v, v.faction_goals[g].owner, w.buy_orders[k])
}

/// Starting a job at one of `owner`'s factories under a tooled recipe for
/// serial assets keeps the planning frame and plans only for `owner`.
pub proof fn lemma_planned_start(
    v: WorldView,
    s: WorldView,
    w: WorldView,
    owner: ActorId,
    factory: FactoryId,
    recipe: RecipeId,
)
    requires
        planning_frame(v, s),
        planned_for(v, s, owner),
        crate::production::start_frame(s, w, factory, recipe),
        s.factories.dom().contains(factory.0) && s.recipes.dom().contains(recipe.0) ==> {
            &&& s.factories[factory.0].owner == owner
            &&& s.recipes[recipe.0].outputs is SerialAssets
            &&& s.recipes[recipe.0].required_tooling_design is Some
        },
    ensures
        planning_frame(v, w),
        planned_for(v, w, owner),
{
    assert forall|k: u64| #[trigger]
        w.production_jobs.dom().contains(k) && !v.production_jobs.dom().contains(k) implies planned_job(
            v,
            owner,
            w.production_jobs[k],
        ) by {
        if s.production_jobs.dom().contains(k) {
            assert(w.production_jobs[k] == s.production_jobs[k]);
        }
    }
}

/// Planning for one goal's owner after planning for goals keeps the frame
/// and plans only for goal owners.
pub proof fn lemma_planned_goal(v: WorldView, s: WorldView, w: WorldView, g: u64)
    requires
        planning_frame(v, s),
        planned_for_goals(v, s),
        planning_frame(s, w),
        v.faction_goals.dom().contains(g),
        planned_for(s, w, v.faction_goals[g].owner),
    ensures
        planning_frame(v, w),
        planned_for_goals(v, w),
{
    assert forall|k: u64| #[trigger]
        w.production_jobs.dom().contains(k) && !v.production_jobs.dom().contains(k) implies exists|g2: u64|
            #[trigger] v.faction_goals.dom().contains(g2) && planned_job(v, v.faction_goals[g2].owner, w.production_jobs[k]) by {
        if s.production_jobs.dom().contains(k) {
            assert(w.production_jobs[k] == s.production_jobs[k]);
        } else {
            assert(planned_job(s, v.faction_goals[g].owner, w.production_jobs[k]));
            assert(planned_job(v, v.faction_goals[g].owner, w.production_jobs[k]));
        }
    }
    assert forall|k: u64| #[trigger]
        w.buy_orders.dom().contains(k) && !v.buy_orders.dom().contains(k) implies exists|g2: u64|
            #[trigger] v.faction_goals.dom().contains(g2) && planned_order(v, v.faction_goals[g2].owner, w.buy_orders[k]) by {
        if s.buy_orders.dom().contains(k) {
            assert(w.buy_orders[k] == s.buy_orders[k]);
        } else {
            assert(planned_order(s, v.faction_goals[g].owner, w.buy_orders[k]));
        }
    }
}

/// The total active quantity of `commodity` that `owner` holds among
/// `lots` (saturating).
pub open spec fn owned_total(lots: Seq<crate::goods::Lot>, owner: ActorId, commodity: CommodityId) -> u64
    decreases lots.len(),
{
    if lots.len() == 0 {
        0
    } else {
        let t = owned_total(lots.drop_last(), owner, commodity);
        let l = lots.last();
        if l.owner == owner && l.commodity == commodity && l.state is Active {
            crate::arith::clamp_u64(t + l.quantity) as u64
        } else {
            t
        }
    }
}

/// Order `o` is `owner`'s global bid for `commodity`.
pub open spec fn global_order_of(o: crate::markets::BuyOrder, owner: ActorId, commodity: CommodityId) -> bool {
    o.buyer == owner && o.commodity == commodity && o.scope == OrderScope::Global
}

/// `k` is the lowest-numbered recipe that makes `design` with no tooling
/// asked for.
pub open spec fn first_recipe_for(v: WorldView, design: DesignId, k: u64) -> bool {
    &&& v.recipes.dom().contains(k)
    &&& recipe_makes(v.recipes[k], design, None)
    &&& forall|k2: u64| #[trigger] v.recipes.dom().contains(k2) && k2 < k ==> !recipe_makes(v.recipes[k2], design, None)
}

/// The price a planner bids against for `c`: the highest price index
/// anywhere, or the commodity's base price where no market has traded it.
pub open spec fn reference_price(v: WorldView, c: CommodityId) -> i64 {
    if exists|p: i64| highest_index(v, c, p) {
        choose|p: i64| highest_index(v, c, p)
    } else {
        v.commodities[c.0].base_price
    }
}

/// 115% of a price, saturating, then divided by a hundred toward zero.
pub open spec fn procurement_limit(reference: i64) -> i64 {
    let c = crate::arith::clamp_i64(reference * 115);
    if c >= 0 {
        (c / 100) as i64
    } else {
        (-((-c) / 100)) as i64
    }
}

/// Between `v` and `w` the planner only added orders, lowered treasuries,
/// moved the counter and logged: prices, markets and stock stayed put.
pub open spec fn procure_frame(v: WorldView, w: WorldView) -> bool {
    &&& crate::markets::settled_bids(v, w)
    &&& crate::markets::demand_frame(v, w)
    &&& w.lots == v.lots
}

/// One input of the recipe the planner orders toward was seen to, from `v`
/// to `w`: the owner holds enough, it has a global order for the commodity,
/// the commodity is unknown, ids ran out, or the order could not be placed
/// (an invalid limit or escrow, an unknown buyer, or a treasury too small
/// for the escrow).
pub open spec fn input_seen_to(
    v: WorldView,
    w: WorldView,
    owned: u64,
    owner: ActorId,
    c: CommodityId,
    required: u64,
) -> bool {
    let missing = (required - owned) as u64;
    let limit = procurement_limit(reference_price(v, c));
    ||| owned >= required
    ||| exists|k: u64| #[trigger] w.buy_orders.dom().contains(k) && global_order_of(w.buy_orders[k], owner, c)
    ||| !v.commodities.dom().contains(c.0)
    ||| w.next_id > u64::MAX - 3
    ||| crate::markets::order_error(v, OrderScope::Global, c, missing, limit) is Some
    ||| !v.actors.dom().contains(owner.0)
    ||| w.actors[owner.0].treasury < missing * limit
}

proof fn lemma_highest_unique(v: WorldView, c: CommodityId, p: i64)
    requires
        highest_index(v, c, p),
    ensures
        reference_price(v, c) == p,
{
    let q = choose|q: i64| highest_index(v, c, q);
    let mp = choose|m: u64| index_entry(v, m, c) && v.price_index[m][c.0] == p;
    let mq = choose|m: u64| index_entry(v, m, c) && v.price_index[m][c.0] == q;
    assert(v.price_index[mp][c.0] <= q);
    assert(v.price_index[mq][c.0] <= p);
}

proof fn lemma_procure_frame_trans(a: WorldView, b: WorldView, c: WorldView)
    requires
        procure_frame(a, b),
        procure_frame(b, c),
    ensures
        procure_frame(a, c),
{
    assert forall|x: u64| #[trigger] a.actors.dom().contains(x) implies c.actors[x].treasury <= a.actors[x].treasury by {
        assert(b.actors.dom().contains(x));
    }
}

proof fn lemma_seen_to_kept(v: WorldView, s: WorldView, w: WorldView, owned: u64, owner: ActorId, c: CommodityId, required: u64)
    requires
        procure_frame(v, s),
        procure_frame(s, w),
        input_seen_to(v, s, owned, owner, c, required),
    ensures
        input_seen_to(v, w, owned, owner, c, required),
{
    if exists|k: u64| #[trigger] s.buy_orders.dom().contains(k) && global_order_of(s.buy_orders[k], owner, c) {
        let k = choose|k: u64| #[trigger] s.buy_orders.dom().contains(k) && global_order_of(s.buy_orders[k], owner, c);
        assert(w.buy_orders.dom().contains(k) && w.buy_orders[k] == s.buy_orders[k]);
    }
    if v.actors.dom().contains(owner.0) {
        assert(s.actors.dom().contains(owner.0));
    }
}

/// Money stays conserved from one state to the next, when it was.
pub open spec fn money_kept(v: WorldView, w: WorldView) -> bool {
    v.money_conserved() ==> w.money_conserved()
}

impl World {
    /// Whether the recipe's inputs include this commodity.
    fn recipe_uses(inputs: &Vec<(CommodityId, u64)>, c: CommodityId) -> (r: bool)
        ensures
            r == exists|i: int| 0 <= i < inputs@.len() && (#[trigger] inputs@[i]).0 == c,
    {
        let mut i: usize = 0;
        while i < inputs.len()
            invariant
                i <= inputs@.len(),
                forall|j: int| 0 <= j < i ==> (#[trigger] inputs@[j]).0 != c,
            decreases inputs@.len() - i,
        {
            if inputs[i].0.0 == c.0 {
                proof {
                    assert(inputs@[i as int].0 == c);
                }
                return true;
            }
            i = i + 1;
        }
        false
    }

    /// The first recipe (by id) that makes serial assets of `design`, and,
    /// when `tooling` is given, requires exactly that tooling design.
    fn recipe_for(&self, design: DesignId, tooling: Option<DesignId>) -> (r: Option<u64>)
        requires
            self.wf(),
        ensures
            r matches Some(k) ==> self@.recipes.dom().contains(k) && recipe_makes(self@.recipes[k], design, tooling)
                && forall|k2: u64| #[trigger]
                self@.recipes.dom().contains(k2) && k2 < k ==> !recipe_makes(self@.recipes[k2], design, tooling),
            r is None ==> forall|k: u64| #[trigger]
                self@.recipes.dom().contains(k) ==> !recipe_makes(self@.recipes[k], design, tooling),
    {
        let n = self.recipes.len();
        proof {
            self.recipes.lemma_facts();
        }
        let mut i: usize = 0;
        while i < n
            invariant
                self.wf(),
                n == self.recipes.keys().len(),
                i <= n,
                crate::table::strictly_increasing(self.recipes.keys()),
                forall|k: u64| #[trigger] self@.recipes.dom().contains(k) <==> self.recipes.keys().contains(k),
                forall|x: int|
                    0 <= x < i ==> !recipe_makes(self@.recipes[#[trigger] self.recipes.keys()[x]], design, tooling),
            decreases n - i,
        {
            let k = self.recipes.key_at(i);
            let rc = self.recipes.val_at(i);
            let makes = match rc.outputs {
                RecipeOutputs::SerialAssets { design: d, .. } => d.0 == design.0,
                _ => false,
            };
            let tooled = match tooling {
                None => true,
                Some(t) => match rc.required_tooling_design {
                    Some(x) => x.0 == t.0,
                    None => false,
                },
            };
            proof {
                self.recipes.lemma_facts();
            }
            if makes && tooled {
                proof {
                    assert forall|k2: u64| #[trigger]
                        self@.recipes.dom().contains(k2) && k2 < k implies !recipe_makes(self@.recipes[k2], design, tooling) by {
                        let x = choose|x: int| 0 <= x < self.recipes.keys().len() && self.recipes.keys()[x] == k2;
                        if x >= i {
                            if x > i {
                                assert(self.recipes.keys()[i as int] < self.recipes.keys()[x]);
                            }
                        }
                    }
                }
                return Some(k);
            }
            i = i + 1;
        }
        proof {
            assert forall|k: u64| #[trigger] self@.recipes.dom().contains(k) implies !recipe_makes(self@.recipes[k], design, tooling) by {
                let x = choose|x: int| 0 <= x < self.recipes.keys().len() && self.recipes.keys()[x] == k;
            }
        }
        None
    }

    /// Attempt (1): a tooled, stocked factory of the goal's owner can run a
    /// recipe for the missing design right now. True when a job started.
    fn try_produce_toward_shortage(&mut self, goal: &FactionGoal, design: DesignId) -> (started: bool)
        requires
            old(self).wf(),
        ensures
            final(self).wf(),
            phase_ok(old(self)@, final(self)@),
            crate::combat::money_untouched(final(self)@, old(self)@),
            planning_frame(old(self)@, final(self)@),
            planned_for(old(self)@, final(self)@, goal.owner),
            started <==> exists|k: u64| #[trigger]
                final(self)@.production_jobs.dom().contains(k) && !old(self)@.production_jobs.dom().contains(k),
            forall|k: u64| #[trigger]
                final(self)@.production_jobs.dom().contains(k) && !old(self)@.production_jobs.dom().contains(k)
                    ==> recipe_makes(old(self)@.recipes[final(self)@.production_jobs[k].recipe.0], design, None),
    {
        let factory_keys = self.factories.key_vec();
        let mut i: usize = 0;
        while i < factory_keys.len()
            invariant
                self.wf(),
                i <= factory_keys@.len(),
                phase_ok(old(self)@, self@),
                crate::combat::money_untouched(self@, old(self)@),
                planning_frame(old(self)@, self@),
                planned_for(old(self)@, self@, goal.owner),
                self@.production_jobs == old(self)@.production_jobs,
            decreases factory_keys@.len() - i,
        {
            let fid = factory_keys[i];
            i = i + 1;
            let (owner, site, tooling, retool, operational) = match self.factories.get(fid) {
                None => {
                    continue;
                },
                Some(f) => (f.owner, f.site, f.tooling, f.retooling_until, f.is_operational()),
            };
            if owner.0 != goal.owner.0 || !operational || self.clock.day < retool {
                continue;
            }
            let tooling = match tooling {
                None => {
                    continue;
                },
                Some(t) => t,
            };
            let tooling_design = match self.assets.get(tooling.0) {
                None => {
                    continue;
                },
                Some(a) => a.design,
            };
            let recipe_id = match self.recipe_for(design, Some(tooling_design)) {
                None => {
                    continue;
                },
                Some(r) => r,
            };
            let inputs: Vec<(CommodityId, u64)> = match self.recipes.get(recipe_id) {
                Some(rc) => crate::table::copy_slice(rc.inputs.as_slice()),
                None => Vec::new(),
            };
            let duration = match self.recipes.get(recipe_id) {
                Some(rc) => rc.duration_days,
                None => 0,
            };
            let mut offered: Vec<LotId> = Vec::new();
            let mut covered: Vec<u64> = Vec::new();
            let mut c: usize = 0;
            while c < inputs.len()
                invariant
                    c <= inputs@.len(),
                    covered@.len() == c,
                decreases inputs@.len() - c,
            {
                covered.push(0);
                c = c + 1;
            }
            let n = self.lots.len();
            let mut j: usize = 0;
            while j < n
                invariant
                    self.wf(),
                    n == self.lots.keys().len(),
                    j <= n,
                    covered@.len() == inputs@.len(),
                decreases n - j,
            {
                let lid = self.lots.key_at(j);
                let l = self.lots.val_at(j);
                let here = self.resolve_site(l.location);
                if l.owner.0 == goal.owner.0 && matches!(l.state, LotState::Active) && crate::intel::same_site(here, site)
                    && Self::recipe_uses(&inputs, l.commodity) {
                    let mut x: usize = 0;
                    while x < inputs.len()
                        invariant
                            x <= inputs@.len(),
                            covered@.len() == inputs@.len(),
                        decreases inputs@.len() - x,
                    {
                        if inputs[x].0.0 == l.commodity.0 {
                            let old_c = covered[x];
                            covered.set(x, crate::arith::sat_add_u64(old_c, l.quantity));
                        }
                        x = x + 1;
                    }
                    offered.push(LotId(lid));
                }
                j = j + 1;
            }
            let mut enough = true;
            let mut y: usize = 0;
            while y < inputs.len()
                invariant
                    y <= inputs@.len(),
                    covered@.len() == inputs@.len(),
                decreases inputs@.len() - y,
            {
                let (commodity, qty) = inputs[y];
                let mut have: u64 = 0;
                let mut z: usize = 0;
                while z < inputs.len()
                    invariant
                        z <= inputs@.len(),
                        covered@.len() == inputs@.len(),
                    decreases inputs@.len() - z,
                {
                    if inputs[z].0.0 == commodity.0 {
                        have = covered[z];
                    }
                    z = z + 1;
                }
                if have < qty {
                    enough = false;
                }
                y = y + 1;
            }
            if !enough {
                continue;
            }
            if offered.len() > 0xFFFF_FFFF || inputs.len() > 0xFFFF_FFFF {
                continue;
            }
            let lo: u128 = offered.len() as u128;
            let li: u128 = inputs.len() as u128;
            proof {
                assert(lo * li <= 0xFFFF_FFFF * 0xFFFF_FFFF) by (nonlinear_arith)
                    requires
                        lo <= 0xFFFF_FFFF,
                        li <= 0xFFFF_FFFF,
                ;
            }
            let cost: u128 = 3 + 4 * (lo * li);
            if (self.next_id as u128) + cost > u64::MAX as u128 || self.clock.day > u64::MAX - duration {
                continue;
            }
            let ghost s0 = self@;
            proof {
                assert(inputs@ == s0.recipes[recipe_id].inputs@);
                assert(duration == s0.recipes[recipe_id].duration_days);
                assert(4 * offered@.len() * inputs@.len() == 4 * (lo * li)) by (nonlinear_arith)
                    requires
                        lo == offered@.len(),
                        li == inputs@.len(),
                ;
            }
            let empty: Vec<crate::ids::ComponentId> = Vec::new();
            let r = self.start_production(FactoryId(fid), RecipeId(recipe_id), offered.as_slice(), empty.as_slice());
            proof {
                crate::world::lemma_phase_trans(old(self)@, s0, self@);
                lemma_planned_start(old(self)@, s0, self@, goal.owner, FactoryId(fid), RecipeId(recipe_id));
            }
            match r {
                Ok(job) => {
                    let ghost s1 = self@;
                    self.push_event(EventKind::FactionProcurementStarted { goal: goal.id, job });
                    proof {
                        crate::world::lemma_log_extends_log(s1, EventKind::FactionProcurementStarted { goal: goal.id, job });
                        crate::world::lemma_phase_trans(old(self)@, s1, self@);
                        assert(planning_frame(old(self)@, self@));
                        assert(planned_for(old(self)@, self@, goal.owner));
                        assert(self@.production_jobs.dom().contains(job.0));
                        assert forall|k: u64| #[trigger]
                            self@.production_jobs.dom().contains(k) && !old(self)@.production_jobs.dom().contains(k)
                                implies recipe_makes(old(self)@.recipes[self@.production_jobs[k].recipe.0], design, None) by {
                            assert(self@.production_jobs[k].recipe == RecipeId(recipe_id));
                        }
                    }
                    return true;
                },
                Err(_) => {},
            }
        }
        false
    }

    /// Total active quantity of a commodity the actor holds anywhere.
    fn owned_quantity(&self, owner: ActorId, commodity: CommodityId) -> (r: u64)
        requires
            self.wf(),
        ensures
            r == owned_total(self.lots.values(), owner, commodity),
    {
        let mut total: u64 = 0;
        let n = self.lots.len();
        proof {
            self.lots.lemma_facts();
        }
        let mut j: usize = 0;
        while j < n
            invariant
                self.wf(),
                n == self.lots.keys().len(),
                n == self.lots.values().len(),
                j <= n,
                forall|i: int| 0 <= i < n ==> self.lots@[#[trigger] self.lots.keys()[i]] == self.lots.values()[i],
                total == owned_total(self.lots.values().take(j as int), owner, commodity),
            decreases n - j,
        {
            proof {
                assert(self.lots.values().take(j + 1).drop_last() =~= self.lots.values().take(j as int));
            }
            let l = self.lots.val_at(j);
            if l.owner.0 == owner.0 && l.commodity.0 == commodity.0 && matches!(l.state, LotState::Active) {
                total = crate::arith::sat_add_u64(total, l.quantity);
            }
            j = j + 1;
        }
        proof {
            assert(self.lots.values().take(n as int) =~= self.lots.values());
        }
        total
    }

    /// Whether the actor already has an open global buy order for a
    /// commodity.
    fn ordering_globally(&self, owner: ActorId, commodity: CommodityId) -> (r: bool)
        requires
            self.wf(),
        ensures
            r == exists|k: u64| #[trigger] self@.buy_orders.dom().contains(k) && global_order_of(self@.buy_orders[k], owner, commodity),
    {
        let n = self.buy_orders.len();
        proof {
            self.buy_orders.lemma_facts();
        }
        let mut j: usize = 0;
        while j < n
            invariant
                self.wf(),
                n == self.buy_orders.keys().len(),
                j <= n,
                forall|k: u64| #[trigger] self@.buy_orders.dom().contains(k) <==> self.buy_orders.keys().contains(k),
                forall|x: int| 0 <= x < j ==> !global_order_of(self@.buy_orders[#[trigger] self.buy_orders.keys()[x]], owner, commodity),
            decreases n - j,
        {
            let o = self.buy_orders.val_at(j);
            if o.buyer.0 == owner.0 && o.commodity.0 == commodity.0 && matches!(o.scope, OrderScope::Global) {
                proof {
                    let k = self.buy_orders.keys()[j as int];
                    assert(self@.buy_orders.dom().contains(k) && global_order_of(self@.buy_orders[k], owner, commodity));
                }
                return true;
            }
            j = j + 1;
        }
        proof {
            assert forall|k: u64| #[trigger] self@.buy_orders.dom().contains(k) implies !global_order_of(self@.buy_orders[k], owner, commodity) by {
                let x = choose|x: int| 0 <= x < self.buy_orders.keys().len() && self.buy_orders.keys()[x] == k;
            }
        }
        false
    }

    /// Attempt (2): place real global buy orders for whatever inputs of a
    /// recipe for the missing design the owner lacks, skipping commodities
    /// it already has an open global order for.
    fn order_inputs_toward_shortage(&mut self, goal: &FactionGoal, design: DesignId)
        requires
            old(self).wf(),
        ensures
            final(self).wf(),
            phase_ok(old(self)@, final(self)@),
            money_kept(old(self)@, final(self)@),
            old(self)@.money_sound() ==> final(self)@.money_sound(),
            planning_frame(old(self)@, final(self)@),
            planned_for(old(self)@, final(self)@, goal.owner),
            forall|k: u64| #[trigger]
                first_recipe_for(old(self)@, design, k) ==> forall|x: int|
                    0 <= x < old(self)@.recipes[k].inputs@.len() ==> #[trigger] input_seen_to(
                        old(self)@,
                        final(self)@,
                        owned_total(old(self).lots.values(), goal.owner, old(self)@.recipes[k].inputs@[x].0),
                        goal.owner,
                        old(self)@.recipes[k].inputs@[x].0,
                        old(self)@.recipes[k].inputs@[x].1,
                    ),
    {
        let recipe_id = match self.recipe_for(design, None) {
            None => {
                return;
            },
            Some(r) => r,
        };
        proof {
            assert forall|k: u64| #[trigger] first_recipe_for(old(self)@, design, k) implies k == recipe_id by {
                if k < recipe_id {
                    assert(!recipe_makes(old(self)@.recipes[k], design, None));
                } else if recipe_id < k {
                    assert(!recipe_makes(old(self)@.recipes[recipe_id], design, None));
                }
            }
        }
        let inputs: Vec<(CommodityId, u64)> = match self.recipes.get(recipe_id) {
            Some(rc) => crate::table::copy_slice(rc.inputs.as_slice()),
            None => Vec::new(),
        };
        let ghost v = self@;
        let ghost lots0 = self.lots;
        let ghost owner = goal.owner;
        proof {
            assert(inputs@ == v.recipes[recipe_id].inputs@);
        }
        proof {
            assert(lots0.wf());
        }
        let mut i: usize = 0;
        while i < inputs.len()
            invariant
                self.wf(),
                v == old(self)@,
                lots0 == old(self).lots,
                lots0.wf(),
                owner == goal.owner,
                i <= inputs@.len(),
                phase_ok(old(self)@, self@),
                money_kept(old(self)@, self@),
                old(self)@.money_sound() ==> self@.money_sound(),
                planning_frame(old(self)@, self@),
                planned_for(old(self)@, self@, goal.owner),
                procure_frame(v, self@),
                forall|x: int|
                    0 <= x < i ==> #[trigger] input_seen_to(
                        v,
                        self@,
                        owned_total(lots0.values(), owner, inputs@[x].0),
                        owner,
                        inputs@[x].0,
                        inputs@[x].1,
                    ),
            decreases inputs@.len() - i,
        {
            let (commodity, required) = inputs[i];
            let ghost x_now = i as int;
            i = i + 1;
            let owned = self.owned_quantity(goal.owner, commodity);
            proof {
                self.lots.lemma_view_determines(&lots0);
                assert(owned == owned_total(lots0.values(), owner, inputs@[x_now].0));
            }
            if owned >= required {
                continue;
            }
            if self.ordering_globally(goal.owner, commodity) {
                continue;
            }
            let base = match self.commodities.get(commodity.0) {
                None => {
                    continue;
                },
                Some(d) => d.base_price,
            };
            let reference = match self.price_index_anywhere(commodity) {
                Some(p) => {
                    proof {
                        assert(self@.price_index == v.price_index);
                        let m = choose|m: u64| index_entry(self@, m, commodity) && self@.price_index[m][commodity.0] == p;
                        assert(index_entry(v, m, commodity) && v.price_index[m][commodity.0] == p);
                        assert forall|m2: u64| #[trigger] index_entry(v, m2, commodity) implies v.price_index[m2][commodity.0]
                            <= p by {
                            assert(index_entry(self@, m2, commodity));
                        }
                        assert(highest_index(v, commodity, p));
                        lemma_highest_unique(v, commodity, p);
                    }
                    p
                },
                None => {
                    proof {
                        assert(self@.price_index == v.price_index);
                        if exists|p: i64| highest_index(v, commodity, p) {
                            let p = choose|p: i64| highest_index(v, commodity, p);
                            let m = choose|m: u64| index_entry(v, m, commodity) && v.price_index[m][commodity.0] == p;
                            assert(index_entry(self@, m, commodity));
                        }
                        assert(base == v.commodities[commodity.0].base_price);
                    }
                    base
                },
            };
            let limit: Credits = crate::arith::sat_mul_i64(reference, 115) / 100;
            proof {
                assert(reference == reference_price(v, commodity));
                assert(limit == procurement_limit(reference));
            }
            let missing = required - owned;
            if self.next_id > u64::MAX - 3 {
                proof {
                    assert forall|x: int| 0 <= x < inputs@.len() implies #[trigger] input_seen_to(
                        v,
                        self@,
                        owned_total(lots0.values(), owner, inputs@[x].0),
                        owner,
                        inputs@[x].0,
                        inputs@[x].1,
                    ) by {}
                }
                return;
            }
            let ghost s0 = self@;
            let r = self.place_buy_order(goal.owner, OrderScope::Global, commodity, missing, limit);
            proof {
                crate::world::lemma_phase_trans(old(self)@, s0, self@);
                self.lemma_keys_wf();
                assert(!s0.buy_orders.dom().contains(s0.next_id));
                assert forall|k: u64| #[trigger]
                    self@.buy_orders.dom().contains(k) && !old(self)@.buy_orders.dom().contains(k) implies planned_order(
                        old(self)@,
                        goal.owner,
                        self@.buy_orders[k],
                    ) by {
                    if s0.buy_orders.dom().contains(k) {
                        assert(self@.buy_orders[k] == s0.buy_orders[k]);
                    }
                }
                assert(planning_frame(old(self)@, self@));
                assert(planned_for(old(self)@, self@, goal.owner));
            }
            match r {
                Ok(order) => {
                    let ghost s1 = self@;
                    self.push_event(EventKind::FactionProcurementOrdered { goal: goal.id, order, commodity });
                    proof {
                        crate::world::lemma_log_extends_log(s1, EventKind::FactionProcurementOrdered { goal: goal.id, order, commodity });
                        crate::world::lemma_phase_trans(old(self)@, s1, self@);
                        assert(crate::markets::order_error(s0, OrderScope::Global, commodity, missing, limit) is None);
                        assert(missing > 0 && limit > 0);
                        assert((missing as int) * (limit as int) > 0) by (nonlinear_arith)
                            requires
                                missing > 0,
                                limit > 0,
                        ;
                        assert(crate::markets::orders_kept(s0, s1));
                        assert(s1.actors.dom() =~= s0.actors.dom());
                        assert(s0.next_id <= s1.next_id);
                        assert forall|a: u64| #[trigger] s0.actors.dom().contains(a) implies s1.actors[a].treasury
                            <= s0.actors[a].treasury by {
                            if a != owner.0 {
                                assert(s1.actors[a] == s0.actors[a]);
                            }
                        }
                        assert(crate::markets::settled_bids(s0, s1));
                        assert(crate::markets::demand_frame(s0, s1));
                        assert(procure_frame(s0, s1));
                        assert(procure_frame(s1, self@));
                        lemma_procure_frame_trans(v, s0, s1);
                        lemma_procure_frame_trans(v, s1, self@);
                        lemma_procure_frame_trans(s0, s1, self@);
                        assert(self@.buy_orders.dom().contains(order.0) && global_order_of(
                            self@.buy_orders[order.0],
                            owner,
                            commodity,
                        ));
                        assert forall|x: int| 0 <= x < i implies #[trigger] input_seen_to(
                            v,
                            self@,
                            owned_total(lots0.values(), owner, inputs@[x].0),
                            owner,
                            inputs@[x].0,
                            inputs@[x].1,
                        ) by {
                            if x < x_now {
                                lemma_seen_to_kept(
                                    v,
                                    s0,
                                    self@,
                                    owned_total(lots0.values(), owner, inputs@[x].0),
                                    owner,
                                    inputs@[x].0,
                                    inputs@[x].1,
                                );
                            }
                        }
                    }
                },
                Err(_) => {
                    proof {
                        assert(procure_frame(s0, self@));
                        assert(input_seen_to(
                            v,
                            self@,
                            owned_total(lots0.values(), owner, inputs@[x_now].0),
                            owner,
                            inputs@[x_now].0,
                            inputs@[x_now].1,
                        ));
                    }
                },
            }
        }
        proof {
            assert forall|k: u64| #[trigger] first_recipe_for(old(self)@, design, k) implies forall|x: int|
                0 <= x < old(self)@.recipes[k].inputs@.len() ==> #[trigger] input_seen_to(
                    old(self)@,
                    self@,
                    owned_total(old(self).lots.values(), goal.owner, old(self)@.recipes[k].inputs@[x].0),
                    goal.owner,
                    old(self)@.recipes[k].inputs@[x].0,
                    old(self)@.recipes[k].inputs@[x].1,
                ) by {
                assert(k == recipe_id);
            }
        }
    }

    /// Faction planning phase: each goal's real TO&E shortage becomes real
    /// production or real procurement orders.
    pub(crate) fn tick_faction_ai(&mut self)
        requires
            old(self).wf(),
        ensures
            final(self).wf(),
            phase_ok(old(self)@, final(self)@),
            money_kept(old(self)@, final(self)@),
            old(self)@.money_sound() ==> final(self)@.money_sound(),
            planning_frame(old(self)@, final(self)@),
            planned_for_goals(old(self)@, final(self)@),
    {
        let goal_keys = self.faction_goals.key_vec();
        let mut i: usize = 0;
        while i < goal_keys.len()
            invariant
                self.wf(),
                i <= goal_keys@.len(),
                phase_ok(old(self)@, self@),
                money_kept(old(self)@, self@),
                old(self)@.money_sound() ==> self@.money_sound(),
                planning_frame(old(self)@, self@),
                planned_for_goals(old(self)@, self@),
            decreases goal_keys@.len() - i,
        {
            let gk = goal_keys[i];
            i = i + 1;
            let goal = match self.faction_goals.get(gk) {
                Some(g) => *g,
                None => {
                    continue;
                },
            };
            let shortages = match self.toe_shortages(goal.owner, goal.template, goal.site) {
                Err(_) => {
                    continue;
                },
                Ok(s) => s,
            };
            let mut j: usize = 0;
            while j < shortages.len()
                invariant
                    self.wf(),
                    j <= shortages@.len(),
                    phase_ok(old(self)@, self@),
                    money_kept(old(self)@, self@),
                    old(self)@.money_sound() ==> self@.money_sound(),
                    planning_frame(old(self)@, self@),
                    planned_for_goals(old(self)@, self@),
                    old(self)@.faction_goals.dom().contains(gk),
                    old(self)@.faction_goals[gk] == goal,
                decreases shortages@.len() - j,
            {
                let d = shortages[j].design;
                let ghost s0 = self@;
                let started = self.try_produce_toward_shortage(&goal, d);
                proof {
                    crate::world::lemma_phase_trans(old(self)@, s0, self@);
                    lemma_planned_goal(old(self)@, s0, self@, gk);
                }
                if !started {
                    let ghost s1 = self@;
                    self.order_inputs_toward_shortage(&goal, d);
                    proof {
                        crate::world::lemma_phase_trans(old(self)@, s1, self@);
                        lemma_planned_goal(old(self)@, s1, self@, gk);
                    }
                }
                j = j + 1;
            }
        }
    }
}

} // verus!
