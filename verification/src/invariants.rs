//! The hard "everything important is real" invariants, and the checker that
//! reports every violation of them.

use crate::assets::ComponentPlacement;
use crate::convoys::ConvoyState;
use crate::goods::LotState;
use crate::ids::{AssetId, ComponentId, ConvoyId, FactoryId, FormationId, LotId, ProductionJobId, SellListingId};
use crate::locations::{id_label, id_text, ref_valid, resolve, LocationRef};
use crate::production::JobState;
use crate::world::{World, WorldView};
use vstd::prelude::*;

verus! {

/// An actor's treasury is never negative.
pub open spec fn actor_ok(v: WorldView, k: u64) -> bool {
    v.actors[k].treasury >= 0
}

/// A lot has a real owner and a real holder, a nonzero quantity while in
/// play, and state back-references that point at real records.
pub open spec fn lot_ok(v: WorldView, k: u64) -> bool {
    let l = v.lots[k];
    &&& v.actors.dom().contains(l.owner.0)
    &&& ref_valid(v, l.location)
    &&& match l.state {
        LotState::Active => l.quantity != 0,
        LotState::Listed(s) => l.quantity != 0 && v.sell_listings.dom().contains(s.0) && v.sell_listings[s.0].lot
            == LotId(k),
        LotState::ConsumedByProduction(j) => v.production_jobs.dom().contains(j.0),
        LotState::MergedInto(r) => v.lots.dom().contains(r.0),
        LotState::Depleted => true,
    }
}

pub open spec fn actors_ok(v: WorldView) -> bool {
    forall|k: u64| #[trigger] v.actors.dom().contains(k) ==> actor_ok(v, k)
}

pub open spec fn lots_ok(v: WorldView) -> bool {
    forall|k: u64| #[trigger] v.lots.dom().contains(k) ==> lot_ok(v, k)
}

/// A message naming the record it is about.
fn about(kind: &str, id: u64, text: &str) -> (s: String)
    ensures
        s@ == id_label(kind@, id) + " "@ + text@,
{
    id_text(kind, id).concat(" ").concat(text)
}

/// A message naming the record it is about and another record it points
/// at.
fn about_ref(kind: &str, id: u64, before: &str, other_kind: &str, other: u64, after: &str) -> (s: String) {
    about(kind, id, before.to_owned().concat(id_text(other_kind, other).as_str()).concat(after).as_str())
}

impl World {
    fn check_actors(&self, out: &mut Vec<String>)
        requires
            self.wf(),
        ensures
            final(out)@.len() >= old(out)@.len(),
            (final(out)@.len() == old(out)@.len()) <==> actors_ok(self@),
    {
        let n = self.actors.len();
        let mut i: usize = 0;
        while i < n
            invariant
                self.wf(),
                n == self.actors.keys().len(),
                i <= n,
                out@.len() >= old(out)@.len(),
                (out@.len() == old(out)@.len()) <==> (forall|j: int|
                    0 <= j < i ==> #[trigger] actor_ok(self@, self.actors.keys()[j])),
            decreases n - i,
        {
            let k = self.actors.key_at(i);
            let a = self.actors.val_at(i);
            let before = out.len();
            if a.treasury < 0 {
                out.push(about("ActorId", k, "has negative treasury ".to_owned().concat(crate::decimal::signed_decimal_text(a.treasury).as_str()).as_str()));
            }
            assert((out@.len() == before) <==> actor_ok(self@, k));
            i = i + 1;
        }
        proof {
            self.actors.lemma_facts();
            if forall|j: int| 0 <= j < n ==> #[trigger] actor_ok(self@, self.actors.keys()[j]) {
                assert forall|k: u64| #[trigger] self@.actors.dom().contains(k) implies actor_ok(self@, k) by {
                    assert(actor_ok(self@, self.actors.keys()[self.actors.index_of_key(k)]));
                }
            }
            if actors_ok(self@) {
                assert forall|j: int| 0 <= j < n implies #[trigger] actor_ok(self@, self.actors.keys()[j]) by {
                    assert(self@.actors.dom().contains(self.actors.keys()[j]));
                }
            }
        }
    }

    fn check_lots(&self, out: &mut Vec<String>)
        requires
            self.wf(),
        ensures
            final(out)@.len() >= old(out)@.len(),
            (final(out)@.len() == old(out)@.len()) <==> lots_ok(self@),
    {
        let n = self.lots.len();
        let mut i: usize = 0;
        while i < n
            invariant
                self.wf(),
                n == self.lots.keys().len(),
                i <= n,
                out@.len() >= old(out)@.len(),
                (out@.len() == old(out)@.len()) <==> (forall|j: int|
                    0 <= j < i ==> #[trigger] lot_ok(self@, self.lots.keys()[j])),
            decreases n - i,
        {
            let k = self.lots.key_at(i);
            let l = self.lots.val_at(i);
            let before = out.len();
            if !self.actors.contains(l.owner.0) {
                out.push(about_ref("LotId", k, "owner ", "ActorId", l.owner.0, " does not exist"));
            }
            if !self.location_ref_valid(l.location) {
                out.push(about("LotId", k, "has a dangling location"));
            }
            match l.state {
                LotState::Active => {
                    if l.quantity == 0 {
                        out.push(about("LotId", k, "is active with zero quantity"));
                    }
                },
                LotState::Listed(s) => {
                    if l.quantity == 0 {
                        out.push(about("LotId", k, "is listed with zero quantity"));
                    }
                    match self.sell_listings.get(s.0) {
                        None => out.push(about_ref("LotId", k, "is listed on nonexistent ", "SellListingId", s.0, "")),
                        Some(sl) => {
                            if sl.lot.0 != k {
                                out.push(about("LotId", k, "listing back-reference mismatch"));
                            }
                        },
                    }
                },
                LotState::ConsumedByProduction(j) => {
                    if !self.production_jobs.contains(j.0) {
                        out.push(about_ref("LotId", k, "consumed by nonexistent ", "ProductionJobId", j.0, ""));
                    }
                },
                LotState::MergedInto(r) => {
                    if !self.lots.contains(r.0) {
                        out.push(about_ref("LotId", k, "merged into nonexistent ", "LotId", r.0, ""));
                    }
                },
                LotState::Depleted => {},
            }
            assert((out@.len() == before) <==> lot_ok(self@, k));
            i = i + 1;
        }
        proof {
            self.lots.lemma_facts();
            if forall|j: int| 0 <= j < n ==> #[trigger] lot_ok(self@, self.lots.keys()[j]) {
                assert forall|k: u64| #[trigger] self@.lots.dom().contains(k) implies lot_ok(self@, k) by {
                    assert(lot_ok(self@, self.lots.keys()[self.lots.index_of_key(k)]));
                }
            }
            if lots_ok(self@) {
                assert forall|j: int| 0 <= j < n implies #[trigger] lot_ok(self@, self.lots.keys()[j]) by {
                    assert(self@.lots.dom().contains(self.lots.keys()[j]));
                }
            }
        }
    }
}


/// The component in a slot is fitted back to this asset.
pub open spec fn fitted_back(v: WorldView, c: ComponentId, asset: u64) -> bool {
    v.components.dom().contains(c.0) && v.components[c.0].placement == ComponentPlacement::Fitted(AssetId(asset))
}

/// A serial asset has a real owner, holder and design, and every fitted
/// component agrees it is fitted here.
pub open spec fn asset_ok(v: WorldView, k: u64) -> bool {
    let a = v.assets[k];
    &&& v.actors.dom().contains(a.owner.0)
    &&& ref_valid(v, a.location)
    &&& v.designs.dom().contains(a.design.0)
    &&& forall|j: int| 0 <= j < a.fitted@.len() ==> #[trigger] fitted_back(v, a.fitted@[j].1, k)
}

/// Some slot of the list holds the component.
pub open spec fn slot_holds(s: Seq<(u32, ComponentId)>, c: ComponentId) -> bool {
    exists|j: int| 0 <= j < s.len() && #[trigger] s[j].1 == c
}

/// Some category slot of the list holds the component.
pub open spec fn category_holds(s: Seq<(crate::assets::ComponentCategory, ComponentId)>, c: ComponentId) -> bool {
    exists|j: int| 0 <= j < s.len() && #[trigger] s[j].1 == c
}

/// A component has a real owner, and its placement agrees with whatever
/// it says it is fitted to.
pub open spec fn component_ok(v: WorldView, k: u64) -> bool {
    let c = v.components[k];
    &&& v.actors.dom().contains(c.owner.0)
    &&& match c.placement {
        ComponentPlacement::Fitted(a) => v.assets.dom().contains(a.0) && slot_holds(
            v.assets[a.0].fitted@,
            ComponentId(k),
        ),
        ComponentPlacement::FittedFactory(f) => v.factories.dom().contains(f.0) && category_holds(
            v.factories[f.0].components@,
            ComponentId(k),
        ),
        ComponentPlacement::Loose(loc) => ref_valid(v, loc),
        ComponentPlacement::Consumed(_) => true,
    }
}

/// A factory sub-system slot holds a real component fitted back to the
/// factory, whose definition is of the slot's category.
pub open spec fn factory_slot_ok(v: WorldView, e: (crate::assets::ComponentCategory, ComponentId), f: u64) -> bool {
    &&& v.components.dom().contains(e.1.0)
    &&& v.components[e.1.0].placement == ComponentPlacement::FittedFactory(FactoryId(f))
    &&& v.component_defs.dom().contains(v.components[e.1.0].def.0)
    &&& v.component_defs[v.components[e.1.0].def.0].category == e.0
}

pub open spec fn factory_ok(v: WorldView, k: u64) -> bool {
    let f = v.factories[k];
    forall|j: int| 0 <= j < f.components@.len() ==> #[trigger] factory_slot_ok(v, f.components@[j], k)
}

pub open spec fn assets_ok(v: WorldView) -> bool {
    forall|k: u64| #[trigger] v.assets.dom().contains(k) ==> asset_ok(v, k)
}

pub open spec fn components_ok(v: WorldView) -> bool {
    forall|k: u64| #[trigger] v.components.dom().contains(k) ==> component_ok(v, k)
}

pub open spec fn factories_ok(v: WorldView) -> bool {
    forall|k: u64| #[trigger] v.factories.dom().contains(k) ==> factory_ok(v, k)
}

impl World {
    fn check_asset(&self, k: u64, out: &mut Vec<String>)
        requires
            self.wf(),
            self@.assets.dom().contains(k),
        ensures
            final(out)@.len() >= old(out)@.len(),
            (final(out)@.len() == old(out)@.len()) <==> asset_ok(self@, k),
    {
        let a = self.assets.get(k).unwrap();
        if !self.actors.contains(a.owner.0) {
            out.push(about_ref("AssetId", k, "owner ", "ActorId", a.owner.0, " does not exist"));
        }
        if !self.location_ref_valid(a.location) {
            out.push(about("AssetId", k, "has a dangling location"));
        }
        if !self.designs.contains(a.design.0) {
            out.push(about_ref("AssetId", k, "has unknown design ", "DesignId", a.design.0, ""));
        }
        let before = out.len();
        let mut j: usize = 0;
        while j < a.fitted.len()
            invariant
                self.wf(),
                j <= a.fitted@.len(),
                out@.len() >= before,
                (out@.len() == before) <==> (forall|x: int|
                    0 <= x < j ==> #[trigger] fitted_back(self@, a.fitted@[x].1, k)),
            decreases a.fitted@.len() - j,
        {
            let c = a.fitted[j].1;
            let back = match self.components.get(c.0) {
                None => false,
                Some(ci) => match ci.placement {
                    ComponentPlacement::Fitted(x) => x.0 == k,
                    _ => false,
                },
            };
            if !back {
                out.push(about_ref("ComponentId", c.0, "placement does not match ", "AssetId", k, "'s slot"));
            }
            assert(back == fitted_back(self@, a.fitted@[j as int].1, k));
            j = j + 1;
        }
    }

    fn check_component(&self, k: u64, out: &mut Vec<String>)
        requires
            self.wf(),
            self@.components.dom().contains(k),
        ensures
            final(out)@.len() >= old(out)@.len(),
            (final(out)@.len() == old(out)@.len()) <==> component_ok(self@, k),
    {
        let c = self.components.get(k).unwrap();
        if !self.actors.contains(c.owner.0) {
            out.push(about_ref("ComponentId", k, "owner ", "ActorId", c.owner.0, " does not exist"));
        }
        match c.placement {
            ComponentPlacement::Fitted(asset) => match self.assets.get(asset.0) {
                None => out.push(about_ref("ComponentId", k, "fitted to nonexistent ", "AssetId", asset.0, "")),
                Some(a) => {
                    let mut found = false;
                    let mut j: usize = 0;
                    while j < a.fitted.len()
                        invariant
                            j <= a.fitted@.len(),
                            found <==> exists|x: int| 0 <= x < j && #[trigger] a.fitted@[x].1 == ComponentId(k),
                        decreases a.fitted@.len() - j,
                    {
                        if a.fitted[j].1.0 == k {
                            found = true;
                        }
                        j = j + 1;
                    }
                    if !found {
                        out.push(about_ref("ComponentId", k, "claims to be fitted to ", "AssetId", asset.0, " which disagrees"));
                    }
                },
            },
            ComponentPlacement::FittedFactory(factory) => match self.factories.get(factory.0) {
                None => out.push(about_ref("ComponentId", k, "fitted to nonexistent ", "FactoryId", factory.0, "")),
                Some(f) => {
                    let mut found = false;
                    let mut j: usize = 0;
                    while j < f.components.len()
                        invariant
                            j <= f.components@.len(),
                            found <==> exists|x: int| 0 <= x < j && #[trigger] f.components@[x].1 == ComponentId(k),
                        decreases f.components@.len() - j,
                    {
                        if f.components[j].1.0 == k {
                            found = true;
                        }
                        j = j + 1;
                    }
                    if !found {
                        out.push(about_ref("ComponentId", k, "claims to be fitted to ", "FactoryId", factory.0, " which disagrees"));
                    }
                },
            },
            ComponentPlacement::Loose(loc) => {
                if !self.location_ref_valid(loc) {
                    out.push(about("ComponentId", k, "has a dangling loose location"));
                }
            },
            ComponentPlacement::Consumed(_) => {},
        }
    }

    fn check_factory(&self, k: u64, out: &mut Vec<String>)
        requires
            self.wf(),
            self@.factories.dom().contains(k),
        ensures
            final(out)@.len() >= old(out)@.len(),
            (final(out)@.len() == old(out)@.len()) <==> factory_ok(self@, k),
    {
        let f = self.factories.get(k).unwrap();
        let before = out.len();
        let mut j: usize = 0;
        while j < f.components.len()
            invariant
                self.wf(),
                j <= f.components@.len(),
                out@.len() >= before,
                before == old(out)@.len(),
                (out@.len() == before) <==> (forall|x: int|
                    0 <= x < j ==> #[trigger] factory_slot_ok(self@, f.components@[x], k)),
            decreases f.components@.len() - j,
        {
            let (category, cid) = f.components[j];
            let mut ok = true;
            match self.components.get(cid.0) {
                None => {
                    ok = false;
                    out.push(about_ref("FactoryId", k, "slot holds nonexistent ", "ComponentId", cid.0, ""));
                },
                Some(c) => {
                    let back = match c.placement {
                        ComponentPlacement::FittedFactory(x) => x.0 == k,
                        _ => false,
                    };
                    if !back {
                        ok = false;
                        out.push(about_ref("ComponentId", cid.0, "placement does not match ", "FactoryId", k, "'s slot"));
                    }
                    match self.component_defs.get(c.def.0) {
                        None => {
                            ok = false;
                            out.push(about_ref("ComponentId", cid.0, "has unknown def ", "ComponentDefId", c.def.0, ""));
                        },
                        Some(d) => {
                            if d.category != category {
                                ok = false;
                                out.push(about("ComponentId", cid.0, "is in a factory slot of another category"));
                            }
                        },
                    }
                },
            }
            assert(ok == factory_slot_ok(self@, f.components@[j as int], k));
            j = j + 1;
        }
    }

    fn check_assets(&self, out: &mut Vec<String>)
        requires
            self.wf(),
        ensures
            final(out)@.len() >= old(out)@.len(),
            (final(out)@.len() == old(out)@.len()) <==> assets_ok(self@),
    {
        let n = self.assets.len();
        let mut i: usize = 0;
        while i < n
            invariant
                self.wf(),
                n == self.assets.keys().len(),
                i <= n,
                out@.len() >= old(out)@.len(),
                (out@.len() == old(out)@.len()) <==> (forall|j: int|
                    0 <= j < i ==> #[trigger] asset_ok(self@, self.assets.keys()[j])),
            decreases n - i,
        {
            let k = self.assets.key_at(i);
            self.check_asset(k, out);
            i = i + 1;
        }
        proof {
            self.assets.lemma_facts();
            if forall|j: int| 0 <= j < n ==> #[trigger] asset_ok(self@, self.assets.keys()[j]) {
                assert forall|k: u64| #[trigger] self@.assets.dom().contains(k) implies asset_ok(self@, k) by {
                    assert(asset_ok(self@, self.assets.keys()[self.assets.index_of_key(k)]));
                }
            }
            if assets_ok(self@) {
                assert forall|j: int| 0 <= j < n implies #[trigger] asset_ok(self@, self.assets.keys()[j]) by {
                    assert(self@.assets.dom().contains(self.assets.keys()[j]));
                }
            }
        }
    }

    fn check_components(&self, out: &mut Vec<String>)
        requires
            self.wf(),
        ensures
            final(out)@.len() >= old(out)@.len(),
            (final(out)@.len() == old(out)@.len()) <==> components_ok(self@),
    {
        let n = self.components.len();
        let mut i: usize = 0;
        while i < n
            invariant
                self.wf(),
                n == self.components.keys().len(),
                i <= n,
                out@.len() >= old(out)@.len(),
                (out@.len() == old(out)@.len()) <==> (forall|j: int|
                    0 <= j < i ==> #[trigger] component_ok(self@, self.components.keys()[j])),
            decreases n - i,
        {
            let k = self.components.key_at(i);
            self.check_component(k, out);
            i = i + 1;
        }
        proof {
            self.components.lemma_facts();
            if forall|j: int| 0 <= j < n ==> #[trigger] component_ok(self@, self.components.keys()[j]) {
                assert forall|k: u64| #[trigger] self@.components.dom().contains(k) implies component_ok(self@, k) by {
                    assert(component_ok(self@, self.components.keys()[self.components.index_of_key(k)]));
                }
            }
            if components_ok(self@) {
                assert forall|j: int| 0 <= j < n implies #[trigger] component_ok(self@, self.components.keys()[j]) by {
                    assert(self@.components.dom().contains(self.components.keys()[j]));
                }
            }
        }
    }

    fn check_factories(&self, out: &mut Vec<String>)
        requires
            self.wf(),
        ensures
            final(out)@.len() >= old(out)@.len(),
            (final(out)@.len() == old(out)@.len()) <==> factories_ok(self@),
    {
        let n = self.factories.len();
        let mut i: usize = 0;
        while i < n
            invariant
                self.wf(),
                n == self.factories.keys().len(),
                i <= n,
                out@.len() >= old(out)@.len(),
                (out@.len() == old(out)@.len()) <==> (forall|j: int|
                    0 <= j < i ==> #[trigger] factory_ok(self@, self.factories.keys()[j])),
            decreases n - i,
        {
            let k = self.factories.key_at(i);
            self.check_factory(k, out);
            i = i + 1;
        }
        proof {
            self.factories.lemma_facts();
            if forall|j: int| 0 <= j < n ==> #[trigger] factory_ok(self@, self.factories.keys()[j]) {
                assert forall|k: u64| #[trigger] self@.factories.dom().contains(k) implies factory_ok(self@, k) by {
                    assert(factory_ok(self@, self.factories.keys()[self.factories.index_of_key(k)]));
                }
            }
            if factories_ok(self@) {
                assert forall|j: int| 0 <= j < n implies #[trigger] factory_ok(self@, self.factories.keys()[j]) by {
                    assert(self@.factories.dom().contains(self.factories.keys()[j]));
                }
            }
        }
    }
}


/// A listing sells a real lot that is listed on it, owned by the seller
/// and physically at the market's site.
pub open spec fn listing_ok(v: WorldView, k: u64) -> bool {
    let l = v.sell_listings[k];
    &&& v.lots.dom().contains(l.lot.0)
    &&& v.lots[l.lot.0].state == LotState::Listed(SellListingId(k))
    &&& v.markets.dom().contains(l.market.0)
    &&& resolve(v, v.lots[l.lot.0].location) == Some(v.markets[l.market.0].site)
    &&& v.lots[l.lot.0].owner == l.seller
}

/// A buy order has a real buyer and holds exactly what its remaining
/// quantity can cost at its limit.
pub open spec fn order_ok(v: WorldView, k: u64) -> bool {
    let o = v.buy_orders[k];
    &&& v.actors.dom().contains(o.buyer.0)
    &&& o.escrow >= 0
    &&& crate::error::money_product_fits(o.quantity, o.limit_price_per_unit)
    &&& o.escrow == o.quantity * o.limit_price_per_unit
}

pub open spec fn listings_ok(v: WorldView) -> bool {
    forall|k: u64| #[trigger] v.sell_listings.dom().contains(k) ==> listing_ok(v, k)
}

pub open spec fn orders_ok(v: WorldView) -> bool {
    forall|k: u64| #[trigger] v.buy_orders.dom().contains(k) ==> order_ok(v, k)
}

impl World {
    fn check_listing(&self, k: u64, out: &mut Vec<String>)
        requires
            self.wf(),
            self@.sell_listings.dom().contains(k),
        ensures
            final(out)@.len() >= old(out)@.len(),
            (final(out)@.len() == old(out)@.len()) <==> listing_ok(self@, k),
    {
        let l = self.sell_listings.get(k).unwrap();
        match self.lots.get(l.lot.0) {
            None => out.push(about_ref("SellListingId", k, "lists nonexistent ", "LotId", l.lot.0, "")),
            Some(lot) => {
                let listed_here = match lot.state {
                    LotState::Listed(s) => s.0 == k,
                    _ => false,
                };
                if !listed_here {
                    out.push(about_ref("SellListingId", k, "lists ", "LotId", l.lot.0, " which is not in Listed state"));
                }
                match self.markets.get(l.market.0) {
                    None => out.push(about_ref("SellListingId", k, "on nonexistent ", "MarketId", l.market.0, "")),
                    Some(m) => {
                        if !crate::intel::same_site(self.resolve_site(lot.location), m.site) {
                            out.push(about("SellListingId", k, "lists a lot which is not physically at the market site"));
                        }
                    },
                }
                if lot.owner.0 != l.seller.0 {
                    out.push(about_ref("SellListingId", k, "seller does not own ", "LotId", l.lot.0, ""));
                }
            },
        }
    }

    fn check_order(&self, k: u64, out: &mut Vec<String>)
        requires
            self.wf(),
            self@.buy_orders.dom().contains(k),
        ensures
            final(out)@.len() >= old(out)@.len(),
            (final(out)@.len() == old(out)@.len()) <==> order_ok(self@, k),
    {
        let o = self.buy_orders.get(k).unwrap();
        if !self.actors.contains(o.buyer.0) {
            out.push(about_ref("BuyOrderId", k, "buyer ", "ActorId", o.buyer.0, " does not exist"));
        }
        if o.escrow < 0 {
            out.push(about("BuyOrderId", k, "has negative escrow"));
        }
        match crate::error::mul_money(o.quantity, o.limit_price_per_unit) {
            Ok(expected) => {
                if o.escrow != expected {
                    out.push(about("BuyOrderId", k, "escrow does not match remaining quantity"));
                }
            },
            Err(_) => out.push(about("BuyOrderId", k, "escrow arithmetic overflows")),
        }
    }

    fn check_listings(&self, out: &mut Vec<String>)
        requires
            self.wf(),
        ensures
            final(out)@.len() >= old(out)@.len(),
            (final(out)@.len() == old(out)@.len()) <==> listings_ok(self@),
    {
        let n = self.sell_listings.len();
        let mut i: usize = 0;
        while i < n
            invariant
                self.wf(),
                n == self.sell_listings.keys().len(),
                i <= n,
                out@.len() >= old(out)@.len(),
                (out@.len() == old(out)@.len()) <==> (forall|j: int|
                    0 <= j < i ==> #[trigger] listing_ok(self@, self.sell_listings.keys()[j])),
            decreases n - i,
        {
            let k = self.sell_listings.key_at(i);
            self.check_listing(k, out);
            i = i + 1;
        }
        proof {
            self.sell_listings.lemma_facts();
            if forall|j: int| 0 <= j < n ==> #[trigger] listing_ok(self@, self.sell_listings.keys()[j]) {
                assert forall|k: u64| #[trigger] self@.sell_listings.dom().contains(k) implies listing_ok(self@, k) by {
                    assert(listing_ok(self@, self.sell_listings.keys()[self.sell_listings.index_of_key(k)]));
                }
            }
            if listings_ok(self@) {
                assert forall|j: int| 0 <= j < n implies #[trigger] listing_ok(self@, self.sell_listings.keys()[j]) by {
                    assert(self@.sell_listings.dom().contains(self.sell_listings.keys()[j]));
                }
            }
        }
    }

    fn check_orders(&self, out: &mut Vec<String>)
        requires
            self.wf(),
        ensures
            final(out)@.len() >= old(out)@.len(),
            (final(out)@.len() == old(out)@.len()) <==> orders_ok(self@),
    {
        let n = self.buy_orders.len();
        let mut i: usize = 0;
        while i < n
            invariant
                self.wf(),
                n == self.buy_orders.keys().len(),
                i <= n,
                out@.len() >= old(out)@.len(),
                (out@.len() == old(out)@.len()) <==> (forall|j: int|
                    0 <= j < i ==> #[trigger] order_ok(self@, self.buy_orders.keys()[j])),
            decreases n - i,
        {
            let k = self.buy_orders.key_at(i);
            self.check_order(k, out);
            i = i + 1;
        }
        proof {
            self.buy_orders.lemma_facts();
            if forall|j: int| 0 <= j < n ==> #[trigger] order_ok(self@, self.buy_orders.keys()[j]) {
                assert forall|k: u64| #[trigger] self@.buy_orders.dom().contains(k) implies order_ok(self@, k) by {
                    assert(order_ok(self@, self.buy_orders.keys()[self.buy_orders.index_of_key(k)]));
                }
            }
            if orders_ok(self@) {
                assert forall|j: int| 0 <= j < n implies #[trigger] order_ok(self@, self.buy_orders.keys()[j]) by {
                    assert(self@.buy_orders.dom().contains(self.buy_orders.keys()[j]));
                }
            }
        }
    }
}


/// An asset on a convoy's manifest exists and is located aboard it.
pub open spec fn asset_aboard(v: WorldView, a: AssetId, convoy: u64) -> bool {
    v.assets.dom().contains(a.0) && v.assets[a.0].location == LocationRef::Convoy(ConvoyId(convoy))
}

/// A holder that is the convoy itself, or a container located aboard it.
pub open spec fn holder_aboard(v: WorldView, loc: LocationRef, convoy: u64) -> bool {
    match loc {
        LocationRef::Convoy(cv) => cv.0 == convoy,
        LocationRef::Container(a) => v.assets.dom().contains(a.0) && v.assets[a.0].location == LocationRef::Convoy(
            ConvoyId(convoy),
        ),
        _ => false,
    }
}

/// A lot on a convoy's manifest exists, is aboard, and is in play.
pub open spec fn lot_aboard(v: WorldView, l: LotId, convoy: u64) -> bool {
    &&& v.lots.dom().contains(l.0)
    &&& holder_aboard(v, v.lots[l.0].location, convoy)
    &&& v.lots[l.0].state == LotState::Active
}

pub open spec fn all_aboard(v: WorldView, s: Seq<AssetId>, convoy: u64) -> bool {
    forall|j: int| 0 <= j < s.len() ==> #[trigger] asset_aboard(v, s[j], convoy)
}

/// A live convoy has a real owner, and everything on its manifest is real
/// and aboard.
pub open spec fn convoy_ok(v: WorldView, k: u64) -> bool {
    let c = v.convoys[k];
    c.state == ConvoyState::Disbanded || {
        &&& v.actors.dom().contains(c.owner.0)
        &&& all_aboard(v, c.vehicles@, k)
        &&& all_aboard(v, c.guards@, k)
        &&& all_aboard(v, c.cargo_assets@, k)
        &&& forall|j: int| 0 <= j < c.cargo_lots@.len() ==> #[trigger] lot_aboard(v, c.cargo_lots@[j], k)
    }
}

/// A lot a job consumed exists and is marked consumed by that job.
pub open spec fn consumed_by(v: WorldView, l: LotId, job: u64) -> bool {
    v.lots.dom().contains(l.0) && v.lots[l.0].state == LotState::ConsumedByProduction(ProductionJobId(job))
}

/// A production job is at a real factory, its consumed inputs are marked
/// consumed by it, and a completed job's outputs exist.
pub open spec fn job_ok(v: WorldView, k: u64) -> bool {
    let j = v.production_jobs[k];
    &&& v.factories.dom().contains(j.factory.0)
    &&& forall|x: int| 0 <= x < j.consumed_lots@.len() ==> #[trigger] consumed_by(v, j.consumed_lots@[x], k)
    &&& match j.state {
        JobState::Completed { output_lots, output_assets, output_components } => {
            &&& forall|x: int| 0 <= x < output_lots@.len() ==> v.lots.dom().contains(#[trigger] output_lots@[x].0)
            &&& forall|x: int|
                0 <= x < output_assets@.len() ==> v.assets.dom().contains(#[trigger] output_assets@[x].0)
            &&& forall|x: int|
                0 <= x < output_components@.len() ==> v.components.dom().contains(#[trigger] output_components@[x].0)
        },
        JobState::InProgress => true,
    }
}

/// An asset on a formation's roster exists, belongs to the formation's
/// owner, and is located in the formation.
pub open spec fn in_formation(v: WorldView, a: AssetId, f: u64) -> bool {
    &&& v.assets.dom().contains(a.0)
    &&& v.assets[a.0].owner == v.formations[f].owner
    &&& v.assets[a.0].location == LocationRef::Formation(FormationId(f))
}

pub open spec fn formation_ok(v: WorldView, k: u64) -> bool {
    let f = v.formations[k];
    forall|j: int| 0 <= j < f.assets@.len() ==> #[trigger] in_formation(v, f.assets@[j], k)
}

pub open spec fn convoys_ok(v: WorldView) -> bool {
    forall|k: u64| #[trigger] v.convoys.dom().contains(k) ==> convoy_ok(v, k)
}

pub open spec fn jobs_ok(v: WorldView) -> bool {
    forall|k: u64| #[trigger] v.production_jobs.dom().contains(k) ==> job_ok(v, k)
}

pub open spec fn formations_ok(v: WorldView) -> bool {
    forall|k: u64| #[trigger] v.formations.dom().contains(k) ==> formation_ok(v, k)
}

impl World {
    fn check_aboard(&self, k: u64, s: &Vec<AssetId>, out: &mut Vec<String>)
        requires
            self.wf(),
        ensures
            final(out)@.len() >= old(out)@.len(),
            (final(out)@.len() == old(out)@.len()) <==> all_aboard(self@, s@, k),
    {
        let mut j: usize = 0;
        while j < s.len()
            invariant
                self.wf(),
                j <= s@.len(),
                out@.len() >= old(out)@.len(),
                (out@.len() == old(out)@.len()) <==> (forall|x: int|
                    0 <= x < j ==> #[trigger] asset_aboard(self@, s@[x], k)),
            decreases s@.len() - j,
        {
            let a = s[j];
            let ok = match self.assets.get(a.0) {
                None => {
                    out.push(about_ref("ConvoyId", k, "references nonexistent ", "AssetId", a.0, ""));
                    false
                },
                Some(x) => match x.location {
                    LocationRef::Convoy(cv) => if cv.0 == k {
                        true
                    } else {
                        out.push(about_ref("AssetId", a.0, "is on ", "ConvoyId", k, "'s manifest but not located aboard"));
                        false
                    },
                    _ => {
                        out.push(about_ref("AssetId", a.0, "is on ", "ConvoyId", k, "'s manifest but not located aboard"));
                        false
                    },
                },
            };
            assert(ok == asset_aboard(self@, s@[j as int], k));
            j = j + 1;
        }
    }

    fn check_convoy(&self, k: u64, out: &mut Vec<String>)
        requires
            self.wf(),
            self@.convoys.dom().contains(k),
        ensures
            final(out)@.len() >= old(out)@.len(),
            (final(out)@.len() == old(out)@.len()) <==> convoy_ok(self@, k),
    {
        let c = self.convoys.get(k).unwrap();
        if matches!(c.state, ConvoyState::Disbanded) {
            return;
        }
        if !self.actors.contains(c.owner.0) {
            out.push(about_ref("ConvoyId", k, "owner ", "ActorId", c.owner.0, " does not exist"));
        }
        let ghost l0 = out@.len();
        self.check_aboard(k, &c.vehicles, out);
        let ghost l1 = out@.len();
        self.check_aboard(k, &c.guards, out);
        let ghost l2 = out@.len();
        self.check_aboard(k, &c.cargo_assets, out);
        let before = out.len();
        let mut j: usize = 0;
        while j < c.cargo_lots.len()
            invariant
                self.wf(),
                j <= c.cargo_lots@.len(),
                out@.len() >= before,
                (out@.len() == before) <==> (forall|x: int|
                    0 <= x < j ==> #[trigger] lot_aboard(self@, c.cargo_lots@[x], k)),
            decreases c.cargo_lots@.len() - j,
        {
            let lid = c.cargo_lots[j];
            let ok = match self.lots.get(lid.0) {
                None => {
                    out.push(about_ref("ConvoyId", k, "carries nonexistent ", "LotId", lid.0, ""));
                    false
                },
                Some(lot) => {
                    let aboard = match lot.location {
                        LocationRef::Convoy(cv) => cv.0 == k,
                        LocationRef::Container(a) => match self.assets.get(a.0) {
                            Some(x) => match x.location {
                                LocationRef::Convoy(cv) => cv.0 == k,
                                _ => false,
                            },
                            None => false,
                        },
                        _ => false,
                    };
                    if !aboard {
                        out.push(about_ref("LotId", lid.0, "is on ", "ConvoyId", k, "'s manifest but not located aboard"));
                    }
                    let active = matches!(lot.state, LotState::Active);
                    if !active {
                        out.push(about_ref("LotId", lid.0, "aboard ", "ConvoyId", k, " is not active"));
                    }
                    aboard && active
                },
            };
            assert(ok == lot_aboard(self@, c.cargo_lots@[j as int], k));
            j = j + 1;
        }
    }

    fn check_job(&self, k: u64, out: &mut Vec<String>)
        requires
            self.wf(),
            self@.production_jobs.dom().contains(k),
        ensures
            final(out)@.len() >= old(out)@.len(),
            (final(out)@.len() == old(out)@.len()) <==> job_ok(self@, k),
    {
        let jb = self.production_jobs.get(k).unwrap();
        if !self.factories.contains(jb.factory.0) {
            out.push(about_ref("ProductionJobId", k, "at nonexistent ", "FactoryId", jb.factory.0, ""));
        }
        let b0 = out.len();
        let mut x: usize = 0;
        while x < jb.consumed_lots.len()
            invariant
                self.wf(),
                x <= jb.consumed_lots@.len(),
                out@.len() >= b0,
                (out@.len() == b0) <==> (forall|y: int|
                    0 <= y < x ==> #[trigger] consumed_by(self@, jb.consumed_lots@[y], k)),
            decreases jb.consumed_lots@.len() - x,
        {
            let lid = jb.consumed_lots[x];
            let ok = match self.lots.get(lid.0) {
                None => false,
                Some(l) => match l.state {
                    LotState::ConsumedByProduction(j2) => j2.0 == k,
                    _ => false,
                },
            };
            if !ok {
                out.push(about_ref("LotId", lid.0, "not marked consumed by ", "ProductionJobId", k, ""));
            }
            assert(ok == consumed_by(self@, jb.consumed_lots@[x as int], k));
            x = x + 1;
        }
        match &jb.state {
            JobState::Completed { output_lots, output_assets, output_components } => {
                let b1 = out.len();
                let mut a: usize = 0;
                while a < output_lots.len()
                    invariant
                        self.wf(),
                        a <= output_lots@.len(),
                        out@.len() >= b1,
                        (out@.len() == b1) <==> (forall|y: int|
                            0 <= y < a ==> self@.lots.dom().contains(#[trigger] output_lots@[y].0)),
                    decreases output_lots@.len() - a,
                {
                    if !self.lots.contains(output_lots[a].0) {
                        out.push(about_ref("ProductionJobId", k, "output lot ", "LotId", output_lots[a].0, " does not exist"));
                    }
                    a = a + 1;
                }
                let b2 = out.len();
                let mut b: usize = 0;
                while b < output_assets.len()
                    invariant
                        self.wf(),
                        b <= output_assets@.len(),
                        out@.len() >= b2,
                        (out@.len() == b2) <==> (forall|y: int|
                            0 <= y < b ==> self@.assets.dom().contains(#[trigger] output_assets@[y].0)),
                    decreases output_assets@.len() - b,
                {
                    if !self.assets.contains(output_assets[b].0) {
                        out.push(about_ref("ProductionJobId", k, "output asset ", "AssetId", output_assets[b].0, " does not exist"));
                    }
                    b = b + 1;
                }
                let b3 = out.len();
                let mut c: usize = 0;
                while c < output_components.len()
                    invariant
                        self.wf(),
                        c <= output_components@.len(),
                        out@.len() >= b3,
                        (out@.len() == b3) <==> (forall|y: int|
                            0 <= y < c ==> self@.components.dom().contains(#[trigger] output_components@[y].0)),
                    decreases output_components@.len() - c,
                {
                    if !self.components.contains(output_components[c].0) {
                        out.push(about_ref("ProductionJobId", k, "output component ", "ComponentId", output_components[c].0, " does not exist"));
                    }
                    c = c + 1;
                }
            },
            JobState::InProgress => {},
        }
    }

    fn check_formation(&self, k: u64, out: &mut Vec<String>)
        requires
            self.wf(),
            self@.formations.dom().contains(k),
        ensures
            final(out)@.len() >= old(out)@.len(),
            (final(out)@.len() == old(out)@.len()) <==> formation_ok(self@, k),
    {
        let f = self.formations.get(k).unwrap();
        let mut j: usize = 0;
        while j < f.assets.len()
            invariant
                self.wf(),
                self@.formations[k] == *f,
                j <= f.assets@.len(),
                out@.len() >= old(out)@.len(),
                (out@.len() == old(out)@.len()) <==> (forall|x: int|
                    0 <= x < j ==> #[trigger] in_formation(self@, f.assets@[x], k)),
            decreases f.assets@.len() - j,
        {
            let aid = f.assets[j];
            let ok = match self.assets.get(aid.0) {
                None => {
                    out.push(about_ref("FormationId", k, "contains nonexistent ", "AssetId", aid.0, ""));
                    false
                },
                Some(a) => {
                    let owned = a.owner.0 == f.owner.0;
                    if !owned {
                        out.push(about_ref("AssetId", aid.0, "in ", "FormationId", k, " is not owned by the formation owner"));
                    }
                    let inside = match a.location {
                        LocationRef::Formation(x) => x.0 == k,
                        _ => false,
                    };
                    if !inside {
                        out.push(about_ref("AssetId", aid.0, "on ", "FormationId", k, "'s roster but not located in it"));
                    }
                    owned && inside
                },
            };
            assert(ok == in_formation(self@, f.assets@[j as int], k));
            j = j + 1;
        }
    }

    fn check_convoys(&self, out: &mut Vec<String>)
        requires
            self.wf(),
        ensures
            final(out)@.len() >= old(out)@.len(),
            (final(out)@.len() == old(out)@.len()) <==> convoys_ok(self@),
    {
        let n = self.convoys.len();
        let mut i: usize = 0;
        while i < n
            invariant
                self.wf(),
                n == self.convoys.keys().len(),
                i <= n,
                out@.len() >= old(out)@.len(),
                (out@.len() == old(out)@.len()) <==> (forall|j: int|
                    0 <= j < i ==> #[trigger] convoy_ok(self@, self.convoys.keys()[j])),
            decreases n - i,
        {
            let k = self.convoys.key_at(i);
            self.check_convoy(k, out);
            i = i + 1;
        }
        proof {
            self.convoys.lemma_facts();
            if forall|j: int| 0 <= j < n ==> #[trigger] convoy_ok(self@, self.convoys.keys()[j]) {
                assert forall|k: u64| #[trigger] self@.convoys.dom().contains(k) implies convoy_ok(self@, k) by {
                    assert(convoy_ok(self@, self.convoys.keys()[self.convoys.index_of_key(k)]));
                }
            }
            if convoys_ok(self@) {
                assert forall|j: int| 0 <= j < n implies #[trigger] convoy_ok(self@, self.convoys.keys()[j]) by {
                    assert(self@.convoys.dom().contains(self.convoys.keys()[j]));
                }
            }
        }
    }

    fn check_jobs(&self, out: &mut Vec<String>)
        requires
            self.wf(),
        ensures
            final(out)@.len() >= old(out)@.len(),
            (final(out)@.len() == old(out)@.len()) <==> jobs_ok(self@),
    {
        let n = self.production_jobs.len();
        let mut i: usize = 0;
        while i < n
            invariant
                self.wf(),
                n == self.production_jobs.keys().len(),
                i <= n,
                out@.len() >= old(out)@.len(),
                (out@.len() == old(out)@.len()) <==> (forall|j: int|
                    0 <= j < i ==> #[trigger] job_ok(self@, self.production_jobs.keys()[j])),
            decreases n - i,
        {
            let k = self.production_jobs.key_at(i);
            self.check_job(k, out);
            i = i + 1;
        }
        proof {
            self.production_jobs.lemma_facts();
            if forall|j: int| 0 <= j < n ==> #[trigger] job_ok(self@, self.production_jobs.keys()[j]) {
                assert forall|k: u64| #[trigger] self@.production_jobs.dom().contains(k) implies job_ok(self@, k) by {
                    assert(job_ok(self@, self.production_jobs.keys()[self.production_jobs.index_of_key(k)]));
                }
            }
            if jobs_ok(self@) {
                assert forall|j: int| 0 <= j < n implies #[trigger] job_ok(self@, self.production_jobs.keys()[j]) by {
                    assert(self@.production_jobs.dom().contains(self.production_jobs.keys()[j]));
                }
            }
        }
    }

    fn check_formations(&self, out: &mut Vec<String>)
        requires
            self.wf(),
        ensures
            final(out)@.len() >= old(out)@.len(),
            (final(out)@.len() == old(out)@.len()) <==> formations_ok(self@),
    {
        let n = self.formations.len();
        let mut i: usize = 0;
        while i < n
            invariant
                self.wf(),
                n == self.formations.keys().len(),
                i <= n,
                out@.len() >= old(out)@.len(),
                (out@.len() == old(out)@.len()) <==> (forall|j: int|
                    0 <= j < i ==> #[trigger] formation_ok(self@, self.formations.keys()[j])),
            decreases n - i,
        {
            let k = self.formations.key_at(i);
            self.check_formation(k, out);
            i = i + 1;
        }
        proof {
            self.formations.lemma_facts();
            if forall|j: int| 0 <= j < n ==> #[trigger] formation_ok(self@, self.formations.keys()[j]) {
                assert forall|k: u64| #[trigger] self@.formations.dom().contains(k) implies formation_ok(self@, k) by {
                    assert(formation_ok(self@, self.formations.keys()[self.formations.index_of_key(k)]));
                }
            }
            if formations_ok(self@) {
                assert forall|j: int| 0 <= j < n implies #[trigger] formation_ok(self@, self.formations.keys()[j]) by {
                    assert(self@.formations.dom().contains(self.formations.keys()[j]));
                }
            }
        }
    }
}

/// Every hard invariant holds, money conservation included.
pub open spec fn consistent(v: WorldView) -> bool {
    &&& actors_ok(v)
    &&& lots_ok(v)
    &&& assets_ok(v)
    &&& components_ok(v)
    &&& factories_ok(v)
    &&& listings_ok(v)
    &&& orders_ok(v)
    &&& convoys_ok(v)
    &&& jobs_ok(v)
    &&& formations_ok(v)
    &&& v.money_conserved()
}

/// Every record of `m1` is still in `m2`, unchanged.
pub open spec fn kept<T>(m1: Map<u64, T>, m2: Map<u64, T>) -> bool {
    forall|k: u64| #[trigger] m1.dom().contains(k) ==> m2.dom().contains(k) && m2[k] == m1[k]
}

/// From `v` to `w` records were only added (actors, locations and designs
/// may also change in ways no invariant reads), and every added record is
/// itself sound.
pub open spec fn grows_soundly(v: WorldView, w: WorldView) -> bool {
    &&& v.actors.dom().subset_of(w.actors.dom())
    &&& v.locations.dom().subset_of(w.locations.dom())
    &&& v.designs.dom().subset_of(w.designs.dom())
    &&& kept(v.component_defs, w.component_defs)
    &&& kept(v.lots, w.lots)
    &&& kept(v.components, w.components)
    &&& kept(v.assets, w.assets)
    &&& kept(v.markets, w.markets)
    &&& kept(v.sell_listings, w.sell_listings)
    &&& kept(v.buy_orders, w.buy_orders)
    &&& kept(v.stockpiles, w.stockpiles)
    &&& kept(v.factories, w.factories)
    &&& kept(v.production_jobs, w.production_jobs)
    &&& kept(v.convoys, w.convoys)
    &&& kept(v.formations, w.formations)
    &&& actors_ok(w)
    &&& forall|k: u64| #[trigger] w.lots.dom().contains(k) && !v.lots.dom().contains(k) ==> lot_ok(w, k)
    &&& forall|k: u64| #[trigger] w.assets.dom().contains(k) && !v.assets.dom().contains(k) ==> asset_ok(w, k)
    &&& forall|k: u64|
        #[trigger] w.components.dom().contains(k) && !v.components.dom().contains(k) ==> component_ok(w, k)
    &&& forall|k: u64| #[trigger] w.factories.dom().contains(k) && !v.factories.dom().contains(k) ==> factory_ok(w, k)
    &&& forall|k: u64|
        #[trigger] w.sell_listings.dom().contains(k) && !v.sell_listings.dom().contains(k) ==> listing_ok(w, k)
    &&& forall|k: u64| #[trigger] w.buy_orders.dom().contains(k) && !v.buy_orders.dom().contains(k) ==> order_ok(w, k)
    &&& forall|k: u64| #[trigger] w.convoys.dom().contains(k) && !v.convoys.dom().contains(k) ==> convoy_ok(w, k)
    &&& forall|k: u64|
        #[trigger] w.production_jobs.dom().contains(k) && !v.production_jobs.dom().contains(k) ==> job_ok(w, k)
    &&& forall|k: u64|
        #[trigger] w.formations.dom().contains(k) && !v.formations.dom().contains(k) ==> formation_ok(w, k)
    &&& w.money_conserved()
}

/// Where a holder chain leads in `v`, it leads in any world that only added
/// records.
pub proof fn lemma_site_of_grows(v: WorldView, w: WorldView, loc: LocationRef, fuel: nat)
    requires
        kept(v.assets, w.assets),
        kept(v.stockpiles, w.stockpiles),
        kept(v.convoys, w.convoys),
        kept(v.formations, w.formations),
        crate::locations::site_of(v, loc, fuel) is Some,
    ensures
        crate::locations::site_of(w, loc, fuel) == crate::locations::site_of(v, loc, fuel),
    decreases fuel,
{
    if fuel > 0 {
        match loc {
            LocationRef::Container(a) => {
                lemma_site_of_grows(v, w, v.assets[a.0].location, (fuel - 1) as nat);
            },
            _ => {},
        }
    }
}

/// The hard invariants survive any change that only adds sound records.
pub proof fn lemma_consistent_grows(v: WorldView, w: WorldView)
    requires
        consistent(v),
        grows_soundly(v, w),
    ensures
        consistent(w),
{
    assert forall|k: u64| #[trigger] w.lots.dom().contains(k) implies lot_ok(w, k) by {
        if v.lots.dom().contains(k) {
            assert(lot_ok(v, k));
            assert(w.lots[k] == v.lots[k]);
            match v.lots[k].state {
                LotState::Listed(sl) => {
                    assert(v.sell_listings.dom().contains(sl.0));
                },
                _ => {},
            }
        }
    }
    assert forall|k: u64| #[trigger] w.assets.dom().contains(k) implies asset_ok(w, k) by {
        if v.assets.dom().contains(k) {
            assert(asset_ok(v, k));
            let a = v.assets[k];
            assert forall|j: int| 0 <= j < a.fitted@.len() implies #[trigger] fitted_back(w, a.fitted@[j].1, k) by {
                assert(fitted_back(v, a.fitted@[j].1, k));
            }
        }
    }
    assert forall|k: u64| #[trigger] w.components.dom().contains(k) implies component_ok(w, k) by {
        if v.components.dom().contains(k) {
            assert(component_ok(v, k));
            match v.components[k].placement {
                ComponentPlacement::Fitted(a) => {
                    assert(v.assets.dom().contains(a.0));
                },
                ComponentPlacement::FittedFactory(f) => {
                    assert(v.factories.dom().contains(f.0));
                },
                _ => {},
            }
        }
    }
    assert forall|k: u64| #[trigger] w.factories.dom().contains(k) implies factory_ok(w, k) by {
        if v.factories.dom().contains(k) {
            assert(factory_ok(v, k));
            let f = v.factories[k];
            assert forall|j: int| 0 <= j < f.components@.len() implies #[trigger] factory_slot_ok(w, f.components@[j], k) by {
                assert(factory_slot_ok(v, f.components@[j], k));
            }
        }
    }
    assert forall|k: u64| #[trigger] w.sell_listings.dom().contains(k) implies listing_ok(w, k) by {
        if v.sell_listings.dom().contains(k) {
            assert(listing_ok(v, k));
            let l = v.sell_listings[k];
            assert(v.lots.dom().contains(l.lot.0));
            assert(v.markets.dom().contains(l.market.0));
            lemma_site_of_grows(v, w, v.lots[l.lot.0].location, 16);
        }
    }
    assert forall|k: u64| #[trigger] w.buy_orders.dom().contains(k) implies order_ok(w, k) by {
        if v.buy_orders.dom().contains(k) {
            assert(order_ok(v, k));
        }
    }
    assert forall|k: u64| #[trigger] w.convoys.dom().contains(k) implies convoy_ok(w, k) by {
        if v.convoys.dom().contains(k) {
            assert(convoy_ok(v, k));
            let c = v.convoys[k];
            if c.state != ConvoyState::Disbanded {
                assert forall|j: int| 0 <= j < c.vehicles@.len() implies #[trigger] asset_aboard(w, c.vehicles@[j], k) by {
                    assert(asset_aboard(v, c.vehicles@[j], k));
                }
                assert forall|j: int| 0 <= j < c.guards@.len() implies #[trigger] asset_aboard(w, c.guards@[j], k) by {
                    assert(asset_aboard(v, c.guards@[j], k));
                }
                assert forall|j: int| 0 <= j < c.cargo_assets@.len() implies #[trigger] asset_aboard(w, c.cargo_assets@[j], k) by {
                    assert(asset_aboard(v, c.cargo_assets@[j], k));
                }
                assert forall|j: int| 0 <= j < c.cargo_lots@.len() implies #[trigger] lot_aboard(w, c.cargo_lots@[j], k) by {
                    assert(lot_aboard(v, c.cargo_lots@[j], k));
                    let l = c.cargo_lots@[j];
                    match v.lots[l.0].location {
                        LocationRef::Container(a) => {
                            assert(v.assets.dom().contains(a.0));
                        },
                        _ => {},
                    }
                }
            }
        }
    }
    assert forall|k: u64| #[trigger] w.production_jobs.dom().contains(k) implies job_ok(w, k) by {
        if v.production_jobs.dom().contains(k) {
            assert(job_ok(v, k));
            let j = v.production_jobs[k];
            assert forall|x: int| 0 <= x < j.consumed_lots@.len() implies #[trigger] consumed_by(w, j.consumed_lots@[x], k) by {
                assert(consumed_by(v, j.consumed_lots@[x], k));
            }
            match j.state {
                JobState::Completed { output_lots, output_assets, output_components } => {
                    assert forall|x: int| 0 <= x < output_lots@.len() implies w.lots.dom().contains(#[trigger] output_lots@[x].0) by {
                        assert(v.lots.dom().contains(output_lots@[x].0));
                    }
                    assert forall|x: int| 0 <= x < output_assets@.len() implies w.assets.dom().contains(#[trigger] output_assets@[x].0) by {
                        assert(v.assets.dom().contains(output_assets@[x].0));
                    }
                    assert forall|x: int|
                        0 <= x < output_components@.len() implies w.components.dom().contains(#[trigger] output_components@[x].0) by {
                        assert(v.components.dom().contains(output_components@[x].0));
                    }
                },
                _ => {},
            }
        }
    }
    assert forall|k: u64| #[trigger] w.formations.dom().contains(k) implies formation_ok(w, k) by {
        if v.formations.dom().contains(k) {
            assert(formation_ok(v, k));
            let f = v.formations[k];
            assert forall|j: int| 0 <= j < f.assets@.len() implies #[trigger] in_formation(w, f.assets@[j], k) by {
                assert(in_formation(v, f.assets@[j], k));
            }
        }
    }
}

/// The largest magnitude one credit amount can have.
pub open spec fn credit_bound() -> int {
    0x8000_0000_0000_0000
}

impl World {
    /// Credits in circulation: every treasury plus every buy-order escrow.
    fn circulation_total(&self) -> (t: i128)
        requires
            self.wf(),
            self@.actor_keys.len() + self@.order_keys.len() <= 0x4000_0000_0000_0000,
        ensures
            t == self@.circulation(),
    {
        let n = self.actors.len();
        let mut total: i128 = 0;
        let mut i: usize = 0;
        while i < n
            invariant
                self.wf(),
                n == self.actors.keys().len(),
                n + self@.order_keys.len() <= 0x4000_0000_0000_0000,
                i <= n,
                total == crate::table::sum_over(self.actors.keys().take(i as int), self@.actors, |a: crate::actors::Actor| a.treasury as int),
                -(i as int) * credit_bound() <= total <= (i as int) * credit_bound(),
            decreases n - i,
        {
            let a = self.actors.val_at(i);
            proof {
                let ks = self.actors.keys().take(i + 1);
                assert(ks.drop_last() =~= self.actors.keys().take(i as int));
                assert(ks.last() == self.actors.keys()[i as int]);
                assert(*a == self@.actors[ks.last()]);
            }
            total = total + a.treasury as i128;
            i = i + 1;
        }
        proof {
            assert(self.actors.keys().take(n as int) =~= self.actors.keys());
        }
        let m = self.buy_orders.len();
        let ghost base = total;
        let mut e: i128 = 0;
        let mut j: usize = 0;
        while j < m
            invariant
                self.wf(),
                m == self.buy_orders.keys().len(),
                n + m <= 0x4000_0000_0000_0000,
                j <= m,
                e == crate::table::sum_over(
                    self.buy_orders.keys().take(j as int),
                    self@.buy_orders,
                    |o: crate::markets::BuyOrder| o.escrow as int,
                ),
                -(j as int) * credit_bound() <= e <= (j as int) * credit_bound(),
            decreases m - j,
        {
            let o = self.buy_orders.val_at(j);
            proof {
                let ks = self.buy_orders.keys().take(j + 1);
                assert(ks.drop_last() =~= self.buy_orders.keys().take(j as int));
                assert(ks.last() == self.buy_orders.keys()[j as int]);
                assert(*o == self@.buy_orders[ks.last()]);
            }
            e = e + o.escrow as i128;
            j = j + 1;
        }
        proof {
            assert(self.buy_orders.keys().take(m as int) =~= self.buy_orders.keys());
        }
        total + e
    }

    /// Check the hard "everything important is real" invariants. Returns
    /// one message per violation; the list is empty exactly when the world
    /// is consistent.
    pub fn check_invariants(&self) -> (r: Vec<String>)
        requires
            self.wf(),
            self@.actor_keys.len() + self@.order_keys.len() <= 0x4000_0000_0000_0000,
        ensures
            (r@.len() == 0) <==> consistent(self@),
    {
        let mut out: Vec<String> = Vec::new();
        self.check_actors(&mut out);
        let ghost l1 = out@.len();
        self.check_lots(&mut out);
        let ghost l2 = out@.len();
        self.check_assets(&mut out);
        let ghost l3 = out@.len();
        self.check_components(&mut out);
        let ghost l4 = out@.len();
        self.check_factories(&mut out);
        let ghost l5 = out@.len();
        self.check_listings(&mut out);
        let ghost l6 = out@.len();
        self.check_orders(&mut out);
        let ghost l7 = out@.len();
        self.check_convoys(&mut out);
        let ghost l8 = out@.len();
        self.check_jobs(&mut out);
        let ghost l9 = out@.len();
        self.check_formations(&mut out);
        let total = self.circulation_total();
        if total != self.money_issued {
            out.push("money conservation violated: circulation differs from what was issued".to_owned());
        }
        out
    }
}


/// Fitting a loose component into a free factory slot keeps the hard
/// invariants: the component and the factory now point at each other, and
/// nothing else moves.
pub proof fn lemma_fit_factory_consistent(v: WorldView, w: WorldView, factory: FactoryId, component: ComponentId)
    requires
        consistent(v),
        crate::assets::factory_fit_error(v, factory, component) is None,
        ({
            let f = v.factories[factory.0];
            let c = v.components[component.0];
            let category = v.component_defs[c.def.0].category;
            &&& w.factories[factory.0].components@ == f.components@.push((category, component))
            &&& w == (WorldView {
                factories: v.factories.insert(
                    factory.0,
                    crate::production::Factory { components: w.factories[factory.0].components, ..f },
                ),
                components: v.components.insert(
                    component.0,
                    crate::assets::ComponentInstance { placement: ComponentPlacement::FittedFactory(factory), ..c },
                ),
                ..v
            }).log(crate::events::EventKind::ComponentFittedToFactory { component, factory, category })
        }),
    ensures
        consistent(w),
{
    let c = v.components[component.0];
    assert(c.placement is Loose);
    assert forall|k: u64| #[trigger] w.assets.dom().contains(k) implies asset_ok(w, k) by {
        assert(asset_ok(v, k));
        let a = v.assets[k];
        assert forall|j: int| 0 <= j < a.fitted@.len() implies #[trigger] fitted_back(w, a.fitted@[j].1, k) by {
            assert(fitted_back(v, a.fitted@[j].1, k));
        }
    }
    assert forall|k: u64| #[trigger] w.components.dom().contains(k) implies component_ok(w, k) by {
        if k == component.0 {
            let s = w.factories[factory.0].components@;
            assert(s[s.len() - 1].1 == component);
            assert(category_holds(s, ComponentId(k)));
        } else {
            assert(component_ok(v, k));
            match v.components[k].placement {
                ComponentPlacement::FittedFactory(f) => {
                    if f == factory {
                        let s0 = v.factories[factory.0].components@;
                        let j = choose|j: int| 0 <= j < s0.len() && #[trigger] s0[j].1 == ComponentId(k);
                        assert(w.factories[factory.0].components@[j] == s0[j]);
                        assert(category_holds(w.factories[factory.0].components@, ComponentId(k)));
                    }
                },
                _ => {},
            }
        }
    }
    assert forall|k: u64| #[trigger] w.factories.dom().contains(k) implies factory_ok(w, k) by {
        assert(factory_ok(v, k));
        let s0 = v.factories[k].components@;
        assert forall|j: int| 0 <= j < w.factories[k].components@.len() implies #[trigger] factory_slot_ok(
            w,
            w.factories[k].components@[j],
            k,
        ) by {
            if j < s0.len() {
                assert(w.factories[k].components@[j] == s0[j]);
                assert(factory_slot_ok(v, s0[j], k));
            }
        }
    }
    assert forall|k: u64| #[trigger] w.sell_listings.dom().contains(k) implies listing_ok(w, k) by {
        assert(listing_ok(v, k));
        let l = v.sell_listings[k];
        lemma_site_of_grows(v, w, v.lots[l.lot.0].location, 16);
    }
    assert(w.factories.dom() =~= v.factories.dom());
    assert(w.components.dom() =~= v.components.dom());
    assert forall|k: u64| #[trigger] w.production_jobs.dom().contains(k) implies job_ok(w, k) by {
        lemma_job_ok_same(v, w, k);
    }
    assert forall|k: u64| #[trigger] w.lots.dom().contains(k) implies lot_ok(w, k) by {
        assert(lot_ok(v, k));
    }
    assert forall|k: u64| #[trigger] w.convoys.dom().contains(k) implies convoy_ok(w, k) by {
        lemma_convoy_ok_same(v, w, k);
    }
    assert forall|k: u64| #[trigger] w.formations.dom().contains(k) implies formation_ok(w, k) by {
        lemma_formation_ok_same(v, w, k);
    }
    assert forall|k: u64| #[trigger] w.actors.dom().contains(k) implies actor_ok(w, k) by {
        assert(actor_ok(v, k));
    }
}

/// A convoy's soundness reads only actors, assets, lots and the convoy.
pub proof fn lemma_convoy_ok_same(v: WorldView, w: WorldView, k: u64)
    requires
        convoy_ok(v, k),
        w.convoys == v.convoys,
        w.assets == v.assets,
        w.lots == v.lots,
        w.actors == v.actors,
    ensures
        convoy_ok(w, k),
{
    let c = v.convoys[k];
    if c.state != ConvoyState::Disbanded {
        assert forall|j: int| 0 <= j < c.vehicles@.len() implies #[trigger] asset_aboard(w, c.vehicles@[j], k) by {
            assert(asset_aboard(v, c.vehicles@[j], k));
        }
        assert forall|j: int| 0 <= j < c.guards@.len() implies #[trigger] asset_aboard(w, c.guards@[j], k) by {
            assert(asset_aboard(v, c.guards@[j], k));
        }
        assert forall|j: int| 0 <= j < c.cargo_assets@.len() implies #[trigger] asset_aboard(w, c.cargo_assets@[j], k) by {
            assert(asset_aboard(v, c.cargo_assets@[j], k));
        }
        assert forall|j: int| 0 <= j < c.cargo_lots@.len() implies #[trigger] lot_aboard(w, c.cargo_lots@[j], k) by {
            assert(lot_aboard(v, c.cargo_lots@[j], k));
        }
    }
}

/// A production job's soundness reads only jobs, lots, and which
/// factories, assets and components exist.
pub proof fn lemma_job_ok_same(v: WorldView, w: WorldView, k: u64)
    requires
        job_ok(v, k),
        w.production_jobs == v.production_jobs,
        w.lots == v.lots,
        w.factories.dom() == v.factories.dom(),
        w.assets.dom() == v.assets.dom(),
        w.components.dom() == v.components.dom(),
    ensures
        job_ok(w, k),
{
    let j = v.production_jobs[k];
    assert forall|x: int| 0 <= x < j.consumed_lots@.len() implies #[trigger] consumed_by(w, j.consumed_lots@[x], k) by {
        assert(consumed_by(v, j.consumed_lots@[x], k));
    }
}

/// A formation's soundness reads only the formation and the assets.
pub proof fn lemma_formation_ok_same(v: WorldView, w: WorldView, k: u64)
    requires
        formation_ok(v, k),
        w.formations == v.formations,
        w.assets == v.assets,
    ensures
        formation_ok(w, k),
{
    let f = v.formations[k];
    assert forall|j: int| 0 <= j < f.assets@.len() implies #[trigger] in_formation(w, f.assets@[j], k) by {
        assert(in_formation(v, f.assets@[j], k));
    }
}

/// The hard invariants survive a change that touches only treasuries (none
/// going negative, money still conserved) and the factories' fields other
/// than their fitted slots.
pub proof fn lemma_factory_fields_consistent(v: WorldView, w: WorldView)
    requires
        consistent(v),
        w.actors.dom() == v.actors.dom(),
        actors_ok(w),
        w.money_conserved(),
        w.locations.dom() == v.locations.dom(),
        w.lots == v.lots,
        w.assets == v.assets,
        w.components == v.components,
        w.component_defs == v.component_defs,
        w.designs.dom() == v.designs.dom(),
        w.markets == v.markets,
        w.sell_listings == v.sell_listings,
        w.buy_orders == v.buy_orders,
        w.stockpiles == v.stockpiles,
        w.production_jobs == v.production_jobs,
        w.convoys == v.convoys,
        w.formations == v.formations,
        w.factories.dom() == v.factories.dom(),
        forall|k: u64| #[trigger] v.factories.dom().contains(k) ==> w.factories[k].components == v.factories[k].components,
    ensures
        consistent(w),
{
    assert forall|k: u64| #[trigger] w.assets.dom().contains(k) implies asset_ok(w, k) by {
        assert(asset_ok(v, k));
        let a = v.assets[k];
        assert forall|j: int| 0 <= j < a.fitted@.len() implies #[trigger] fitted_back(w, a.fitted@[j].1, k) by {
            assert(fitted_back(v, a.fitted@[j].1, k));
        }
    }
    assert forall|k: u64| #[trigger] w.components.dom().contains(k) implies component_ok(w, k) by {
        assert(component_ok(v, k));
    }
    assert forall|k: u64| #[trigger] w.factories.dom().contains(k) implies factory_ok(w, k) by {
        assert(factory_ok(v, k));
        let s0 = v.factories[k].components@;
        assert forall|j: int| 0 <= j < s0.len() implies #[trigger] factory_slot_ok(w, w.factories[k].components@[j], k) by {
            assert(factory_slot_ok(v, s0[j], k));
        }
    }
    assert forall|k: u64| #[trigger] w.sell_listings.dom().contains(k) implies listing_ok(w, k) by {
        assert(listing_ok(v, k));
        let l = v.sell_listings[k];
        lemma_site_of_grows(v, w, v.lots[l.lot.0].location, 16);
    }
    assert forall|k: u64| #[trigger] w.production_jobs.dom().contains(k) implies job_ok(w, k) by {
        lemma_job_ok_same(v, w, k);
    }
    assert forall|k: u64| #[trigger] w.lots.dom().contains(k) implies lot_ok(w, k) by {
        assert(lot_ok(v, k));
    }
    assert forall|k: u64| #[trigger] w.convoys.dom().contains(k) implies convoy_ok(w, k) by {
        assert(convoy_ok(v, k));
        let c = v.convoys[k];
        if c.state != ConvoyState::Disbanded {
            assert(v.actors.dom().contains(c.owner.0));
            assert forall|j: int| 0 <= j < c.vehicles@.len() implies #[trigger] asset_aboard(w, c.vehicles@[j], k) by {
                assert(asset_aboard(v, c.vehicles@[j], k));
            }
            assert forall|j: int| 0 <= j < c.guards@.len() implies #[trigger] asset_aboard(w, c.guards@[j], k) by {
                assert(asset_aboard(v, c.guards@[j], k));
            }
            assert forall|j: int| 0 <= j < c.cargo_assets@.len() implies #[trigger] asset_aboard(w, c.cargo_assets@[j], k) by {
                assert(asset_aboard(v, c.cargo_assets@[j], k));
            }
            assert forall|j: int| 0 <= j < c.cargo_lots@.len() implies #[trigger] lot_aboard(w, c.cargo_lots@[j], k) by {
                assert(lot_aboard(v, c.cargo_lots@[j], k));
            }
        }
    }
    assert forall|k: u64| #[trigger] w.formations.dom().contains(k) implies formation_ok(w, k) by {
        lemma_formation_ok_same(v, w, k);
    }
    assert forall|k: u64| #[trigger] w.buy_orders.dom().contains(k) implies order_ok(w, k) by {
        assert(order_ok(v, k));
    }
}

/// More fuel never changes a holder chain's site once it is found.
pub proof fn lemma_site_of_fuel(v: WorldView, x: LocationRef, m: nat, n: nat)
    requires
        m <= n,
        crate::locations::site_of(v, x, m) is Some,
    ensures
        crate::locations::site_of(v, x, n) == crate::locations::site_of(v, x, m),
    decreases m,
{
    if let LocationRef::Container(a) = x {
        lemma_site_of_fuel(v, v.assets[a.0].location, (m - 1) as nat, (n - 1) as nat);
    }
}

/// Assets relocated into a holder standing at the site they already
/// resolved to: every holder chain that resolved still resolves, to the
/// same site.
pub proof fn lemma_site_of_relocated(v: WorldView, w: WorldView, site: crate::ids::LocationId, loc: LocationRef, fuel: nat)
    requires
        fuel <= 16,
        kept(v.stockpiles, w.stockpiles),
        kept(v.convoys, w.convoys),
        kept(v.formations, w.formations),
        w.assets.dom() == v.assets.dom(),
        forall|k: u64| #[trigger] v.assets.dom().contains(k) ==> w.assets[k].location == v.assets[k].location || (
        resolve(v, v.assets[k].location) == Some(site) && !(w.assets[k].location is Container)
            && crate::locations::site_of(w, w.assets[k].location, 1) == Some(site)),
        crate::locations::site_of(v, loc, fuel) is Some,
    ensures
        crate::locations::site_of(w, loc, fuel) == crate::locations::site_of(v, loc, fuel),
    decreases fuel,
{
    if let LocationRef::Container(a) = loc {
        let lv = v.assets[a.0].location;
        let lw = w.assets[a.0].location;
        if lw == lv {
            lemma_site_of_relocated(v, w, site, lv, (fuel - 1) as nat);
        } else {
            lemma_site_of_fuel(v, lv, (fuel - 1) as nat, 16);
            assert(crate::locations::site_of(w, lw, (fuel - 1) as nat) == crate::locations::site_of(w, lw, 1));
        }
    }
}

/// Listings survive assets relocated within their site.
proof fn lemma_listings_relocated(v: WorldView, w: WorldView, site: crate::ids::LocationId)
    requires
        listings_ok(v),
        w.sell_listings == v.sell_listings,
        w.lots == v.lots,
        w.markets == v.markets,
        kept(v.stockpiles, w.stockpiles),
        kept(v.convoys, w.convoys),
        kept(v.formations, w.formations),
        w.assets.dom() == v.assets.dom(),
        forall|k: u64| #[trigger] v.assets.dom().contains(k) ==> w.assets[k].location == v.assets[k].location || (
        resolve(v, v.assets[k].location) == Some(site) && !(w.assets[k].location is Container)
            && crate::locations::site_of(w, w.assets[k].location, 1) == Some(site)),
    ensures
        listings_ok(w),
{
    assert forall|k: u64| #[trigger] w.sell_listings.dom().contains(k) implies listing_ok(w, k) by {
        assert(listing_ok(v, k));
        let l = v.sell_listings[k];
        lemma_site_of_relocated(v, w, site, v.lots[l.lot.0].location, 16);
    }
}

/// Forming a convoy keeps the hard invariants: its vehicles, none of them
/// aboard another convoy or in a formation, go aboard the new convoy
/// standing where they were.
pub proof fn law_form_convoy_keeps_invariants(
    v: WorldView,
    w: WorldView,
    owner: crate::ids::ActorId,
    at: crate::ids::LocationId,
    vehicles: Seq<AssetId>,
)
    requires
        v.wf(),
        consistent(v),
        v.actors.dom().contains(owner.0),
        v.locations.dom().contains(at.0),
        vehicles.len() > 0,
        crate::convoys::first_transport_error(v, owner, at, vehicles) is None,
        ({
            let id = ConvoyId(v.next_id);
            let c = w.convoys[id.0];
            &&& c.vehicles@ == vehicles
            &&& c.guards@.len() == 0
            &&& c.cargo_lots@.len() == 0
            &&& c.cargo_assets@.len() == 0
            &&& w == crate::convoys::assets_moved(
                WorldView {
                    convoys: v.convoys.insert(
                        id.0,
                        crate::convoys::Convoy {
                            id,
                            owner,
                            vehicles: c.vehicles,
                            guards: c.guards,
                            cargo_lots: c.cargo_lots,
                            cargo_assets: c.cargo_assets,
                            state: ConvoyState::Forming { at },
                            formed_day: v.clock.day,
                        },
                    ),
                    ..v.bump()
                },
                vehicles,
                LocationRef::Convoy(id),
            ).log(crate::events::EventKind::ConvoyFormed { convoy: id, at })
        }),
    ensures
        consistent(w),
{
    let id = ConvoyId(v.next_id);
    let c = w.convoys[id.0];
    let u = WorldView {
        convoys: v.convoys.insert(
            id.0,
            crate::convoys::Convoy {
                id,
                owner,
                vehicles: c.vehicles,
                guards: c.guards,
                cargo_lots: c.cargo_lots,
                cargo_assets: c.cargo_assets,
                state: ConvoyState::Forming { at },
                formed_day: v.clock.day,
            },
        ),
        ..v.bump()
    };
    crate::convoys::lemma_transport_ok_each(v, owner, at, vehicles);
    crate::convoys::lemma_assets_moved_content(u, vehicles, LocationRef::Convoy(id));
    crate::convoys::lemma_assets_moved_frame(u, vehicles, LocationRef::Convoy(id));
    assert(!v.convoys.dom().contains(id.0));
    assert(w.convoys == u.convoys);
    assert forall|k: u64| #[trigger] v.assets.dom().contains(k) implies w.assets[k].location == v.assets[k].location || (
    resolve(v, v.assets[k].location) == Some(at) && !(w.assets[k].location is Container)
        && crate::locations::site_of(w, w.assets[k].location, 1) == Some(at)) by {
        if vehicles.contains(AssetId(k)) {
            let i = choose|i: int| 0 <= i < vehicles.len() && vehicles[i] == AssetId(k);
            assert(crate::convoys::transport_error(v, owner, at, vehicles[i]) is None);
        }
    }
    lemma_listings_relocated(v, w, at);
    assert forall|k: u64| #[trigger] w.assets.dom().contains(k) implies asset_ok(w, k) by {
        assert(asset_ok(v, k));
        let a = v.assets[k];
        if vehicles.contains(AssetId(k)) {
            let i = choose|i: int| 0 <= i < vehicles.len() && vehicles[i] == AssetId(k);
            assert(crate::convoys::transport_error(v, owner, at, vehicles[i]) is None);
        }
        assert forall|j: int| 0 <= j < a.fitted@.len() implies #[trigger] fitted_back(w, a.fitted@[j].1, k) by {
            assert(fitted_back(v, a.fitted@[j].1, k));
        }
    }
    assert forall|k: u64| #[trigger] w.components.dom().contains(k) implies component_ok(w, k) by {
        assert(component_ok(v, k));
        match v.components[k].placement {
            ComponentPlacement::Fitted(a) => {
                assert(slot_holds(v.assets[a.0].fitted@, ComponentId(k)));
            },
            ComponentPlacement::Loose(loc) => {},
            _ => {},
        }
    }
    assert forall|k: u64| #[trigger] w.factories.dom().contains(k) implies factory_ok(w, k) by {
        assert(factory_ok(v, k));
        let s0 = v.factories[k].components@;
        assert forall|j: int| 0 <= j < s0.len() implies #[trigger] factory_slot_ok(w, s0[j], k) by {
            assert(factory_slot_ok(v, s0[j], k));
        }
    }
    assert forall|k: u64| #[trigger] w.production_jobs.dom().contains(k) implies job_ok(w, k) by {
        lemma_job_ok_same(v, w, k);
    }
    assert forall|k: u64| #[trigger] w.lots.dom().contains(k) implies lot_ok(w, k) by {
        assert(lot_ok(v, k));
    }
    assert forall|k: u64| #[trigger] w.convoys.dom().contains(k) implies convoy_ok(w, k) by {
        if k == id.0 {
            assert forall|j: int| 0 <= j < c.vehicles@.len() implies #[trigger] asset_aboard(w, c.vehicles@[j], k) by {
                assert(vehicles.contains(vehicles[j]));
                assert(crate::convoys::transport_error(v, owner, at, vehicles[j]) is None);
            }
        } else {
            assert(convoy_ok(v, k));
            let cv = v.convoys[k];
            if cv.state != ConvoyState::Disbanded {
                assert forall|j: int| 0 <= j < cv.vehicles@.len() implies #[trigger] asset_aboard(w, cv.vehicles@[j], k) by {
                    assert(asset_aboard(v, cv.vehicles@[j], k));
                }
                assert forall|j: int| 0 <= j < cv.guards@.len() implies #[trigger] asset_aboard(w, cv.guards@[j], k) by {
                    assert(asset_aboard(v, cv.guards@[j], k));
                }
                assert forall|j: int| 0 <= j < cv.cargo_assets@.len() implies #[trigger] asset_aboard(w, cv.cargo_assets@[j], k) by {
                    assert(asset_aboard(v, cv.cargo_assets@[j], k));
                }
                assert forall|j: int| 0 <= j < cv.cargo_lots@.len() implies #[trigger] lot_aboard(w, cv.cargo_lots@[j], k) by {
                    assert(lot_aboard(v, cv.cargo_lots@[j], k));
                    let l = v.lots[cv.cargo_lots@[j].0];
                    if let LocationRef::Container(a) = l.location {
                        assert(v.assets[a.0].location == LocationRef::Convoy(ConvoyId(k)));
                    }
                }
            }
        }
    }
    assert forall|k: u64| #[trigger] w.formations.dom().contains(k) implies formation_ok(w, k) by {
        assert(formation_ok(v, k));
        let f = v.formations[k];
        assert forall|j: int| 0 <= j < f.assets@.len() implies #[trigger] in_formation(w, f.assets@[j], k) by {
            assert(in_formation(v, f.assets@[j], k));
        }
    }
    assert forall|k: u64| #[trigger] w.buy_orders.dom().contains(k) implies order_ok(w, k) by {
        assert(order_ok(v, k));
    }
    assert forall|k: u64| #[trigger] w.actors.dom().contains(k) implies actor_ok(w, k) by {
        assert(actor_ok(v, k));
    }
}

/// Assembling a formation keeps the hard invariants: the assets it takes,
/// the owner's and held by no convoy or formation, join the new formation
/// stationed at the site where they stood.
pub proof fn law_assemble_keeps_invariants(
    v: WorldView,
    w: WorldView,
    owner: crate::ids::ActorId,
    site: crate::ids::LocationId,
    id: FormationId,
    template: crate::ids::ToeTemplateId,
    taken: Seq<AssetId>,
    fm: crate::toe::Formation,
    kind: crate::events::EventKind,
)
    requires
        v.wf(),
        consistent(v),
        id.0 == v.next_id,
        forall|i: int| 0 <= i < taken.len() ==> crate::toe::takeable(v, owner, site, #[trigger] taken[i]),
        fm.assets@ == taken,
        w == crate::convoys::assets_moved(
            WorldView {
                formations: v.formations.insert(
                    id.0,
                    crate::toe::Formation {
                        id,
                        owner,
                        template,
                        name: fm.name,
                        assets: fm.assets,
                        state: crate::toe::FormationState::Stationed { at: site },
                        formed_day: v.clock.day,
                    },
                ),
                ..v.bump()
            },
            taken,
            LocationRef::Formation(id),
        ).log(kind),
    ensures
        consistent(w),
{
    let u = WorldView {
        formations: v.formations.insert(
            id.0,
            crate::toe::Formation {
                id,
                owner,
                template,
                name: fm.name,
                assets: fm.assets,
                state: crate::toe::FormationState::Stationed { at: site },
                formed_day: v.clock.day,
            },
        ),
        ..v.bump()
    };
    assert forall|i: int| 0 <= i < taken.len() implies u.assets.dom().contains(#[trigger] taken[i].0) by {
        assert(crate::toe::takeable(v, owner, site, taken[i]));
    }
    crate::convoys::lemma_assets_moved_content(u, taken, LocationRef::Formation(id));
    crate::convoys::lemma_assets_moved_frame(u, taken, LocationRef::Formation(id));
    assert(!v.formations.dom().contains(id.0));
    assert(w.formations == u.formations);
    assert forall|k: u64| #[trigger] v.assets.dom().contains(k) implies w.assets[k].location == v.assets[k].location || (
    resolve(v, v.assets[k].location) == Some(site) && !(w.assets[k].location is Container)
        && crate::locations::site_of(w, w.assets[k].location, 1) == Some(site)) by {
        if taken.contains(AssetId(k)) {
            let i = choose|i: int| 0 <= i < taken.len() && taken[i] == AssetId(k);
            assert(crate::toe::takeable(v, owner, site, taken[i]));
        }
    }
    lemma_listings_relocated(v, w, site);
    assert forall|k: u64| #[trigger] w.assets.dom().contains(k) implies asset_ok(w, k) by {
        assert(asset_ok(v, k));
        let a = v.assets[k];
        assert forall|j: int| 0 <= j < a.fitted@.len() implies #[trigger] fitted_back(w, a.fitted@[j].1, k) by {
            assert(fitted_back(v, a.fitted@[j].1, k));
        }
    }
    assert forall|k: u64| #[trigger] w.components.dom().contains(k) implies component_ok(w, k) by {
        assert(component_ok(v, k));
        match v.components[k].placement {
            ComponentPlacement::Fitted(a) => {
                assert(slot_holds(v.assets[a.0].fitted@, ComponentId(k)));
            },
            _ => {},
        }
    }
    assert forall|k: u64| #[trigger] w.factories.dom().contains(k) implies factory_ok(w, k) by {
        assert(factory_ok(v, k));
        let s0 = v.factories[k].components@;
        assert forall|j: int| 0 <= j < s0.len() implies #[trigger] factory_slot_ok(w, s0[j], k) by {
            assert(factory_slot_ok(v, s0[j], k));
        }
    }
    assert forall|k: u64| #[trigger] w.production_jobs.dom().contains(k) implies job_ok(w, k) by {
        lemma_job_ok_same(v, w, k);
    }
    assert forall|k: u64| #[trigger] w.lots.dom().contains(k) implies lot_ok(w, k) by {
        assert(lot_ok(v, k));
    }
    assert forall|k: u64| #[trigger] w.convoys.dom().contains(k) implies convoy_ok(w, k) by {
        assert(convoy_ok(v, k));
        let cv = v.convoys[k];
        if cv.state != ConvoyState::Disbanded {
            assert forall|j: int| 0 <= j < cv.vehicles@.len() implies #[trigger] asset_aboard(w, cv.vehicles@[j], k) by {
                assert(asset_aboard(v, cv.vehicles@[j], k));
            }
            assert forall|j: int| 0 <= j < cv.guards@.len() implies #[trigger] asset_aboard(w, cv.guards@[j], k) by {
                assert(asset_aboard(v, cv.guards@[j], k));
            }
            assert forall|j: int| 0 <= j < cv.cargo_assets@.len() implies #[trigger] asset_aboard(w, cv.cargo_assets@[j], k) by {
                assert(asset_aboard(v, cv.cargo_assets@[j], k));
            }
            assert forall|j: int| 0 <= j < cv.cargo_lots@.len() implies #[trigger] lot_aboard(w, cv.cargo_lots@[j], k) by {
                assert(lot_aboard(v, cv.cargo_lots@[j], k));
                let l = v.lots[cv.cargo_lots@[j].0];
                if let LocationRef::Container(a) = l.location {
                    assert(v.assets[a.0].location == LocationRef::Convoy(ConvoyId(k)));
                }
            }
        }
    }
    assert forall|k: u64| #[trigger] w.formations.dom().contains(k) implies formation_ok(w, k) by {
        if k == id.0 {
            assert forall|j: int| 0 <= j < fm.assets@.len() implies #[trigger] in_formation(w, fm.assets@[j], k) by {
                assert(taken.contains(taken[j]));
                assert(crate::toe::takeable(v, owner, site, taken[j]));
            }
        } else {
            assert(formation_ok(v, k));
            let f = v.formations[k];
            assert forall|j: int| 0 <= j < f.assets@.len() implies #[trigger] in_formation(w, f.assets@[j], k) by {
                assert(in_formation(v, f.assets@[j], k));
            }
        }
    }
    assert forall|k: u64| #[trigger] w.buy_orders.dom().contains(k) implies order_ok(w, k) by {
        assert(order_ok(v, k));
    }
    assert forall|k: u64| #[trigger] w.actors.dom().contains(k) implies actor_ok(w, k) by {
        assert(actor_ok(v, k));
    }
}

/// A world with nothing in it and no money issued is sound.
pub proof fn lemma_empty_consistent(v: WorldView)
    requires
        v.wf(),
        v.is_empty_world(),
        v.money_issued == 0,
    ensures
        consistent(v),
{
    if v.actor_keys.len() > 0 {
        let k = v.actor_keys[0];
        assert(v.actor_keys.contains(k));
        assert(v.actors.dom().contains(k));
        assert(v.actors.dom().is_empty());
    }
    if v.order_keys.len() > 0 {
        let k = v.order_keys[0];
        assert(v.order_keys.contains(k));
        assert(v.buy_orders.dom().contains(k));
        assert(v.buy_orders.dom().is_empty());
    }
    assert(v.actor_keys.len() == 0);
    assert(v.order_keys.len() == 0);
}

/// Splitting a lot keeps the hard invariants: the child is a sound new lot
/// beside its parent, and the parent keeps its state with a smaller,
/// nonzero quantity.
pub proof fn law_split_keeps_invariants(v: WorldView, w: WorldView, lot: LotId, quantity: u64, child: LotId)
    requires
        v.wf(),
        consistent(v),
        v.lots.dom().contains(lot.0),
        crate::goods::split_outcome(v, w, lot, quantity, Ok(child)),
    ensures
        consistent(w),
{
    let l = v.lots[lot.0];
    assert(!v.lots.dom().contains(v.next_id));
    assert(child.0 == v.next_id);
    assert(w.lots.dom().contains(lot.0));
    assert(w.lots[lot.0] == crate::goods::Lot { quantity: (l.quantity - quantity) as u64, ..l });
    assert(w.lots[child.0].location == l.location);
    assert forall|k: u64| #[trigger] w.lots.dom().contains(k) implies lot_ok(w, k) by {
        if k != child.0 {
            assert(lot_ok(v, k));
        }
    }
    assert forall|k: u64| #[trigger] w.sell_listings.dom().contains(k) implies listing_ok(w, k) by {
        assert(listing_ok(v, k));
        let sl = v.sell_listings[k];
        lemma_site_of_grows(v, w, v.lots[sl.lot.0].location, 16);
    }
    assert forall|k: u64| #[trigger] w.production_jobs.dom().contains(k) implies job_ok(w, k) by {
        assert(job_ok(v, k));
        let j = v.production_jobs[k];
        assert forall|x: int| 0 <= x < j.consumed_lots@.len() implies #[trigger] consumed_by(w, j.consumed_lots@[x], k) by {
            assert(consumed_by(v, j.consumed_lots@[x], k));
        }
    }
    assert forall|k: u64| #[trigger] w.convoys.dom().contains(k) implies convoy_ok(w, k) by {
        assert(convoy_ok(v, k));
        let cv = v.convoys[k];
        if cv.state != ConvoyState::Disbanded {
            assert forall|j: int| 0 <= j < cv.vehicles@.len() implies #[trigger] asset_aboard(w, cv.vehicles@[j], k) by {
                assert(asset_aboard(v, cv.vehicles@[j], k));
            }
            assert forall|j: int| 0 <= j < cv.guards@.len() implies #[trigger] asset_aboard(w, cv.guards@[j], k) by {
                assert(asset_aboard(v, cv.guards@[j], k));
            }
            assert forall|j: int| 0 <= j < cv.cargo_assets@.len() implies #[trigger] asset_aboard(w, cv.cargo_assets@[j], k) by {
                assert(asset_aboard(v, cv.cargo_assets@[j], k));
            }
            assert forall|j: int| 0 <= j < cv.cargo_lots@.len() implies #[trigger] lot_aboard(w, cv.cargo_lots@[j], k) by {
                assert(lot_aboard(v, cv.cargo_lots@[j], k));
            }
        }
    }
    assert forall|k: u64| #[trigger] w.assets.dom().contains(k) implies asset_ok(w, k) by {
        assert(asset_ok(v, k));
        let a = v.assets[k];
        assert forall|j: int| 0 <= j < a.fitted@.len() implies #[trigger] fitted_back(w, a.fitted@[j].1, k) by {
            assert(fitted_back(v, a.fitted@[j].1, k));
        }
    }
    assert forall|k: u64| #[trigger] w.components.dom().contains(k) implies component_ok(w, k) by {
        assert(component_ok(v, k));
    }
    assert forall|k: u64| #[trigger] w.factories.dom().contains(k) implies factory_ok(w, k) by {
        assert(factory_ok(v, k));
        let s0 = v.factories[k].components@;
        assert forall|j: int| 0 <= j < s0.len() implies #[trigger] factory_slot_ok(w, s0[j], k) by {
            assert(factory_slot_ok(v, s0[j], k));
        }
    }
    assert forall|k: u64| #[trigger] w.formations.dom().contains(k) implies formation_ok(w, k) by {
        lemma_formation_ok_same(v, w, k);
    }
    assert forall|k: u64| #[trigger] w.buy_orders.dom().contains(k) implies order_ok(w, k) by {
        assert(order_ok(v, k));
    }
    assert forall|k: u64| #[trigger] w.actors.dom().contains(k) implies actor_ok(w, k) by {
        assert(actor_ok(v, k));
    }
}

/// The lot is on the cargo manifest of a live convoy.
pub open spec fn on_manifest(v: WorldView, l: LotId) -> bool {
    exists|k: u64|
        #![trigger v.convoys[k]]
        v.convoys.dom().contains(k) && v.convoys[k].state != ConvoyState::Disbanded && v.convoys[k].cargo_lots@.contains(l)
}

/// Merging lots keeps the hard invariants, provided no source is on a live
/// convoy's manifest: the merged lot is sound, and every source stays on
/// record, marked merged into it.
pub proof fn law_merge_keeps_invariants(v: WorldView, w: WorldView, sources: Seq<LotId>, result: LotId)
    requires
        v.wf(),
        consistent(v),
        crate::goods::merge_outcome(v, w, sources, Ok(result)),
        forall|i: int| 0 <= i < sources.len() ==> !on_manifest(v, #[trigger] sources[i]),
    ensures
        consistent(w),
{
    let first = v.lots[sources[0].0];
    let total = crate::goods::merge_scan(v, sources, first, 0, 0)->Ok_0;
    let lineage = w.lots[result.0].lineage;
    let made = crate::goods::with_new_lot(
        v,
        first.owner,
        first.commodity,
        total as u64,
        first.quality,
        first.legal_status,
        first.location,
        lineage,
    );
    crate::goods::lemma_merge_scan_ok(v, sources, first, 0, 0);
    crate::goods::lemma_merge_scan_active(v, sources, first, 0, 0);
    assert(!v.lots.dom().contains(v.next_id));
    assert(result.0 == v.next_id);
    assert forall|i: int| 0 <= i < sources.len() implies #[trigger] made.lots.dom().contains(sources[i].0) by {
        assert(v.lots.dom().contains(sources[i].0));
    }
    crate::goods::lemma_mark_merged_dom(made.lots, sources, result);
    assert forall|k: u64| #[trigger] v.lots.dom().contains(k) implies w.lots.dom().contains(k) && (w.lots[k] == v.lots[k]
        || (exists|i: int| 0 <= i < sources.len() && sources[i].0 == k) && w.lots[k] == (crate::goods::Lot {
        state: LotState::MergedInto(result),
        ..v.lots[k]
    })) by {
        if exists|i: int| 0 <= i < sources.len() && sources[i].0 == k {
            let i = choose|i: int| 0 <= i < sources.len() && sources[i].0 == k;
            crate::goods::lemma_mark_merged_source(made.lots, sources, result, i);
        } else {
            crate::goods::lemma_mark_merged_other(made.lots, sources, result, k);
        }
    }
    assert forall|i: int| 0 <= i < sources.len() implies #[trigger] sources[i].0 != result.0 by {
        assert(v.lots.dom().contains(sources[i].0));
    }
    crate::goods::lemma_mark_merged_other(made.lots, sources, result, result.0);
    assert forall|k: u64| #[trigger] w.lots.dom().contains(k) implies lot_ok(w, k) by {
        if k != result.0 {
            assert(v.lots.dom().contains(k));
            assert(lot_ok(v, k));
        }
    }
    assert forall|k: u64| #[trigger] w.sell_listings.dom().contains(k) implies listing_ok(w, k) by {
        assert(listing_ok(v, k));
        let sl = v.sell_listings[k];
        if exists|i: int| 0 <= i < sources.len() && sources[i].0 == sl.lot.0 {
            let i = choose|i: int| 0 <= i < sources.len() && sources[i].0 == sl.lot.0;
            assert(v.lots[sources[i].0].state == LotState::Active);
        }
        lemma_site_of_grows(v, w, v.lots[sl.lot.0].location, 16);
    }
    assert forall|k: u64| #[trigger] w.production_jobs.dom().contains(k) implies job_ok(w, k) by {
        assert(job_ok(v, k));
        let j = v.production_jobs[k];
        assert forall|x: int| 0 <= x < j.consumed_lots@.len() implies #[trigger] consumed_by(w, j.consumed_lots@[x], k) by {
            assert(consumed_by(v, j.consumed_lots@[x], k));
            let lid = j.consumed_lots@[x];
            if exists|i: int| 0 <= i < sources.len() && sources[i].0 == lid.0 {
                let i = choose|i: int| 0 <= i < sources.len() && sources[i].0 == lid.0;
                assert(v.lots[sources[i].0].state == LotState::Active);
            }
        }
    }
    assert forall|k: u64| #[trigger] w.convoys.dom().contains(k) implies convoy_ok(w, k) by {
        assert(convoy_ok(v, k));
        let cv = v.convoys[k];
        if cv.state != ConvoyState::Disbanded {
            assert forall|j: int| 0 <= j < cv.vehicles@.len() implies #[trigger] asset_aboard(w, cv.vehicles@[j], k) by {
                assert(asset_aboard(v, cv.vehicles@[j], k));
            }
            assert forall|j: int| 0 <= j < cv.guards@.len() implies #[trigger] asset_aboard(w, cv.guards@[j], k) by {
                assert(asset_aboard(v, cv.guards@[j], k));
            }
            assert forall|j: int| 0 <= j < cv.cargo_assets@.len() implies #[trigger] asset_aboard(w, cv.cargo_assets@[j], k) by {
                assert(asset_aboard(v, cv.cargo_assets@[j], k));
            }
            assert forall|j: int| 0 <= j < cv.cargo_lots@.len() implies #[trigger] lot_aboard(w, cv.cargo_lots@[j], k) by {
                let lid = cv.cargo_lots@[j];
                assert(lot_aboard(v, lid, k));
                if exists|i: int| 0 <= i < sources.len() && sources[i].0 == lid.0 {
                    let i = choose|i: int| 0 <= i < sources.len() && sources[i].0 == lid.0;
                    assert(cv.cargo_lots@.contains(sources[i]));
                    assert(on_manifest(v, sources[i]));
                }
            }
        }
    }
    assert forall|k: u64| #[trigger] w.assets.dom().contains(k) implies asset_ok(w, k) by {
        assert(asset_ok(v, k));
        let a = v.assets[k];
        assert forall|j: int| 0 <= j < a.fitted@.len() implies #[trigger] fitted_back(w, a.fitted@[j].1, k) by {
            assert(fitted_back(v, a.fitted@[j].1, k));
        }
    }
    assert forall|k: u64| #[trigger] w.components.dom().contains(k) implies component_ok(w, k) by {
        assert(component_ok(v, k));
    }
    assert forall|k: u64| #[trigger] w.factories.dom().contains(k) implies factory_ok(w, k) by {
        assert(factory_ok(v, k));
        let s0 = v.factories[k].components@;
        assert forall|j: int| 0 <= j < s0.len() implies #[trigger] factory_slot_ok(w, s0[j], k) by {
            assert(factory_slot_ok(v, s0[j], k));
        }
    }
    assert forall|k: u64| #[trigger] w.formations.dom().contains(k) implies formation_ok(w, k) by {
        lemma_formation_ok_same(v, w, k);
    }
    assert forall|k: u64| #[trigger] w.buy_orders.dom().contains(k) implies order_ok(w, k) by {
        assert(order_ok(v, k));
    }
    assert forall|k: u64| #[trigger] w.actors.dom().contains(k) implies actor_ok(w, k) by {
        assert(actor_ok(v, k));
    }
}

/// Changing an active lot's owner or holder keeps the hard invariants,
/// provided the new owner and holder are real and a lot on a live convoy's
/// manifest stays where it is.
pub proof fn law_active_lot_change_keeps_invariants(
    v: WorldView,
    w: WorldView,
    lot: LotId,
    new: crate::goods::Lot,
    kind: crate::events::EventKind,
)
    requires
        consistent(v),
        v.lots.dom().contains(lot.0),
        v.lots[lot.0].state == LotState::Active,
        new.state == LotState::Active,
        new.quantity == v.lots[lot.0].quantity,
        v.actors.dom().contains(new.owner.0),
        ref_valid(v, new.location),
        new.location == v.lots[lot.0].location || !on_manifest(v, lot),
        w == crate::goods::with_lot(v, lot.0, new).log(kind),
    ensures
        consistent(w),
{
    assert forall|k: u64| #[trigger] w.lots.dom().contains(k) implies lot_ok(w, k) by {
        if k != lot.0 {
            assert(lot_ok(v, k));
        } else {
            assert(lot_ok(v, k));
        }
    }
    assert forall|k: u64| #[trigger] w.sell_listings.dom().contains(k) implies listing_ok(w, k) by {
        assert(listing_ok(v, k));
        let sl = v.sell_listings[k];
        lemma_site_of_grows(v, w, v.lots[sl.lot.0].location, 16);
    }
    assert forall|k: u64| #[trigger] w.production_jobs.dom().contains(k) implies job_ok(w, k) by {
        assert(job_ok(v, k));
        let j = v.production_jobs[k];
        assert forall|x: int| 0 <= x < j.consumed_lots@.len() implies #[trigger] consumed_by(w, j.consumed_lots@[x], k) by {
            assert(consumed_by(v, j.consumed_lots@[x], k));
        }
    }
    assert forall|k: u64| #[trigger] w.convoys.dom().contains(k) implies convoy_ok(w, k) by {
        assert(convoy_ok(v, k));
        let cv = v.convoys[k];
        if cv.state != ConvoyState::Disbanded {
            assert forall|j: int| 0 <= j < cv.vehicles@.len() implies #[trigger] asset_aboard(w, cv.vehicles@[j], k) by {
                assert(asset_aboard(v, cv.vehicles@[j], k));
            }
            assert forall|j: int| 0 <= j < cv.guards@.len() implies #[trigger] asset_aboard(w, cv.guards@[j], k) by {
                assert(asset_aboard(v, cv.guards@[j], k));
            }
            assert forall|j: int| 0 <= j < cv.cargo_assets@.len() implies #[trigger] asset_aboard(w, cv.cargo_assets@[j], k) by {
                assert(asset_aboard(v, cv.cargo_assets@[j], k));
            }
            assert forall|j: int| 0 <= j < cv.cargo_lots@.len() implies #[trigger] lot_aboard(w, cv.cargo_lots@[j], k) by {
                let lid = cv.cargo_lots@[j];
                assert(lot_aboard(v, lid, k));
                if lid == lot {
                    assert(cv.cargo_lots@.contains(lot));
                    assert(on_manifest(v, lot));
                }
            }
        }
    }
    assert forall|k: u64| #[trigger] w.assets.dom().contains(k) implies asset_ok(w, k) by {
        assert(asset_ok(v, k));
        let a = v.assets[k];
        assert forall|j: int| 0 <= j < a.fitted@.len() implies #[trigger] fitted_back(w, a.fitted@[j].1, k) by {
            assert(fitted_back(v, a.fitted@[j].1, k));
        }
    }
    assert forall|k: u64| #[trigger] w.components.dom().contains(k) implies component_ok(w, k) by {
        assert(component_ok(v, k));
    }
    assert forall|k: u64| #[trigger] w.factories.dom().contains(k) implies factory_ok(w, k) by {
        assert(factory_ok(v, k));
        let s0 = v.factories[k].components@;
        assert forall|j: int| 0 <= j < s0.len() implies #[trigger] factory_slot_ok(w, s0[j], k) by {
            assert(factory_slot_ok(v, s0[j], k));
        }
    }
    assert forall|k: u64| #[trigger] w.formations.dom().contains(k) implies formation_ok(w, k) by {
        lemma_formation_ok_same(v, w, k);
    }
    assert forall|k: u64| #[trigger] w.buy_orders.dom().contains(k) implies order_ok(w, k) by {
        assert(order_ok(v, k));
    }
    assert forall|k: u64| #[trigger] w.actors.dom().contains(k) implies actor_ok(w, k) by {
        assert(actor_ok(v, k));
    }
}

/// Taking a lot out of a stockpile onto the open site keeps the hard
/// invariants, where the stockpile stands at a real location: the lot
/// stays at the same site and keeps its state.
pub proof fn law_withdraw_keeps_invariants(v: WorldView, w: WorldView, lot: LotId, sp: crate::ids::StockpileId, kind: crate::events::EventKind)
    requires
        consistent(v),
        v.lots.dom().contains(lot.0),
        v.lots[lot.0].location == LocationRef::Stockpile(sp),
        v.stockpiles.dom().contains(sp.0),
        v.locations.dom().contains(v.stockpiles[sp.0].site.0),
        w == crate::goods::with_lot(
            v,
            lot.0,
            crate::goods::Lot { location: LocationRef::Site(v.stockpiles[sp.0].site), ..v.lots[lot.0] },
        ).log(kind),
    ensures
        consistent(w),
{
    assert forall|k: u64| #[trigger] w.lots.dom().contains(k) implies lot_ok(w, k) by {
        assert(lot_ok(v, k));
    }
    assert forall|k: u64| #[trigger] w.sell_listings.dom().contains(k) implies listing_ok(w, k) by {
        assert(listing_ok(v, k));
        let sl = v.sell_listings[k];
        lemma_site_of_grows(v, w, v.lots[sl.lot.0].location, 16);
    }
    assert forall|k: u64| #[trigger] w.production_jobs.dom().contains(k) implies job_ok(w, k) by {
        assert(job_ok(v, k));
        let j = v.production_jobs[k];
        assert forall|x: int| 0 <= x < j.consumed_lots@.len() implies #[trigger] consumed_by(w, j.consumed_lots@[x], k) by {
            assert(consumed_by(v, j.consumed_lots@[x], k));
        }
    }
    assert forall|k: u64| #[trigger] w.convoys.dom().contains(k) implies convoy_ok(w, k) by {
        assert(convoy_ok(v, k));
        let cv = v.convoys[k];
        if cv.state != ConvoyState::Disbanded {
            assert forall|j: int| 0 <= j < cv.vehicles@.len() implies #[trigger] asset_aboard(w, cv.vehicles@[j], k) by {
                assert(asset_aboard(v, cv.vehicles@[j], k));
            }
            assert forall|j: int| 0 <= j < cv.guards@.len() implies #[trigger] asset_aboard(w, cv.guards@[j], k) by {
                assert(asset_aboard(v, cv.guards@[j], k));
            }
            assert forall|j: int| 0 <= j < cv.cargo_assets@.len() implies #[trigger] asset_aboard(w, cv.cargo_assets@[j], k) by {
                assert(asset_aboard(v, cv.cargo_assets@[j], k));
            }
            assert forall|j: int| 0 <= j < cv.cargo_lots@.len() implies #[trigger] lot_aboard(w, cv.cargo_lots@[j], k) by {
                assert(lot_aboard(v, cv.cargo_lots@[j], k));
            }
        }
    }
    assert forall|k: u64| #[trigger] w.assets.dom().contains(k) implies asset_ok(w, k) by {
        assert(asset_ok(v, k));
        let a = v.assets[k];
        assert forall|j: int| 0 <= j < a.fitted@.len() implies #[trigger] fitted_back(w, a.fitted@[j].1, k) by {
            assert(fitted_back(v, a.fitted@[j].1, k));
        }
    }
    assert forall|k: u64| #[trigger] w.components.dom().contains(k) implies component_ok(w, k) by {
        assert(component_ok(v, k));
    }
    assert forall|k: u64| #[trigger] w.factories.dom().contains(k) implies factory_ok(w, k) by {
        assert(factory_ok(v, k));
        let s0 = v.factories[k].components@;
        assert forall|j: int| 0 <= j < s0.len() implies #[trigger] factory_slot_ok(w, s0[j], k) by {
            assert(factory_slot_ok(v, s0[j], k));
        }
    }
    assert forall|k: u64| #[trigger] w.formations.dom().contains(k) implies formation_ok(w, k) by {
        lemma_formation_ok_same(v, w, k);
    }
    assert forall|k: u64| #[trigger] w.buy_orders.dom().contains(k) implies order_ok(w, k) by {
        assert(order_ok(v, k));
    }
    assert forall|k: u64| #[trigger] w.actors.dom().contains(k) implies actor_ok(w, k) by {
        assert(actor_ok(v, k));
    }
}

} // verus!
