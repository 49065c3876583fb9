//! Markets: local physical inventories under a global discovery layer.
//!
//! A market is attached to a real site. A sell listing reserves a specific
//! real lot that is physically at that site; a buy order escrows real
//! credits. Buy orders match at listing price; a smoothed price index per
//! (market, commodity) is derived purely from executed trades.

use crate::actors::{with_treasury, Credits};
use crate::error::{error_matches, invalid_state, money_product_fits, mul_money, outcome_matches, SimError};
use crate::events::EventKind;
use crate::goods::{split_state, with_lot, Lot, LotState};
use crate::ids::{ActorId, LocationId, CommodityId, LotId, MarketId, SellListingId, BuyOrderId};
use crate::locations::{resolve, LocationRef};
use crate::table::pos_in;
use crate::world::{World, WorldView};
use vstd::prelude::*;

verus! {

#[derive(Debug, Clone)]
pub struct Market {
    pub id: MarketId,
    pub name: String,
    /// The physical site whose goods this market trades.
    pub site: LocationId,
    /// `None` for open public markets.
    pub owner: Option<ActorId>,
}

#[derive(Debug, Clone, Copy, PartialEq, Eq, Structural)]
pub struct SellListing {
    pub id: SellListingId,
    pub market: MarketId,
    pub seller: ActorId,
    /// The real lot this listing sells; it is `Listed(this)` while open.
    pub lot: LotId,
    pub price_per_unit: Credits,
    pub listed_day: u64,
}

#[derive(Debug, Clone, Copy, PartialEq, Eq, Structural)]
pub enum OrderScope {
    /// Match only listings at this market.
    Market(MarketId),
    /// Match any market, cheapest first.
    Global,
}

#[derive(Debug, Clone, Copy, PartialEq, Eq, Structural)]
pub struct BuyOrder {
    pub id: BuyOrderId,
    pub scope: OrderScope,
    pub buyer: ActorId,
    pub commodity: CommodityId,
    /// Remaining unfilled quantity.
    pub quantity: u64,
    pub limit_price_per_unit: Credits,
    /// Credits held out of the buyer's treasury: always
    /// `quantity * limit_price_per_unit` for the remaining quantity.
    pub escrow: Credits,
    pub placed_day: u64,
}


/// Why listing this lot for sale fails, if it does: the price must be
/// positive; the lot active, owned by the seller, outside any sequestered
/// stockpile, and physically at the market's site.
pub open spec fn listing_error(v: WorldView, seller: ActorId, market: MarketId, lot: LotId, price_per_unit: i64) -> Option<
    SimError,
> {
    if price_per_unit <= 0 {
        Some(SimError::InvalidQuantity)
    } else if !v.markets.dom().contains(market.0) {
        Some(SimError::UnknownMarket(market))
    } else if !v.lots.dom().contains(lot.0) {
        Some(SimError::UnknownLot(lot))
    } else {
        let l = v.lots[lot.0];
        if l.owner != seller {
            Some(SimError::NotOwner { actor: seller })
        } else if l.state != LotState::Active {
            Some(SimError::LotNotActive(lot))
        } else if (l.location matches LocationRef::Stockpile(sp) && !v.stockpiles.dom().contains(sp.0)) {
            Some(SimError::UnknownStockpile(l.location->Stockpile_0))
        } else if (l.location matches LocationRef::Stockpile(sp) && v.stockpiles[sp.0].sequestered) {
            Some(SimError::SequesteredStockpile(l.location->Stockpile_0))
        } else if resolve(v, l.location) != Some(v.markets[market.0].site) {
            Some(SimError::NotColocated)
        } else {
            None
        }
    }
}

/// Why placing this buy order fails before any money moves, if it does.
pub open spec fn order_error(v: WorldView, scope: OrderScope, commodity: CommodityId, quantity: u64, limit: i64) -> Option<
    SimError,
> {
    if quantity == 0 || limit <= 0 {
        Some(SimError::InvalidQuantity)
    } else if !v.commodities.dom().contains(commodity.0) {
        Some(SimError::UnknownCommodity(commodity))
    } else if (scope matches OrderScope::Market(m) && !v.markets.dom().contains(m.0)) {
        Some(SimError::UnknownMarket(scope->Market_0))
    } else if !money_product_fits(quantity, limit) {
        Some(SimError::Overflow)
    } else {
        None
    }
}

/// The view without one buy order.
pub open spec fn without_order(v: WorldView, order: u64) -> WorldView {
    WorldView {
        buy_orders: v.buy_orders.remove(order),
        order_keys: v.order_keys.remove(pos_in(v.order_keys, order)),
        ..v
    }
}

/// The smoothed price after one trade: three parts history to one part the
/// latest trade, or the trade itself when there is no history yet.
pub open spec fn smoothed_price(prev: Option<i64>, trade_price: i64) -> int {
    match prev {
        Some(p) => {
            let x = crate::arith::clamp_i64(3 * p) + trade_price;
            if x >= 0 {
                x / 4
            } else {
                -((-x) / 4)
            }
        },
        None => trade_price as int,
    }
}

/// Folding a trade into the index cannot overflow.
pub open spec fn smoothing_fits(prev: Option<i64>, trade_price: i64) -> bool {
    match prev {
        Some(p) => i64::MIN <= crate::arith::clamp_i64(3 * p) + trade_price <= i64::MAX,
        None => true,
    }
}

/// The view after folding one trade into the (market, commodity) index.
pub open spec fn index_updated(v: WorldView, market: MarketId, commodity: CommodityId, trade_price: i64) -> WorldView {
    let inner = if v.price_index.dom().contains(market.0) {
        v.price_index[market.0]
    } else {
        Map::empty()
    };
    WorldView {
        price_index: v.price_index.insert(
            market.0,
            inner.insert(commodity.0, smoothed_price(crate::world::price_of(v, market.0, commodity.0), trade_price) as i64),
        ),
        ..v
    }
}

/// Removing an order's entry takes its escrow out of circulation.
pub proof fn lemma_order_removed(v: WorldView, order: u64)
    requires
        v.keys_wf(),
        v.buy_orders.dom().contains(order),
    ensures
        without_order(v, order).circulation() == v.circulation() - v.buy_orders[order].escrow,
        without_order(v, order).keys_wf(),
{
    let keys = v.order_keys;
    assert(keys.contains(order));
    let i = pos_in(keys, order);
    assert(0 <= i < keys.len() && keys[i] == order);
    crate::table::lemma_sum_remove(keys, v.buy_orders, i, |o: BuyOrder| o.escrow as int);
    let w = without_order(v, order);
    assert(crate::table::strictly_increasing(w.order_keys)) by {
        assert forall|a: int, b: int| 0 <= a < b < w.order_keys.len() implies w.order_keys[a] < w.order_keys[b] by {
            let oa = if a < i { a } else { a + 1 };
            let ob = if b < i { b } else { b + 1 };
            assert(w.order_keys[a] == keys[oa]);
            assert(w.order_keys[b] == keys[ob]);
        }
    }
    assert forall|k: u64| #[trigger] w.buy_orders.dom().contains(k) <==> w.order_keys.contains(k) by {
        if w.order_keys.contains(k) {
            let j = choose|j: int| 0 <= j < w.order_keys.len() && w.order_keys[j] == k;
            let oj = if j < i { j } else { j + 1 };
            assert(keys[oj] == k);
            assert(oj != i) by {
                if oj == i {
                    if j < i {
                        assert(keys[j] < keys[i]);
                    } else {
                        assert(keys[i] < keys[j + 1]);
                    }
                }
            }
        }
        if w.buy_orders.dom().contains(k) {
            assert(keys.contains(k));
            let j = choose|j: int| 0 <= j < keys.len() && keys[j] == k;
            assert(j != i);
            let nj = if j < i { j } else { j - 1 };
            assert(w.order_keys[nj] == k);
        }
    }
}

impl World {
    pub fn create_market(&mut self, name: &str, site: LocationId, owner: Option<ActorId>) -> (r: Result<
        MarketId,
        SimError,
    >)
        requires
            old(self).wf(),
            old(self)@.has_room(2),
        ensures
            final(self).wf(),
            !old(self)@.locations.dom().contains(site.0) ==> r == Err::<MarketId, SimError>(
                SimError::UnknownLocation(site),
            ) && final(self)@ == old(self)@,
            old(self)@.locations.dom().contains(site.0) && (owner matches Some(o) && !old(self)@.actors.dom().contains(
                o.0,
            )) ==> r == Err::<MarketId, SimError>(SimError::UnknownActor(owner->0)) && final(self)@ == old(self)@,
            old(self)@.locations.dom().contains(site.0) && !(owner matches Some(o) && !old(self)@.actors.dom().contains(
                o.0,
            )) ==> {
                let id = MarketId(old(self)@.next_id);
                &&& r == Ok::<MarketId, SimError>(id)
                &&& final(self)@.markets[id.0].name@ == name@
                &&& final(self)@ == (WorldView {
                    markets: old(self)@.markets.insert(
                        id.0,
                        Market { id, name: final(self)@.markets[id.0].name, site, owner },
                    ),
                    ..old(self)@.bump()
                }).log(EventKind::MarketCreated { market: id })
            },
            crate::invariants::consistent(old(self)@) ==> crate::invariants::consistent(final(self)@),
    {
        if !self.locations.contains(site.0) {
            return Err(SimError::UnknownLocation(site));
        }
        match owner {
            Some(o) => {
                if !self.actors.contains(o.0) {
                    return Err(SimError::UnknownActor(o));
                }
            },
            None => {},
        }
        let id = MarketId(self.alloc_id());
        proof {
            self.markets.lemma_fresh(id.0);
        }
        self.markets.insert_new(id.0, Market { id, name: name.to_owned(), site, owner });
        proof {
            self.lemma_keys_wf();
        }
        self.push_event(EventKind::MarketCreated { market: id });
        proof {
            let o = old(self)@;
            if crate::invariants::consistent(o) {
                assert(crate::invariants::grows_soundly(o, self@));
                crate::invariants::lemma_consistent_grows(o, self@);
            }
        }
        Ok(id)
    }

    /// List a real lot for sale. The lot must be active, owned by the
    /// seller, and physically at the market's site; goods in a sequestered
    /// stockpile cannot be listed at all.
    pub fn list_lot_for_sale(&mut self, seller: ActorId, market: MarketId, lot: LotId, price_per_unit: Credits) -> (r:
        Result<SellListingId, SimError>)
        requires
            old(self).wf(),
            old(self)@.has_room(2),
        ensures
            final(self).wf(),
            match listing_error(old(self)@, seller, market, lot, price_per_unit) {
                Some(e) => r == Err::<SellListingId, SimError>(e) && final(self)@ == old(self)@,
                None => {
                    let id = SellListingId(old(self)@.next_id);
                    r == Ok::<SellListingId, SimError>(id) && final(self)@ == (WorldView {
                        sell_listings: old(self)@.sell_listings.insert(
                            id.0,
                            SellListing { id, market, seller, lot, price_per_unit, listed_day: old(self)@.clock.day },
                        ),
                        lots: old(self)@.lots.insert(
                            lot.0,
                            Lot { state: LotState::Listed(id), ..old(self)@.lots[lot.0] },
                        ),
                        ..old(self)@.bump()
                    }).log(EventKind::LotListed { listing: id, market, lot, price_per_unit })
                },
            },
    {
        if price_per_unit <= 0 {
            return Err(SimError::InvalidQuantity);
        }
        let market_site = match self.markets.get(market.0) {
            None => {
                return Err(SimError::UnknownMarket(market));
            },
            Some(m) => m.site,
        };
        let (owner, state, location) = match self.lots.get(lot.0) {
            None => {
                return Err(SimError::UnknownLot(lot));
            },
            Some(l) => (l.owner, l.state, l.location),
        };
        if owner.0 != seller.0 {
            return Err(SimError::NotOwner { actor: seller });
        }
        if !matches!(state, LotState::Active) {
            return Err(SimError::LotNotActive(lot));
        }
        match location {
            LocationRef::Stockpile(sp) => {
                match self.stockpiles.get(sp.0) {
                    None => {
                        return Err(SimError::UnknownStockpile(sp));
                    },
                    Some(s) => {
                        if s.sequestered {
                            return Err(SimError::SequesteredStockpile(sp));
                        }
                    },
                }
            },
            _ => {},
        }
        let here = self.resolve_site(location);
        let colocated = match here {
            Some(s) => s.0 == market_site.0,
            None => false,
        };
        if !colocated {
            return Err(SimError::NotColocated);
        }
        let id = SellListingId(self.alloc_id());
        let listed_day = self.clock.day;
        proof {
            self.sell_listings.lemma_fresh(id.0);
        }
        self.sell_listings.insert_new(id.0, SellListing { id, market, seller, lot, price_per_unit, listed_day });
        let l = self.lots.get_mut(lot.0);
        l.state = LotState::Listed(id);
        proof {
            self.lemma_keys_wf();
        }
        self.push_event(EventKind::LotListed { listing: id, market, lot, price_per_unit });
        Ok(id)
    }

    pub fn cancel_listing(&mut self, listing: SellListingId) -> (r: Result<(), SimError>)
        requires
            old(self).wf(),
            old(self)@.has_room(1),
        ensures
            final(self).wf(),
            !old(self)@.sell_listings.dom().contains(listing.0) ==> r == Err::<(), SimError>(
                SimError::UnknownListing(listing),
            ) && final(self)@ == old(self)@,
            old(self)@.sell_listings.dom().contains(listing.0) ==> {
                let lot = old(self)@.sell_listings[listing.0].lot;
                r is Ok && final(self)@ == (WorldView {
                    sell_listings: old(self)@.sell_listings.remove(listing.0),
                    lots: if old(self)@.lots.dom().contains(lot.0) {
                        old(self)@.lots.insert(lot.0, Lot { state: LotState::Active, ..old(self)@.lots[lot.0] })
                    } else {
                        old(self)@.lots
                    },
                    ..old(self)@
                }).log(EventKind::ListingCancelled { listing })
            },
    {
        let lot = match self.sell_listings.get(listing.0) {
            None => {
                return Err(SimError::UnknownListing(listing));
            },
            Some(l) => l.lot,
        };
        let _ = self.sell_listings.remove(listing.0);
        if self.lots.contains(lot.0) {
            let l = self.lots.get_mut(lot.0);
            l.state = LotState::Active;
        }
        proof {
            self.lemma_keys_wf();
        }
        self.push_event(EventKind::ListingCancelled { listing });
        Ok(())
    }

    /// Place a buy order, escrowing `quantity * limit` real credits out of
    /// the buyer's treasury.
    pub fn place_buy_order(
        &mut self,
        buyer: ActorId,
        scope: OrderScope,
        commodity: CommodityId,
        quantity: u64,
        limit_price_per_unit: Credits,
    ) -> (r: Result<BuyOrderId, SimError>)
        requires
            old(self).wf(),
            old(self)@.has_room(2),
        ensures
            final(self).wf(),
            crate::world::phase_ok(old(self)@, final(self)@),
            old(self)@.money_conserved() ==> final(self)@.money_conserved(),
            old(self)@.money_sound() ==> final(self)@.money_sound(),
            match order_error(old(self)@, scope, commodity, quantity, limit_price_per_unit) {
                Some(e) => r == Err::<BuyOrderId, SimError>(e) && final(self)@ == old(self)@,
                None => {
                    let escrow = (quantity * limit_price_per_unit) as i64;
                    if !old(self)@.actors.dom().contains(buyer.0) {
                        r == Err::<BuyOrderId, SimError>(SimError::UnknownActor(buyer)) && final(self)@ == old(self)@
                    } else if old(self)@.actors[buyer.0].treasury < escrow {
                        r == Err::<BuyOrderId, SimError>(
                            SimError::InsufficientFunds {
                                actor: buyer,
                                needed: escrow,
                                available: old(self)@.actors[buyer.0].treasury,
                            },
                        ) && final(self)@ == old(self)@
                    } else {
                        let id = BuyOrderId(old(self)@.next_id);
                        let paid = with_treasury(
                            old(self)@,
                            buyer.0,
                            (old(self)@.actors[buyer.0].treasury - escrow) as i64,
                        );
                        r == Ok::<BuyOrderId, SimError>(id) && final(self)@ == (WorldView {
                            buy_orders: paid.buy_orders.insert(
                                id.0,
                                BuyOrder {
                                    id,
                                    scope,
                                    buyer,
                                    commodity,
                                    quantity,
                                    limit_price_per_unit,
                                    escrow,
                                    placed_day: old(self)@.clock.day,
                                },
                            ),
                            order_keys: paid.order_keys.push(id.0),
                            ..paid.bump()
                        }).log(
                            EventKind::BuyOrderPlaced {
                                order: id,
                                buyer,
                                commodity,
                                quantity,
                                limit_price_per_unit,
                                escrow,
                            },
                        )
                    }
                },
            },
    {
        if quantity == 0 || limit_price_per_unit <= 0 {
            return Err(SimError::InvalidQuantity);
        }
        if !self.commodities.contains(commodity.0) {
            return Err(SimError::UnknownCommodity(commodity));
        }
        match scope {
            OrderScope::Market(m) => {
                if !self.markets.contains(m.0) {
                    return Err(SimError::UnknownMarket(m));
                }
            },
            OrderScope::Global => {},
        }
        let escrow = mul_money(quantity, limit_price_per_unit)?;
        proof {
            assert(escrow >= 0) by (nonlinear_arith)
                requires
                    escrow == quantity * limit_price_per_unit,
                    limit_price_per_unit > 0,
            ;
        }
        self.debit(buyer, escrow)?;
        let ghost paid = self@;
        let id = BuyOrderId(self.alloc_id());
        let placed_day = self.clock.day;
        let order = BuyOrder { id, scope, buyer, commodity, quantity, limit_price_per_unit, escrow, placed_day };
        proof {
            self.buy_orders.lemma_fresh(id.0);
        }
        self.buy_orders.insert_new(id.0, order);
        proof {
            self.lemma_keys_wf();
            let o = old(self)@;
            crate::actors::lemma_treasury_change(o, buyer.0, (o.actors[buyer.0].treasury - escrow) as i64);
            crate::table::lemma_sum_push(paid.order_keys, paid.buy_orders, id.0, order, |o: BuyOrder| o.escrow as int);
            assert(!paid.order_keys.contains(id.0));
        }
        self.push_event(
            EventKind::BuyOrderPlaced { order: id, buyer, commodity, quantity, limit_price_per_unit, escrow },
        );
        Ok(id)
    }

    /// Cancel a buy order and refund the remaining escrow.
    pub fn cancel_buy_order(&mut self, order: BuyOrderId) -> (r: Result<(), SimError>)
        requires
            old(self).wf(),
            old(self)@.has_room(1),
        ensures
            final(self).wf(),
            old(self)@.money_conserved() && r is Ok ==> final(self)@.money_conserved(),
            !old(self)@.buy_orders.dom().contains(order.0) ==> r == Err::<(), SimError>(SimError::UnknownOrder(order))
                && final(self)@ == old(self)@,
            old(self)@.buy_orders.dom().contains(order.0) ==> {
                let o = old(self)@.buy_orders[order.0];
                let gone = without_order(old(self)@, order.0);
                if !gone.actors.dom().contains(o.buyer.0) {
                    r == Err::<(), SimError>(SimError::UnknownActor(o.buyer)) && final(self)@ == gone
                } else if gone.actors[o.buyer.0].treasury + o.escrow > i64::MAX {
                    r == Err::<(), SimError>(SimError::Overflow) && final(self)@ == gone
                } else {
                    r is Ok && final(self)@ == with_treasury(
                        gone,
                        o.buyer.0,
                        (gone.actors[o.buyer.0].treasury + o.escrow) as i64,
                    ).log(EventKind::BuyOrderClosed { order, refunded: o.escrow })
                }
            },
    {
        proof {
            self.buy_orders.lemma_facts();
        }
        let o = match self.buy_orders.remove(order.0) {
            None => {
                return Err(SimError::UnknownOrder(order));
            },
            Some(o) => o,
        };
        proof {
            self.lemma_keys_wf();
            lemma_order_removed(old(self)@, order.0);
            assert(o.escrow >= 0) by (nonlinear_arith)
                requires
                    o.escrow == o.quantity * o.limit_price_per_unit,
                    o.limit_price_per_unit > 0,
            ;
        }
        let ghost gone = self@;
        self.credit(o.buyer, o.escrow)?;
        proof {
            crate::actors::lemma_treasury_change(gone, o.buyer.0, (gone.actors[o.buyer.0].treasury + o.escrow) as i64);
        }
        self.push_event(EventKind::BuyOrderClosed { order, refunded: o.escrow });
        Ok(())
    }

    /// Every open listing, in id order.
    pub open(crate) spec fn listings_in_order(&self) -> Seq<SellListing> {
        self.sell_listings.values()
    }

    /// The global market layer: every open listing across every local
    /// market, in id order. Discovery, not teleportation.
    pub fn global_listings(&self) -> (it: std::slice::Iter<'_, SellListing>)
        ensures
            vstd::std_specs::iter::IteratorSpec::remaining(&it).map_values(|x: &_| *x) == self.listings_in_order(),
    {
        broadcast use vstd::std_specs::slice::group_slice_axioms;

        self.sell_listings.as_slice().iter()
    }
}


/// Handing listed goods to a buyer: the whole lot when the quantity takes
/// all of it (the listing closes: the goods ran out), else a split child.
/// Gives the state after and the delivered lot.
pub open spec fn delivery(v: WorldView, listing: SellListingId, buyer: ActorId, quantity: u64) -> (WorldView, Result<
    LotId,
    SimError,
>) {
    if !v.sell_listings.dom().contains(listing.0) {
        (v, Err(SimError::UnknownListing(listing)))
    } else {
        let lot = v.sell_listings[listing.0].lot;
        if !v.lots.dom().contains(lot.0) {
            (v, Err(SimError::UnknownLot(lot)))
        } else {
            let l = v.lots[lot.0];
            if quantity == 0 || quantity > l.quantity {
                (v, Err(SimError::InvalidQuantity))
            } else if quantity == l.quantity {
                (
                    (WorldView {
                        lots: v.lots.insert(lot.0, Lot { state: LotState::Active, owner: buyer, ..l }),
                        sell_listings: v.sell_listings.remove(listing.0),
                        ..v
                    }).log(EventKind::LotOwnerChanged { lot, from: l.owner, to: buyer }),
                    Ok(lot),
                )
            } else {
                let (w, rs) = split_state(v, lot, quantity);
                match rs {
                    Err(e) => (w, Err(e)),
                    Ok(child) => (
                        with_lot(w, child.0, Lot { owner: buyer, ..w.lots[child.0] }).log(
                            EventKind::LotOwnerChanged { lot: child, from: w.lots[child.0].owner, to: buyer },
                        ),
                        Ok(child),
                    ),
                }
            }
        }
    }
}

/// Delivery moves goods only: money, orders and the index stay put.
pub proof fn lemma_delivery_frame(v: WorldView, listing: SellListingId, buyer: ActorId, quantity: u64)
    requires
        v.next_id + 4 <= u64::MAX,
    ensures
        delivery(v, listing, buyer, quantity).0.actors == v.actors,
        delivery(v, listing, buyer, quantity).0.actor_keys == v.actor_keys,
        delivery(v, listing, buyer, quantity).0.buy_orders == v.buy_orders,
        delivery(v, listing, buyer, quantity).0.order_keys == v.order_keys,
        delivery(v, listing, buyer, quantity).0.money_issued == v.money_issued,
        delivery(v, listing, buyer, quantity).0.price_index == v.price_index,
        delivery(v, listing, buyer, quantity).0.markets == v.markets,
        delivery(v, listing, buyer, quantity).0.clock == v.clock,
        delivery(v, listing, buyer, quantity).0.next_id <= v.next_id + 4,
        forall|k: u64| #[trigger] delivery(v, listing, buyer, quantity).0.sell_listings.dom().contains(k) ==> v.sell_listings.dom().contains(k)
            && delivery(v, listing, buyer, quantity).0.sell_listings[k] == v.sell_listings[k],
{
}

/// Buying from a listing with treasury money: the buyer pays the seller
/// `quantity * price`, then the goods are delivered and the trade is
/// logged and folded into the price index. Gives the state after and the
/// delivered lot.
pub open spec fn purchase(v: WorldView, listing: SellListingId, buyer: ActorId, quantity: u64) -> (WorldView, Result<
    LotId,
    SimError,
>) {
    if !v.sell_listings.dom().contains(listing.0) {
        (v, Err(SimError::UnknownListing(listing)))
    } else {
        let l = v.sell_listings[listing.0];
        let total = (quantity * l.price_per_unit) as i64;
        if l.seller == buyer {
            (v, Err(invalid_state()))
        } else if !v.actors.dom().contains(buyer.0) {
            (v, Err(SimError::UnknownActor(buyer)))
        } else if !money_product_fits(quantity, l.price_per_unit) {
            (v, Err(SimError::Overflow))
        } else if v.actors[buyer.0].treasury < total {
            (
                v,
                Err(
                    SimError::InsufficientFunds { actor: buyer, needed: total, available: v.actors[buyer.0].treasury },
                ),
            )
        } else {
            let v1 = with_treasury(v, buyer.0, (v.actors[buyer.0].treasury - total) as i64);
            if !v1.actors.dom().contains(l.seller.0) {
                (v1, Err(SimError::UnknownActor(l.seller)))
            } else if !(i64::MIN <= v1.actors[l.seller.0].treasury + total <= i64::MAX) {
                (v1, Err(SimError::Overflow))
            } else {
                let v2 = with_treasury(v1, l.seller.0, (v1.actors[l.seller.0].treasury + total) as i64);
                let (v3, rd) = delivery(v2, listing, buyer, quantity);
                match rd {
                    Err(e) => (v3, Err(e)),
                    Ok(d) => {
                        let v4 = v3.log(
                            EventKind::TradeExecuted {
                                listing,
                                market: l.market,
                                seller: l.seller,
                                buyer,
                                lot_delivered: d,
                                quantity,
                                price_per_unit: l.price_per_unit,
                                total,
                            },
                        );
                        (
                            if v.lots.dom().contains(l.lot.0) {
                                index_updated(v4, l.market, v.lots[l.lot.0].commodity, l.price_per_unit)
                            } else {
                                v4
                            },
                            Ok(d),
                        )
                    },
                }
            }
        }
    }
}

/// A trade against this listing can be folded into the price index
/// without overflow.
pub open spec fn listing_index_fits(v: WorldView, listing: SellListingId) -> bool {
    v.sell_listings.dom().contains(listing.0) && v.lots.dom().contains(v.sell_listings[listing.0].lot.0) ==> {
        let l = v.sell_listings[listing.0];
        smoothing_fits(crate::world::price_of(v, l.market.0, v.lots[l.lot.0].commodity.0), l.price_per_unit)
    }
}

impl World {
    /// Fold one real trade into the (market, commodity) price index: an
    /// integer moving average, three parts history to one part latest
    /// trade, so one flooded or scarce trade cannot whipsaw it.
    fn update_price_index(&mut self, market: MarketId, commodity: CommodityId, trade_price: Credits)
        requires
            old(self).wf(),
            smoothing_fits(crate::world::price_of(old(self)@, market.0, commodity.0), trade_price),
        ensures
            final(self).wf(),
            final(self)@ == index_updated(old(self)@, market, commodity, trade_price),
    {
        let prev = match self.price_index.get(market.0) {
            Some(inner) => match inner.get(commodity.0) {
                Some(p) => Some(*p),
                None => None,
            },
            None => None,
        };
        let updated: i64 = match prev {
            Some(p) => (crate::arith::sat_mul_i64(p, 3) + trade_price) / 4,
            None => trade_price,
        };
        let ghost v = self@;
        let mut inner = match self.price_index.remove(market.0) {
            Some(t) => t,
            None => crate::table::Table::new(),
        };
        proof {
            if v.price_index.dom().contains(market.0) {
                assert(old(self).price_index@[market.0].wf());
            }
        }
        inner.insert(commodity.0, updated);
        let ghost inner_view = inner@;
        self.price_index.insert(market.0, inner);
        proof {
            let o = old(self);
            assert(self.price_index@ == o.price_index@.remove(market.0).insert(market.0, inner));
            assert forall|m: u64| #[trigger] self.price_index@.dom().contains(m) implies self.price_index@[m].wf() by {
                if m != market.0 {
                    assert(o.price_index@.dom().contains(m));
                }
            }
            assert(self@.price_index =~= index_updated(v, market, commodity, trade_price).price_index);
            self.lemma_keys_wf();
        }
    }

    /// Deliver goods from a listing to a buyer: split the lot for a partial
    /// fill, or hand over the whole lot and close the listing. Payment is
    /// the caller's business.
    fn deliver_listed_lot(&mut self, listing: SellListingId, buyer: ActorId, quantity: u64) -> (r: Result<
        LotId,
        SimError,
    >)
        requires
            old(self).wf(),
            old(self)@.has_room(4),
        ensures
            final(self).wf(),
            (final(self)@, r) == delivery(old(self)@, listing, buyer, quantity),
    {
        let lot_id = match self.sell_listings.get(listing.0) {
            None => {
                return Err(SimError::UnknownListing(listing));
            },
            Some(l) => l.lot,
        };
        let lot_qty = match self.lots.get(lot_id.0) {
            None => {
                return Err(SimError::UnknownLot(lot_id));
            },
            Some(l) => l.quantity,
        };
        if quantity == 0 || quantity > lot_qty {
            return Err(SimError::InvalidQuantity);
        }
        if quantity == lot_qty {
            let lot = self.lots.get_mut(lot_id.0);
            lot.state = LotState::Active;
            let from = lot.owner;
            lot.owner = buyer;
            let _ = self.sell_listings.remove(listing.0);
            proof {
                self.lemma_keys_wf();
            }
            self.push_event(EventKind::LotOwnerChanged { lot: lot_id, from, to: buyer });
            Ok(lot_id)
        } else {
            let child = self.split_lot_internal(lot_id, quantity)?;
            let c = self.lots.get_mut(child.0);
            let from = c.owner;
            c.owner = buyer;
            proof {
                self.lemma_keys_wf();
            }
            self.push_event(EventKind::LotOwnerChanged { lot: child, from, to: buyer });
            Ok(child)
        }
    }

    /// Direct purchase against a listing, paid from the buyer's treasury.
    /// Returns the delivered lot: the whole lot, or a split child for a
    /// partial buy. The goods stay at the market site; hauling them is the
    /// buyer's problem.
    pub fn execute_purchase(&mut self, listing: SellListingId, buyer: ActorId, quantity: u64) -> (r: Result<
        LotId,
        SimError,
    >)
        requires
            old(self).wf(),
            old(self)@.has_room(5),
            listing_index_fits(old(self)@, listing),
        ensures
            final(self).wf(),
            final(self)@ == purchase(old(self)@, listing, buyer, quantity).0,
            outcome_matches(r, purchase(old(self)@, listing, buyer, quantity).1),
            old(self)@.money_conserved() && r is Ok ==> final(self)@.money_conserved(),
    {
        let l = match self.sell_listings.get(listing.0) {
            None => {
                return Err(SimError::UnknownListing(listing));
            },
            Some(l) => *l,
        };
        if l.seller.0 == buyer.0 {
            return Err(SimError::InvalidState("cannot buy own listing".to_owned()));
        }
        if !self.actors.contains(buyer.0) {
            return Err(SimError::UnknownActor(buyer));
        }
        let total = mul_money(quantity, l.price_per_unit)?;
        proof {
            assert(total >= 0) by (nonlinear_arith)
                requires
                    total == quantity * l.price_per_unit,
                    l.price_per_unit > 0,
            ;
        }
        self.debit(buyer, total)?;
        let ghost v1 = self@;
        self.credit(l.seller, total)?;
        let ghost v2 = self@;
        let commodity = match self.lots.get(l.lot.0) {
            Some(lot) => Some(lot.commodity),
            None => None,
        };
        proof {
            lemma_delivery_frame(v2, listing, buyer, quantity);
        }
        let delivered = self.deliver_listed_lot(listing, buyer, quantity)?;
        self.push_event(
            EventKind::TradeExecuted {
                listing,
                market: l.market,
                seller: l.seller,
                buyer,
                lot_delivered: delivered,
                quantity,
                price_per_unit: l.price_per_unit,
                total,
            },
        );
        match commodity {
            Some(c) => {
                self.update_price_index(l.market, c, l.price_per_unit);
            },
            None => {},
        }
        proof {
            let o = old(self)@;
            crate::actors::lemma_treasury_change(o, buyer.0, v1.actors[buyer.0].treasury);
            crate::actors::lemma_treasury_change(v1, l.seller.0, v2.actors[l.seller.0].treasury);
        }
        Ok(delivered)
    }
}


/// Filling `quantity` of a buy order from a listing, paid out of the
/// order's escrow: the seller gets `quantity * price`, the buyer gets back
/// the difference to its limit at once, the order shrinks, the trade is
/// logged and indexed, and a fully filled order closes. Gives the state
/// after and the result.
pub open spec fn fill(v: WorldView, order: BuyOrderId, listing: SellListingId, quantity: u64) -> (WorldView, Result<
    (),
    SimError,
>) {
    if !v.buy_orders.dom().contains(order.0) {
        (v, Err(SimError::UnknownOrder(order)))
    } else if !v.sell_listings.dom().contains(listing.0) {
        (v, Err(SimError::UnknownListing(listing)))
    } else {
        let o = v.buy_orders[order.0];
        let l = v.sell_listings[listing.0];
        if quantity == 0 || quantity > o.quantity {
            (v, Err(SimError::InvalidQuantity))
        } else if !money_product_fits(quantity, l.price_per_unit) || !money_product_fits(
            quantity,
            o.limit_price_per_unit,
        ) {
            (v, Err(SimError::Overflow))
        } else {
            let total = (quantity * l.price_per_unit) as i64;
            let release = (quantity * o.limit_price_per_unit) as i64;
            let refund = release - total;
            let (w1, rd) = delivery(v, listing, o.buyer, quantity);
            match rd {
                Err(e) => (w1, Err(e)),
                Ok(d) => if !w1.actors.dom().contains(l.seller.0) {
                    (w1, Err(SimError::UnknownActor(l.seller)))
                } else if !(i64::MIN <= w1.actors[l.seller.0].treasury + total <= i64::MAX) {
                    (w1, Err(SimError::Overflow))
                } else {
                    let w2 = with_treasury(w1, l.seller.0, (w1.actors[l.seller.0].treasury + total) as i64);
                    if refund > 0 && !w2.actors.dom().contains(o.buyer.0) {
                        (w2, Err(SimError::UnknownActor(o.buyer)))
                    } else if refund > 0 && !(i64::MIN <= w2.actors[o.buyer.0].treasury + refund <= i64::MAX) {
                        (w2, Err(SimError::Overflow))
                    } else {
                        let w3 = if refund > 0 {
                            with_treasury(w2, o.buyer.0, (w2.actors[o.buyer.0].treasury + refund) as i64)
                        } else {
                            w2
                        };
                        let left = (o.quantity - quantity) as u64;
                        let w4 = (WorldView {
                            buy_orders: w3.buy_orders.insert(
                                order.0,
                                BuyOrder { quantity: left, escrow: (o.escrow - release) as i64, ..o },
                            ),
                            ..w3
                        }).log(
                            EventKind::TradeExecuted {
                                listing,
                                market: l.market,
                                seller: l.seller,
                                buyer: o.buyer,
                                lot_delivered: d,
                                quantity,
                                price_per_unit: l.price_per_unit,
                                total,
                            },
                        );
                        let w5 = if v.lots.dom().contains(l.lot.0) {
                            index_updated(w4, l.market, v.lots[l.lot.0].commodity, l.price_per_unit)
                        } else {
                            w4
                        };
                        if left == 0 {
                            (without_order(w5, order.0).log(EventKind::BuyOrderClosed { order, refunded: 0 }), Ok(()))
                        } else {
                            (w5, Ok(()))
                        }
                    }
                },
            }
        }
    }
}

impl World {
    /// Fill part of a buy order from a listing, paying from the order's
    /// escrow and refunding the limit/price difference to the buyer at once.
    #[verifier::rlimit(80)]
    fn fill_buy_order(&mut self, order_id: BuyOrderId, listing_id: SellListingId, quantity: u64) -> (r: Result<
        (),
        SimError,
    >)
        requires
            old(self).wf(),
            old(self)@.has_room(6),
            listing_index_fits(old(self)@, listing_id),
        ensures
            final(self).wf(),
            (final(self)@, r) == fill(old(self)@, order_id, listing_id, quantity),
            old(self)@.money_conserved() && r is Ok && old(self)@.sell_listings[listing_id.0].price_per_unit <= old(
                self,
            )@.buy_orders[order_id.0].limit_price_per_unit ==> final(self)@.money_conserved(),
            crate::world::phase_ok(old(self)@, final(self)@),
            old(self)@.money_sound() && old(self)@.buy_orders.dom().contains(order_id.0) && old(
                self,
            )@.sell_listings.dom().contains(listing_id.0) && old(self)@.sell_listings[listing_id.0].price_per_unit
                <= old(self)@.buy_orders[order_id.0].limit_price_per_unit ==> final(self)@.money_sound(),
    {
        let order = match self.buy_orders.get(order_id.0) {
            None => {
                return Err(SimError::UnknownOrder(order_id));
            },
            Some(o) => *o,
        };
        let listing = match self.sell_listings.get(listing_id.0) {
            None => {
                return Err(SimError::UnknownListing(listing_id));
            },
            Some(l) => *l,
        };
        if quantity == 0 || quantity > order.quantity {
            return Err(SimError::InvalidQuantity);
        }
        let total = mul_money(quantity, listing.price_per_unit)?;
        let escrow_release = mul_money(quantity, order.limit_price_per_unit)?;
        proof {
            assert(total >= 0) by (nonlinear_arith)
                requires
                    total == quantity * listing.price_per_unit,
                    listing.price_per_unit > 0,
            ;
            assert(escrow_release >= 0) by (nonlinear_arith)
                requires
                    escrow_release == quantity * order.limit_price_per_unit,
                    order.limit_price_per_unit > 0,
            ;
            assert(order.escrow - escrow_release == (order.quantity - quantity) * order.limit_price_per_unit)
                by (nonlinear_arith)
                requires
                    order.escrow == order.quantity * order.limit_price_per_unit,
                    escrow_release == quantity * order.limit_price_per_unit,
            ;
            assert(0 <= (order.quantity - quantity) * order.limit_price_per_unit <= order.escrow) by (nonlinear_arith)
                requires
                    order.escrow == order.quantity * order.limit_price_per_unit,
                    order.limit_price_per_unit > 0,
                    quantity <= order.quantity,
            ;
        }
        let refund = escrow_release - total;
        let commodity = match self.lots.get(listing.lot.0) {
            Some(lot) => Some(lot.commodity),
            None => None,
        };
        let ghost v = self@;
        proof {
            lemma_delivery_frame(v, listing_id, order.buyer, quantity);
        }
        let delivered = self.deliver_listed_lot(listing_id, order.buyer, quantity)?;
        let ghost w1 = self@;
        self.credit(listing.seller, total)?;
        let ghost w2 = self@;
        let ghost sound = v.money_sound() && listing.price_per_unit <= order.limit_price_per_unit;
        proof {
            if sound {
                crate::world::lemma_treasury_and_escrow(v, order.buyer.0, order_id.0);
                assert(total <= escrow_release) by (nonlinear_arith)
                    requires
                        total == quantity * listing.price_per_unit,
                        escrow_release == quantity * order.limit_price_per_unit,
                        listing.price_per_unit <= order.limit_price_per_unit,
                ;
                assert(w2.actors.dom().contains(order.buyer.0));
                assert(w2.actors[order.buyer.0].treasury <= v.actors[order.buyer.0].treasury + total);
            }
        }
        if refund > 0 {
            self.credit(order.buyer, refund)?;
        }
        let ghost w3 = self@;
        proof {
            if sound {
                assert(forall|k: u64| #[trigger] w3.actors.dom().contains(k) ==> w3.actors[k].treasury >= 0);
            }
        }
        let done = order.quantity - quantity == 0;
        proof {
            assert(w1.circulation() == v.circulation());
            assert(w3.buy_orders[order_id.0] == order);
            if done {
                assert(order.escrow == escrow_release);
            }
            let o0 = old(self)@;
            crate::actors::lemma_treasury_change(w1, listing.seller.0, w2.actors[listing.seller.0].treasury);
            if refund > 0 {
                crate::actors::lemma_treasury_change(w2, order.buyer.0, w3.actors[order.buyer.0].treasury);
            }
        }
        if done {
            proof {
                self.buy_orders.lemma_facts();
                lemma_order_removed(w3, order_id.0);
            }
            let _ = self.buy_orders.remove(order_id.0);
            proof {
                self.lemma_keys_wf();
                assert(self@ == without_order(w3, order_id.0));
            }
        } else {
            let o = self.buy_orders.get_mut(order_id.0);
            o.quantity = o.quantity - quantity;
            o.escrow = o.escrow - escrow_release;
            proof {
                self.lemma_keys_wf();
                crate::table::lemma_sum_update(
                    w3.order_keys,
                    w3.buy_orders,
                    order_id.0,
                    self@.buy_orders[order_id.0],
                    |o: BuyOrder| o.escrow as int,
                );
                assert(w3.order_keys.contains(order_id.0));
            }
        }
        let ghost wm = self@;
        proof {
            if listing.price_per_unit <= order.limit_price_per_unit {
                assert(total <= escrow_release) by (nonlinear_arith)
                    requires
                        total == quantity * listing.price_per_unit,
                        escrow_release == quantity * order.limit_price_per_unit,
                        listing.price_per_unit <= order.limit_price_per_unit,
                ;
            }
            assert(v == old(self)@);
            assert(wm.money_issued == v.money_issued);
            assert(wm.circulation() == w3.circulation() - escrow_release);
            if refund > 0 {
                assert(w3.circulation() == v.circulation() + total + refund);
            } else {
                assert(w3.circulation() == v.circulation() + total);
            }
        }
        self.push_event(
            EventKind::TradeExecuted {
                listing: listing_id,
                market: listing.market,
                seller: listing.seller,
                buyer: order.buyer,
                lot_delivered: delivered,
                quantity,
                price_per_unit: listing.price_per_unit,
                total,
            },
        );
        match commodity {
            Some(c) => {
                self.update_price_index(listing.market, c, listing.price_per_unit);
            },
            None => {},
        }
        if done {
            self.push_event(EventKind::BuyOrderClosed { order: order_id, refunded: 0 });
        }
        proof {
            assert(self@.actors == wm.actors && self@.actor_keys == wm.actor_keys && self@.buy_orders == wm.buy_orders
                && self@.order_keys == wm.order_keys && self@.money_issued == wm.money_issued);
            assert(self@.circulation() == wm.circulation());
        }
        proof {
            let left = (order.quantity - quantity) as u64;
            let upd = BuyOrder { quantity: left, escrow: (order.escrow - escrow_release) as i64, ..order };
            let w4 = (WorldView { buy_orders: w3.buy_orders.insert(order_id.0, upd), ..w3 }).log(
                EventKind::TradeExecuted {
                    listing: listing_id,
                    market: listing.market,
                    seller: listing.seller,
                    buyer: order.buyer,
                    lot_delivered: delivered,
                    quantity,
                    price_per_unit: listing.price_per_unit,
                    total,
                },
            );
            let w5 = if v.lots.dom().contains(listing.lot.0) {
                index_updated(w4, listing.market, v.lots[listing.lot.0].commodity, listing.price_per_unit)
            } else {
                w4
            };
            if done {
                assert(w5.buy_orders.remove(order_id.0) =~= w3.buy_orders.remove(order_id.0));
                assert(self@ =~= without_order(w5, order_id.0).log(EventKind::BuyOrderClosed { order: order_id, refunded: 0 }));
            } else {
                assert(self@ =~= w5);
            }
        }
        Ok(())
    }
}


/// A listing a buy order can fill from: someone else's, priced within the
/// limit, inside the order's scope, selling the ordered commodity.
pub open spec fn eligible(v: WorldView, o: BuyOrder, lid: u64) -> bool {
    &&& v.sell_listings.dom().contains(lid)
    &&& v.sell_listings[lid].seller != o.buyer
    &&& v.sell_listings[lid].price_per_unit <= o.limit_price_per_unit
    &&& (o.scope matches OrderScope::Market(m) ==> v.sell_listings[lid].market == m)
    &&& v.lots.dom().contains(v.sell_listings[lid].lot.0)
    &&& v.lots[v.sell_listings[lid].lot.0].commodity == o.commodity
}

/// Listing `a` comes before listing `b`: cheaper, or as cheap with the
/// smaller id.
pub open spec fn cheaper(v: WorldView, a: u64, b: u64) -> bool {
    let pa = v.sell_listings[a].price_per_unit;
    let pb = v.sell_listings[b].price_per_unit;
    pa < pb || (pa == pb && a < b)
}

/// The eligible listing before all other eligible ones.
pub open spec fn is_best(v: WorldView, o: BuyOrder, k: u64) -> bool {
    eligible(v, o, k) && forall|k2: u64| #[trigger] eligible(v, o, k2) && k2 != k ==> cheaper(v, k, k2)
}

/// The cheapest eligible listing for an order (ties to the smallest id),
/// if there is one.
pub open spec fn best_listing(v: WorldView, o: BuyOrder) -> Option<u64> {
    if exists|k: u64| is_best(v, o, k) {
        Some(choose|k: u64| is_best(v, o, k))
    } else {
        None
    }
}

/// There is room for one more fill from this listing: ids to allocate and
/// a price index that can take the trade.
pub open spec fn fill_room(v: WorldView, lid: u64) -> bool {
    v.has_room(6) && listing_index_fits(v, SellListingId(lid))
}

/// Matching one order: while it is open and some listing is eligible,
/// fill from the best one as much as that listing holds; stop at the first
/// failed fill. `fuel` bounds the rounds (each successful fill shrinks the
/// order).
pub open spec fn match_order(v: WorldView, oid: u64, fuel: nat) -> WorldView
    decreases fuel,
{
    if fuel == 0 || !v.buy_orders.dom().contains(oid) {
        v
    } else {
        let o = v.buy_orders[oid];
        match best_listing(v, o) {
            None => v,
            Some(lid) => if !fill_room(v, lid) {
                v
            } else {
                let avail = v.lots[v.sell_listings[lid].lot.0].quantity;
                let q = if o.quantity <= avail {
                    o.quantity
                } else {
                    avail
                };
                let (w, r) = fill(v, BuyOrderId(oid), SellListingId(lid), q);
                if r is Err {
                    w
                } else {
                    match_order(w, oid, (fuel - 1) as nat)
                }
            },
        }
    }
}

/// Daily matching over the given orders, in order.
pub open spec fn match_orders(v: WorldView, keys: Seq<u64>) -> WorldView
    decreases keys.len(),
{
    if keys.len() == 0 {
        v
    } else {
        let w = match_orders(v, keys.drop_last());
        let k = keys.last();
        let fuel = if w.buy_orders.dom().contains(k) {
            w.buy_orders[k].quantity + 1
        } else {
            0
        };
        match_order(w, k, fuel as nat)
    }
}

/// The listing an order fills from is one it may buy from (a real listing
/// of another seller, within the order's limit, at the order's market when
/// the order names one, of the order's commodity), and no listing it may
/// buy from is cheaper; among equally cheap ones it is the oldest.
pub proof fn law_best_listing_is_cheapest(v: WorldView, o: BuyOrder, other: u64)
    requires
        best_listing(v, o) is Some,
    ensures
        ({
            let k = best_listing(v, o)->Some_0;
            &&& v.sell_listings.dom().contains(k)
            &&& v.sell_listings[k].seller != o.buyer
            &&& v.sell_listings[k].price_per_unit <= o.limit_price_per_unit
            &&& (o.scope matches OrderScope::Market(m) ==> v.sell_listings[k].market == m)
            &&& v.lots.dom().contains(v.sell_listings[k].lot.0)
            &&& v.lots[v.sell_listings[k].lot.0].commodity == o.commodity
        }),
        ({
            let k = best_listing(v, o)->Some_0;
            v.sell_listings.dom().contains(other) && v.sell_listings[other].seller != o.buyer
                && v.sell_listings[other].price_per_unit <= o.limit_price_per_unit && (o.scope matches OrderScope::Market(
                m,
            ) ==> v.sell_listings[other].market == m) && v.lots.dom().contains(v.sell_listings[other].lot.0)
                && v.lots[v.sell_listings[other].lot.0].commodity == o.commodity ==> v.sell_listings[k].price_per_unit
                <= v.sell_listings[other].price_per_unit && (v.sell_listings[k].price_per_unit
                == v.sell_listings[other].price_per_unit ==> k <= other)
        }),
{
    let k = best_listing(v, o)->Some_0;
    assert(exists|k: u64| is_best(v, o, k));
    assert(is_best(v, o, k));
    if eligible(v, o, other) && other != k {
        assert(cheaper(v, k, other));
    }
}

/// A best listing, when there is one, is the only one.
pub proof fn lemma_best_unique(v: WorldView, o: BuyOrder, k: u64)
    requires
        is_best(v, o, k),
    ensures
        best_listing(v, o) == Some(k),
{
    let c = choose|k: u64| is_best(v, o, k);
    assert(is_best(v, o, c));
    if c != k {
        assert(eligible(v, o, k));
        assert(cheaper(v, c, k));
        assert(eligible(v, o, c));
        assert(cheaper(v, k, c));
    }
}

impl World {
    /// The cheapest eligible listing for an order, ties to the smallest id.
    fn find_best_listing(&self, o: &BuyOrder) -> (r: Option<u64>)
        requires
            self.wf(),
        ensures
            r == best_listing(self@, *o),
    {
        let mut best: Option<u64> = None;
        let mut best_price: i64 = 0;
        let n = self.sell_listings.len();
        proof {
            self.sell_listings.lemma_facts();
        }
        let mut i: usize = 0;
        while i < n
            invariant
                self.wf(),
                n == self.sell_listings.keys().len(),
                i <= n,
                match best {
                    None => forall|j: int| 0 <= j < i ==> !eligible(self@, *o, #[trigger] self.sell_listings.keys()[j]),
                    Some(b) => {
                        &&& eligible(self@, *o, b)
                        &&& best_price == self@.sell_listings[b].price_per_unit
                        &&& exists|j: int| 0 <= j < i && self.sell_listings.keys()[j] == b
                        &&& forall|j: int|
                            0 <= j < i && eligible(self@, *o, #[trigger] self.sell_listings.keys()[j])
                                && self.sell_listings.keys()[j] != b ==> cheaper(self@, b, self.sell_listings.keys()[j])
                    },
                },
            decreases n - i,
        {
            let lid = self.sell_listings.key_at(i);
            let l = self.sell_listings.val_at(i);
            let ok = l.seller.0 != o.buyer.0 && l.price_per_unit <= o.limit_price_per_unit && match o.scope {
                OrderScope::Market(m) => l.market.0 == m.0,
                OrderScope::Global => true,
            } && match self.lots.get(l.lot.0) {
                Some(lot) => lot.commodity.0 == o.commodity.0,
                None => false,
            };
            proof {
                assert(ok == eligible(self@, *o, lid));
            }
            if ok {
                let better = match best {
                    None => true,
                    Some(b) => l.price_per_unit < best_price || (l.price_per_unit == best_price && lid < b),
                };
                if better {
                    best = Some(lid);
                    best_price = l.price_per_unit;
                }
            }
            proof {
                let keys = self.sell_listings.keys();
                self.sell_listings.lemma_facts();
                assert(keys[i as int] == lid);
                match best {
                    None => {},
                    Some(b) => {
                        assert forall|j: int|
                            0 <= j < i + 1 && eligible(self@, *o, #[trigger] keys[j]) && keys[j] != b implies cheaper(
                            self@,
                            b,
                            keys[j],
                        ) by {
                            if j < i && b == lid {
                                assert(keys[j] < keys[i as int]);
                            }
                        }
                        if b != lid {
                            let w = choose|j: int| 0 <= j < i && keys[j] == b;
                            assert(0 <= w < i + 1 && keys[w] == b);
                        } else {
                            assert(0 <= i < i + 1 && keys[i as int] == b);
                        }
                    },
                }
            }
            i = i + 1;
        }
        proof {
            let keys = self.sell_listings.keys();
            match best {
                None => {
                    if exists|k: u64| is_best(self@, *o, k) {
                        let k = choose|k: u64| is_best(self@, *o, k);
                        assert(keys.contains(k));
                        let j = choose|j: int| 0 <= j < keys.len() && keys[j] == k;
                        assert(!eligible(self@, *o, keys[j]));
                    }
                },
                Some(b) => {
                    assert forall|k2: u64| #[trigger] eligible(self@, *o, k2) && k2 != b implies cheaper(self@, b, k2) by {
                        assert(keys.contains(k2));
                        let j = choose|j: int| 0 <= j < keys.len() && keys[j] == k2;
                        assert(eligible(self@, *o, keys[j]));
                    }
                    lemma_best_unique(self@, *o, b);
                },
            }
        }
        best
    }
}


impl World {
    /// Whether a trade against this listing can be folded into the price
    /// index without overflow.
    fn listing_fits(&self, lid: u64) -> (b: bool)
        requires
            self.wf(),
        ensures
            b == listing_index_fits(self@, SellListingId(lid)),
    {
        match self.sell_listings.get(lid) {
            None => true,
            Some(l) => match self.lots.get(l.lot.0) {
                None => true,
                Some(lot) => match self.price_index(l.market, lot.commodity) {
                    None => true,
                    Some(p) => crate::arith::sat_mul_i64(p, 3).checked_add(l.price_per_unit).is_some(),
                },
            },
        }
    }

    /// Match one order against the book until it is filled, nothing
    /// eligible is left, or a fill fails.
    fn match_one_order(&mut self, oid: u64)
        requires
            old(self).wf(),
        ensures
            final(self).wf(),
            final(self)@ == match_order(
                old(self)@,
                oid,
                (if old(self)@.buy_orders.dom().contains(oid) {
                    old(self)@.buy_orders[oid].quantity + 1
                } else {
                    0
                }) as nat,
            ),
            crate::world::phase_ok(old(self)@, final(self)@),
            old(self)@.money_sound() ==> final(self)@.money_sound(),
    {
        let ghost fuel0: nat = (if self@.buy_orders.dom().contains(oid) {
            self@.buy_orders[oid].quantity + 1
        } else {
            0
        }) as nat;
        let ghost mut fuel: nat = fuel0;
        loop
            invariant_except_break
                match_order(old(self)@, oid, fuel0) == match_order(self@, oid, fuel),
                self@.buy_orders.dom().contains(oid) ==> self@.buy_orders[oid].quantity < fuel,
            invariant
                self.wf(),
                crate::world::phase_ok(old(self)@, self@),
                old(self)@.money_sound() ==> self@.money_sound(),
            ensures
                self.wf(),
                crate::world::phase_ok(old(self)@, self@),
                old(self)@.money_sound() ==> self@.money_sound(),
                match_order(old(self)@, oid, fuel0) == self@,
            decreases fuel,
        {
            let o = match self.buy_orders.get(oid) {
                None => {
                    break;
                },
                Some(o) => *o,
            };
            let lid = match self.find_best_listing(&o) {
                None => {
                    break;
                },
                Some(l) => l,
            };
            if self.next_id > u64::MAX - 6 {
                break;
            }
            if !self.listing_fits(lid) {
                break;
            }
            let lot_id = match self.sell_listings.get(lid) {
                Some(l) => l.lot,
                None => {
                    break;
                },
            };
            let avail = match self.lots.get(lot_id.0) {
                Some(l) => l.quantity,
                None => {
                    break;
                },
            };
            let q = if o.quantity <= avail {
                o.quantity
            } else {
                avail
            };
            proof {
                lemma_best_unique(self@, o, lid);
                assert(eligible(self@, o, lid));
            }
            let ghost pre = self@;
            let r = self.fill_buy_order(BuyOrderId(oid), SellListingId(lid), q);
            proof {
                crate::world::lemma_phase_trans(old(self)@, pre, self@);
            }
            if r.is_err() {
                break;
            }
            proof {
                fuel = (fuel - 1) as nat;
            }
        }
    }

    /// Daily order matching: each open buy order, in id order, fills
    /// repeatedly from the cheapest compatible listing within its limit, at
    /// the listing's price.
    pub(crate) fn tick_market_matching(&mut self)
        requires
            old(self).wf(),
        ensures
            final(self).wf(),
            final(self)@ == match_orders(old(self)@, old(self).buy_orders.keys()),
            crate::world::phase_ok(old(self)@, final(self)@),
            old(self)@.money_sound() ==> final(self)@.money_sound(),
    {
        let keys = self.buy_orders.key_vec();
        let mut i: usize = 0;
        while i < keys.len()
            invariant
                self.wf(),
                i <= keys@.len(),
                keys@ == old(self).buy_orders.keys(),
                self@ == match_orders(old(self)@, keys@.take(i as int)),
                crate::world::phase_ok(old(self)@, self@),
                old(self)@.money_sound() ==> self@.money_sound(),
            decreases keys@.len() - i,
        {
            proof {
                assert(keys@.take(i + 1).drop_last() =~= keys@.take(i as int));
                assert(keys@.take(i + 1).last() == keys@[i as int]);
            }
            let ghost s0 = self@;
            self.match_one_order(keys[i]);
            proof {
                crate::world::lemma_phase_trans(old(self)@, s0, self@);
            }
            i = i + 1;
        }
        proof {
            assert(keys@.take(keys@.len() as int) =~= keys@);
        }
    }
}


/// Order `o` is `buyer`'s, for `commodity`, scoped to `market`.
pub open spec fn order_matches(o: BuyOrder, buyer: ActorId, commodity: CommodityId, market: MarketId) -> bool {
    o.buyer == buyer && o.commodity == commodity && o.scope == OrderScope::Market(market)
}

/// `buyer` has an open order for `commodity` at `market`.
pub open spec fn open_order_for(v: WorldView, buyer: ActorId, commodity: CommodityId, market: MarketId) -> bool {
    exists|k: u64| #[trigger] v.buy_orders.dom().contains(k) && order_matches(v.buy_orders[k], buyer, commodity, market)
}

/// `m` is the first market, in id order, at `site`.
pub open spec fn first_market_at(v: WorldView, site: LocationId, m: MarketId) -> bool {
    &&& v.markets.dom().contains(m.0)
    &&& v.markets[m.0].site == site
    &&& forall|k: u64| #[trigger] v.markets.dom().contains(k) && k < m.0 ==> v.markets[k].site != site
}

impl World {
    /// The first market (by id) attached to a site.
    fn market_at_site(&self, site: LocationId) -> (r: Option<MarketId>)
        requires
            self.wf(),
        ensures
            r matches Some(m) ==> first_market_at(self@, site, m),
            r is None ==> forall|k: u64| #[trigger] self@.markets.dom().contains(k) ==> self@.markets[k].site != site,
    {
        let n = self.markets.len();
        proof {
            self.markets.lemma_facts();
        }
        let mut i: usize = 0;
        while i < n
            invariant
                self.wf(),
                n == self.markets.keys().len(),
                i <= n,
                crate::table::strictly_increasing(self.markets.keys()),
                forall|k: u64| #[trigger] self@.markets.dom().contains(k) <==> self.markets.keys().contains(k),
                forall|x: int| 0 <= x < i ==> self@.markets[#[trigger] self.markets.keys()[x]].site != site,
            decreases n - i,
        {
            let k = self.markets.key_at(i);
            let m = self.markets.val_at(i);
            proof {
                self.markets.lemma_facts();
            }
            if m.site.0 == site.0 {
                proof {
                    assert forall|k2: u64| #[trigger] self@.markets.dom().contains(k2) && k2 < k implies self@.markets[k2].site
                        != site by {
                        let x = choose|x: int| 0 <= x < self.markets.keys().len() && self.markets.keys()[x] == k2;
                        if x >= i {
                            if x > i {
                                assert(self.markets.keys()[i as int] < self.markets.keys()[x]);
                            }
                        }
                    }
                }
                return Some(MarketId(k));
            }
            i = i + 1;
        }
        proof {
            assert forall|k2: u64| #[trigger] self@.markets.dom().contains(k2) implies self@.markets[k2].site != site by {
                let x = choose|x: int| 0 <= x < self.markets.keys().len() && self.markets.keys()[x] == k2;
            }
        }
        None
    }

    /// Whether the buyer already has an open order for this commodity at
    /// this market.
    fn has_open_order(&self, buyer: ActorId, commodity: CommodityId, market: MarketId) -> (r: bool)
        requires
            self.wf(),
        ensures
            r == open_order_for(self@, buyer, commodity, market),
    {
        let n = self.buy_orders.len();
        proof {
            self.buy_orders.lemma_facts();
        }
        let mut i: usize = 0;
        while i < n
            invariant
                self.wf(),
                n == self.buy_orders.keys().len(),
                i <= n,
                forall|k: u64| #[trigger] self@.buy_orders.dom().contains(k) <==> self.buy_orders.keys().contains(k),
                forall|x: int| 0 <= x < i ==> !order_matches(self@.buy_orders[#[trigger] self.buy_orders.keys()[x]], buyer, commodity, market),
            decreases n - i,
        {
            let o = self.buy_orders.val_at(i);
            let same_scope = match o.scope {
                OrderScope::Market(m) => m.0 == market.0,
                OrderScope::Global => false,
            };
            if o.buyer.0 == buyer.0 && o.commodity.0 == commodity.0 && same_scope {
                proof {
                    let k = self.buy_orders.keys()[i as int];
                    assert(self@.buy_orders.dom().contains(k) && order_matches(self@.buy_orders[k], buyer, commodity, market));
                }
                return true;
            }
            i = i + 1;
        }
        proof {
            assert forall|k: u64| #[trigger] self@.buy_orders.dom().contains(k) implies !order_matches(self@.buy_orders[k], buyer, commodity, market) by {
                let x = choose|x: int| 0 <= x < self.buy_orders.keys().len() && self.buy_orders.keys()[x] == k;
            }
        }
        false
    }

    /// Civilian demand: every populated city with an authority and needs
    /// bids, at its first market, for each need it has no open order for,
    /// at ten percent over the discovered price (or the commodity's base
    /// price before any trade). An authority that cannot pay simply goes
    /// without.
    pub(crate) fn tick_civilian_demand(&mut self)
        requires
            old(self).wf(),
        ensures
            final(self).wf(),
            crate::world::phase_ok(old(self)@, final(self)@),
            crate::faction_ai::money_kept(old(self)@, final(self)@),
            old(self)@.money_sound() ==> final(self)@.money_sound(),
            orders_kept(old(self)@, final(self)@),
            forall|k: u64| #[trigger]
                final(self)@.buy_orders.dom().contains(k) && !old(self)@.buy_orders.dom().contains(k) ==> civilian_bid(
                    old(self)@,
                    final(self)@.buy_orders[k],
                ),
            forall|city: u64, j: int, m: MarketId|
                #![trigger need_answered(old(self)@, final(self)@, city, j, m)]
                bidding_city(old(self)@, city) && 0 <= j < old(self)@.locations[city].civilian_needs@.len()
                    && first_market_at(old(self)@, LocationId(city), m) ==> need_answered(old(self)@, final(self)@, city, j, m),
    {
        let ghost v = self@;
        let mut cities: Vec<u64> = Vec::new();
        let n = self.locations.len();
        proof {
            self.locations.lemma_facts();
        }
        let mut i: usize = 0;
        while i < n
            invariant
                self.wf(),
                self@ == v,
                n == self.locations.keys().len(),
                i <= n,
                forall|k: u64| #[trigger] v.locations.dom().contains(k) <==> self.locations.keys().contains(k),
                forall|x: int| 0 <= x < cities@.len() ==> bidding_city(v, #[trigger] cities@[x]),
                forall|x: int| 0 <= x < i && bidding_city(v, #[trigger] self.locations.keys()[x]) ==> cities@.contains(self.locations.keys()[x]),
            decreases n - i,
        {
            let k = self.locations.key_at(i);
            let l = self.locations.val_at(i);
            let ghost c0 = cities@;
            if l.population > 0 && l.authority.is_some() && l.civilian_needs.len() > 0 {
                cities.push(k);
                proof {
                    assert(cities@[c0.len() as int] == k);
                    assert forall|x: int| 0 <= x < i && bidding_city(v, #[trigger] self.locations.keys()[x]) implies cities@.contains(self.locations.keys()[x]) by {
                        let y = choose|y: int| 0 <= y < c0.len() && c0[y] == self.locations.keys()[x];
                        assert(cities@[y] == c0[y]);
                    }
                }
            }
            i = i + 1;
        }
        proof {
            assert forall|city: u64| #[trigger] bidding_city(v, city) implies cities@.contains(city) by {
                let x = choose|x: int| 0 <= x < self.locations.keys().len() && self.locations.keys()[x] == city;
            }
        }
        let mut c: usize = 0;
        while c < cities.len()
            invariant
                self.wf(),
                c <= cities@.len(),
                v == old(self)@,
                crate::world::phase_ok(v, self@),
                crate::faction_ai::money_kept(v, self@),
                v.money_sound() ==> self@.money_sound(),
                demand_frame(v, self@),
                settled_bids(v, self@),
                forall|k: u64| #[trigger]
                    self@.buy_orders.dom().contains(k) && !v.buy_orders.dom().contains(k) ==> civilian_bid(v, self@.buy_orders[k]),
                forall|x: int| 0 <= x < cities@.len() ==> bidding_city(v, #[trigger] cities@[x]),
                forall|city: u64| #[trigger] bidding_city(v, city) ==> cities@.contains(city),
                forall|x: int, j: int, m: MarketId|
                    #![trigger need_answered(v, self@, cities@[x], j, m)]
                    0 <= x < c && 0 <= j < v.locations[cities@[x]].civilian_needs@.len() && first_market_at(
                        v,
                        LocationId(cities@[x]),
                        m,
                    ) ==> need_answered(v, self@, cities@[x], j, m),
            decreases cities@.len() - c,
        {
            let city = cities[c];
            let ghost sc = self@;
            proof {
                assert(bidding_city(v, city));
            }
            let (authority, needs) = match self.locations.get(city) {
                Some(l) => match l.authority {
                    Some(a) => (a, l.civilian_needs.clone()),
                    None => {
                        proof {
                            assert(false);
                        }
                        c = c + 1;
                        continue;
                    },
                },
                None => {
                    proof {
                        assert(false);
                    }
                    c = c + 1;
                    continue;
                },
            };
            proof {
                assert(needs@ =~= v.locations[city].civilian_needs@);
            }
            let market = match self.market_at_site(LocationId(city)) {
                Some(m) => m,
                None => {
                    proof {
                        assert forall|x: int, j: int, m: MarketId|
                            0 <= x < c + 1 && 0 <= j < v.locations[cities@[x]].civilian_needs@.len() && first_market_at(
                                v,
                                LocationId(cities@[x]),
                                m,
                            ) implies #[trigger] need_answered(v, self@, cities@[x], j, m) by {
                            if x == c {
                                assert(v.markets.dom().contains(m.0));
                            }
                        }
                    }
                    c = c + 1;
                    continue;
                },
            };
            let mut j: usize = 0;
            while j < needs.len()
                invariant
                    self.wf(),
                    c < cities@.len(),
                    city == cities@[c as int],
                    v == old(self)@,
                    bidding_city(v, city),
                    authority == v.locations[city].authority->0,
                    needs@ == v.locations[city].civilian_needs@,
                    first_market_at(v, LocationId(city), market),
                    j <= needs@.len(),
                    crate::world::phase_ok(v, self@),
                    crate::faction_ai::money_kept(v, self@),
                    v.money_sound() ==> self@.money_sound(),
                    demand_frame(v, self@),
                    settled_bids(v, self@),
                    forall|k: u64| #[trigger]
                        self@.buy_orders.dom().contains(k) && !v.buy_orders.dom().contains(k) ==> civilian_bid(
                            v,
                            self@.buy_orders[k],
                        ),
                    forall|x: int, j2: int, m: MarketId|
                        #![trigger need_answered(v, self@, cities@[x], j2, m)]
                        0 <= x < c && 0 <= j2 < v.locations[cities@[x]].civilian_needs@.len() && first_market_at(
                            v,
                            LocationId(cities@[x]),
                            m,
                        ) ==> need_answered(v, self@, cities@[x], j2, m),
                    forall|j2: int| 0 <= j2 < j ==> #[trigger] need_answered(v, self@, city, j2, market),
                decreases needs@.len() - j,
            {
                let need = needs[j];
                let ghost s0 = self@;
                proof {
                    assert(need == v.locations[city].civilian_needs@[j as int]);
                }
                if self.has_open_order(authority, need.commodity, market) {
                    proof {
                        assert(need_answered(v, self@, city, j as int, market));
                    }
                    j = j + 1;
                    continue;
                }
                let base = match self.commodities.get(need.commodity.0) {
                    Some(d) => d.base_price,
                    None => {
                        proof {
                            assert(need_answered(v, self@, city, j as int, market));
                        }
                        j = j + 1;
                        continue;
                    },
                };
                let reference: Credits = match self.price_index(market, need.commodity) {
                    Some(p) => p,
                    None => base,
                };
                let product = crate::arith::sat_mul_i64(reference, 110);
                let limit: Credits = product / 100;
                proof {
                    assert(product >= 0 ==> limit == product / 100);
                    assert(product < 0 ==> limit <= 0);
                    lemma_civilian_limit(v, market, need.commodity, reference, product, limit);
                }
                if self.next_id > u64::MAX - 2 {
                    proof {
                        assert(need_answered(v, self@, city, j as int, market));
                    }
                    j = j + 1;
                    continue;
                }
                let placed = self.place_buy_order(authority, OrderScope::Market(market), need.commodity, need.quantity_per_day, limit);
                proof {
                    crate::world::lemma_phase_trans(old(self)@, s0, self@);
                    self.lemma_keys_wf();
                    assert(!s0.buy_orders.dom().contains(s0.next_id));
                    if placed is Ok {
                        assert(need.quantity_per_day * limit > 0) by (nonlinear_arith)
                            requires
                                need.quantity_per_day > 0,
                                limit > 0,
                        ;
                        assert(self@.actors.dom() =~= s0.actors.dom());
                    }
                    assert(settled_bids(s0, self@));
                    assert(demand_frame(v, self@));
                    assert forall|x: int, j2: int, m: MarketId|
                        0 <= x < c && 0 <= j2 < v.locations[cities@[x]].civilian_needs@.len() && first_market_at(
                            v,
                            LocationId(cities@[x]),
                            m,
                        ) implies #[trigger] need_answered(v, self@, cities@[x], j2, m) by {
                        lemma_answer_kept(v, s0, self@, cities@[x], j2, m);
                    }
                    assert forall|j2: int| 0 <= j2 < j + 1 implies #[trigger] need_answered(v, self@, city, j2, market) by {
                        if j2 < j {
                            lemma_answer_kept(v, s0, self@, city, j2, market);
                        } else {
                            if placed is Ok {
                                assert(self@.buy_orders.dom().contains(s0.next_id));
                                assert(order_matches(self@.buy_orders[s0.next_id], authority, need.commodity, market));
                            }
                        }
                    }
                    assert forall|k: u64| #[trigger]
                        self@.buy_orders.dom().contains(k) && !v.buy_orders.dom().contains(k) implies civilian_bid(
                            v,
                            self@.buy_orders[k],
                        ) by {
                        if !s0.buy_orders.dom().contains(k) {
                            assert(k == s0.next_id);
                            assert(!open_order_for(v, authority, need.commodity, market)) by {
                                if open_order_for(v, authority, need.commodity, market) {
                                    let k2 = choose|k2: u64| #[trigger] v.buy_orders.dom().contains(k2) && order_matches(
                                        v.buy_orders[k2],
                                        authority,
                                        need.commodity,
                                        market,
                                    );
                                    assert(s0.buy_orders.dom().contains(k2));
                                }
                            }
                            assert(bid_for(v, self@.buy_orders[k], city, j as int, market));
                        }
                    }
                }
                j = j + 1;
            }
            proof {
                assert forall|x: int, j2: int, m: MarketId|
                    0 <= x < c + 1 && 0 <= j2 < v.locations[cities@[x]].civilian_needs@.len() && first_market_at(
                        v,
                        LocationId(cities@[x]),
                        m,
                    ) implies #[trigger] need_answered(v, self@, cities@[x], j2, m) by {
                    if x == c {
                        lemma_first_market_unique(v, LocationId(city), m, market);
                    }
                }
            }
            c = c + 1;
        }
        proof {
            assert forall|city: u64, j: int, m: MarketId|
                bidding_city(v, city) && 0 <= j < v.locations[city].civilian_needs@.len() && first_market_at(
                    v,
                    LocationId(city),
                    m,
                ) implies #[trigger] need_answered(v, self@, city, j, m) by {
                let x = choose|x: int| 0 <= x < cities@.len() && cities@[x] == city;
                assert(need_answered(v, self@, cities@[x], j, m));
            }
        }
    }
}

/// A populated city with an authority and at least one civilian need.
pub open spec fn bidding_city(v: WorldView, city: u64) -> bool {
    &&& v.locations.dom().contains(city)
    &&& v.locations[city].population > 0
    &&& v.locations[city].authority is Some
    &&& v.locations[city].civilian_needs@.len() > 0
}

/// What a city's authority bids per unit for `c` at market `m`: ten
/// percent over the market's price for it, or over the commodity's base
/// price before any trade there (the product saturating, the division
/// rounding toward zero).
pub open spec fn civilian_limit(v: WorldView, m: MarketId, c: CommodityId) -> i64 {
    let reference: int = match crate::world::price_of(v, m.0, c.0) {
        Some(p) => p as int,
        None => v.commodities[c.0].base_price as int,
    };
    let product = crate::arith::clamp_i64(reference * 110);
    (if product >= 0 {
        product / 100
    } else {
        -((-product) / 100)
    }) as i64
}

/// Order `o` is the bid of city `city`'s authority at its first market `m`
/// for its `j`th need: the day's quantity at the civilian limit, placed
/// where no such order was open in `v`.
pub open spec fn bid_for(v: WorldView, o: BuyOrder, city: u64, j: int, m: MarketId) -> bool {
    &&& bidding_city(v, city)
    &&& first_market_at(v, LocationId(city), m)
    &&& 0 <= j < v.locations[city].civilian_needs@.len()
    &&& o.buyer == v.locations[city].authority->0
    &&& o.scope == OrderScope::Market(m)
    &&& o.commodity == v.locations[city].civilian_needs@[j].commodity
    &&& o.quantity == v.locations[city].civilian_needs@[j].quantity_per_day
    &&& o.limit_price_per_unit == civilian_limit(v, m, o.commodity)
    &&& !open_order_for(v, o.buyer, o.commodity, m)
}

/// Order `o` is a civilian bid of some city for some need.
pub open spec fn civilian_bid(v: WorldView, o: BuyOrder) -> bool {
    exists|city: u64, j: int, m: MarketId| #[trigger] bid_for(v, o, city, j, m)
}

/// The `j`th need of `city`, bid for at its first market `m`, is answered
/// in `w`: its authority has an open order for it there, or the bid could
/// not be placed (refused as an order, an unknown authority, a treasury
/// short of the escrow, or no ids left).
pub open spec fn need_answered(v: WorldView, w: WorldView, city: u64, j: int, m: MarketId) -> bool {
    let a = v.locations[city].authority->0;
    let n = v.locations[city].civilian_needs@[j];
    let limit = civilian_limit(v, m, n.commodity);
    ||| open_order_for(w, a, n.commodity, m)
    ||| order_error(v, OrderScope::Market(m), n.commodity, n.quantity_per_day, limit) is Some
    ||| !w.actors.dom().contains(a.0)
    ||| w.actors[a.0].treasury < n.quantity_per_day * limit
    ||| w.next_id > u64::MAX - 2
}

/// Every order of `v` is still there, unchanged, in `w`.
pub open spec fn orders_kept(v: WorldView, w: WorldView) -> bool {
    forall|k: u64| #[trigger]
        v.buy_orders.dom().contains(k) ==> w.buy_orders.dom().contains(k) && w.buy_orders[k] == v.buy_orders[k]
}

/// Bidding only adds orders, lowers treasuries and moves the counter
/// forward.
pub open spec fn settled_bids(v: WorldView, w: WorldView) -> bool {
    &&& orders_kept(v, w)
    &&& w.actors.dom() == v.actors.dom()
    &&& forall|a: u64| #[trigger] v.actors.dom().contains(a) ==> w.actors[a].treasury <= v.actors[a].treasury
    &&& v.next_id <= w.next_id
}

/// What bidding leaves alone.
pub open spec fn demand_frame(v: WorldView, w: WorldView) -> bool {
    &&& w.locations == v.locations
    &&& w.markets == v.markets
    &&& w.commodities == v.commodities
    &&& w.price_index == v.price_index
}

/// An answered need stays answered while bidding only adds orders, lowers
/// treasuries and moves the counter forward.
pub proof fn lemma_answer_kept(v: WorldView, s: WorldView, w: WorldView, city: u64, j: int, m: MarketId)
    requires
        need_answered(v, s, city, j, m),
        settled_bids(s, w),
    ensures
        need_answered(v, w, city, j, m),
{
    let a = v.locations[city].authority->0;
    let n = v.locations[city].civilian_needs@[j];
    if open_order_for(s, a, n.commodity, m) {
        let k = choose|k: u64| #[trigger] s.buy_orders.dom().contains(k) && order_matches(s.buy_orders[k], a, n.commodity, m);
        assert(w.buy_orders.dom().contains(k));
    }
}

/// Two first markets at one site are the same market.
pub proof fn lemma_first_market_unique(v: WorldView, site: LocationId, m1: MarketId, m2: MarketId)
    requires
        first_market_at(v, site, m1),
        first_market_at(v, site, m2),
    ensures
        m1 == m2,
{
    if m1.0 < m2.0 {
        assert(v.markets.dom().contains(m1.0));
    } else if m2.0 < m1.0 {
        assert(v.markets.dom().contains(m2.0));
    }
}

/// The limit computed from a reference price is the civilian limit where
/// it is positive, and where it is not, neither is the civilian limit (an
/// order with such a limit is refused either way).
pub proof fn lemma_civilian_limit(v: WorldView, m: MarketId, c: CommodityId, reference: i64, product: i64, limit: i64)
    requires
        reference as int == (match crate::world::price_of(v, m.0, c.0) {
            Some(p) => p as int,
            None => v.commodities[c.0].base_price as int,
        }),
        product as int == crate::arith::clamp_i64(reference * 110),
        product >= 0 ==> limit == product / 100,
        product < 0 ==> limit <= 0,
    ensures
        limit > 0 ==> limit == civilian_limit(v, m, c),
        limit <= 0 ==> civilian_limit(v, m, c) <= 0,
{
}

} // verus!
