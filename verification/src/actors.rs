//! Actors: decision-making entities.
//!
//! Actors own assets, hold money, place market orders, run convoys, request
//! production, and pursue TO&E goals. Money is conserved: it only enters the
//! world through explicit issuance and moves between treasuries and escrows
//! after that.

use crate::error::SimError;
use crate::events::EventKind;
use crate::ids::ActorId;
use crate::world::{World, WorldView};
use vstd::prelude::*;

verus! {

/// Money. Integer credits, no floats anywhere in strategic state.
pub type Credits = i64;

#[derive(Debug, Clone, Copy, PartialEq, Eq, Structural)]
pub enum ActorKind {
    Faction,
    CityAuthority,
    MercenaryCompany,
    PiratePolity,
    IndependentTrader,
    FactoryOwner,
    AdminOperator,
    PlayerOperator,
}

#[derive(Debug, Clone)]
pub struct Actor {
    pub id: ActorId,
    pub name: String,
    pub kind: ActorKind,
    pub treasury: Credits,
}

} // verus!

verus! {

/// The view with one actor's treasury replaced.
pub open spec fn with_treasury(v: WorldView, actor: u64, treasury: i64) -> WorldView {
    WorldView { actors: v.actors.insert(actor, Actor { treasury, ..v.actors[actor] }), ..v }
}

/// Money leaves a treasury: conservation holds afterwards exactly when it
/// held before with the issued total lowered by the same amount.
pub proof fn lemma_treasury_change(v: WorldView, actor: u64, treasury: i64)
    requires
        v.keys_wf(),
        v.actors.dom().contains(actor),
    ensures
        with_treasury(v, actor, treasury).circulation() == v.circulation() - v.actors[actor].treasury
            + treasury,
        with_treasury(v, actor, treasury).keys_wf(),
{
    let a = Actor { treasury, ..v.actors[actor] };
    crate::table::lemma_sum_update(v.actor_keys, v.actors, actor, a, |a: Actor| a.treasury as int);
    assert(v.actors.insert(actor, a).dom() =~= v.actors.dom());
}

impl World {
    /// Create an actor with a seed treasury. The seed treasury is explicit
    /// money issuance and is counted toward the money-conservation invariant.
    pub fn create_actor(&mut self, name: &str, kind: ActorKind, treasury: Credits) -> (id: ActorId)
        requires
            old(self).wf(),
            old(self)@.has_room(2),
        ensures
            final(self).wf(),
            id == ActorId(old(self)@.next_id),
            final(self)@.actors[id.0].name@ == name@,
            final(self)@ == (WorldView {
                actors: old(self)@.actors.insert(
                    id.0,
                    Actor { id, name: final(self)@.actors[id.0].name, kind, treasury },
                ),
                actor_keys: old(self)@.actor_keys.push(id.0),
                money_issued: crate::arith::clamp_i128(old(self)@.money_issued + treasury) as i128,
                ..old(self)@.bump()
            }).log(EventKind::ActorCreated { actor: id, issued: treasury }),
            old(self)@.money_conserved() && i128::MIN <= old(self)@.money_issued + treasury <= i128::MAX
                ==> final(self)@.money_conserved(),
            crate::invariants::consistent(old(self)@) && treasury >= 0 && old(self)@.money_issued + treasury
                <= i128::MAX ==> crate::invariants::consistent(final(self)@),
    {
        let id = ActorId(self.alloc_id());
        let actor = Actor { id, name: name.to_owned(), kind, treasury };
        proof {
            self.actors.lemma_fresh(id.0);
        }
        self.actors.insert_new(id.0, actor);
        self.money_issued = crate::arith::sat_add_i128(self.money_issued, treasury as i128);
        proof {
            self.lemma_keys_wf();
            let o = old(self)@;
            crate::table::lemma_sum_push(o.actor_keys, o.actors, id.0, actor, |a: Actor| a.treasury as int);
            assert(!o.actor_keys.contains(id.0));
        }
        self.push_event(EventKind::ActorCreated { actor: id, issued: treasury });
        proof {
            let o = old(self)@;
            if crate::invariants::consistent(o) && treasury >= 0 && o.money_issued + treasury <= i128::MAX {
                assert(crate::invariants::grows_soundly(o, self@));
                crate::invariants::lemma_consistent_grows(o, self@);
            }
        }
        id
    }

    /// Move credits out of a treasury. Fails rather than going negative.
    pub(crate) fn debit(&mut self, actor: ActorId, amount: Credits) -> (r: Result<(), SimError>)
        requires
            old(self).wf(),
            amount >= 0,
        ensures
            final(self).wf(),
            !old(self)@.actors.dom().contains(actor.0) ==> r == Err::<(), SimError>(
                SimError::UnknownActor(actor),
            ) && final(self)@ == old(self)@,
            old(self)@.actors.dom().contains(actor.0) && old(self)@.actors[actor.0].treasury < amount
                ==> r == Err::<(), SimError>(
                SimError::InsufficientFunds {
                    actor,
                    needed: amount,
                    available: old(self)@.actors[actor.0].treasury,
                },
            ) && final(self)@ == old(self)@,
            old(self)@.actors.dom().contains(actor.0) && old(self)@.actors[actor.0].treasury >= amount
                ==> r is Ok && final(self)@ == with_treasury(
                old(self)@,
                actor.0,
                (old(self)@.actors[actor.0].treasury - amount) as i64,
            ),
    {
        if !self.actors.contains(actor.0) {
            return Err(SimError::UnknownActor(actor));
        }
        let a = self.actors.get_mut(actor.0);
        if a.treasury < amount {
            return Err(SimError::InsufficientFunds { actor, needed: amount, available: a.treasury });
        }
        a.treasury = a.treasury - amount;
        proof {
            self.lemma_keys_wf();
        }
        Ok(())
    }

    /// Move credits into a treasury.
    pub(crate) fn credit(&mut self, actor: ActorId, amount: Credits) -> (r: Result<(), SimError>)
        requires
            old(self).wf(),
        ensures
            final(self).wf(),
            !old(self)@.actors.dom().contains(actor.0) ==> r == Err::<(), SimError>(
                SimError::UnknownActor(actor),
            ) && final(self)@ == old(self)@,
            old(self)@.actors.dom().contains(actor.0) && !(i64::MIN <= old(self)@.actors[actor.0].treasury
                + amount <= i64::MAX) ==> r == Err::<(), SimError>(SimError::Overflow) && final(self)@
                == old(self)@,
            old(self)@.actors.dom().contains(actor.0) && i64::MIN <= old(self)@.actors[actor.0].treasury
                + amount <= i64::MAX ==> r is Ok && final(self)@ == with_treasury(
                old(self)@,
                actor.0,
                (old(self)@.actors[actor.0].treasury + amount) as i64,
            ),
    {
        if !self.actors.contains(actor.0) {
            return Err(SimError::UnknownActor(actor));
        }
        let a = self.actors.get_mut(actor.0);
        match a.treasury.checked_add(amount) {
            Some(t) => {
                a.treasury = t;
                proof {
                    self.lemma_keys_wf();
                }
                Ok(())
            },
            None => Err(SimError::Overflow),
        }
    }

    /// Explicit money issuance outside actor creation (taxation revenue).
    /// Like a seed treasury, this grows the issued total.
    pub(crate) fn issue_money(&mut self, actor: ActorId, amount: Credits) -> (r: Result<(), SimError>)
        requires
            old(self).wf(),
        ensures
            final(self).wf(),
            crate::world::phase_ok(old(self)@, final(self)@),
            r is Err ==> final(self)@ == old(self)@,
            !old(self)@.actors.dom().contains(actor.0) ==> r == Err::<(), SimError>(
                SimError::UnknownActor(actor),
            ),
            old(self)@.actors.dom().contains(actor.0) && !(i64::MIN <= old(self)@.actors[actor.0].treasury
                + amount <= i64::MAX) ==> r == Err::<(), SimError>(SimError::Overflow),
            old(self)@.actors.dom().contains(actor.0) && i64::MIN <= old(self)@.actors[actor.0].treasury
                + amount <= i64::MAX ==> r is Ok && final(self)@ == (WorldView {
                money_issued: crate::arith::clamp_i128(old(self)@.money_issued + amount) as i128,
                ..with_treasury(old(self)@, actor.0, (old(self)@.actors[actor.0].treasury + amount) as i64)
            }),
            old(self)@.money_conserved() && i128::MIN <= old(self)@.money_issued + amount <= i128::MAX
                && r is Ok ==> final(self)@.money_conserved(),
    {
        self.credit(actor, amount)?;
        self.money_issued = crate::arith::sat_add_i128(self.money_issued, amount as i128);
        proof {
            let o = old(self)@;
            lemma_treasury_change(o, actor.0, (o.actors[actor.0].treasury + amount) as i64);
        }
        Ok(())
    }

    /// Debit a treasury for a real cost with no receiving actor (retooling).
    /// The credits leave circulation entirely, so the issued total shrinks
    /// with them.
    pub(crate) fn burn(&mut self, actor: ActorId, amount: Credits) -> (r: Result<(), SimError>)
        requires
            old(self).wf(),
            amount >= 0,
        ensures
            final(self).wf(),
            r is Err ==> final(self)@ == old(self)@,
            !old(self)@.actors.dom().contains(actor.0) ==> r == Err::<(), SimError>(
                SimError::UnknownActor(actor),
            ),
            old(self)@.actors.dom().contains(actor.0) && old(self)@.actors[actor.0].treasury < amount
                ==> r == Err::<(), SimError>(
                SimError::InsufficientFunds {
                    actor,
                    needed: amount,
                    available: old(self)@.actors[actor.0].treasury,
                },
            ),
            old(self)@.actors.dom().contains(actor.0) && old(self)@.actors[actor.0].treasury >= amount
                ==> r is Ok && final(self)@ == (WorldView {
                money_issued: crate::arith::clamp_i128(old(self)@.money_issued - amount) as i128,
                ..with_treasury(old(self)@, actor.0, (old(self)@.actors[actor.0].treasury - amount) as i64)
            }),
            old(self)@.money_conserved() && old(self)@.money_issued - amount >= i128::MIN && r is Ok
                ==> final(self)@.money_conserved(),
    {
        self.debit(actor, amount)?;
        self.money_issued = crate::arith::sat_sub_i128(self.money_issued, amount as i128);
        proof {
            let o = old(self)@;
            lemma_treasury_change(o, actor.0, (o.actors[actor.0].treasury - amount) as i64);
        }
        Ok(())
    }
}

} // verus!
