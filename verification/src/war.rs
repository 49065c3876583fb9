//! Faction war: at every site, any two different factions whose formations
//! physically occupy the same ground fight, automatically and
//! deterministically, using only their real assembled formations.

use crate::combat::{money_untouched, BattleOutcome};
use crate::ids::{ActorId, AssetId, LocationId};
use crate::world::{phase_ok, World, WorldView};
use vstd::prelude::*;

verus! {

/// Every formation left standing still has someone in it.
pub open spec fn rosters_nonempty(w: WorldView) -> bool {
    forall|k: u64| #[trigger] w.formations.dom().contains(k) ==> w.formations[k].assets@.len() > 0
}

fn contains_owner(s: &Vec<ActorId>, x: ActorId) -> (r: bool)
    ensures
        r == s@.contains(x),
{
    let mut i: usize = 0;
    while i < s.len()
        invariant
            i <= s@.len(),
            forall|j: int| 0 <= j < i ==> s@[j] != x,
        decreases s@.len() - i,
    {
        if s[i].0 == x.0 {
            assert(s@[i as int] == x);
            return true;
        }
        i = i + 1;
    }
    false
}

/// Insert an owner into an id-sorted list: before the first entry whose id
/// is not below its own.
fn insert_sorted(s: &mut Vec<ActorId>, x: ActorId)
    ensures
        exists|i: int|
            0 <= i <= old(s)@.len() && final(s)@ == old(s)@.insert(i, x) && (forall|j: int|
                0 <= j < i ==> (#[trigger] old(s)@[j]).0 < x.0) && (i < old(s)@.len() ==> old(s)@[i].0 >= x.0),
{
    let mut i: usize = 0;
    while i < s.len() && s[i].0 < x.0
        invariant
            i <= s@.len(),
            s@ == old(s)@,
            forall|j: int| 0 <= j < i ==> (#[trigger] s@[j]).0 < x.0,
        decreases s@.len() - i,
    {
        i = i + 1;
    }
    s.insert(i, x);
    proof {
        assert(i < old(s)@.len() ==> old(s)@[i as int].0 >= x.0);
    }
}

/// Owners listed in strictly increasing id order.
pub open spec fn ids_increasing(s: Seq<ActorId>) -> bool {
    forall|a: int, b: int| 0 <= a < b < s.len() ==> (#[trigger] s[a]).0 < (#[trigger] s[b]).0
}

/// Inserting a new owner where `insert_sorted` does keeps the list sorted.
pub proof fn lemma_insert_sorted(s: Seq<ActorId>, i: int, x: ActorId)
    requires
        ids_increasing(s),
        !s.contains(x),
        0 <= i <= s.len(),
        forall|j: int| 0 <= j < i ==> (#[trigger] s[j]).0 < x.0,
        i < s.len() ==> s[i].0 >= x.0,
    ensures
        ids_increasing(s.insert(i, x)),
{
    let t = s.insert(i, x);
    if i < s.len() {
        assert(s[i].0 != x.0) by {
            if s[i].0 == x.0 {
                assert(s[i] == x);
            }
        }
    }
    assert forall|a: int, b: int| 0 <= a < b < t.len() implies (#[trigger] t[a]).0 < (#[trigger] t[b]).0 by {
        if b < i {
        } else if b == i {
            assert(t[a] == s[a]);
        } else if a < i {
            assert(t[b] == s[b - 1]);
            assert(s[i].0 <= s[b - 1].0) by {
                if i < b - 1 {
                }
            }
        } else if a == i {
            assert(t[b] == s[b - 1]);
            assert(s[i].0 <= s[b - 1].0) by {
                if i < b - 1 {
                }
            }
        } else {
            assert(t[a] == s[a - 1] && t[b] == s[b - 1]);
        }
    }
}

/// `owner` has a formation stationed at `site`.
pub open spec fn stationed_owner(v: WorldView, site: LocationId, owner: ActorId) -> bool {
    exists|k: u64|
        #[trigger] v.formations.dom().contains(k) && v.formations[k].owner == owner
            && crate::toe::formation_state_site(v.formations[k].state) == Some(site)
}

/// The combat-capable entries of a list of units, in order.
pub open spec fn live_of(v: WorldView, s: Seq<AssetId>) -> Seq<AssetId>
    decreases s.len(),
{
    if s.len() == 0 {
        Seq::empty()
    } else if v.assets.dom().contains(s.last().0) && v.assets[s.last().0].condition_pct > 0 {
        live_of(v, s.drop_last()).push(s.last())
    } else {
        live_of(v, s.drop_last())
    }
}

/// The combat-capable units of `owner`'s formations stationed at `site`,
/// formation by formation in the order of `keys`.
pub open spec fn force_of(v: WorldView, keys: Seq<u64>, site: LocationId, owner: ActorId) -> Seq<AssetId>
    decreases keys.len(),
{
    if keys.len() == 0 {
        Seq::empty()
    } else {
        let prev = force_of(v, keys.drop_last(), site, owner);
        let f = v.formations[keys.last()];
        if f.owner == owner && crate::toe::formation_state_site(f.state) == Some(site) {
            prev + live_of(v, f.assets@)
        } else {
            prev
        }
    }
}

/// `a` and `b`, `a` first, are the two lowest-numbered owners with live units
/// in formations stationed at `site`, and the battle between their whole
/// forces can be fought: it passes every check of the battle rules, both
/// are known actors, and ids remain for it.
pub open spec fn first_battle_ready(v: WorldView, keys: Seq<u64>, site: LocationId, a: ActorId, b: ActorId) -> bool {
    let fa = force_of(v, keys, site, a);
    let fb = force_of(v, keys, site, b);
    &&& a.0 < b.0
    &&& stationed_owner(v, site, a)
    &&& stationed_owner(v, site, b)
    &&& fa.len() > 0
    &&& fb.len() > 0
    &&& forall|o: ActorId|
        stationed_owner(v, site, o) && #[trigger] force_of(v, keys, site, o).len() > 0 ==> o == a || o == b || b.0 < o.0
    &&& crate::combat::battle_error(v, site, a, fa, b, fb) is None
    &&& v.actors.dom().contains(a.0)
    &&& v.actors.dom().contains(b.0)
    &&& v.has_room(3 + 2 * (fa.len() + fb.len()) as int)
}

/// An asset that can still fight.
pub open spec fn is_live(v: WorldView, a: AssetId) -> bool {
    v.assets.dom().contains(a.0) && v.assets[a.0].condition_pct > 0
}

proof fn lemma_live_of_live(v: WorldView, s: Seq<AssetId>)
    ensures
        forall|i: int| 0 <= i < live_of(v, s).len() ==> is_live(v, #[trigger] live_of(v, s)[i]),
    decreases s.len(),
{
    if s.len() > 0 {
        lemma_live_of_live(v, s.drop_last());
        let p = live_of(v, s.drop_last());
        if is_live(v, s.last()) {
            assert forall|i: int| 0 <= i < p.push(s.last()).len() implies is_live(v, #[trigger] p.push(s.last())[i]) by {
                if i < p.len() {
                    assert(p.push(s.last())[i] == p[i]);
                }
            }
        }
    }
}

proof fn lemma_live_of_idem(v: WorldView, s: Seq<AssetId>)
    requires
        forall|i: int| 0 <= i < s.len() ==> is_live(v, #[trigger] s[i]),
    ensures
        live_of(v, s) == s,
    decreases s.len(),
{
    if s.len() > 0 {
        lemma_live_of_idem(v, s.drop_last());
        assert(is_live(v, s[s.len() - 1]));
        assert(s.drop_last().push(s.last()) =~= s);
    }
}

proof fn lemma_force_of_live(v: WorldView, keys: Seq<u64>, site: LocationId, o: ActorId)
    ensures
        forall|i: int| 0 <= i < force_of(v, keys, site, o).len() ==> is_live(v, #[trigger] force_of(v, keys, site, o)[i]),
    decreases keys.len(),
{
    if keys.len() > 0 {
        lemma_force_of_live(v, keys.drop_last(), site, o);
        let f = v.formations[keys.last()];
        lemma_live_of_live(v, f.assets@);
        let prev = force_of(v, keys.drop_last(), site, o);
        if f.owner == o && crate::toe::formation_state_site(f.state) == Some(site) {
            let t = live_of(v, f.assets@);
            assert forall|i: int| 0 <= i < (prev + t).len() implies is_live(v, #[trigger] (prev + t)[i]) by {
                if i < prev.len() {
                    assert((prev + t)[i] == prev[i]);
                } else {
                    assert((prev + t)[i] == t[i - prev.len()]);
                }
            }
        }
    }
}

/// The filtered, id-ordered list of owners with live forces starts with the
/// first two contenders.
proof fn lemma_first_pair(
    v: WorldView,
    keys: Seq<u64>,
    site: LocationId,
    a: ActorId,
    b: ActorId,
    all: Seq<ActorId>,
    owners: Seq<ActorId>,
)
    requires
        first_battle_ready(v, keys, site, a, b),
        forall|o: ActorId| all.contains(o) <==> stationed_owner(v, site, o),
        forall|k: int| 0 <= k < owners.len() ==> all.contains(#[trigger] owners[k]),
        ids_increasing(owners),
        forall|k: int| 0 <= k < owners.len() ==> force_of(v, keys, site, #[trigger] owners[k]).len() > 0,
        forall|x: int|
            0 <= x < all.len() && force_of(v, keys, site, #[trigger] all[x]).len() > 0 ==> owners.contains(all[x]),
    ensures
        owners.len() >= 2,
        a == owners[0],
        b == owners[1],
{
    assert(all.contains(a));
    assert(all.contains(b));
    let xa = choose|x: int| 0 <= x < all.len() && all[x] == a;
    let xb = choose|x: int| 0 <= x < all.len() && all[x] == b;
    assert(force_of(v, keys, site, all[xa]).len() > 0);
    assert(force_of(v, keys, site, all[xb]).len() > 0);
    assert(owners.contains(a));
    assert(owners.contains(b));
    let pa = choose|k: int| 0 <= k < owners.len() && owners[k] == a;
    let pb = choose|k: int| 0 <= k < owners.len() && owners[k] == b;
    assert(pa < pb) by {
        if pb <= pa {
            if pb < pa {
                assert(owners[pb].0 < owners[pa].0);
            }
        }
    }
    let o0 = owners[0];
    assert(all.contains(o0));
    assert(stationed_owner(v, site, o0));
    assert(force_of(v, keys, site, owners[0]).len() > 0);
    if 0 < pa {
        assert(owners[0].0 < owners[pa].0);
    }
    assert(o0 == a);
    let o1 = owners[1];
    assert(all.contains(o1));
    assert(stationed_owner(v, site, o1));
    assert(force_of(v, keys, site, owners[1]).len() > 0);
    assert(owners[0].0 < owners[1].0);
    if 1 < pb {
        assert(owners[1].0 < owners[pb].0);
    }
}

fn contains_unit(s: &Vec<AssetId>, x: AssetId) -> (r: bool)
    ensures
        r == s@.contains(x),
{
    let mut i: usize = 0;
    while i < s.len()
        invariant
            i <= s@.len(),
            forall|j: int| 0 <= j < i ==> s@[j] != x,
        decreases s@.len() - i,
    {
        if s[i].0 == x.0 {
            assert(s@[i as int] == x);
            return true;
        }
        i = i + 1;
    }
    false
}

/// Between `v` and `w`, no location record but `site`'s changed, and
/// `site`'s controller changed only with a battle logged there.
pub open spec fn control_fought(v: WorldView, w: WorldView, site: LocationId) -> bool {
    &&& w.locations.dom() == v.locations.dom()
    &&& forall|k: u64| #[trigger] v.locations.dom().contains(k) && k != site.0 ==> w.locations[k] == v.locations[k]
    &&& w.locations[site.0].controller != v.locations[site.0].controller ==> crate::combat::battle_logged(v, w, site)
}

/// One battle at `site` keeps `control_fought`.
pub proof fn lemma_control_step(v: WorldView, s: WorldView, w: WorldView, site: LocationId, won: bool)
    requires
        control_fought(v, s, site),
        crate::world::log_extends(v, s),
        crate::world::log_extends(s, w),
        w.locations == s.locations || (won && crate::combat::battle_logged(s, w, site) && exists|l: crate::locations::Location|
            w.locations == s.locations.insert(site.0, l) && s.locations.dom().contains(site.0)),
    ensures
        control_fought(v, w, site),
{
    if w.locations != s.locations {
        assert(w.locations.dom() =~= s.locations.dom());
        crate::combat::lemma_battle_logged_extend(v, s, w, site);
    } else if w.locations[site.0].controller != v.locations[site.0].controller {
        crate::combat::lemma_battle_logged_extend(v, s, w, site);
    }
}

impl World {
    /// Whether an asset still exists and can fight (condition above zero).
    fn combat_capable(&self, a: AssetId) -> (r: bool)
        requires
            self.wf(),
        ensures
            r == (self@.assets.dom().contains(a.0) && self@.assets[a.0].condition_pct > 0),
    {
        match self.assets.get(a.0) {
            Some(x) => x.condition_pct > 0,
            None => false,
        }
    }

    /// The combat-capable units of a list.
    fn live_units(&self, s: &Vec<AssetId>) -> (r: Vec<AssetId>)
        requires
            self.wf(),
        ensures
            r@ == live_of(self@, s@),
    {
        let mut r: Vec<AssetId> = Vec::new();
        let mut i: usize = 0;
        while i < s.len()
            invariant
                self.wf(),
                i <= s@.len(),
                r@ == live_of(self@, s@.take(i as int)),
            decreases s@.len() - i,
        {
            proof {
                assert(s@.take(i + 1).drop_last() =~= s@.take(i as int));
                assert(s@.take(i + 1).last() == s@[i as int]);
            }
            if self.combat_capable(s[i]) {
                r.push(s[i]);
            }
            i = i + 1;
        }
        proof {
            assert(s@.take(s@.len() as int) =~= s@);
        }
        r
    }

    /// The units of one owner's formations stationed at `site`, in
    /// formation id order, combat-capable ones only.
    fn force_at(&self, site: LocationId, owner: ActorId) -> (r: Vec<AssetId>)
        requires
            self.wf(),
        ensures
            r@ == force_of(self@, self.formations.keys(), site, owner),
    {
        let mut r: Vec<AssetId> = Vec::new();
        let n = self.formations.len();
        proof {
            self.formations.lemma_facts();
        }
        let mut i: usize = 0;
        while i < n
            invariant
                self.wf(),
                n == self.formations.keys().len(),
                i <= n,
                r@ == force_of(self@, self.formations.keys().take(i as int), site, owner),
            decreases n - i,
        {
            proof {
                assert(self.formations.keys().take(i + 1).drop_last() =~= self.formations.keys().take(i as int));
                assert(self.formations.keys().take(i + 1).last() == self.formations.keys()[i as int]);
            }
            let f = self.formations.val_at(i);
            let here = f.current_site();
            if f.owner.0 == owner.0 && crate::intel::same_site(here, site) {
                let ghost r0 = r@;
                let mut j: usize = 0;
                while j < f.assets.len()
                    invariant
                        self.wf(),
                        j <= f.assets@.len(),
                        r@ == r0 + live_of(self@, f.assets@.take(j as int)),
                    decreases f.assets@.len() - j,
                {
                    proof {
                        assert(f.assets@.take(j + 1).drop_last() =~= f.assets@.take(j as int));
                        assert(f.assets@.take(j + 1).last() == f.assets@[j as int]);
                    }
                    if self.combat_capable(f.assets[j]) {
                        r.push(f.assets[j]);
                    }
                    j = j + 1;
                }
                proof {
                    assert(f.assets@.take(f.assets@.len() as int) =~= f.assets@);
                }
            }
            i = i + 1;
        }
        proof {
            assert(self.formations.keys().take(n as int) =~= self.formations.keys());
        }
        r
    }

    /// The distinct owners of formations stationed at `site`, by id.
    fn owners_at(&self, site: LocationId) -> (r: Vec<ActorId>)
        requires
            self.wf(),
        ensures
            ids_increasing(r@),
            forall|o: ActorId| r@.contains(o) <==> stationed_owner(self@, site, o),
    {
        let mut owners: Vec<ActorId> = Vec::new();
        let n = self.formations.len();
        proof {
            self.formations.lemma_facts();
        }
        let mut i: usize = 0;
        while i < n
            invariant
                self.wf(),
                n == self.formations.keys().len(),
                i <= n,
                forall|k: u64| #[trigger] self@.formations.dom().contains(k) <==> self.formations.keys().contains(k),
                forall|x: int| 0 <= x < n ==> self.formations@[#[trigger] self.formations.keys()[x]] == self.formations.values()[x],
                n == self.formations.values().len(),
                ids_increasing(owners@),
                forall|o: ActorId| owners@.contains(o) <==> exists|x: int|
                    0 <= x < i && (#[trigger] self.formations.values()[x]).owner == o
                        && crate::toe::formation_state_site(self.formations.values()[x].state) == Some(site),
            decreases n - i,
        {
            let f = self.formations.val_at(i);
            let here = f.current_site();
            let ghost o0 = owners@;
            proof {
                assert(*f == self.formations.values()[i as int]);
            }
            if crate::intel::same_site(here, site) && !contains_owner(&owners, f.owner) {
                insert_sorted(&mut owners, f.owner);
                proof {
                    let p = choose|p: int|
                        0 <= p <= o0.len() && owners@ == o0.insert(p, f.owner) && (forall|j: int|
                            0 <= j < p ==> (#[trigger] o0[j]).0 < f.owner.0) && (p < o0.len() ==> o0[p].0 >= f.owner.0);
                    lemma_insert_sorted(o0, p, f.owner);
                    assert forall|o: ActorId| owners@.contains(o) <==> exists|x: int|
                        0 <= x < i + 1 && (#[trigger] self.formations.values()[x]).owner == o
                            && crate::toe::formation_state_site(self.formations.values()[x].state) == Some(site) by {
                        if owners@.contains(o) {
                            let y = choose|y: int| 0 <= y < owners@.len() && owners@[y] == o;
                            if y == p {
                                assert(self.formations.values()[i as int].owner == o);
                            } else if y < p {
                                assert(o0[y] == o);
                                assert(o0.contains(o));
                            } else {
                                assert(o0[y - 1] == o);
                                assert(o0.contains(o));
                            }
                        }
                        if exists|x: int|
                            0 <= x < i + 1 && (#[trigger] self.formations.values()[x]).owner == o
                                && crate::toe::formation_state_site(self.formations.values()[x].state) == Some(site) {
                            let x = choose|x: int|
                                0 <= x < i + 1 && (#[trigger] self.formations.values()[x]).owner == o
                                    && crate::toe::formation_state_site(self.formations.values()[x].state) == Some(site);
                            if x == i {
                                assert(owners@[p] == o);
                            } else {
                                assert(o0.contains(o));
                                let y = choose|y: int| 0 <= y < o0.len() && o0[y] == o;
                                if y < p {
                                    assert(owners@[y] == o);
                                } else {
                                    assert(owners@[y + 1] == o);
                                }
                            }
                        }
                    }
                }
            } else {
                proof {
                    assert forall|o: ActorId| owners@.contains(o) <==> exists|x: int|
                        0 <= x < i + 1 && (#[trigger] self.formations.values()[x]).owner == o
                            && crate::toe::formation_state_site(self.formations.values()[x].state) == Some(site) by {
                        if exists|x: int|
                            0 <= x < i + 1 && (#[trigger] self.formations.values()[x]).owner == o
                                && crate::toe::formation_state_site(self.formations.values()[x].state) == Some(site) {
                            let x = choose|x: int|
                                0 <= x < i + 1 && (#[trigger] self.formations.values()[x]).owner == o
                                    && crate::toe::formation_state_site(self.formations.values()[x].state) == Some(site);
                            if x == i {
                                assert(owners@.contains(o));
                            }
                        }
                    }
                }
            }
            i = i + 1;
        }
        proof {
            assert forall|o: ActorId| owners@.contains(o) <==> stationed_owner(self@, site, o) by {
                if owners@.contains(o) {
                    let x = choose|x: int|
                        0 <= x < n && (#[trigger] self.formations.values()[x]).owner == o
                            && crate::toe::formation_state_site(self.formations.values()[x].state) == Some(site);
                    let k = self.formations.keys()[x];
                    assert(self@.formations.dom().contains(k));
                }
                if stationed_owner(self@, site, o) {
                    let k = choose|k: u64|
                        #[trigger] self@.formations.dom().contains(k) && self@.formations[k].owner == o
                            && crate::toe::formation_state_site(self@.formations[k].state) == Some(site);
                    let x = choose|x: int| 0 <= x < self.formations.keys().len() && self.formations.keys()[x] == k;
                    assert(self.formations.values()[x].owner == o);
                }
            }
        }
        owners
    }

    /// Fight out one site: the lowest-id owner present with live units
    /// faces each next owner in id order; the winner of each battle, with
    /// its surviving units, faces the next.
    fn fight_at(&mut self, site: LocationId)
        requires
            old(self).wf(),
        ensures
            final(self).wf(),
            phase_ok(old(self)@, final(self)@),
            final(self)@.assets.dom() == old(self)@.assets.dom(),
            money_untouched(final(self)@, old(self)@),
            final(self)@.formations.dom() == old(self)@.formations.dom(),
            control_fought(old(self)@, final(self)@, site),
            forall|a: ActorId, b: ActorId|
                #[trigger] first_battle_ready(old(self)@, old(self).formations.keys(), site, a, b) ==> crate::combat::battle_logged(
                    old(self)@,
                    final(self)@,
                    site,
                ),
    {
        let all_owners = self.owners_at(site);
        let ghost keys = self.formations.keys();
        proof {
            assert(keys == old(self).formations.keys());
        }
        let mut owners: Vec<ActorId> = Vec::new();
        let mut forces: Vec<Vec<AssetId>> = Vec::new();
        let mut i: usize = 0;
        while i < all_owners.len()
            invariant
                self.wf(),
                self@ == old(self)@,
                keys == self.formations.keys(),
                i <= all_owners@.len(),
                owners@.len() == forces@.len(),
                ids_increasing(all_owners@),
                forall|o: ActorId| all_owners@.contains(o) <==> stationed_owner(self@, site, o),
                forall|k: int|
                    0 <= k < owners@.len() ==> exists|x: int| 0 <= x < i && all_owners@[x] == #[trigger] owners@[k],
                ids_increasing(owners@),
                forall|k: int|
                    0 <= k < owners@.len() ==> (#[trigger] forces@[k])@ == force_of(self@, keys, site, owners@[k])
                        && forces@[k]@.len() > 0,
                forall|x: int|
                    0 <= x < i && force_of(self@, keys, site, #[trigger] all_owners@[x]).len() > 0 ==> owners@.contains(
                        all_owners@[x],
                    ),
            decreases all_owners@.len() - i,
        {
            let force = self.force_at(site, all_owners[i]);
            if force.len() > 0 {
                let ghost o0 = owners@;
                proof {
                    assert forall|k: int| 0 <= k < o0.len() implies (#[trigger] o0[k]).0 < all_owners@[i as int].0 by {
                        let x = choose|x: int| 0 <= x < i && all_owners@[x] == o0[k];
                    }
                }
                owners.push(all_owners[i]);
                forces.push(force);
                proof {
                    assert forall|k: int| 0 <= k < owners@.len() implies exists|x: int|
                        0 <= x < i + 1 && all_owners@[x] == #[trigger] owners@[k] by {
                        if k < o0.len() {
                            let x = choose|x: int| 0 <= x < i && all_owners@[x] == o0[k];
                            assert(all_owners@[x] == owners@[k]);
                        } else {
                            assert(all_owners@[i as int] == owners@[k]);
                        }
                    }
                    assert forall|x: int|
                        0 <= x < i + 1 && force_of(self@, keys, site, #[trigger] all_owners@[x]).len() > 0 implies owners@.contains(
                        all_owners@[x],
                    ) by {
                        if x < i {
                            assert(o0.contains(all_owners@[x]));
                            let k = choose|k: int| 0 <= k < o0.len() && o0[k] == all_owners@[x];
                            assert(owners@[k] == all_owners@[x]);
                        } else {
                            assert(owners@[o0.len() as int] == all_owners@[x]);
                        }
                    }
                }
            }
            i = i + 1;
        }
        let ghost hyp = owners@.len() >= 2 && first_battle_ready(old(self)@, keys, site, owners@[0], owners@[1]);
        proof {
            assert forall|k: int| 0 <= k < owners@.len() implies all_owners@.contains(#[trigger] owners@[k]) by {
                let x = choose|x: int| 0 <= x < i && all_owners@[x] == owners@[k];
            }
            assert forall|k: int| 0 <= k < owners@.len() implies force_of(old(self)@, keys, site, #[trigger] owners@[k]).len()
                > 0 by {
                assert(forces@[k]@ == force_of(self@, keys, site, owners@[k]));
            }
            assert forall|a: ActorId, b: ActorId| #[trigger]
                first_battle_ready(old(self)@, keys, site, a, b) implies owners@.len() >= 2 && a == owners@[0] && b
                == owners@[1] by {
                lemma_first_pair(old(self)@, keys, site, a, b, all_owners@, owners@);
            }
        }
        if owners.len() < 2 {
            proof {
                assert(self@.locations =~= old(self)@.locations);
            }
            return;
        }
        let mut champion = owners[0];
        let mut champion_units: Vec<AssetId> = crate::table::copy_slice(forces[0].as_slice());
        let mut c: usize = 1;
        while c < owners.len()
            invariant
                self.wf(),
                1 <= c <= owners@.len(),
                owners@.len() == forces@.len(),
                phase_ok(old(self)@, self@),
                self@.assets.dom() == old(self)@.assets.dom(),
                money_untouched(self@, old(self)@),
                self@.formations.dom() == old(self)@.formations.dom(),
                control_fought(old(self)@, self@, site),
                c == 1 ==> self@ == old(self)@ && champion == owners@[0] && champion_units@ == forces@[0]@,
                hyp ==> owners@.len() >= 2 && first_battle_ready(old(self)@, keys, site, owners@[0], owners@[1]),
                forall|k: int|
                    0 <= k < owners@.len() ==> (#[trigger] forces@[k])@ == force_of(old(self)@, keys, site, owners@[k]),
                hyp && c > 1 ==> crate::combat::battle_logged(old(self)@, self@, site),
                keys == old(self).formations.keys(),
                forall|a: ActorId, b: ActorId| #[trigger]
                    first_battle_ready(old(self)@, keys, site, a, b) ==> owners@.len() >= 2 && a == owners@[0] && b
                        == owners@[1],
                hyp == (owners@.len() >= 2 && first_battle_ready(old(self)@, keys, site, owners@[0], owners@[1])),
            ensures
                hyp ==> crate::combat::battle_logged(old(self)@, self@, site),
            decreases owners@.len() - c,
        {
            if champion_units.len() == 0 {
                break;
            }
            let challenger = owners[c];
            let challenger_units = self.live_units(&forces[c]);
            proof {
                if c == 1 {
                    lemma_force_of_live(old(self)@, keys, site, owners@[1]);
                    lemma_live_of_idem(old(self)@, forces@[1]@);
                }
            }
            if challenger_units.len() > 0 {
                let need: u128 = 3 + 2 * (champion_units.len() as u128 + challenger_units.len() as u128);
                if (self.next_id as u128) + need > u64::MAX as u128 {
                    break;
                }
                let ghost s0 = self@;
                let r = self.resolve_battle(
                    site,
                    champion,
                    champion_units.as_slice(),
                    challenger,
                    challenger_units.as_slice(),
                );
                proof {
                    crate::world::lemma_phase_trans(old(self)@, s0, self@);
                    lemma_control_step(old(self)@, s0, self@, site, r is Ok);
                    if hyp && c == 1 {
                        assert(r is Ok);
                        assert(crate::combat::battle_logged(old(self)@, self@, site));
                    } else if hyp && c > 1 {
                        crate::combat::lemma_battle_logged_extend(old(self)@, s0, self@, site);
                    }
                }
                match r {
                    Ok(outcome) => {
                        let (winner, winner_units, losses) = if outcome.attacker_won {
                            (champion, crate::table::copy_slice(champion_units.as_slice()), outcome.attacker_losses)
                        } else {
                            (challenger, challenger_units, outcome.defender_losses)
                        };
                        let mut kept: Vec<AssetId> = Vec::new();
                        let mut k: usize = 0;
                        while k < winner_units.len()
                            invariant
                                k <= winner_units@.len(),
                            decreases winner_units@.len() - k,
                        {
                            if !contains_unit(&losses, winner_units[k]) {
                                kept.push(winner_units[k]);
                            }
                            k = k + 1;
                        }
                        champion = winner;
                        champion_units = kept;
                    },
                    Err(_) => {},
                }
            }
            c = c + 1;
        }
        proof {
            assert forall|a: ActorId, b: ActorId| #[trigger]
                first_battle_ready(old(self)@, old(self).formations.keys(), site, a, b) implies crate::combat::battle_logged(
                old(self)@,
                self@,
                site,
            ) by {
                assert(a == owners@[0] && b == owners@[1]);
            }
        }
    }

    /// Automatic territorial combat phase, sites in id order; then every
    /// formation that lost all its units is dissolved.
    pub(crate) fn tick_faction_war(&mut self)
        requires
            old(self).wf(),
        ensures
            final(self).wf(),
            phase_ok(old(self)@, final(self)@),
            final(self)@.assets.dom() == old(self)@.assets.dom(),
            money_untouched(final(self)@, old(self)@),
            final(self)@.formations.dom().subset_of(old(self)@.formations.dom()),
            rosters_nonempty(final(self)@),
            final(self)@.locations.dom() == old(self)@.locations.dom(),
            forall|k: u64| #[trigger]
                old(self)@.locations.dom().contains(k) && final(self)@.locations[k].controller != old(
                    self,
                )@.locations[k].controller ==> crate::combat::battle_logged(old(self)@, final(self)@, LocationId(k)),
            exists|ss: Seq<WorldView>| #[trigger] sites_fought(old(self)@, final(self)@, ss),
    {
        let sites = self.locations.key_vec();
        proof {
            self.locations.lemma_key_order();
        }
        let ghost mut ss: Seq<WorldView> = seq![self@];
        let mut i: usize = 0;
        while i < sites.len()
            invariant
                self.wf(),
                i <= sites@.len(),
                sites@ == crate::table::key_order(old(self)@.locations),
                ss.len() == i + 1,
                ss[0] == old(self)@,
                ss[i as int] == self@,
                forall|x: int|
                    0 <= x < i ==> #[trigger] site_fought(ss[x], ss[x + 1], LocationId(sites@[x]))
                        && crate::world::log_extends(ss[x + 1], self@),
                phase_ok(old(self)@, self@),
                self@.assets.dom() == old(self)@.assets.dom(),
                money_untouched(self@, old(self)@),
                self@.formations.dom() == old(self)@.formations.dom(),
                self@.locations.dom() == old(self)@.locations.dom(),
                forall|k: u64| #[trigger]
                    old(self)@.locations.dom().contains(k) && self@.locations[k].controller != old(
                        self,
                    )@.locations[k].controller ==> crate::combat::battle_logged(old(self)@, self@, LocationId(k)),
            decreases sites@.len() - i,
        {
            let ghost s0 = self@;
            let site = LocationId(sites[i]);
            proof {
                self.formations.lemma_key_order();
            }
            self.fight_at(site);
            proof {
                assert(site_fought(s0, self@, site));
                let ss0 = ss;
                ss = ss.push(self@);
                assert forall|x: int|
                    0 <= x < i + 1 implies #[trigger] site_fought(ss[x], ss[x + 1], LocationId(sites@[x]))
                        && crate::world::log_extends(ss[x + 1], self@) by {
                    if x < i {
                        assert(ss[x] == ss0[x] && ss[x + 1] == ss0[x + 1]);
                        assert(site_fought(ss0[x], ss0[x + 1], LocationId(sites@[x])));
                        crate::world::lemma_log_extends_trans(ss0[x + 1], s0, self@);
                    } else {
                        assert(ss[x] == s0 && ss[x + 1] == self@);
                    }
                }
                crate::world::lemma_phase_trans(old(self)@, s0, self@);
                assert forall|k: u64| #[trigger]
                    old(self)@.locations.dom().contains(k) && self@.locations[k].controller != old(
                        self,
                    )@.locations[k].controller implies crate::combat::battle_logged(old(self)@, self@, LocationId(k)) by {
                    if k == site.0 && self@.locations[k].controller != s0.locations[k].controller {
                        crate::combat::lemma_battle_logged_extend(old(self)@, s0, self@, site);
                    } else {
                        assert(s0.locations[k].controller != old(self)@.locations[k].controller);
                        crate::combat::lemma_battle_logged_extend(old(self)@, s0, self@, LocationId(k));
                    }
                }
            }
            i = i + 1;
        }
        let keys = self.formations.key_vec();
        let ghost s1 = self@;
        proof {
            assert(ss.len() == sites@.len() + 1);
            assert forall|x: int| 0 <= x < sites@.len() implies #[trigger] site_fought(ss[x], ss[x + 1], LocationId(sites@[x]))
                && crate::world::log_extends(ss[x + 1], s1) by {
                assert(site_fought(ss[x], ss[x + 1], LocationId(sites@[x])));
            }
            assert(sites_fought(old(self)@, s1, ss));
        }
        proof {
            self.formations.lemma_facts();
        }
        let mut j: usize = 0;
        while j < keys.len()
            invariant
                self.wf(),
                j <= keys@.len(),
                crate::table::strictly_increasing(keys@),
                forall|x: u64| #[trigger] s1.formations.dom().contains(x) <==> keys@.contains(x),
                self@ == (WorldView { formations: self@.formations, ..s1 }),
                self@.formations.dom().subset_of(s1.formations.dom()),
                sites_fought(old(self)@, s1, ss),
                forall|x: int|
                    0 <= x < j && self@.formations.dom().contains(#[trigger] keys@[x]) ==> self@.formations[keys@[x]].assets@.len()
                        > 0,
                forall|x: int|
                    j <= x < keys@.len() ==> self@.formations.dom().contains(#[trigger] keys@[x]) && self@.formations[keys@[x]]
                        == s1.formations[keys@[x]],
            decreases keys@.len() - j,
        {
            let k = keys[j];
            let empty = match self.formations.get(k) {
                Some(f) => f.assets.len() == 0,
                None => false,
            };
            if empty {
                let _ = self.formations.remove(k);
                proof {
                    self.lemma_keys_wf();
                    assert forall|x: int|
                        j + 1 <= x < keys@.len() implies self@.formations.dom().contains(#[trigger] keys@[x])
                            && self@.formations[keys@[x]] == s1.formations[keys@[x]] by {
                        assert(keys@[j as int] < keys@[x]);
                    }
                    assert forall|x: int|
                        0 <= x < j + 1 && self@.formations.dom().contains(#[trigger] keys@[x]) implies self@.formations[keys@[x]].assets@.len()
                            > 0 by {
                        if x < j {
                            assert(keys@[x] < keys@[j as int]);
                        }
                    }
                }
            }
            j = j + 1;
        }
        proof {
            assert forall|k: u64| #[trigger] self@.formations.dom().contains(k) implies self@.formations[k].assets@.len() > 0 by {
                assert(keys@.contains(k));
                let x = choose|x: int| 0 <= x < keys@.len() && keys@[x] == k;
                assert(self@.formations.dom().contains(keys@[x]));
            }
            assert(self@.events == s1.events);
            let sites_v = crate::table::key_order(old(self)@.locations);
            assert forall|x: int| 0 <= x < sites_v.len() implies #[trigger] site_fought(ss[x], ss[x + 1], LocationId(sites_v[x]))
                && crate::world::log_extends(ss[x + 1], self@) by {
                assert(site_fought(ss[x], ss[x + 1], LocationId(sites_v[x])));
            }
            assert(sites_fought(old(self)@, self@, ss));
        }
    }
}

/// At `site`, from `a` to `b`: when the first two contenders' battle is
/// ready, a battle is logged there.
pub open spec fn site_fought(a: WorldView, b: WorldView, site: LocationId) -> bool {
    forall|x: ActorId, y: ActorId|
        #[trigger] first_battle_ready(a, crate::table::key_order(a.formations), site, x, y)
            ==> crate::combat::battle_logged(a, b, site)
}

/// The war phase from `v` to `w`, site by site in id order (`ss[i]` is the
/// state when site `i`'s turn came): every ready battle was fought, and the
/// log entry stays in `w`'s log.
pub open spec fn sites_fought(v: WorldView, w: WorldView, ss: Seq<WorldView>) -> bool {
    let sites = crate::table::key_order(v.locations);
    &&& ss.len() == sites.len() + 1
    &&& ss[0] == v
    &&& forall|i: int|
        0 <= i < sites.len() ==> #[trigger] site_fought(ss[i], ss[i + 1], LocationId(sites[i]))
            && crate::world::log_extends(ss[i + 1], w)
}

} // verus!
