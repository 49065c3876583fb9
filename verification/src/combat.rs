//! Battle resolution between two forces physically at the same site.
//!
//! This is the collapsed strategic stand-in for tactical combat: power is
//! computed from real asset kind, quality and condition; defenders get a
//! home-ground edge; losses are real (destroyed units go to zero condition
//! rather than disappearing, some captured units change owner); and every
//! engaged asset still exists and is still traceable afterwards. No unit is
//! invented or deleted to make a battle happen.

use crate::assets::{AssetKind, SerialAsset};
use crate::error::{error_matches, invalid_state, SimError};
use crate::events::EventKind;
use crate::goods::QualityGrade;
use crate::ids::{ActorId, AssetId, LocationId};
use crate::intel::IntelSubject;
use crate::locations::{resolve, LocationRef};
use crate::world::{World, WorldView};
use vstd::prelude::*;

verus! {

/// Defenders fighting from their own ground get a real, mechanical edge.
pub const DEFENDER_BONUS_PCT: u64 = 120;

/// Fraction of engaged units the losing side loses.
pub const LOSER_ATTRITION_PCT: u64 = 35;

/// Fraction of engaged units the winning side loses even so.
pub const WINNER_ATTRITION_PCT: u64 = 10;

/// Of the losing side's lost units, this fraction is captured (ownership
/// passes to the winner) rather than destroyed outright.
pub const CAPTURE_FRACTION_PCT: u64 = 30;

#[derive(Debug, Clone, PartialEq)]
pub struct BattleOutcome {
    pub site: LocationId,
    pub attacker: ActorId,
    pub defender: ActorId,
    pub attacker_power: u64,
    pub defender_power: u64,
    pub attacker_won: bool,
    pub attacker_losses: Vec<AssetId>,
    pub defender_losses: Vec<AssetId>,
    /// Losing-side units the winner captured rather than destroyed.
    pub captured: Vec<AssetId>,
}

pub open spec fn spec_base_power(kind: AssetKind) -> u64 {
    match kind {
        AssetKind::Mech => 100,
        AssetKind::Vehicle => 40,
        AssetKind::Weapon => 20,
        AssetKind::Equipment => 10,
        AssetKind::FactoryTooling => 0,
        AssetKind::CargoContainer => 0,
    }
}

pub open spec fn spec_quality_pct(q: QualityGrade) -> u64 {
    match q {
        QualityGrade::Salvage => 70,
        QualityGrade::Poor => 85,
        QualityGrade::Standard => 100,
        QualityGrade::Fine => 115,
        QualityGrade::Exceptional => 130,
    }
}

/// Base combat power of an asset kind.
pub fn base_power(kind: AssetKind) -> (r: u64)
    ensures
        r == spec_base_power(kind),
{
    match kind {
        AssetKind::Mech => 100,
        AssetKind::Vehicle => 40,
        AssetKind::Weapon => 20,
        AssetKind::Equipment => 10,
        AssetKind::FactoryTooling => 0,
        AssetKind::CargoContainer => 0,
    }
}

/// Percentage scaling of combat power by quality grade.
pub fn quality_multiplier_pct(q: QualityGrade) -> (r: u64)
    ensures
        r == spec_quality_pct(q),
{
    match q {
        QualityGrade::Salvage => 70,
        QualityGrade::Poor => 85,
        QualityGrade::Standard => 100,
        QualityGrade::Fine => 115,
        QualityGrade::Exceptional => 130,
    }
}

/// The combat power of an asset: base power for its kind, scaled by its
/// quality, then by its condition. A wreck (condition 0) has none.
pub open spec fn combat_power(v: WorldView, a: AssetId) -> Result<u64, SimError> {
    if !v.assets.dom().contains(a.0) {
        Err(SimError::UnknownAsset(a))
    } else if !v.designs.dom().contains(v.assets[a.0].design.0) {
        Err(SimError::UnknownDesign(v.assets[a.0].design))
    } else {
        let asset = v.assets[a.0];
        let p = crate::arith::clamp_u64(
            spec_base_power(v.designs[asset.design.0].kind) * spec_quality_pct(asset.quality),
        ) / 100;
        Ok((crate::arith::clamp_u64(p * asset.condition_pct) / 100) as u64)
    }
}

/// The combat power of a known asset of a known design is its kind's base
/// power (mech 100, vehicle 40, weapon 20, equipment 10, tooling and
/// containers 0) scaled by its quality (salvage 70%, poor 85%, standard
/// 100%, fine 115%, exceptional 130%), then by its condition percentage. A
/// wreck (condition 0) contributes nothing.
pub proof fn law_combat_power_formula(v: WorldView, a: AssetId)
    requires
        v.assets.dom().contains(a.0),
        v.designs.dom().contains(v.assets[a.0].design.0),
    ensures
        ({
            let asset = v.assets[a.0];
            let base: int = match v.designs[asset.design.0].kind {
                AssetKind::Mech => 100,
                AssetKind::Vehicle => 40,
                AssetKind::Weapon => 20,
                AssetKind::Equipment => 10,
                AssetKind::FactoryTooling => 0,
                AssetKind::CargoContainer => 0,
            };
            let q: int = match asset.quality {
                QualityGrade::Salvage => 70,
                QualityGrade::Poor => 85,
                QualityGrade::Standard => 100,
                QualityGrade::Fine => 115,
                QualityGrade::Exceptional => 130,
            };
            combat_power(v, a) == Ok::<u64, SimError>(((base * q / 100) * asset.condition_pct / 100) as u64)
        }),
        v.assets[a.0].condition_pct == 0 ==> combat_power(v, a) == Ok::<u64, SimError>(0),
{
    let asset = v.assets[a.0];
    let b = spec_base_power(v.designs[asset.design.0].kind) as int;
    let q = spec_quality_pct(asset.quality) as int;
    let c = asset.condition_pct as int;
    assert(0 <= b <= 100 && 0 <= q <= 130);
    assert(b * q <= 13000) by (nonlinear_arith)
        requires
            0 <= b <= 100,
            0 <= q <= 130,
    ;
    assert(0 <= b * q) by (nonlinear_arith)
        requires
            0 <= b,
            0 <= q,
    ;
    let p = b * q / 100;
    assert(0 <= p <= 130);
    assert(0 <= p * c <= 130 * 255) by (nonlinear_arith)
        requires
            0 <= p <= 130,
            0 <= c <= 255,
    ;
    assert(crate::arith::clamp_u64(b * q) == b * q);
    assert(crate::arith::clamp_u64(p * c) == p * c);
    if c == 0 {
        assert(p * c == 0) by (nonlinear_arith)
            requires
                c == 0,
        ;
    }
}

/// Combat power never falls as condition rises: the same asset in better
/// repair fights at least as hard.
pub proof fn law_combat_power_monotone(v: WorldView, a: AssetId, worse: u8, better: u8)
    requires
        v.assets.dom().contains(a.0),
        v.designs.dom().contains(v.assets[a.0].design.0),
        worse <= better,
    ensures
        combat_power(crate::assets::with_asset(v, a.0, SerialAsset { condition_pct: worse, ..v.assets[a.0] }), a)->Ok_0
            <= combat_power(crate::assets::with_asset(v, a.0, SerialAsset { condition_pct: better, ..v.assets[a.0] }), a)->Ok_0,
{
    let v1 = crate::assets::with_asset(v, a.0, SerialAsset { condition_pct: worse, ..v.assets[a.0] });
    let v2 = crate::assets::with_asset(v, a.0, SerialAsset { condition_pct: better, ..v.assets[a.0] });
    law_combat_power_formula(v1, a);
    law_combat_power_formula(v2, a);
    let asset = v.assets[a.0];
    let p = spec_base_power(v.designs[asset.design.0].kind) * spec_quality_pct(asset.quality) / 100;
    assert(0 <= p);
    assert(p * worse <= p * better) by (nonlinear_arith)
        requires
            0 <= p,
            worse <= better,
    ;
    assert(p * worse / 100 <= p * better / 100) by (nonlinear_arith)
        requires
            p * worse <= p * better,
            0 <= p * worse,
    ;
}

/// The first listed asset that is unknown or not at the site.
pub open spec fn presence_error(v: WorldView, site: LocationId, s: Seq<AssetId>) -> Option<SimError>
    decreases s.len(),
{
    if s.len() == 0 {
        None
    } else {
        match presence_error(v, site, s.drop_last()) {
            Some(e) => Some(e),
            None => if !v.assets.dom().contains(s.last().0) {
                Some(SimError::UnknownAsset(s.last()))
            } else if resolve(v, v.assets[s.last().0].location) != Some(site) {
                Some(SimError::NotColocated)
            } else {
                None
            },
        }
    }
}

/// The first listed asset not owned by `who`.
pub open spec fn owner_error(v: WorldView, who: ActorId, s: Seq<AssetId>) -> Option<SimError>
    decreases s.len(),
{
    if s.len() == 0 {
        None
    } else {
        match owner_error(v, who, s.drop_last()) {
            Some(e) => Some(e),
            None => if v.assets[s.last().0].owner != who {
                Some(SimError::NotOwner { actor: v.assets[s.last().0].owner })
            } else {
                None
            },
        }
    }
}

/// The total (saturating) power of a force, or the first power error.
pub open spec fn force_power(v: WorldView, s: Seq<AssetId>) -> Result<u64, SimError>
    decreases s.len(),
{
    if s.len() == 0 {
        Ok(0)
    } else {
        match force_power(v, s.drop_last()) {
            Err(e) => Err(e),
            Ok(p) => match combat_power(v, s.last()) {
                Err(e) => Err(e),
                Ok(q) => Ok(crate::arith::clamp_u64(p + q) as u64),
            },
        }
    }
}

/// The power by which units are ranked for losses (none for one whose
/// power cannot be computed).
pub open spec fn rank_power(v: WorldView, a: AssetId) -> u64 {
    match combat_power(v, a) {
        Ok(p) => p,
        Err(_) => 0,
    }
}

/// Unit `a` falls before unit `b`: weaker, or as weak with a smaller id.
pub open spec fn weaker(v: WorldView, a: AssetId, b: AssetId) -> bool {
    rank_power(v, a) < rank_power(v, b) || (rank_power(v, a) == rank_power(v, b) && a.0 < b.0)
}

pub open spec fn is_first_weakest(v: WorldView, s: Seq<AssetId>, i: int) -> bool {
    &&& 0 <= i < s.len()
    &&& forall|j: int| 0 <= j < s.len() ==> !weaker(v, #[trigger] s[j], s[i])
    &&& forall|j: int| 0 <= j < i ==> weaker(v, s[i], #[trigger] s[j])
}

/// The `n` weakest units of a force, weakest first.
pub open spec fn weakest(v: WorldView, s: Seq<AssetId>, n: nat) -> Seq<AssetId>
    decreases n,
{
    if n == 0 || s.len() == 0 {
        Seq::empty()
    } else {
        let i = choose|i: int| is_first_weakest(v, s, i);
        seq![s[i]] + weakest(v, s.remove(i), (n - 1) as nat)
    }
}

/// How many units the losing side loses: 35% rounded down, at least one,
/// never more than it has.
pub open spec fn loser_loss_count(n: nat) -> nat {
    let k = (n * LOSER_ATTRITION_PCT / 100) as nat;
    let k = if k >= 1 {
        k
    } else {
        1
    };
    if k <= n {
        k
    } else {
        n
    }
}

/// How many units the winning side loses: 10% rounded down.
pub open spec fn winner_loss_count(n: nat) -> nat {
    (n * WINNER_ATTRITION_PCT / 100) as nat
}

/// Of `n` losses, whether the one at position `i` is captured: the first
/// 30% are.
pub open spec fn is_captured_pos(i: int, n: nat) -> bool {
    i * 100 / (if n >= 1 {
        n as int
    } else {
        1
    }) < CAPTURE_FRACTION_PCT
}

/// The captured units among the loser's losses.
pub open spec fn captured_of(losses: Seq<AssetId>, n: nat) -> Seq<AssetId>
    decreases losses.len(),
{
    if losses.len() == 0 {
        Seq::empty()
    } else if is_captured_pos(losses.len() - 1, n) {
        captured_of(losses.drop_last(), n).push(losses.last())
    } else {
        captured_of(losses.drop_last(), n)
    }
}

/// The attacker's chance of winning, in percent: its share of the total
/// power, the defender's counted with the home-ground bonus.
pub open spec fn attacker_win_pct(attacker_power: u64, defender_power: u64) -> int {
    let defended = crate::arith::clamp_u64(defender_power * DEFENDER_BONUS_PCT) / 100;
    let total = if attacker_power + defended >= 1 {
        attacker_power + defended
    } else {
        1
    };
    let pct = attacker_power * 100 / total;
    if pct <= 100 {
        pct
    } else {
        100
    }
}

/// Why a battle between these forces cannot be fought, if it cannot.
pub open spec fn battle_error(
    v: WorldView,
    site: LocationId,
    attacker: ActorId,
    aa: Seq<AssetId>,
    defender: ActorId,
    da: Seq<AssetId>,
) -> Option<SimError> {
    if !v.locations.dom().contains(site.0) {
        Some(SimError::UnknownLocation(site))
    } else if aa.len() == 0 || da.len() == 0 {
        Some(invalid_state())
    } else if presence_error(v, site, aa + da) is Some {
        presence_error(v, site, aa + da)
    } else if owner_error(v, attacker, aa) is Some {
        owner_error(v, attacker, aa)
    } else if owner_error(v, defender, da) is Some {
        owner_error(v, defender, da)
    } else if force_power(v, aa) is Err {
        Some(force_power(v, aa)->Err_0)
    } else if force_power(v, da) is Err {
        Some(force_power(v, da)->Err_0)
    } else {
        None
    }
}


pub proof fn lemma_weaker_order(v: WorldView, a: AssetId, b: AssetId, c: AssetId)
    ensures
        weaker(v, a, b) && weaker(v, b, c) ==> weaker(v, a, c),
        !weaker(v, a, a),
        !weaker(v, a, b) && !weaker(v, b, a) ==> a == b,
{
}

pub proof fn lemma_first_weakest_unique(v: WorldView, s: Seq<AssetId>, i: int)
    requires
        is_first_weakest(v, s, i),
    ensures
        (choose|k: int| is_first_weakest(v, s, k)) == i,
{
    let j = choose|k: int| is_first_weakest(v, s, k);
    assert(is_first_weakest(v, s, j));
    if j < i {
        assert(weaker(v, s[i], s[j]));
    } else if j > i {
        assert(weaker(v, s[j], s[i]));
    }
}

/// A roster without an asset does not hold it, and removing another
/// asset keeps it out.
pub proof fn lemma_without_asset(s: Seq<AssetId>, a: AssetId, b: AssetId)
    ensures
        !crate::toe::without_asset(s, a).contains(a),
        !s.contains(b) ==> !crate::toe::without_asset(s, a).contains(b),
    decreases s.len(),
{
    if s.len() > 0 {
        let p = s.drop_last();
        lemma_without_asset(p, a, b);
        if !s.contains(b) {
            assert(!p.contains(b)) by {
                if p.contains(b) {
                    let j = choose|j: int| 0 <= j < p.len() && p[j] == b;
                    assert(s[j] == b);
                }
            }
            assert(s[s.len() - 1] == s.last());
        }
        let w = crate::toe::without_asset(p, a);
        if s.last() != a {
            assert forall|x: AssetId| w.push(s.last()).contains(x) implies x == s.last() || w.contains(x) by {
                let j = choose|j: int| 0 <= j < w.push(s.last()).len() && w.push(s.last())[j] == x;
                if j < w.len() {
                    assert(w[j] == x);
                }
            }
        }
    }
}

fn rank_power_exec(w: &World, a: AssetId) -> (r: u64)
    requires
        w.wf(),
    ensures
        r == rank_power(w@, a),
{
    match w.asset_combat_power(a) {
        Ok(p) => p,
        Err(_) => 0,
    }
}

/// The `n` weakest units of a force, weakest first.
fn weakest_exec(w: &World, units: &[AssetId], n: usize) -> (r: Vec<AssetId>)
    requires
        w.wf(),
    ensures
        r@ == weakest(w@, units@, n as nat),
{
    let ghost v = w@;
    let mut cands: Vec<AssetId> = crate::table::copy_slice(units);
    let mut out: Vec<AssetId> = Vec::new();
    let mut k: usize = 0;
    while k < n && cands.len() > 0
        invariant
            w.wf(),
            v == w@,
            k <= n,
            out@ + weakest(v, cands@, (n - k) as nat) == weakest(v, units@, n as nat),
        decreases n - k,
    {
        let mut best: usize = 0;
        let mut best_power = rank_power_exec(w, cands[0]);
        let mut j: usize = 1;
        while j < cands.len()
            invariant
                w.wf(),
                v == w@,
                1 <= j <= cands@.len(),
                best < j,
                best_power == rank_power(v, cands@[best as int]),
                forall|x: int| 0 <= x < j ==> !weaker(v, #[trigger] cands@[x], cands@[best as int]),
                forall|x: int| 0 <= x < best ==> weaker(v, cands@[best as int], #[trigger] cands@[x]),
            decreases cands@.len() - j,
        {
            let pj = rank_power_exec(w, cands[j]);
            if pj < best_power || (pj == best_power && cands[j].0 < cands[best].0) {
                proof {
                    assert(weaker(v, cands@[j as int], cands@[best as int]));
                    assert forall|x: int| 0 <= x < j + 1 implies !weaker(v, #[trigger] cands@[x], cands@[j as int]) by {
                        lemma_weaker_order(v, cands@[x], cands@[j as int], cands@[best as int]);
                    }
                    assert forall|x: int| 0 <= x < j implies weaker(v, cands@[j as int], #[trigger] cands@[x]) by {
                        lemma_weaker_order(v, cands@[x], cands@[j as int], cands@[best as int]);
                        lemma_weaker_order(v, cands@[j as int], cands@[x], cands@[best as int]);
                    }
                }
                best = j;
                best_power = pj;
            }
            j = j + 1;
        }
        proof {
            lemma_first_weakest_unique(v, cands@, best as int);
        }
        let c = cands.remove(best);
        out.push(c);
        k = k + 1;
        proof {
            let prev = out@.drop_last();
            assert(prev + seq![c] + weakest(v, cands@, (n - k) as nat) =~= prev + (seq![c] + weakest(
                v,
                cands@,
                (n - k) as nat,
            )));
            assert(out@ =~= prev + seq![c]);
        }
    }
    proof {
        assert(weakest(v, cands@, (n - k) as nat) =~= Seq::<AssetId>::empty());
        assert(out@ + Seq::<AssetId>::empty() =~= out@);
    }
    out
}

impl World {
    /// Real combat power of one asset: base power for its kind, scaled by
    /// its quality grade and current condition. Wrecks contribute nothing.
    pub fn asset_combat_power(&self, asset: AssetId) -> (r: Result<u64, SimError>)
        requires
            self.wf(),
        ensures
            r == combat_power(self@, asset),
    {
        let a = match self.assets.get(asset.0) {
            None => {
                return Err(SimError::UnknownAsset(asset));
            },
            Some(a) => a,
        };
        let kind = match self.designs.get(a.design.0) {
            None => {
                return Err(SimError::UnknownDesign(a.design));
            },
            Some(d) => d.kind,
        };
        let base = base_power(kind);
        let power = crate::arith::sat_mul_u64(base, quality_multiplier_pct(a.quality)) / 100;
        Ok(crate::arith::sat_mul_u64(power, a.condition_pct as u64) / 100)
    }

    /// The first listed asset that is unknown or not at the site.
    fn check_presence(&self, site: LocationId, s: &Vec<AssetId>) -> (r: Option<SimError>)
        requires
            self.wf(),
        ensures
            r == presence_error(self@, site, s@),
    {
        let mut i: usize = 0;
        while i < s.len()
            invariant
                self.wf(),
                i <= s@.len(),
                presence_error(self@, site, s@.take(i as int)) is None,
            decreases s@.len() - i,
        {
            proof {
                assert(s@.take(i + 1).drop_last() =~= s@.take(i as int));
                assert(s@.take(i + 1).last() == s@[i as int]);
            }
            let a = s[i];
            let e = match self.assets.get(a.0) {
                None => Some(SimError::UnknownAsset(a)),
                Some(x) => {
                    let here = self.resolve_site(x.location);
                    if crate::intel::same_site(here, site) {
                        None
                    } else {
                        Some(SimError::NotColocated)
                    }
                },
            };
            if e.is_some() {
                proof {
                    lemma_presence_prefix(self@, site, s@, i + 1);
                }
                return e;
            }
            i = i + 1;
        }
        proof {
            assert(s@.take(s@.len() as int) =~= s@);
        }
        None
    }

    /// The first listed asset not owned by `who` (all listed assets exist).
    fn check_owner(&self, who: ActorId, s: &[AssetId]) -> (r: Option<SimError>)
        requires
            self.wf(),
            forall|i: int| 0 <= i < s@.len() ==> self@.assets.dom().contains(#[trigger] s@[i].0),
        ensures
            r == owner_error(self@, who, s@),
    {
        let mut i: usize = 0;
        while i < s.len()
            invariant
                self.wf(),
                i <= s@.len(),
                forall|x: int| 0 <= x < s@.len() ==> self@.assets.dom().contains(#[trigger] s@[x].0),
                owner_error(self@, who, s@.take(i as int)) is None,
            decreases s@.len() - i,
        {
            proof {
                assert(s@.take(i + 1).drop_last() =~= s@.take(i as int));
                assert(s@.take(i + 1).last() == s@[i as int]);
            }
            let owner = match self.assets.get(s[i].0) {
                Some(x) => x.owner,
                None => who,
            };
            if owner.0 != who.0 {
                proof {
                    lemma_owner_prefix(self@, who, s@, i + 1);
                }
                return Some(SimError::NotOwner { actor: owner });
            }
            i = i + 1;
        }
        proof {
            assert(s@.take(s@.len() as int) =~= s@);
        }
        None
    }

    /// The total power of a force.
    fn total_power(&self, s: &[AssetId]) -> (r: Result<u64, SimError>)
        requires
            self.wf(),
        ensures
            r == force_power(self@, s@),
    {
        let mut total: u64 = 0;
        let mut i: usize = 0;
        while i < s.len()
            invariant
                self.wf(),
                i <= s@.len(),
                force_power(self@, s@.take(i as int)) == Ok::<u64, SimError>(total),
            decreases s@.len() - i,
        {
            proof {
                assert(s@.take(i + 1).drop_last() =~= s@.take(i as int));
                assert(s@.take(i + 1).last() == s@[i as int]);
            }
            match self.asset_combat_power(s[i]) {
                Err(e) => {
                    proof {
                        lemma_power_prefix(self@, s@, i + 1);
                    }
                    return Err(e);
                },
                Ok(p) => {
                    total = crate::arith::sat_add_u64(total, p);
                },
            }
            i = i + 1;
        }
        proof {
            assert(s@.take(s@.len() as int) =~= s@);
        }
        Ok(total)
    }
}

pub proof fn lemma_presence_prefix(v: WorldView, site: LocationId, s: Seq<AssetId>, n: int)
    requires
        0 <= n <= s.len(),
        presence_error(v, site, s.take(n)) is Some,
    ensures
        presence_error(v, site, s) == presence_error(v, site, s.take(n)),
    decreases s.len(),
{
    if n == s.len() {
        assert(s.take(n) =~= s);
    } else {
        let p = s.drop_last();
        assert(p.take(n) =~= s.take(n));
        lemma_presence_prefix(v, site, p, n);
    }
}

/// With no presence error, every listed asset exists.
pub proof fn lemma_present_exist(v: WorldView, site: LocationId, s: Seq<AssetId>)
    requires
        presence_error(v, site, s) is None,
    ensures
        forall|i: int| 0 <= i < s.len() ==> v.assets.dom().contains(#[trigger] s[i].0),
    decreases s.len(),
{
    if s.len() > 0 {
        let p = s.drop_last();
        lemma_present_exist(v, site, p);
        assert forall|i: int| 0 <= i < s.len() implies v.assets.dom().contains(#[trigger] s[i].0) by {
            if i < s.len() - 1 {
                assert(s[i] == p[i]);
            }
        }
    }
}

pub proof fn lemma_owner_prefix(v: WorldView, who: ActorId, s: Seq<AssetId>, n: int)
    requires
        0 <= n <= s.len(),
        owner_error(v, who, s.take(n)) is Some,
    ensures
        owner_error(v, who, s) == owner_error(v, who, s.take(n)),
    decreases s.len(),
{
    if n == s.len() {
        assert(s.take(n) =~= s);
    } else {
        let p = s.drop_last();
        assert(p.take(n) =~= s.take(n));
        lemma_owner_prefix(v, who, p, n);
    }
}

pub proof fn lemma_power_prefix(v: WorldView, s: Seq<AssetId>, n: int)
    requires
        0 <= n <= s.len(),
        force_power(v, s.take(n)) is Err,
    ensures
        force_power(v, s) == force_power(v, s.take(n)),
    decreases s.len(),
{
    if n == s.len() {
        assert(s.take(n) =~= s);
    } else {
        let p = s.drop_last();
        assert(p.take(n) =~= s.take(n));
        lemma_power_prefix(v, p, n);
    }
}


/// What a lost unit looks like after the battle: wreckage or prize at the
/// battle site, struck from every formation roster.
pub open spec fn lost_at(w: WorldView, a: AssetId, site: LocationId) -> bool {
    &&& w.assets[a.0].location == LocationRef::Site(site)
    &&& forall|k: u64| #[trigger] w.formations.dom().contains(k) ==> !w.formations[k].assets@.contains(a)
}

/// Money is where it was: treasuries, escrows, and the issued total.
pub open spec fn money_untouched(w: WorldView, v: WorldView) -> bool {
    &&& w.actors == v.actors
    &&& w.actor_keys == v.actor_keys
    &&& w.buy_orders == v.buy_orders
    &&& w.order_keys == v.order_keys
    &&& w.money_issued == v.money_issued
}

impl World {
    /// Resolve a real battle between two forces physically at the same
    /// site, each entirely owned by its side. The attacker wins with
    /// probability equal to its share of the total power (the defender's
    /// counted with a home-ground bonus). The weakest units fall first: the
    /// loser loses 35% of its force (at least one unit), the winner 10%;
    /// the first 30% of the loser's losses are captured by the winner, the
    /// rest destroyed. Nothing is spawned or erased: wrecks stay as records
    /// at zero condition. Territory passes only on an attacker win.
    #[verifier::rlimit(80)]
    pub fn resolve_battle(
        &mut self,
        site: LocationId,
        attacker: ActorId,
        attacker_assets: &[AssetId],
        defender: ActorId,
        defender_assets: &[AssetId],
    ) -> (r: Result<BattleOutcome, SimError>)
        requires
            old(self).wf(),
            old(self)@.has_room(3 + 2 * (attacker_assets@.len() + defender_assets@.len()) as int),
        ensures
            final(self).wf(),
            crate::world::phase_ok(old(self)@, final(self)@),
            final(self)@.assets.dom() == old(self)@.assets.dom(),
            final(self)@.formations.dom() == old(self)@.formations.dom(),
            money_untouched(final(self)@, old(self)@),
            r is Ok ==> battle_logged(old(self)@, final(self)@, site),
            match battle_error(old(self)@, site, attacker, attacker_assets@, defender, defender_assets@) {
                Some(e) => (r matches Err(x) && error_matches(x, e)) && final(self)@ == old(self)@,
                None => {
                    let v = old(self)@;
                    let ap = force_power(v, attacker_assets@)->Ok_0;
                    let dp = force_power(v, defender_assets@)->Ok_0;
                    let won = (v.rng.percent_roll() as int) < attacker_win_pct(ap, dp);
                    let win_s = if won {
                        attacker_assets@
                    } else {
                        defender_assets@
                    };
                    let lose_s = if won {
                        defender_assets@
                    } else {
                        attacker_assets@
                    };
                    let winner = if won {
                        attacker
                    } else {
                        defender
                    };
                    let nl = loser_loss_count(lose_s.len());
                    let ll = weakest(v, lose_s, nl);
                    let wl = weakest(v, win_s, winner_loss_count(win_s.len()));
                    let cap = captured_of(ll, nl);
                    let w = final(self)@;
                    if !v.actors.dom().contains(winner.0) {
                        r == Err::<BattleOutcome, SimError>(SimError::UnknownActor(winner)) && w == (WorldView {
                            rng: v.rng.advanced(),
                            ..v
                        })
                    } else {
                        &&& r is Ok
                        &&& r->Ok_0.site == site
                        &&& r->Ok_0.attacker == attacker
                        &&& r->Ok_0.defender == defender
                        &&& r->Ok_0.attacker_power == ap
                        &&& r->Ok_0.defender_power == dp
                        &&& r->Ok_0.attacker_won == won
                        &&& r->Ok_0.captured@ == cap
                        &&& r->Ok_0.attacker_losses@ == (if won {
                            wl
                        } else {
                            ll
                        })
                        &&& r->Ok_0.defender_losses@ == (if won {
                            ll
                        } else {
                            wl
                        })
                        &&& w.assets.dom() == v.assets.dom()
                        &&& money_untouched(w, v)
                        &&& forall|i: int| 0 <= i < ll.len() ==> lost_at(w, #[trigger] ll[i], site)
                        &&& forall|i: int| 0 <= i < wl.len() ==> lost_at(w, #[trigger] wl[i], site)
                        &&& forall|i: int| 0 <= i < cap.len() ==> w.assets[(#[trigger] cap[i]).0].owner == winner
                        &&& forall|i: int|
                            0 <= i < ll.len() && !is_captured_pos(i, nl) ==> w.assets[(#[trigger] ll[i]).0].condition_pct
                                == 0
                        &&& forall|i: int| 0 <= i < wl.len() ==> w.assets[(#[trigger] wl[i]).0].condition_pct == 0
                        &&& battle_frame(v, w, ll + wl)
                        &&& components_follow(v, w, cap, winner)
                        &&& w.locations == v.locations.insert(
                            site.0,
                            crate::locations::Location {
                                controller: if won {
                                    Some(attacker)
                                } else if v.locations[site.0].controller is None {
                                    Some(defender)
                                } else {
                                    v.locations[site.0].controller
                                },
                                controlled_since: if won || v.locations[site.0].controller is None {
                                    v.clock.day
                                } else {
                                    v.locations[site.0].controlled_since
                                },
                                ..v.locations[site.0]
                            },
                        )
                    }
                },
            },
    {
        if !self.locations.contains(site.0) {
            return Err(SimError::UnknownLocation(site));
        }
        if attacker_assets.len() == 0 || defender_assets.len() == 0 {
            return Err(SimError::InvalidState("a battle needs real forces on both sides".to_owned()));
        }
        let both = concat_units(attacker_assets, defender_assets);
        match self.check_presence(site, &both) {
            Some(e) => {
                return Err(e);
            },
            None => {},
        }
        proof {
            lemma_present_exist(self@, site, both@);
            assert forall|i: int| 0 <= i < attacker_assets@.len() implies self@.assets.dom().contains(
                #[trigger] attacker_assets@[i].0,
            ) by {
                assert(both@[i] == attacker_assets@[i]);
            }
            assert forall|i: int| 0 <= i < defender_assets@.len() implies self@.assets.dom().contains(
                #[trigger] defender_assets@[i].0,
            ) by {
                assert(both@[attacker_assets@.len() + i] == defender_assets@[i]);
            }
        }
        match self.check_owner(attacker, attacker_assets) {
            Some(e) => {
                return Err(e);
            },
            None => {},
        }
        match self.check_owner(defender, defender_assets) {
            Some(e) => {
                return Err(e);
            },
            None => {},
        }
        let attacker_power = self.total_power(attacker_assets)?;
        let defender_power = self.total_power(defender_assets)?;
        let ghost v = self@;
        let defended: u64 = crate::arith::sat_mul_u64(defender_power, DEFENDER_BONUS_PCT) / 100;
        let sum: u128 = attacker_power as u128 + defended as u128;
        let total: u128 = if sum >= 1 {
            sum
        } else {
            1
        };
        let share: u128 = (attacker_power as u128 * 100) / total;
        let pct: u128 = if share <= 100 {
            share
        } else {
            100
        };
        let roll = self.rng.roll_percent();
        proof {
            self.lemma_keys_wf();
        }
        let attacker_won = (roll as u128) < pct;
        let (winner_units, loser_units, winner) = if attacker_won {
            (attacker_assets, defender_assets, attacker)
        } else {
            (defender_assets, attacker_assets, defender)
        };
        if !self.actors.contains(winner.0) {
            return Err(SimError::UnknownActor(winner));
        }
        let ghost v0 = self@;
        assert(v0.next_id == v.next_id);
        assert(loser_units@.len() + winner_units@.len() == attacker_assets@.len() + defender_assets@.len());
        let loser_n: usize = loser_units.len();
        let k35: usize = ((loser_n as u128 * 35) / 100) as usize;
        let k1: usize = if k35 >= 1 {
            k35
        } else {
            1
        };
        let loser_losses_n: usize = if k1 <= loser_n {
            k1
        } else {
            loser_n
        };
        let winner_losses_n: usize = ((winner_units.len() as u128 * 10) / 100) as usize;
        let loser_losses = weakest_exec(self, loser_units, loser_losses_n);
        let winner_losses = weakest_exec(self, winner_units, winner_losses_n);
        proof {
            assert(self@ == WorldView { rng: v.rng.advanced(), ..v });
            assert(weakest(self@, loser_units@, loser_losses_n as nat) == weakest(v, loser_units@, loser_losses_n as nat))
                by {
                lemma_weakest_frame(v, self@, loser_units@, loser_losses_n as nat);
            }
            assert(weakest(self@, winner_units@, winner_losses_n as nat) == weakest(v, winner_units@, winner_losses_n as nat))
                by {
                lemma_weakest_frame(v, self@, winner_units@, winner_losses_n as nat);
            }
            lemma_weakest_members(v, loser_units@, loser_losses_n as nat);
            lemma_weakest_members(v, winner_units@, winner_losses_n as nat);
        }
        let mut captured: Vec<AssetId> = Vec::new();
        let mut i: usize = 0;
        while i < loser_losses.len()
            invariant
                self.wf(),
                i <= loser_losses@.len(),
                crate::world::phase_ok(v, self@),
                self@.formations.dom() == v.formations.dom(),
                loser_losses@.len() <= loser_units@.len(),
                self@.assets.dom() == v.assets.dom(),
                money_untouched(self@, v),
                self@.locations == v.locations,
                self@.actors.dom().contains(winner.0),
                self@.next_id <= v0.next_id + 2 * i,
                v0.next_id + 3 + 2 * (attacker_assets@.len() + defender_assets@.len()) <= u64::MAX,
                loser_units@.len() + winner_units@.len() == attacker_assets@.len() + defender_assets@.len(),
                forall|x: int| 0 <= x < loser_losses@.len() ==> v.assets.dom().contains(#[trigger] loser_losses@[x].0),
                captured@ == captured_of(loser_losses@.take(i as int), loser_losses_n as nat),
                forall|x: int| 0 <= x < i ==> lost_at(self@, #[trigger] loser_losses@[x], site),
                forall|x: int| 0 <= x < captured@.len() ==> self@.assets[(#[trigger] captured@[x]).0].owner == winner,
                forall|x: int|
                    0 <= x < i && !is_captured_pos(x, loser_losses_n as nat) ==> self@.assets[(
                    #[trigger] loser_losses@[x]).0].condition_pct == 0,
                battle_frame(v, self@, loser_losses@.take(i as int)),
                components_follow(v, self@, captured@, winner),
            decreases loser_losses@.len() - i,
        {
            let asset = loser_losses[i];
            let ghost s0 = self@;
            proof {
                assert(loser_losses@.take(i + 1).drop_last() =~= loser_losses@.take(i as int));
                assert(loser_losses@.take(i + 1).last() == loser_losses@[i as int]);
            }
            let capture = ((i as u128) * 100) / (if loser_losses_n >= 1 { loser_losses_n as u128 } else { 1 }) < 30;
            if capture {
                let ghost t0 = self@;
                let ghost cap0 = captured@;
                let _ = self.transfer_asset(asset, winner);
                proof {
                    let fa = t0.assets[asset.0].fitted@;
                    assert(fa == v.assets[asset.0].fitted@);
                    assert forall|k: u64| #[trigger] v.components.dom().contains(k) implies self@.components[k] == if fitted_to_captured(
                        v,
                        cap0.push(asset),
                        k,
                    ) {
                        crate::assets::ComponentInstance { owner: winner, ..v.components[k] }
                    } else {
                        v.components[k]
                    } by {
                        crate::assets::lemma_reown_at(t0.components, fa, winner, k);
                        let c2 = cap0.push(asset);
                        if fitted_to_captured(v, cap0, k) {
                            let (i, j) = choose|i: int, j: int|
                                0 <= i < cap0.len() && 0 <= j < v.assets[cap0[i].0].fitted@.len() && (#[trigger] v.assets[
                                    cap0[i].0
                                ].fitted@[j]).1.0 == k;
                            assert(c2[i] == cap0[i]);
                            assert(fitted_to_captured(v, c2, k));
                        } else if exists|j: int| 0 <= j < fa.len() && (#[trigger] fa[j]).1.0 == k {
                            let j = choose|j: int| 0 <= j < fa.len() && (#[trigger] fa[j]).1.0 == k;
                            assert(c2[cap0.len() as int] == asset);
                            assert(v.assets[c2[cap0.len() as int].0].fitted@[j].1.0 == k);
                            assert(fitted_to_captured(v, c2, k));
                        } else {
                            if fitted_to_captured(v, c2, k) {
                                let (i, j) = choose|i: int, j: int|
                                    0 <= i < c2.len() && 0 <= j < v.assets[c2[i].0].fitted@.len() && (#[trigger] v.assets[
                                        c2[i].0
                                    ].fitted@[j]).1.0 == k;
                                if i < cap0.len() {
                                    assert(c2[i] == cap0[i]);
                                    assert(fitted_to_captured(v, cap0, k));
                                } else {
                                    assert(fa[j].1.0 == k);
                                }
                            }
                        }
                    }
                    crate::assets::lemma_reown_dom(t0.components, fa, winner);
                }
                proof {
                    crate::world::lemma_log_extends_log(
                        WorldView {
                            assets: self@.assets,
                            components: self@.components,
                            ..t0
                        },
                        self@.events.last().kind,
                    );
                    assert(crate::world::phase_ok(t0, self@));
                    crate::world::lemma_phase_trans(v, t0, self@);
                }
                captured.push(asset);
            } else {
                let a = self.assets.get_mut(asset.0);
                a.condition_pct = 0;
                proof {
                    self.lemma_keys_wf();
                }
            }
            let ghost t1 = self@;
            self.remove_asset_from_formations(asset);
            let ghost t2 = self@;
            let _ = self.move_asset_raw(asset, LocationRef::Site(site));
            proof {
                crate::world::lemma_log_extends_log(crate::assets::with_asset(t2, asset.0, SerialAsset { location: LocationRef::Site(site), ..t2.assets[asset.0] }), EventKind::AssetMoved { asset, from: t2.assets[asset.0].location, to: LocationRef::Site(site) });
                assert(crate::world::phase_ok(t1, self@));
                crate::world::lemma_phase_trans(v, t1, self@);
                let w = self@;
                assert forall|x: int| 0 <= x < i + 1 implies lost_at(w, #[trigger] loser_losses@[x], site) by {
                    let y = loser_losses@[x];
                    assert forall|k: u64| #[trigger] w.formations.dom().contains(k) implies !w.formations[k].assets@.contains(
                        y,
                    ) by {
                        lemma_without_asset(s0.formations[k].assets@, asset, y);
                        if x < i {
                            assert(lost_at(s0, y, site));
                        }
                    }
                }
            }
            i = i + 1;
        }
        proof {
            assert(loser_losses@.take(loser_losses@.len() as int) =~= loser_losses@);
        }
        let mut j: usize = 0;
        while j < winner_losses.len()
            invariant
                self.wf(),
                j <= winner_losses@.len(),
                crate::world::phase_ok(v, self@),
                self@.formations.dom() == v.formations.dom(),
                winner_losses@.len() <= winner_units@.len(),
                loser_losses@.len() <= loser_units@.len(),
                loser_units@.len() + winner_units@.len() == attacker_assets@.len() + defender_assets@.len(),
                self@.assets.dom() == v.assets.dom(),
                money_untouched(self@, v),
                self@.locations == v.locations,
                self@.next_id <= v0.next_id + 2 * loser_losses@.len() + j,
                v0.next_id + 3 + 2 * (attacker_assets@.len() + defender_assets@.len()) <= u64::MAX,
                loser_units@.len() + winner_units@.len() == attacker_assets@.len() + defender_assets@.len(),
                forall|x: int| 0 <= x < winner_losses@.len() ==> v.assets.dom().contains(#[trigger] winner_losses@[x].0),
                forall|x: int| 0 <= x < loser_losses@.len() ==> lost_at(self@, #[trigger] loser_losses@[x], site),
                forall|x: int| 0 <= x < captured@.len() ==> self@.assets[(#[trigger] captured@[x]).0].owner == winner,
                forall|x: int|
                    0 <= x < loser_losses@.len() && !is_captured_pos(x, loser_losses_n as nat) ==> self@.assets[(
                    #[trigger] loser_losses@[x]).0].condition_pct == 0,
                forall|x: int| 0 <= x < j ==> lost_at(self@, #[trigger] winner_losses@[x], site),
                forall|x: int| 0 <= x < j ==> self@.assets[(#[trigger] winner_losses@[x]).0].condition_pct == 0,
                battle_frame(v, self@, loser_losses@ + winner_losses@.take(j as int)),
                components_follow(v, self@, captured@, winner),
            decreases winner_losses@.len() - j,
        {
            let asset = winner_losses[j];
            let ghost s0 = self@;
            proof {
                assert(loser_losses@ + winner_losses@.take(j + 1) =~= (loser_losses@ + winner_losses@.take(
                    j as int,
                )).push(asset));
            }
            let a = self.assets.get_mut(asset.0);
            a.condition_pct = 0;
            proof {
                self.lemma_keys_wf();
            }
            let ghost t1 = self@;
            self.remove_asset_from_formations(asset);
            let ghost t2 = self@;
            let _ = self.move_asset_raw(asset, LocationRef::Site(site));
            proof {
                crate::world::lemma_log_extends_log(crate::assets::with_asset(t2, asset.0, SerialAsset { location: LocationRef::Site(site), ..t2.assets[asset.0] }), EventKind::AssetMoved { asset, from: t2.assets[asset.0].location, to: LocationRef::Site(site) });
                assert(crate::world::phase_ok(s0, self@));
                crate::world::lemma_phase_trans(v, s0, self@);
                let w = self@;
                assert forall|x: int| 0 <= x < loser_losses@.len() implies lost_at(w, #[trigger] loser_losses@[x], site) by {
                    let y = loser_losses@[x];
                    assert forall|k: u64| #[trigger] w.formations.dom().contains(k) implies !w.formations[k].assets@.contains(
                        y,
                    ) by {
                        lemma_without_asset(s0.formations[k].assets@, asset, y);
                        assert(lost_at(s0, y, site));
                    }
                }
                assert forall|x: int| 0 <= x < j + 1 implies lost_at(w, #[trigger] winner_losses@[x], site) by {
                    let y = winner_losses@[x];
                    assert forall|k: u64| #[trigger] w.formations.dom().contains(k) implies !w.formations[k].assets@.contains(
                        y,
                    ) by {
                        lemma_without_asset(s0.formations[k].assets@, asset, y);
                        if x < j {
                            assert(lost_at(s0, y, site));
                        }
                    }
                }
            }
            proof {
                let tj = loser_losses@ + winner_losses@.take(j as int);
                let tj1 = loser_losses@ + winner_losses@.take(j + 1);
                assert forall|k: u64| #[trigger]
                    v.assets.dom().contains(k) && !tj1.contains(AssetId(k)) implies self@.assets[k] == v.assets[k] by {
                    assert(tj1[tj1.len() - 1] == asset);
                    if tj.contains(AssetId(k)) {
                        let y = choose|y: int| 0 <= y < tj.len() && tj[y] == AssetId(k);
                        assert(tj1[y] == tj[y]);
                    }
                    assert(s0.assets[k] == v.assets[k]);
                }
                assert(battle_frame(v, self@, tj1));
            }
            j = j + 1;
        }
        let current = match self.locations.get(site.0) {
            Some(l) => l.controller,
            None => None,
        };
        let today = self.clock.day;
        if attacker_won {
            let l = self.locations.get_mut(site.0);
            l.controller = Some(attacker);
            l.controlled_since = today;
        } else if current.is_none() {
            let l = self.locations.get_mut(site.0);
            l.controller = Some(defender);
            l.controlled_since = today;
        }
        proof {
            self.lemma_keys_wf();
        }
        proof {
            assert(winner_losses@.take(winner_losses@.len() as int) =~= winner_losses@);
        }
        let ghost w3 = self@;
        self.push_event(
            EventKind::BattleResolved { site, attacker, defender, attacker_won, attacker_power, defender_power },
        );
        let ghost w4 = self@;
        let _ = self.record_observation(None, IntelSubject::Battle { site }, site, "battle resolved", 100, 0);
        proof {
            crate::world::lemma_log_extends_log(w3, EventKind::BattleResolved { site, attacker, defender, attacker_won, attacker_power, defender_power });
            assert(crate::world::phase_ok(w3, w4));
            crate::world::lemma_phase_trans(v, w3, w4);
            if self@ != w4 {
                crate::world::lemma_log_extends_log(crate::world::WorldView { intel: self@.intel, ..w4.bump() }, EventKind::IntelRecorded { intel: crate::ids::IntelId(w4.next_id) });
                assert(crate::world::phase_ok(w4, self@));
                crate::world::lemma_phase_trans(v, w4, self@);
            }
            assert(crate::world::phase_ok(old(self)@, v));
            let w = self@;
            assert(w.events[w3.events.len() as int] == w4.events[w3.events.len() as int]);
            assert(battle_logged(old(self)@, w, site));
            assert(w.assets == w3.assets);
            assert(w.formations == w3.formations);
            if !(w.locations =~= w3.locations) {
                assert(false);
            }
        }
        let (attacker_losses, defender_losses) = if attacker_won {
            (winner_losses, loser_losses)
        } else {
            (loser_losses, winner_losses)
        };
        Ok(
            BattleOutcome {
                site,
                attacker,
                defender,
                attacker_power,
                defender_power,
                attacker_won,
                attacker_losses,
                defender_losses,
                captured,
            },
        )
    }
}

/// The log of `w`, past what `v` had logged, records a battle at `site`.
pub open spec fn battle_logged(v: WorldView, w: WorldView, site: LocationId) -> bool {
    exists|i: int|
        v.events.len() <= i < w.events.len() && ((#[trigger] w.events[i]).kind matches EventKind::BattleResolved {
            site: s,
            ..
        } && s == site)
}

/// What a battle leaves alone: stock, convoys, stockpiles, factories, jobs
/// and the market books, and every asset record outside `touched`.
pub open spec fn battle_frame(v: WorldView, w: WorldView, touched: Seq<AssetId>) -> bool {
    &&& w.lots == v.lots
    &&& w.convoys == v.convoys
    &&& w.stockpiles == v.stockpiles
    &&& w.factories == v.factories
    &&& w.production_jobs == v.production_jobs
    &&& w.markets == v.markets
    &&& w.sell_listings == v.sell_listings
    &&& w.buy_orders == v.buy_orders
    &&& forall|k: u64| #[trigger]
        v.assets.dom().contains(k) && !touched.contains(AssetId(k)) ==> w.assets[k] == v.assets[k]
    &&& forall|k: u64| #[trigger] v.assets.dom().contains(k) ==> w.assets[k].fitted == v.assets[k].fitted
    &&& w.formations.dom() == v.formations.dom()
    &&& forall|k: u64| #[trigger]
        v.formations.dom().contains(k) ==> w.formations[k] == crate::toe::Formation {
            assets: w.formations[k].assets,
            ..v.formations[k]
        }
    &&& forall|k: u64| #[trigger] v.intel.dom().contains(k) ==> w.intel.dom().contains(k) && w.intel[k] == v.intel[k]
}

/// Component `k` is fitted, in `v`, to one of the captured assets.
pub open spec fn fitted_to_captured(v: WorldView, captured: Seq<AssetId>, k: u64) -> bool {
    exists|i: int, j: int|
        0 <= i < captured.len() && 0 <= j < v.assets[captured[i].0].fitted@.len() && (#[trigger] v.assets[
            captured[i].0
        ].fitted@[j]).1.0 == k
}

/// The components fitted to captured assets go to the winner with them;
/// every other component is unchanged.
pub open spec fn components_follow(v: WorldView, w: WorldView, captured: Seq<AssetId>, winner: ActorId) -> bool {
    &&& w.components.dom() == v.components.dom()
    &&& forall|k: u64| #[trigger]
        v.components.dom().contains(k) ==> w.components[k] == if fitted_to_captured(v, captured, k) {
            crate::assets::ComponentInstance { owner: winner, ..v.components[k] }
        } else {
            v.components[k]
        }
}

/// A logged battle stays logged as the log grows, and counts from any
/// earlier point of the log.
pub proof fn lemma_battle_logged_extend(a: WorldView, b: WorldView, c: WorldView, site: LocationId)
    requires
        crate::world::log_extends(a, b),
        crate::world::log_extends(b, c),
        battle_logged(a, b, site) || battle_logged(b, c, site),
    ensures
        battle_logged(a, c, site),
{
    if battle_logged(a, b, site) {
        let i = choose|i: int|
            a.events.len() <= i < b.events.len() && ((#[trigger] b.events[i]).kind matches EventKind::BattleResolved {
                site: s,
                ..
            } && s == site);
        assert(c.events[i] == b.events[i]);
    } else {
        let i = choose|i: int|
            b.events.len() <= i < c.events.len() && ((#[trigger] c.events[i]).kind matches EventKind::BattleResolved {
                site: s,
                ..
            } && s == site);
        assert(c.events[i] == c.events[i]);
    }
}

/// Two forces as one list.
fn concat_units(a: &[AssetId], b: &[AssetId]) -> (r: Vec<AssetId>)
    ensures
        r@ == a@ + b@,
{
    let mut r: Vec<AssetId> = crate::table::copy_slice(a);
    let mut i: usize = 0;
    while i < b.len()
        invariant
            i <= b@.len(),
            r@ == a@ + b@.take(i as int),
        decreases b@.len() - i,
    {
        r.push(b[i]);
        i = i + 1;
        assert(r@ =~= a@ + b@.take(i as int));
    }
    assert(b@.take(b@.len() as int) =~= b@);
    r
}

/// The ranking depends on assets and designs only.
pub proof fn lemma_weakest_frame(v: WorldView, w: WorldView, s: Seq<AssetId>, n: nat)
    requires
        w.assets == v.assets,
        w.designs == v.designs,
    ensures
        weakest(w, s, n) == weakest(v, s, n),
    decreases n,
{
    assert forall|a: AssetId, b: AssetId| weaker(w, a, b) == weaker(v, a, b) by {
    }
    assert forall|i: int| is_first_weakest(w, s, i) == is_first_weakest(v, s, i) by {
    }
    if n > 0 && s.len() > 0 {
        lemma_first_weakest_exists(v, s);
        let i = choose|i: int| is_first_weakest(v, s, i);
        assert(is_first_weakest(w, s, i));
        lemma_first_weakest_unique(w, s, i);
        lemma_weakest_frame(v, w, s.remove(i), (n - 1) as nat);
    }
}

/// The weakest units are members of the force, and no more than it has.
pub proof fn lemma_weakest_members(v: WorldView, s: Seq<AssetId>, n: nat)
    ensures
        weakest(v, s, n).len() <= s.len(),
        forall|i: int| 0 <= i < weakest(v, s, n).len() ==> s.contains(#[trigger] weakest(v, s, n)[i]),
    decreases n,
{
    if n > 0 && s.len() > 0 {
        let i = choose|i: int| is_first_weakest(v, s, i);
        lemma_first_weakest_exists(v, s);
        let rest = s.remove(i);
        lemma_weakest_members(v, rest, (n - 1) as nat);
        let out = weakest(v, s, n);
        assert forall|k: int| 0 <= k < out.len() implies s.contains(#[trigger] out[k]) by {
            if k == 0 {
                assert(s[i] == out[0]);
            } else {
                assert(out[k] == weakest(v, rest, (n - 1) as nat)[k - 1]);
                assert(rest.contains(out[k]));
                let j = choose|j: int| 0 <= j < rest.len() && rest[j] == out[k];
                if j < i {
                    assert(s[j] == rest[j]);
                } else {
                    assert(s[j + 1] == rest[j]);
                }
            }
        }
    }
}

/// A nonempty force has a first weakest unit.
pub proof fn lemma_first_weakest_exists(v: WorldView, s: Seq<AssetId>)
    requires
        s.len() > 0,
    ensures
        exists|i: int| is_first_weakest(v, s, i),
    decreases s.len(),
{
    if s.len() == 1 {
        assert(is_first_weakest(v, s, 0));
    } else {
        let p = s.drop_last();
        lemma_first_weakest_exists(v, p);
        let i = choose|i: int| is_first_weakest(v, p, i);
        let last = s.len() - 1;
        lemma_weaker_order(v, s[last], s[i], s[i]);
        if weaker(v, s[last], s[i]) {
            assert forall|j: int| 0 <= j < s.len() implies !weaker(v, #[trigger] s[j], s[last]) by {
                if j < last {
                    assert(p[j] == s[j]);
                    lemma_weaker_order(v, s[j], s[last], s[i]);
                }
            }
            assert forall|j: int| 0 <= j < last implies weaker(v, s[last], #[trigger] s[j]) by {
                assert(p[j] == s[j]);
                lemma_weaker_order(v, s[j], s[last], s[i]);
                lemma_weaker_order(v, s[last], s[j], s[i]);
            }
            assert(is_first_weakest(v, s, last));
        } else {
            assert forall|j: int| 0 <= j < s.len() implies !weaker(v, #[trigger] s[j], s[i]) by {
                if j < last {
                    assert(p[j] == s[j]);
                }
            }
            assert forall|j: int| 0 <= j < i implies weaker(v, s[i], #[trigger] s[j]) by {
                assert(p[j] == s[j]);
            }
            assert(is_first_weakest(v, s, i));
        }
    }
}

} // verus!
