//! Commodities and lots.
//!
//! A lot is a provenance-bearing physical batch, never an originless
//! commodity pool. Lots split and merge without losing provenance: lineage
//! links are permanent and old lot records are never deleted, so origin is
//! always resolvable through `World::root_origins`.

use crate::actors::Credits;
use crate::error::SimError;
use crate::events::EventKind;
use crate::locations::{id_text, ref_valid, Location, MineReserves};
use vstd::string::*;
use crate::world::{World, WorldView};
use crate::ids::{ActorId, LocationId, CommodityId, LotId, SellListingId, FactoryId, ProductionJobId};
use crate::locations::LocationRef;
use vstd::prelude::*;

verus! {

#[derive(Debug, Clone, Copy, PartialEq, Eq, Structural)]
pub enum UnitOfMeasure {
    Kilograms,
    Liters,
    Units,
}

#[derive(Debug, Clone)]
pub struct CommodityDef {
    pub id: CommodityId,
    pub name: String,
    pub unit: UnitOfMeasure,
    pub tier: u8,
    /// Bootstrap reference price used until real trades have happened.
    pub base_price: Credits,
}

#[derive(Debug, Clone, Copy, PartialEq, Eq, Structural, PartialOrd, Ord)]
pub enum QualityGrade {
    Salvage,
    Poor,
    Standard,
    Fine,
    Exceptional,
}

/// Legal status travels with goods.
#[derive(Debug, Clone, Copy, PartialEq, Eq, Structural)]
pub enum LegalStatus {
    Legitimate,
    Stolen,
    RestrictedMilitary,
    FactionProtected,
    Contraband,
    TabooTech,
}

/// Where a root lot physically came from. Ownership changes are events, not
/// origin changes.
#[derive(Debug, Clone, PartialEq)]
pub enum LotOrigin {
    Mined { mine: LocationId },
    Produced { factory: FactoryId, job: ProductionJobId },
    /// Pre-sim historical stock placed by world seeding.
    SeededHistorical { note: String },
    /// Populated by an external simulator or import.
    Imported { source: String },
    /// Explicit admin placement (auditable).
    AdminPlaced { operator: ActorId },
}

/// How a lot record relates to its ancestors. Root lots carry an origin;
/// split/merge children point at their parents, which stay in the table
/// forever.
#[derive(Debug, Clone, PartialEq)]
pub enum Lineage {
    Root(LotOrigin),
    SplitFrom(LotId),
    MergedFrom(Vec<LotId>),
}

#[derive(Debug, Clone, Copy, PartialEq, Eq, Structural)]
pub enum LotState {
    /// In play: owned, located, tradable, consumable.
    Active,
    /// Reserved by a market listing (still physical, still at the market).
    Listed(SellListingId),
    /// Consumed as real production input. Record kept for provenance.
    ConsumedByProduction(ProductionJobId),
    /// Merged into another lot. Record kept for provenance.
    MergedInto(LotId),
    /// Emptied. Record kept for provenance.
    Depleted,
}

#[derive(Debug, Clone, PartialEq)]
pub struct Lot {
    pub id: LotId,
    pub commodity: CommodityId,
    /// For historical states this is the quantity when the lot left play.
    pub quantity: u64,
    pub quality: QualityGrade,
    pub legal_status: LegalStatus,
    pub owner: ActorId,
    pub location: LocationRef,
    pub lineage: Lineage,
    pub state: LotState,
    pub created_day: u64,
}

} // verus!

verus! {

/// Why creating a lot with these inputs fails, if it does.
pub open spec fn lot_create_error(
    v: WorldView,
    owner: ActorId,
    commodity: CommodityId,
    quantity: u64,
    location: LocationRef,
) -> Option<SimError> {
    if quantity == 0 {
        Some(SimError::InvalidQuantity)
    } else if !v.actors.dom().contains(owner.0) {
        Some(SimError::UnknownActor(owner))
    } else if !v.commodities.dom().contains(commodity.0) {
        Some(SimError::UnknownCommodity(commodity))
    } else if !ref_valid(v, location) {
        Some(SimError::NotColocated)
    } else {
        None
    }
}

/// The state after creating a lot under the next id (and logging it).
pub open spec fn with_new_lot(
    v: WorldView,
    owner: ActorId,
    commodity: CommodityId,
    quantity: u64,
    quality: QualityGrade,
    legal_status: LegalStatus,
    location: LocationRef,
    lineage: Lineage,
) -> WorldView {
    let id = LotId(v.next_id);
    (WorldView {
        lots: v.lots.insert(
            id.0,
            Lot {
                id,
                commodity,
                quantity,
                quality,
                legal_status,
                owner,
                location,
                lineage,
                state: LotState::Active,
                created_day: v.clock.day,
            },
        ),
        ..v.bump()
    }).log(EventKind::LotCreated { lot: id, commodity, quantity, owner })
}

/// The view with one lot record replaced.
pub open spec fn with_lot(v: WorldView, id: u64, lot: Lot) -> WorldView {
    WorldView { lots: v.lots.insert(id, lot), ..v }
}

/// Seeding accepts only seed-class origins.
pub open spec fn is_seed_origin(origin: LotOrigin) -> bool {
    match origin {
        LotOrigin::SeededHistorical { .. } => true,
        LotOrigin::Imported { .. } => true,
        LotOrigin::AdminPlaced { .. } => true,
        _ => false,
    }
}

/// What splitting `quantity` off an existing lot does: refuse a zero or
/// whole-lot split, otherwise create the child (which may itself be refused)
/// and lower the parent. Gives the state after and the result.
pub open spec fn split_state(v: WorldView, lot: LotId, quantity: u64) -> (WorldView, Result<LotId, SimError>) {
    let l = v.lots[lot.0];
    if quantity == 0 || quantity >= l.quantity {
        (v, Err(SimError::InvalidQuantity))
    } else {
        match lot_create_error(v, l.owner, l.commodity, quantity, l.location) {
            Some(e) => (v, Err(e)),
            None => {
                let made = with_new_lot(
                    v,
                    l.owner,
                    l.commodity,
                    quantity,
                    l.quality,
                    l.legal_status,
                    l.location,
                    Lineage::SplitFrom(lot),
                );
                let child = LotId(v.next_id);
                (
                    with_lot(made, lot.0, Lot { quantity: (l.quantity - quantity) as u64, ..l }).log(
                        EventKind::LotSplit { parent: lot, child, quantity },
                    ),
                    Ok(child),
                )
            },
        }
    }
}

/// `w` and `r` are the state and result of splitting `quantity` off `lot`.
pub open spec fn split_outcome(v: WorldView, w: WorldView, lot: LotId, quantity: u64, r: Result<LotId, SimError>) -> bool {
    (w, r) == split_state(v, lot, quantity)
}

/// The recorded parents of a lot: none for a root, one for a split child,
/// all sources for a merge result.
pub open spec fn lineage_parents(l: Lineage) -> Seq<LotId> {
    match l {
        Lineage::Root(_) => Seq::empty(),
        Lineage::SplitFrom(p) => seq![p],
        Lineage::MergedFrom(ps) => ps@,
    }
}

/// A chain of existing lot records, each listing the next as a parent.
pub open spec fn lineage_path(v: WorldView, path: Seq<LotId>) -> bool {
    &&& path.len() > 0
    &&& forall|i: int| 0 <= i < path.len() ==> v.lots.dom().contains(#[trigger] path[i].0)
    &&& forall|i: int|
        0 <= i < path.len() - 1 ==> lineage_parents(v.lots[#[trigger] path[i].0].lineage).contains(path[i + 1])
}

/// `to` is `from` itself or one of its recorded ancestors.
pub open spec fn is_ancestor(v: WorldView, from: LotId, to: LotId) -> bool {
    exists|path: Seq<LotId>| #[trigger] lineage_path(v, path) && path[0] == from && path.last() == to
}

/// `o` is the root origin of some ancestor of `lot`.
pub open spec fn is_root_origin_of(v: WorldView, lot: LotId, o: LotOrigin) -> bool {
    exists|r: LotId|
        #![trigger is_ancestor(v, lot, r)]
        is_ancestor(v, lot, r) && v.lots.dom().contains(r.0) && v.lots[r.0].lineage == Lineage::Root(o)
}

/// Marking lots merged changes states only: every record keeps its
/// lineage, and no record disappears.
pub proof fn lemma_mark_merged_lineage(m: Map<u64, Lot>, sources: Seq<LotId>, result: LotId, k: u64)
    requires
        m.dom().contains(k),
    ensures
        mark_merged(m, sources, result).dom().contains(k),
        mark_merged(m, sources, result)[k].lineage == m[k].lineage,
    decreases sources.len(),
{
    if sources.len() > 0 {
        lemma_mark_merged_lineage(m, sources.drop_last(), result, k);
    }
}

/// Ancestry survives any change that keeps every existing record and its
/// lineage.
pub proof fn lemma_ancestry_kept(v: WorldView, w: WorldView, lot: LotId, o: LotOrigin)
    requires
        forall|k: u64| #[trigger] v.lots.dom().contains(k) ==> w.lots.dom().contains(k) && w.lots[k].lineage
            == v.lots[k].lineage,
        is_root_origin_of(v, lot, o),
    ensures
        is_root_origin_of(w, lot, o),
{
    let r = choose|r: LotId| is_ancestor(v, lot, r) && v.lots.dom().contains(r.0) && v.lots[r.0].lineage == Lineage::Root(o);
    let path = choose|path: Seq<LotId>| #[trigger] lineage_path(v, path) && path[0] == lot && path.last() == r;
    assert forall|i: int| 0 <= i < path.len() implies w.lots.dom().contains(#[trigger] path[i].0) by {
        assert(v.lots.dom().contains(path[i].0));
    }
    assert forall|i: int| 0 <= i < path.len() - 1 implies lineage_parents(w.lots[#[trigger] path[i].0].lineage).contains(
        path[i + 1],
    ) by {
        assert(v.lots.dom().contains(path[i].0));
        assert(lineage_parents(v.lots[path[i].0].lineage).contains(path[i + 1]));
    }
    assert(lineage_path(w, path));
    assert(is_ancestor(w, lot, r));
    assert(w.lots[r.0].lineage == Lineage::Root(o));
}

/// A lot listing `parent` among its parents inherits every root origin of
/// `parent`.
pub proof fn lemma_ancestry_extend(w: WorldView, child: LotId, parent: LotId, o: LotOrigin)
    requires
        w.lots.dom().contains(child.0),
        lineage_parents(w.lots[child.0].lineage).contains(parent),
        is_root_origin_of(w, parent, o),
    ensures
        is_root_origin_of(w, child, o),
{
    let r = choose|r: LotId| is_ancestor(w, parent, r) && w.lots.dom().contains(r.0) && w.lots[r.0].lineage == Lineage::Root(o);
    let path = choose|path: Seq<LotId>| #[trigger] lineage_path(w, path) && path[0] == parent && path.last() == r;
    let longer = seq![child] + path;
    assert forall|i: int| 0 <= i < longer.len() implies w.lots.dom().contains(#[trigger] longer[i].0) by {
        if i > 0 {
            assert(longer[i] == path[i - 1]);
        }
    }
    assert forall|i: int| 0 <= i < longer.len() - 1 implies lineage_parents(w.lots[#[trigger] longer[i].0].lineage).contains(
        longer[i + 1],
    ) by {
        if i > 0 {
            assert(longer[i] == path[i - 1]);
            assert(longer[i + 1] == path[i]);
        } else {
            assert(longer[1] == path[0]);
        }
    }
    assert(lineage_path(w, longer));
    assert(longer.last() == r);
    assert(is_ancestor(w, child, r));
}

/// Splitting never launders provenance: the child, and the parent, keep
/// every root origin the parent had.
pub proof fn law_split_keeps_origins(v: WorldView, w: WorldView, lot: LotId, quantity: u64, child: LotId, o: LotOrigin)
    requires
        v.wf(),
        split_outcome(v, w, lot, quantity, Ok(child)),
        is_root_origin_of(v, lot, o),
    ensures
        is_root_origin_of(w, child, o),
        is_root_origin_of(w, lot, o),
{
    assert(!v.lots.dom().contains(v.next_id));
    assert forall|k: u64| #[trigger] v.lots.dom().contains(k) implies w.lots.dom().contains(k) && w.lots[k].lineage
        == v.lots[k].lineage by {
        assert(k != v.next_id);
    }
    lemma_ancestry_kept(v, w, lot, o);
    assert(lineage_parents(w.lots[child.0].lineage) == seq![lot]);
    assert(lineage_parents(w.lots[child.0].lineage)[0] == lot);
    lemma_ancestry_extend(w, child, lot, o);
}

/// Merging never launders provenance: the merged lot keeps every root
/// origin of every source.
pub proof fn law_merge_keeps_origins(v: WorldView, w: WorldView, sources: Seq<LotId>, result: LotId, i: int, o: LotOrigin)
    requires
        v.wf(),
        merge_outcome(v, w, sources, Ok(result)),
        0 <= i < sources.len(),
        is_root_origin_of(v, sources[i], o),
    ensures
        is_root_origin_of(w, result, o),
{
    let first = v.lots[sources[0].0];
    let total = merge_scan(v, sources, first, 0, 0)->Ok_0;
    let lineage = w.lots[result.0].lineage;
    let made = with_new_lot(
        v,
        first.owner,
        first.commodity,
        total as u64,
        first.quality,
        first.legal_status,
        first.location,
        lineage,
    );
    assert(!v.lots.dom().contains(v.next_id));
    assert forall|k: u64| #[trigger] v.lots.dom().contains(k) implies w.lots.dom().contains(k) && w.lots[k].lineage
        == v.lots[k].lineage by {
        assert(k != v.next_id);
        assert(made.lots.dom().contains(k));
        lemma_mark_merged_lineage(made.lots, sources, result, k);
    }
    lemma_ancestry_kept(v, w, sources[i], o);
    assert(made.lots.dom().contains(result.0));
    lemma_mark_merged_lineage(made.lots, sources, result, result.0);
    assert(lineage_parents(lineage) == sources);
    assert(lineage_parents(w.lots[result.0].lineage)[i] == sources[i]);
    lemma_ancestry_extend(w, result, sources[i], o);
}

/// Every recorded lineage parent of a lot is itself a lot.
pub open spec fn lineage_closed(v: WorldView) -> bool {
    forall|k: u64, j: int|
        #![trigger v.lots[k].lineage, lineage_parents(v.lots[k].lineage)[j]]
        v.lots.dom().contains(k) && 0 <= j < lineage_parents(v.lots[k].lineage).len() ==> v.lots.dom().contains(
            lineage_parents(v.lots[k].lineage)[j].0,
        )
}

/// Along a lineage path of `w` that starts at a lot of a closed `v`,
/// where `w` keeps every lineage of `v`, every step is a lot of `v`.
proof fn lemma_path_stays(v: WorldView, w: WorldView, path: Seq<LotId>, i: int)
    requires
        lineage_closed(v),
        forall|k: u64| #[trigger] v.lots.dom().contains(k) ==> w.lots.dom().contains(k) && w.lots[k].lineage
            == v.lots[k].lineage,
        lineage_path(w, path),
        v.lots.dom().contains(path[0].0),
        0 <= i < path.len(),
    ensures
        v.lots.dom().contains(path[i].0),
    decreases i,
{
    if i > 0 {
        lemma_path_stays(v, w, path, i - 1);
        let p = path[i - 1];
        assert(lineage_parents(w.lots[p.0].lineage).contains(path[i]));
        let ps = lineage_parents(v.lots[p.0].lineage);
        let j = choose|j: int| 0 <= j < ps.len() && ps[j] == path[i];
        assert(v.lots.dom().contains(ps[j].0));
    }
}

/// What a closed `v` does not reach it does not gain in a `w` that only
/// adds lots and keeps every lineage: ancestry from a lot of `v` in `w`
/// is ancestry in `v`.
proof fn lemma_ancestry_back(v: WorldView, w: WorldView, from: LotId, o: LotOrigin)
    requires
        lineage_closed(v),
        forall|k: u64| #[trigger] v.lots.dom().contains(k) ==> w.lots.dom().contains(k) && w.lots[k].lineage
            == v.lots[k].lineage,
        v.lots.dom().contains(from.0),
        is_root_origin_of(w, from, o),
    ensures
        is_root_origin_of(v, from, o),
{
    let r = choose|r: LotId| is_ancestor(w, from, r) && w.lots.dom().contains(r.0) && w.lots[r.0].lineage == Lineage::Root(o);
    let path = choose|path: Seq<LotId>| #[trigger] lineage_path(w, path) && path[0] == from && path.last() == r;
    assert forall|i: int| 0 <= i < path.len() implies v.lots.dom().contains(#[trigger] path[i].0) by {
        lemma_path_stays(v, w, path, i);
    }
    assert forall|i: int| 0 <= i < path.len() - 1 implies lineage_parents(v.lots[#[trigger] path[i].0].lineage).contains(
        path[i + 1],
    ) by {
        assert(v.lots.dom().contains(path[i].0));
        assert(lineage_parents(w.lots[path[i].0].lineage).contains(path[i + 1]));
    }
    assert(lineage_path(v, path));
    assert(is_ancestor(v, from, r));
    assert(v.lots.dom().contains(path[path.len() - 1].0));
}

/// A path of length two or more drops its first step and stays a path.
proof fn lemma_path_tail(w: WorldView, path: Seq<LotId>)
    requires
        lineage_path(w, path),
        path.len() > 1,
    ensures
        lineage_path(w, path.subrange(1, path.len() as int)),
        path.subrange(1, path.len() as int)[0] == path[1],
        path.subrange(1, path.len() as int).last() == path.last(),
{
    let t = path.subrange(1, path.len() as int);
    assert forall|i: int| 0 <= i < t.len() implies w.lots.dom().contains(#[trigger] t[i].0) by {
        assert(t[i] == path[i + 1]);
    }
    assert forall|i: int| 0 <= i < t.len() - 1 implies lineage_parents(w.lots[#[trigger] t[i].0].lineage).contains(t[i + 1]) by {
        assert(t[i] == path[i + 1]);
        assert(t[i + 1] == path[i + 2]);
    }
}

/// Splitting adds no provenance either: where every lineage parent is a
/// real lot, the child's root origins are exactly the parent's.
pub proof fn law_split_origins_exact(v: WorldView, w: WorldView, lot: LotId, quantity: u64, child: LotId, o: LotOrigin)
    requires
        v.wf(),
        lineage_closed(v),
        v.lots.dom().contains(lot.0),
        split_outcome(v, w, lot, quantity, Ok(child)),
    ensures
        is_root_origin_of(w, child, o) <==> is_root_origin_of(v, lot, o),
        is_root_origin_of(w, lot, o) <==> is_root_origin_of(v, lot, o),
{
    assert(!v.lots.dom().contains(v.next_id));
    assert forall|k: u64| #[trigger] v.lots.dom().contains(k) implies w.lots.dom().contains(k) && w.lots[k].lineage
        == v.lots[k].lineage by {
        assert(k != v.next_id);
    }
    if is_root_origin_of(v, lot, o) {
        law_split_keeps_origins(v, w, lot, quantity, child, o);
    }
    if is_root_origin_of(w, lot, o) {
        lemma_ancestry_back(v, w, lot, o);
    }
    if is_root_origin_of(w, child, o) {
        assert(lineage_parents(w.lots[child.0].lineage) == seq![lot]);
        let r = choose|r: LotId| is_ancestor(w, child, r) && w.lots.dom().contains(r.0) && w.lots[r.0].lineage == Lineage::Root(o);
        let path = choose|path: Seq<LotId>| #[trigger] lineage_path(w, path) && path[0] == child && path.last() == r;
        if path.len() == 1 {
            assert(w.lots[child.0].lineage == Lineage::Root(o));
        }
        assert(lineage_parents(w.lots[path[0].0].lineage).contains(path[1]));
        assert(path[1] == lot);
        lemma_path_tail(w, path);
        assert(is_ancestor(w, lot, r));
        assert(is_root_origin_of(w, lot, o));
        lemma_ancestry_back(v, w, lot, o);
    }
}

/// Merging adds no provenance either: where every lineage parent is a
/// real lot, the merged lot's root origins are exactly the union of its
/// sources' root origins.
pub proof fn law_merge_origins_exact(v: WorldView, w: WorldView, sources: Seq<LotId>, result: LotId, o: LotOrigin)
    requires
        v.wf(),
        lineage_closed(v),
        merge_outcome(v, w, sources, Ok(result)),
    ensures
        is_root_origin_of(w, result, o) <==> exists|i: int|
            0 <= i < sources.len() && #[trigger] is_root_origin_of(v, sources[i], o),
{
    let first = v.lots[sources[0].0];
    let total = merge_scan(v, sources, first, 0, 0)->Ok_0;
    let lineage = w.lots[result.0].lineage;
    let made = with_new_lot(
        v,
        first.owner,
        first.commodity,
        total as u64,
        first.quality,
        first.legal_status,
        first.location,
        lineage,
    );
    assert(!v.lots.dom().contains(v.next_id));
    assert forall|k: u64| #[trigger] v.lots.dom().contains(k) implies w.lots.dom().contains(k) && w.lots[k].lineage
        == v.lots[k].lineage by {
        assert(k != v.next_id);
        assert(made.lots.dom().contains(k));
        lemma_mark_merged_lineage(made.lots, sources, result, k);
    }
    assert(made.lots.dom().contains(result.0));
    lemma_mark_merged_lineage(made.lots, sources, result, result.0);
    assert(lineage_parents(lineage) == sources);
    lemma_merge_scan_ok(v, sources, first, 0, 0);
    if exists|i: int| 0 <= i < sources.len() && #[trigger] is_root_origin_of(v, sources[i], o) {
        let i = choose|i: int| 0 <= i < sources.len() && #[trigger] is_root_origin_of(v, sources[i], o);
        law_merge_keeps_origins(v, w, sources, result, i, o);
    }
    if is_root_origin_of(w, result, o) {
        let r = choose|r: LotId| is_ancestor(w, result, r) && w.lots.dom().contains(r.0) && w.lots[r.0].lineage == Lineage::Root(o);
        let path = choose|path: Seq<LotId>| #[trigger] lineage_path(w, path) && path[0] == result && path.last() == r;
        if path.len() == 1 {
            assert(w.lots[result.0].lineage == Lineage::Root(o));
        }
        assert(lineage_parents(w.lots[path[0].0].lineage).contains(path[1]));
        let i = choose|i: int| 0 <= i < sources.len() && sources[i] == path[1];
        lemma_path_tail(w, path);
        assert(is_ancestor(w, sources[i], r));
        assert(is_root_origin_of(w, sources[i], o));
        assert(v.lots.dom().contains(sources[i].0));
        lemma_ancestry_back(v, w, sources[i], o);
        assert(is_root_origin_of(v, sources[i], o));
    }
}

/// Two origins name the same source (text compared by content).
pub open spec fn origin_equiv(a: LotOrigin, b: LotOrigin) -> bool {
    match (a, b) {
        (LotOrigin::Mined { mine: x }, LotOrigin::Mined { mine: y }) => x == y,
        (LotOrigin::Produced { factory: f1, job: j1 }, LotOrigin::Produced { factory: f2, job: j2 }) => f1
            == f2 && j1 == j2,
        (LotOrigin::SeededHistorical { note: x }, LotOrigin::SeededHistorical { note: y }) => x@ == y@,
        (LotOrigin::Imported { source: x }, LotOrigin::Imported { source: y }) => x@ == y@,
        (LotOrigin::AdminPlaced { operator: x }, LotOrigin::AdminPlaced { operator: y }) => x == y,
        _ => false,
    }
}

/// Scan merge sources from position `i`, accumulating their quantities.
/// `Err(Some(e))` is a typed refusal, `Err(None)` a mismatch in commodity,
/// quality, legal status, owner or location with the first source.
pub open spec fn merge_scan(v: WorldView, sources: Seq<LotId>, first: Lot, i: int, total: int) -> Result<
    int,
    Option<SimError>,
>
    decreases sources.len() - i,
{
    if i >= sources.len() || i < 0 {
        Ok(total)
    } else {
        let id = sources[i];
        if !v.lots.dom().contains(id.0) {
            Err(Some(SimError::UnknownLot(id)))
        } else {
            let l = v.lots[id.0];
            if l.state != LotState::Active {
                Err(Some(SimError::LotNotActive(id)))
            } else if l.commodity != first.commodity || l.quality != first.quality || l.legal_status
                != first.legal_status || l.owner != first.owner || l.location != first.location {
                Err(None)
            } else if total + l.quantity > u64::MAX {
                Err(Some(SimError::Overflow))
            } else {
                merge_scan(v, sources, first, i + 1, total + l.quantity)
            }
        }
    }
}

/// A clean scan saw every remaining source as an existing lot.
pub proof fn lemma_merge_scan_ok(v: WorldView, sources: Seq<LotId>, first: Lot, i: int, total: int)
    requires
        0 <= i,
        merge_scan(v, sources, first, i, total) is Ok,
    ensures
        forall|k: int| i <= k < sources.len() ==> #[trigger] v.lots.dom().contains(sources[k].0),
    decreases sources.len() - i,
{
    if i < sources.len() {
        let l = v.lots[sources[i].0];
        lemma_merge_scan_ok(v, sources, first, i + 1, total + l.quantity);
    }
}

/// Mark every listed lot as merged into `result`.
pub open spec fn mark_merged(m: Map<u64, Lot>, sources: Seq<LotId>, result: LotId) -> Map<u64, Lot>
    decreases sources.len(),
{
    if sources.len() == 0 {
        m
    } else {
        let prev = mark_merged(m, sources.drop_last(), result);
        let k = sources.last().0;
        prev.insert(k, Lot { state: LotState::MergedInto(result), ..prev[k] })
    }
}

pub proof fn lemma_mark_merged_dom(m: Map<u64, Lot>, sources: Seq<LotId>, result: LotId)
    requires
        forall|k: int| 0 <= k < sources.len() ==> #[trigger] m.dom().contains(sources[k].0),
    ensures
        mark_merged(m, sources, result).dom() == m.dom(),
    decreases sources.len(),
{
    if sources.len() > 0 {
        let s2 = sources.drop_last();
        assert forall|k: int| 0 <= k < s2.len() implies #[trigger] m.dom().contains(s2[k].0) by {
            assert(s2[k] == sources[k]);
        }
        lemma_mark_merged_dom(m, s2, result);
        assert(m.dom().contains(sources[sources.len() - 1].0));
        assert(mark_merged(m, sources, result).dom() =~= m.dom());
    }
}

/// A merged source keeps everything but its state, which names the result.
pub proof fn lemma_mark_merged_source(m: Map<u64, Lot>, sources: Seq<LotId>, result: LotId, i: int)
    requires
        0 <= i < sources.len(),
        m.dom().contains(sources[i].0),
    ensures
        mark_merged(m, sources, result).dom().contains(sources[i].0),
        mark_merged(m, sources, result)[sources[i].0] == (Lot {
            state: LotState::MergedInto(result),
            ..m[sources[i].0]
        }),
    decreases sources.len(),
{
    let s2 = sources.drop_last();
    let k = sources.last().0;
    if i < s2.len() {
        assert(s2[i] == sources[i]);
        lemma_mark_merged_source(m, s2, result, i);
    } else if exists|j: int| 0 <= j < s2.len() && s2[j].0 == k {
        let j = choose|j: int| 0 <= j < s2.len() && s2[j].0 == k;
        lemma_mark_merged_source(m, s2, result, j);
    } else {
        lemma_mark_merged_other(m, s2, result, k);
    }
}

/// Every source of a merge that scans clean is active.
pub proof fn lemma_merge_scan_active(v: WorldView, sources: Seq<LotId>, first: Lot, i: int, total: int)
    requires
        0 <= i,
        merge_scan(v, sources, first, i, total) is Ok,
    ensures
        forall|k: int| i <= k < sources.len() ==> #[trigger] v.lots[sources[k].0].state == LotState::Active,
    decreases sources.len() - i,
{
    if i < sources.len() {
        let l = v.lots[sources[i].0];
        lemma_merge_scan_active(v, sources, first, i + 1, total + l.quantity);
    }
}

pub proof fn lemma_mark_merged_other(m: Map<u64, Lot>, sources: Seq<LotId>, result: LotId, k: u64)
    requires
        forall|i: int| 0 <= i < sources.len() ==> #[trigger] sources[i].0 != k,
    ensures
        mark_merged(m, sources, result).dom().contains(k) == m.dom().contains(k),
        mark_merged(m, sources, result)[k] == m[k],
    decreases sources.len(),
{
    if sources.len() > 0 {
        let s2 = sources.drop_last();
        assert forall|i: int| 0 <= i < s2.len() implies #[trigger] s2[i].0 != k by {
            assert(s2[i] == sources[i]);
        }
        lemma_mark_merged_other(m, s2, result, k);
        assert(sources[sources.len() - 1].0 != k);
    }
}

/// What merging the given sources does to the world.
pub open spec fn merge_outcome(v: WorldView, w: WorldView, sources: Seq<LotId>, r: Result<LotId, SimError>) -> bool {
    if sources.len() < 2 {
        (r matches Err(SimError::MergeMismatch(_))) && w == v
    } else if !v.lots.dom().contains(sources[0].0) {
        r == Err::<LotId, SimError>(SimError::UnknownLot(sources[0])) && w == v
    } else {
        let first = v.lots[sources[0].0];
        match merge_scan(v, sources, first, 0, 0) {
            Err(Some(e)) => r == Err::<LotId, SimError>(e) && w == v,
            Err(None) => (r matches Err(SimError::MergeMismatch(_))) && w == v,
            Ok(total) => if !sources.no_duplicates() {
                (r matches Err(SimError::MergeMismatch(_))) && w == v
            } else {
                match lot_create_error(v, first.owner, first.commodity, total as u64, first.location) {
                    Some(e) => r == Err::<LotId, SimError>(e) && w == v,
                    None => {
                        let result = LotId(v.next_id);
                        let lineage = w.lots[result.0].lineage;
                        let made = with_new_lot(
                            v,
                            first.owner,
                            first.commodity,
                            total as u64,
                            first.quality,
                            first.legal_status,
                            first.location,
                            lineage,
                        );
                        &&& r == Ok::<LotId, SimError>(result)
                        &&& lineage matches Lineage::MergedFrom(parents) && parents@ == sources
                        &&& w.events.last().kind matches EventKind::LotsMerged { sources: logged, .. }
                        &&& w == (WorldView { lots: mark_merged(made.lots, sources, result), ..made }).log(
                            EventKind::LotsMerged { sources: w.events.last().kind->sources, result },
                        )
                        &&& (w.events.last().kind->sources)@ == sources
                    },
                }
            },
        }
    }
}

impl LotOrigin {
    /// An exact copy of this origin.
    pub fn duplicate(&self) -> (r: LotOrigin)
        ensures
            r == *self,
    {
        match self {
            LotOrigin::Mined { mine } => LotOrigin::Mined { mine: *mine },
            LotOrigin::Produced { factory, job } => LotOrigin::Produced { factory: *factory, job: *job },
            LotOrigin::SeededHistorical { note } => LotOrigin::SeededHistorical { note: note.clone() },
            LotOrigin::Imported { source } => LotOrigin::Imported { source: source.clone() },
            LotOrigin::AdminPlaced { operator } => LotOrigin::AdminPlaced { operator: *operator },
        }
    }

    /// Same source, comparing text by content.
    pub fn same_as(&self, other: &LotOrigin) -> (b: bool)
        ensures
            b == origin_equiv(*self, *other),
    {
        match (self, other) {
            (LotOrigin::Mined { mine: x }, LotOrigin::Mined { mine: y }) => x.0 == y.0,
            (LotOrigin::Produced { factory: f1, job: j1 }, LotOrigin::Produced { factory: f2, job: j2 }) => f1.0
                == f2.0 && j1.0 == j2.0,
            (LotOrigin::SeededHistorical { note: x }, LotOrigin::SeededHistorical { note: y }) => *x == *y,
            (LotOrigin::Imported { source: x }, LotOrigin::Imported { source: y }) => *x == *y,
            (LotOrigin::AdminPlaced { operator: x }, LotOrigin::AdminPlaced { operator: y }) => x.0 == y.0,
            _ => false,
        }
    }
}

/// Following one more parent link extends a path.
pub proof fn lemma_path_step(v: WorldView, path: Seq<LotId>, to: LotId)
    requires
        lineage_path(v, path),
        v.lots.dom().contains(to.0),
        lineage_parents(v.lots[path.last().0].lineage).contains(to),
    ensures
        lineage_path(v, path.push(to)),
        path.push(to)[0] == path[0],
        path.push(to).last() == to,
{
    let q = path.push(to);
    assert forall|i: int| 0 <= i < q.len() - 1 implies lineage_parents(v.lots[#[trigger] q[i].0].lineage).contains(
        q[i + 1],
    ) by {
        if i < path.len() - 1 {
            assert(q[i] == path[i] && q[i + 1] == path[i + 1]);
        } else {
            assert(q[i] == path.last());
        }
    }
}

/// Every recorded parent of a walked lot was walked too, or is waiting on
/// the stack.
pub open spec fn walk_closed(v: WorldView, visited: Seq<u64>, stack: Seq<LotId>, k: u64) -> bool {
    &&& v.lots.dom().contains(k)
    &&& forall|j: int|
        0 <= j < lineage_parents(v.lots[k].lineage).len() ==> visited.contains(
            #[trigger] lineage_parents(v.lots[k].lineage)[j].0,
        ) || stack.contains(lineage_parents(v.lots[k].lineage)[j])
}

/// The root origin of a walked lot, if it is a root, is among those found.
pub open spec fn origin_found(v: WorldView, origins: Seq<LotOrigin>, k: u64) -> bool {
    v.lots[k].lineage matches Lineage::Root(o) ==> exists|i: int| 0 <= i < origins.len() && origin_equiv(#[trigger] origins[i], o)
}

/// Popping a walked lot off the stack keeps the walk closed.
pub proof fn lemma_pop_walked(v: WorldView, visited: Seq<u64>, stack: Seq<LotId>, k: u64)
    requires
        walk_closed(v, visited, stack, k),
        stack.len() > 0,
        visited.contains(stack.last().0),
    ensures
        walk_closed(v, visited, stack.drop_last(), k),
{
    let ps = lineage_parents(v.lots[k].lineage);
    assert forall|j: int| 0 <= j < ps.len() implies visited.contains(#[trigger] ps[j].0) || stack.drop_last().contains(ps[j]) by {
        if !visited.contains(ps[j].0) {
            let y = choose|y: int| 0 <= y < stack.len() && stack[y] == ps[j];
            if y == stack.len() - 1 {
                assert(false);
            } else {
                assert(stack.drop_last()[y] == ps[j]);
            }
        }
    }
}

/// Walking the lot on top of the stack keeps the walk closed for lots
/// walked before.
pub proof fn lemma_visit_walked(v: WorldView, visited: Seq<u64>, stack: Seq<LotId>, k: u64)
    requires
        walk_closed(v, visited, stack, k),
        stack.len() > 0,
    ensures
        walk_closed(v, visited.push(stack.last().0), stack.drop_last(), k),
{
    let ps = lineage_parents(v.lots[k].lineage);
    let vis2 = visited.push(stack.last().0);
    assert forall|j: int| 0 <= j < ps.len() implies vis2.contains(#[trigger] ps[j].0) || stack.drop_last().contains(ps[j]) by {
        if visited.contains(ps[j].0) {
            let y = choose|y: int| 0 <= y < visited.len() && visited[y] == ps[j].0;
            assert(vis2[y] == ps[j].0);
        } else {
            let y = choose|y: int| 0 <= y < stack.len() && stack[y] == ps[j];
            if y == stack.len() - 1 {
                assert(vis2[visited.len() as int] == ps[j].0);
            } else {
                assert(stack.drop_last()[y] == ps[j]);
            }
        }
    }
}

/// Pushing onto the stack keeps the walk closed.
pub proof fn lemma_push_walked(v: WorldView, visited: Seq<u64>, stack: Seq<LotId>, k: u64, p: LotId)
    requires
        walk_closed(v, visited, stack, k),
    ensures
        walk_closed(v, visited, stack.push(p), k),
{
    let ps = lineage_parents(v.lots[k].lineage);
    assert forall|j: int| 0 <= j < ps.len() implies visited.contains(#[trigger] ps[j].0) || stack.push(p).contains(ps[j]) by {
        if !visited.contains(ps[j].0) {
            let y = choose|y: int| 0 <= y < stack.len() && stack[y] == ps[j];
            assert(stack.push(p)[y] == ps[j]);
        }
    }
}

/// Finding one more origin keeps every earlier find.
pub proof fn lemma_found_push(v: WorldView, origins: Seq<LotOrigin>, k: u64, o: LotOrigin)
    requires
        origin_found(v, origins, k),
    ensures
        origin_found(v, origins.push(o), k),
{
    if let Lineage::Root(r) = v.lots[k].lineage {
        let i = choose|i: int| 0 <= i < origins.len() && origin_equiv(#[trigger] origins[i], r);
        assert(origins.push(o)[i] == origins[i]);
    }
}

/// Once the stack is empty, a walk closed under parents holds every lot
/// along any lineage path from a walked lot.
pub proof fn lemma_path_walked(v: WorldView, visited: Seq<u64>, path: Seq<LotId>, n: int)
    requires
        lineage_path(v, path),
        visited.contains(path[0].0),
        forall|x: int| 0 <= x < visited.len() ==> walk_closed(v, visited, Seq::<LotId>::empty(), #[trigger] visited[x]),
        0 <= n < path.len(),
    ensures
        visited.contains(path[n].0),
    decreases n,
{
    if n > 0 {
        lemma_path_walked(v, visited, path, n - 1);
        let x = choose|x: int| 0 <= x < visited.len() && visited[x] == path[n - 1].0;
        assert(walk_closed(v, visited, Seq::<LotId>::empty(), visited[x]));
        let ps = lineage_parents(v.lots[path[n - 1].0].lineage);
        assert(ps.contains(path[n]));
        let j = choose|j: int| 0 <= j < ps.len() && ps[j] == path[n];
        assert(visited.contains(ps[j].0) || Seq::<LotId>::empty().contains(ps[j]));
    }
}

/// A finished walk from `lot` found every root origin of `lot`.
pub proof fn lemma_walk_complete(v: WorldView, visited: Seq<u64>, origins: Seq<LotOrigin>, lot: LotId, o: LotOrigin)
    requires
        forall|x: int| 0 <= x < visited.len() ==> walk_closed(v, visited, Seq::<LotId>::empty(), #[trigger] visited[x]),
        forall|x: int| 0 <= x < visited.len() ==> origin_found(v, origins, #[trigger] visited[x]),
        visited.contains(lot.0),
        is_root_origin_of(v, lot, o),
    ensures
        exists|i: int| 0 <= i < origins.len() && origin_equiv(#[trigger] origins[i], o),
{
    let r = choose|r: LotId| is_ancestor(v, lot, r) && v.lots.dom().contains(r.0) && v.lots[r.0].lineage == Lineage::Root(o);
    let path = choose|path: Seq<LotId>| #[trigger] lineage_path(v, path) && path[0] == lot && path.last() == r;
    lemma_path_walked(v, visited, path, path.len() - 1);
    let x = choose|x: int| 0 <= x < visited.len() && visited[x] == r.0;
    assert(origin_found(v, origins, visited[x]));
}

/// A finished walk from `lot` found every root origin of `lot`, whichever
/// origin is asked about.
pub proof fn lemma_walk_complete_all(v: WorldView, visited: Seq<u64>, origins: Seq<LotOrigin>, lot: LotId)
    requires
        forall|x: int| 0 <= x < visited.len() ==> walk_closed(v, visited, Seq::<LotId>::empty(), #[trigger] visited[x]),
        forall|x: int| 0 <= x < visited.len() ==> origin_found(v, origins, #[trigger] visited[x]),
        visited.contains(lot.0),
    ensures
        forall|o: LotOrigin|
            is_root_origin_of(v, lot, o) ==> exists|i: int| 0 <= i < origins.len() && origin_equiv(#[trigger] origins[i], o),
{
    assert forall|o: LotOrigin| is_root_origin_of(v, lot, o) implies exists|i: int|
        0 <= i < origins.len() && origin_equiv(#[trigger] origins[i], o) by {
        lemma_walk_complete(v, visited, origins, lot, o);
    }
}

/// A lot the lineage of `start` refers to: the start itself, or a parent
/// named by an existing ancestor of the start.
pub open spec fn stacked_ok(v: WorldView, start: LotId, id: LotId) -> bool {
    ||| id == start
    ||| exists|path: Seq<LotId>|
        #[trigger] lineage_path(v, path) && path[0] == start && lineage_parents(v.lots[path.last().0].lineage).contains(
            id,
        )
}

pub proof fn lemma_stack_parent(v: WorldView, start: LotId, id: LotId, parent: LotId)
    requires
        is_ancestor(v, start, id),
        lineage_parents(v.lots[id.0].lineage).contains(parent),
    ensures
        stacked_ok(v, start, parent),
{
    let path = choose|path: Seq<LotId>| #[trigger] lineage_path(v, path) && path[0] == start && path.last() == id;
    assert(lineage_path(v, path) && path[0] == start && lineage_parents(v.lots[path.last().0].lineage).contains(parent));
}

impl World {
    pub fn define_commodity(&mut self, name: &str, unit: UnitOfMeasure, tier: u8, base_price: Credits) -> (id:
        CommodityId)
        requires
            old(self).wf(),
            old(self)@.has_room(2),
        ensures
            final(self).wf(),
            id == CommodityId(old(self)@.next_id),
            final(self)@.commodities[id.0].name@ == name@,
            final(self)@ == (WorldView {
                commodities: old(self)@.commodities.insert(
                    id.0,
                    CommodityDef { id, name: final(self)@.commodities[id.0].name, unit, tier, base_price },
                ),
                ..old(self)@.bump()
            }).log(EventKind::CommodityDefined { commodity: id }),
            crate::invariants::consistent(old(self)@) ==> crate::invariants::consistent(final(self)@),
    {
        let id = CommodityId(self.alloc_id());
        proof {
            self.commodities.lemma_fresh(id.0);
        }
        self.commodities.insert_new(id.0, CommodityDef { id, name: name.to_owned(), unit, tier, base_price });
        proof {
            self.lemma_keys_wf();
        }
        self.push_event(EventKind::CommodityDefined { commodity: id });
        proof {
            let o = old(self)@;
            if crate::invariants::consistent(o) {
                assert(crate::invariants::grows_soundly(o, self@));
                crate::invariants::lemma_consistent_grows(o, self@);
            }
        }
        id
    }

    /// Internal lot creation: every path that makes goods real goes through
    /// here so the event log always has a `LotCreated`.
    pub(crate) fn create_lot_raw(
        &mut self,
        owner: ActorId,
        commodity: CommodityId,
        quantity: u64,
        quality: QualityGrade,
        legal_status: LegalStatus,
        location: LocationRef,
        lineage: Lineage,
    ) -> (r: Result<LotId, SimError>)
        requires
            old(self).wf(),
            old(self)@.has_room(2),
        ensures
            final(self).wf(),
            crate::world::phase_ok(old(self)@, final(self)@),
            crate::combat::money_untouched(final(self)@, old(self)@),
            match lot_create_error(old(self)@, owner, commodity, quantity, location) {
                Some(e) => r == Err::<LotId, SimError>(e) && final(self)@ == old(self)@,
                None => r == Ok::<LotId, SimError>(LotId(old(self)@.next_id)) && final(self)@ == with_new_lot(
                    old(self)@,
                    owner,
                    commodity,
                    quantity,
                    quality,
                    legal_status,
                    location,
                    lineage,
                ),
            },
            crate::invariants::consistent(old(self)@) ==> crate::invariants::consistent(final(self)@),
    {
        if quantity == 0 {
            return Err(SimError::InvalidQuantity);
        }
        if !self.actors.contains(owner.0) {
            return Err(SimError::UnknownActor(owner));
        }
        if !self.commodities.contains(commodity.0) {
            return Err(SimError::UnknownCommodity(commodity));
        }
        if !self.location_ref_valid(location) {
            return Err(SimError::NotColocated);
        }
        let id = LotId(self.alloc_id());
        let created_day = self.clock.day;
        proof {
            self.lots.lemma_fresh(id.0);
        }
        self.lots.insert_new(
            id.0,
            Lot {
                id,
                commodity,
                quantity,
                quality,
                legal_status,
                owner,
                location,
                lineage,
                state: LotState::Active,
                created_day,
            },
        );
        proof {
            self.lemma_keys_wf();
        }
        self.push_event(EventKind::LotCreated { lot: id, commodity, quantity, owner });
        proof {
            let o = old(self)@;
            if crate::invariants::consistent(o) {
                assert(crate::invariants::grows_soundly(o, self@));
                crate::invariants::lemma_consistent_grows(o, self@);
            }
        }
        Ok(id)
    }

    /// Seed a lot into the world. Only seed-class origins are accepted;
    /// mined and produced goods must come from mining and production.
    pub fn seed_lot(
        &mut self,
        owner: ActorId,
        commodity: CommodityId,
        quantity: u64,
        quality: QualityGrade,
        legal_status: LegalStatus,
        site: LocationId,
        origin: LotOrigin,
    ) -> (r: Result<LotId, SimError>)
        requires
            old(self).wf(),
            old(self)@.has_room(2),
        ensures
            final(self).wf(),
            !is_seed_origin(origin) ==> (r matches Err(SimError::InvalidOrigin(_))) && final(self)@ == old(self)@,
            is_seed_origin(origin) && !old(self)@.locations.dom().contains(site.0) ==> r == Err::<
                LotId,
                SimError,
            >(SimError::UnknownLocation(site)) && final(self)@ == old(self)@,
            is_seed_origin(origin) && old(self)@.locations.dom().contains(site.0) ==> match lot_create_error(
                old(self)@,
                owner,
                commodity,
                quantity,
                LocationRef::Site(site),
            ) {
                Some(e) => r == Err::<LotId, SimError>(e) && final(self)@ == old(self)@,
                None => r == Ok::<LotId, SimError>(LotId(old(self)@.next_id)) && final(self)@ == with_new_lot(
                    old(self)@,
                    owner,
                    commodity,
                    quantity,
                    quality,
                    legal_status,
                    LocationRef::Site(site),
                    Lineage::Root(origin),
                ),
            },
            crate::invariants::consistent(old(self)@) ==> crate::invariants::consistent(final(self)@),
    {
        match origin {
            LotOrigin::SeededHistorical { .. } | LotOrigin::Imported { .. } | LotOrigin::AdminPlaced { .. } => {},
            _ => {
                return Err(
                    SimError::InvalidOrigin(
                        "seed_lot only accepts SeededHistorical/Imported/AdminPlaced origins".to_owned(),
                    ),
                );
            },
        }
        if !self.locations.contains(site.0) {
            return Err(SimError::UnknownLocation(site));
        }
        let r = self.create_lot_raw(
            owner,
            commodity,
            quantity,
            quality,
            legal_status,
            LocationRef::Site(site),
            Lineage::Root(origin),
        );
        proof {
            let o = old(self)@;
            if crate::invariants::consistent(o) {
                assert(crate::invariants::grows_soundly(o, self@));
                crate::invariants::lemma_consistent_grows(o, self@);
            }
        }
        r
    }

    /// Extract real goods from a mine, respecting its depletion mode.
    pub fn produce_from_mine(
        &mut self,
        mine: LocationId,
        owner: ActorId,
        commodity: CommodityId,
        quantity: u64,
        quality: QualityGrade,
    ) -> (r: Result<LotId, SimError>)
        requires
            old(self).wf(),
            old(self)@.has_room(3),
        ensures
            final(self).wf(),
            r is Err ==> final(self)@ == old(self)@,
            quantity == 0 ==> r == Err::<LotId, SimError>(SimError::InvalidQuantity),
            quantity != 0 && !old(self)@.locations.dom().contains(mine.0) ==> r == Err::<LotId, SimError>(
                SimError::UnknownLocation(mine),
            ),
            quantity != 0 && old(self)@.locations.dom().contains(mine.0) ==> match old(
                self,
            )@.locations[mine.0].mine_reserves {
                None => r == Err::<LotId, SimError>(SimError::InvalidLocationKind(mine)),
                Some(reserves) => if reserves matches MineReserves::Finite { remaining } && remaining
                    < quantity {
                    r == Err::<LotId, SimError>(
                        SimError::InsufficientQuantity {
                            commodity,
                            missing: (quantity - reserves->remaining) as u64,
                        },
                    )
                } else {
                    match lot_create_error(old(self)@, owner, commodity, quantity, LocationRef::Site(mine)) {
                        Some(e) => r == Err::<LotId, SimError>(e),
                        None => {
                            let made = with_new_lot(
                                old(self)@,
                                owner,
                                commodity,
                                quantity,
                                quality,
                                LegalStatus::Legitimate,
                                LocationRef::Site(mine),
                                Lineage::Root(LotOrigin::Mined { mine }),
                            );
                            let depleted = match reserves {
                                MineReserves::Infinite => made,
                                MineReserves::Finite { remaining } => WorldView {
                                    locations: made.locations.insert(
                                        mine.0,
                                        Location {
                                            mine_reserves: Some(
                                                MineReserves::Finite { remaining: (remaining - quantity) as u64 },
                                            ),
                                            ..made.locations[mine.0]
                                        },
                                    ),
                                    ..made
                                },
                            };
                            r == Ok::<LotId, SimError>(LotId(old(self)@.next_id)) && final(self)@
                                == depleted.log(
                                EventKind::MineYield { mine, lot: LotId(old(self)@.next_id), quantity },
                            )
                        },
                    }
                },
            },
            crate::invariants::consistent(old(self)@) ==> crate::invariants::consistent(final(self)@),
    {
        if quantity == 0 {
            return Err(SimError::InvalidQuantity);
        }
        let reserves = match self.locations.get(mine.0) {
            None => {
                return Err(SimError::UnknownLocation(mine));
            },
            Some(loc) => match loc.mine_reserves {
                None => {
                    return Err(SimError::InvalidLocationKind(mine));
                },
                Some(reserves) => reserves,
            },
        };
        if let MineReserves::Finite { remaining } = reserves {
            if remaining < quantity {
                return Err(SimError::InsufficientQuantity { commodity, missing: quantity - remaining });
            }
        }
        let lot = self.create_lot_raw(
            owner,
            commodity,
            quantity,
            quality,
            LegalStatus::Legitimate,
            LocationRef::Site(mine),
            Lineage::Root(LotOrigin::Mined { mine }),
        )?;
        if let MineReserves::Finite { remaining } = reserves {
            let loc = self.locations.get_mut(mine.0);
            loc.mine_reserves = Some(MineReserves::Finite { remaining: remaining - quantity });
        }
        proof {
            self.lemma_keys_wf();
        }
        self.push_event(EventKind::MineYield { mine, lot, quantity });
        proof {
            let o = old(self)@;
            if crate::invariants::consistent(o) {
                assert(crate::invariants::grows_soundly(o, self@));
                crate::invariants::lemma_consistent_grows(o, self@);
            }
        }
        Ok(lot)
    }
    /// Real consumption that destroys goods with no production output (a
    /// population eating food). Marks the lot `Depleted` when exhausted.
    pub(crate) fn consume_lot_quantity(&mut self, lot: LotId, quantity: u64) -> (r: Result<(), SimError>)
        requires
            old(self).wf(),
            old(self)@.has_room(1),
        ensures
            final(self).wf(),
            crate::world::phase_ok(old(self)@, final(self)@),
            crate::combat::money_untouched(final(self)@, old(self)@),
            r is Err ==> final(self)@ == old(self)@,
            !old(self)@.lots.dom().contains(lot.0) ==> r == Err::<(), SimError>(SimError::UnknownLot(lot)),
            old(self)@.lots.dom().contains(lot.0) && old(self)@.lots[lot.0].state != LotState::Active ==> r
                == Err::<(), SimError>(SimError::LotNotActive(lot)),
            old(self)@.lots.dom().contains(lot.0) && old(self)@.lots[lot.0].state == LotState::Active && (
            quantity == 0 || quantity > old(self)@.lots[lot.0].quantity) ==> r == Err::<(), SimError>(
                SimError::InvalidQuantity,
            ),
            old(self)@.lots.dom().contains(lot.0) && old(self)@.lots[lot.0].state == LotState::Active && 0
                < quantity <= old(self)@.lots[lot.0].quantity ==> {
                let l = old(self)@.lots[lot.0];
                let left = (l.quantity - quantity) as u64;
                r is Ok && final(self)@ == with_lot(
                    old(self)@,
                    lot.0,
                    Lot {
                        quantity: left,
                        state: if left == 0 {
                            LotState::Depleted
                        } else {
                            LotState::Active
                        },
                        ..l
                    },
                ).log(EventKind::GoodsConsumed { lot, commodity: l.commodity, owner: l.owner, quantity })
            },
    {
        if !self.lots.contains(lot.0) {
            return Err(SimError::UnknownLot(lot));
        }
        let l = self.lots.get_mut(lot.0);
        if !matches!(l.state, LotState::Active) {
            return Err(SimError::LotNotActive(lot));
        }
        if quantity == 0 || quantity > l.quantity {
            return Err(SimError::InvalidQuantity);
        }
        l.quantity = l.quantity - quantity;
        if l.quantity == 0 {
            l.state = LotState::Depleted;
        }
        let commodity = l.commodity;
        let owner = l.owner;
        proof {
            self.lemma_keys_wf();
        }
        self.push_event(EventKind::GoodsConsumed { lot, commodity, owner, quantity });
        Ok(())
    }

    /// Split `quantity` off an active lot into a new lot. Provenance is
    /// preserved through the lineage link.
    pub fn split_lot(&mut self, lot: LotId, quantity: u64) -> (r: Result<LotId, SimError>)
        requires
            old(self).wf(),
            old(self)@.has_room(3),
        ensures
            final(self).wf(),
            !old(self)@.lots.dom().contains(lot.0) ==> r == Err::<LotId, SimError>(SimError::UnknownLot(lot))
                && final(self)@ == old(self)@,
            old(self)@.lots.dom().contains(lot.0) && old(self)@.lots[lot.0].state != LotState::Active ==> r
                == Err::<LotId, SimError>(SimError::LotNotActive(lot)) && final(self)@ == old(self)@,
            old(self)@.lots.dom().contains(lot.0) && old(self)@.lots[lot.0].state == LotState::Active
                ==> split_outcome(old(self)@, final(self)@, lot, quantity, r),
            crate::invariants::consistent(old(self)@) ==> crate::invariants::consistent(final(self)@),
    {
        match self.lots.get(lot.0) {
            None => {
                return Err(SimError::UnknownLot(lot));
            },
            Some(l) => {
                if !matches!(l.state, LotState::Active) {
                    return Err(SimError::LotNotActive(lot));
                }
            },
        }
        self.split_lot_internal(lot, quantity)
    }

    /// Split that also works on listed lots (used by partial market fills;
    /// the child is always active).
    pub(crate) fn split_lot_internal(&mut self, lot: LotId, quantity: u64) -> (r: Result<LotId, SimError>)
        requires
            old(self).wf(),
            old(self)@.has_room(3),
        ensures
            final(self).wf(),
            crate::world::phase_ok(old(self)@, final(self)@),
            crate::combat::money_untouched(final(self)@, old(self)@),
            !old(self)@.lots.dom().contains(lot.0) ==> r == Err::<LotId, SimError>(SimError::UnknownLot(lot))
                && final(self)@ == old(self)@,
            old(self)@.lots.dom().contains(lot.0) ==> split_outcome(old(self)@, final(self)@, lot, quantity, r),
            crate::invariants::consistent(old(self)@) ==> crate::invariants::consistent(final(self)@),
    {
        let (commodity, quality, legal_status, owner, location, parent_qty) = match self.lots.get(lot.0) {
            None => {
                return Err(SimError::UnknownLot(lot));
            },
            Some(l) => (l.commodity, l.quality, l.legal_status, l.owner, l.location, l.quantity),
        };
        if quantity == 0 || quantity >= parent_qty {
            return Err(SimError::InvalidQuantity);
        }
        let child = self.create_lot_raw(
            owner,
            commodity,
            quantity,
            quality,
            legal_status,
            location,
            Lineage::SplitFrom(lot),
        )?;
        let parent = self.lots.get_mut(lot.0);
        parent.quantity = parent.quantity - quantity;
        proof {
            self.lemma_keys_wf();
        }
        self.push_event(EventKind::LotSplit { parent: lot, child, quantity });
        proof {
            if crate::invariants::consistent(old(self)@) {
                crate::invariants::law_split_keeps_invariants(old(self)@, self@, lot, quantity, child);
            }
        }
        Ok(child)
    }

    /// Transfer ownership of an active lot. Physical location is unchanged:
    /// buying goods does not teleport them.
    pub fn transfer_lot(&mut self, lot: LotId, to: ActorId) -> (r: Result<(), SimError>)
        requires
            old(self).wf(),
            old(self)@.has_room(1),
        ensures
            final(self).wf(),
            r is Err ==> final(self)@ == old(self)@,
            !old(self)@.actors.dom().contains(to.0) ==> r == Err::<(), SimError>(SimError::UnknownActor(to)),
            old(self)@.actors.dom().contains(to.0) && !old(self)@.lots.dom().contains(lot.0) ==> r == Err::<
                (),
                SimError,
            >(SimError::UnknownLot(lot)),
            old(self)@.actors.dom().contains(to.0) && old(self)@.lots.dom().contains(lot.0) && old(
                self,
            )@.lots[lot.0].state != LotState::Active ==> r == Err::<(), SimError>(SimError::LotNotActive(lot)),
            old(self)@.actors.dom().contains(to.0) && old(self)@.lots.dom().contains(lot.0) && old(
                self,
            )@.lots[lot.0].state == LotState::Active ==> r is Ok && final(self)@ == with_lot(
                old(self)@,
                lot.0,
                Lot { owner: to, ..old(self)@.lots[lot.0] },
            ).log(EventKind::LotOwnerChanged { lot, from: old(self)@.lots[lot.0].owner, to }),
            crate::invariants::consistent(old(self)@) ==> crate::invariants::consistent(final(self)@),
    {
        if !self.actors.contains(to.0) {
            return Err(SimError::UnknownActor(to));
        }
        if !self.lots.contains(lot.0) {
            return Err(SimError::UnknownLot(lot));
        }
        let l = self.lots.get_mut(lot.0);
        if !matches!(l.state, LotState::Active) {
            return Err(SimError::LotNotActive(lot));
        }
        let from = l.owner;
        l.owner = to;
        proof {
            self.lemma_keys_wf();
        }
        self.push_event(EventKind::LotOwnerChanged { lot, from, to });
        proof {
            let o = old(self)@;
            if crate::invariants::consistent(o) {
                crate::invariants::law_active_lot_change_keeps_invariants(
                    o,
                    self@,
                    lot,
                    Lot { owner: to, ..o.lots[lot.0] },
                    EventKind::LotOwnerChanged { lot, from: o.lots[lot.0].owner, to },
                );
            }
        }
        Ok(())
    }

    /// Explicit admin teleport, recorded as an admin edit. Normal goods move
    /// by convoy; this exists for operators, debugging, and world repair.
    pub fn admin_move_lot(&mut self, lot: LotId, to: LocationRef, operator: Option<ActorId>) -> (r: Result<
        (),
        SimError,
    >)
        requires
            old(self).wf(),
            old(self)@.has_room(2),
        ensures
            final(self).wf(),
            r is Err ==> final(self)@ == old(self)@,
            !ref_valid(old(self)@, to) ==> r == Err::<(), SimError>(SimError::NotColocated),
            ref_valid(old(self)@, to) && !old(self)@.lots.dom().contains(lot.0) ==> r == Err::<(), SimError>(
                SimError::UnknownLot(lot),
            ),
            ref_valid(old(self)@, to) && old(self)@.lots.dom().contains(lot.0) ==> r is Ok && final(self)@
                == with_lot(old(self)@, lot.0, Lot { location: to, ..old(self)@.lots[lot.0] }).log(
                EventKind::LotMoved { lot, from: old(self)@.lots[lot.0].location, to },
            ).log(EventKind::AdminEdit { operator, description: final(self)@.events.last().kind->description }),
            r is Ok ==> final(self)@.events.last().kind->description@ == "admin moved "@ + crate::locations::id_label(
                "LotId"@,
                lot.0,
            ),
    {
        if !self.location_ref_valid(to) {
            return Err(SimError::NotColocated);
        }
        self.move_lot_raw(lot, to)?;
        let description = "admin moved ".to_owned().concat(id_text("LotId", lot.0).as_str());
        self.push_event(EventKind::AdminEdit { operator, description });
        Ok(())
    }

    /// Internal physical move (convoy load/unload, stockpile deposit).
    pub(crate) fn move_lot_raw(&mut self, lot: LotId, to: LocationRef) -> (r: Result<(), SimError>)
        requires
            old(self).wf(),
            old(self)@.has_room(1),
        ensures
            final(self).wf(),
            crate::world::phase_ok(old(self)@, final(self)@),
            crate::combat::money_untouched(final(self)@, old(self)@),
            !old(self)@.lots.dom().contains(lot.0) ==> r == Err::<(), SimError>(SimError::UnknownLot(lot))
                && final(self)@ == old(self)@,
            old(self)@.lots.dom().contains(lot.0) ==> r is Ok && final(self)@ == with_lot(
                old(self)@,
                lot.0,
                Lot { location: to, ..old(self)@.lots[lot.0] },
            ).log(EventKind::LotMoved { lot, from: old(self)@.lots[lot.0].location, to }),
    {
        if !self.lots.contains(lot.0) {
            return Err(SimError::UnknownLot(lot));
        }
        let l = self.lots.get_mut(lot.0);
        let from = l.location;
        l.location = to;
        proof {
            self.lemma_keys_wf();
        }
        self.push_event(EventKind::LotMoved { lot, from, to });
        Ok(())
    }
    /// Merge active lots into one. Commodity, quality, legal status, owner
    /// and location must all match: merging never launders provenance or
    /// blurs quality. The merged lot's lineage records every source.
    pub fn merge_lots(&mut self, sources: &[LotId]) -> (r: Result<LotId, SimError>)
        requires
            old(self).wf(),
            old(self)@.has_room(3),
        ensures
            final(self).wf(),
            merge_outcome(old(self)@, final(self)@, sources@, r),
            crate::invariants::consistent(old(self)@) && (forall|i: int|
                0 <= i < sources@.len() ==> !crate::invariants::on_manifest(old(self)@, #[trigger] sources@[i]))
                ==> crate::invariants::consistent(final(self)@),
    {
        let ghost v = self@;
        if sources.len() < 2 {
            return Err(SimError::MergeMismatch("need at least two lots".to_owned()));
        }
        let first_id = sources[0];
        let (f_commodity, f_quality, f_legal, f_owner, f_location) = match self.lots.get(first_id.0) {
            None => {
                return Err(SimError::UnknownLot(first_id));
            },
            Some(l) => (l.commodity, l.quality, l.legal_status, l.owner, l.location),
        };
        let ghost first = v.lots[first_id.0];
        let mut total: u64 = 0;
        let mut i: usize = 0;
        while i < sources.len()
            invariant
                self.wf(),
                self@ == v,
                0 <= i <= sources@.len(),
                sources@.len() >= 2,
                first == v.lots[sources@[0].0],
                f_commodity == first.commodity,
                f_quality == first.quality,
                f_legal == first.legal_status,
                f_owner == first.owner,
                f_location == first.location,
                merge_scan(v, sources@, first, 0, 0) == merge_scan(v, sources@, first, i as int, total as int),
            decreases sources@.len() - i,
        {
            let id = sources[i];
            let l = match self.lots.get(id.0) {
                None => {
                    return Err(SimError::UnknownLot(id));
                },
                Some(l) => l,
            };
            if !matches!(l.state, LotState::Active) {
                return Err(SimError::LotNotActive(id));
            }
            if l.commodity != f_commodity {
                return Err(SimError::MergeMismatch("commodity differs".to_owned()));
            }
            if l.quality != f_quality {
                return Err(SimError::MergeMismatch("quality differs".to_owned()));
            }
            if l.legal_status != f_legal {
                return Err(SimError::MergeMismatch("legal status differs".to_owned()));
            }
            if l.owner != f_owner {
                return Err(SimError::MergeMismatch("owner differs".to_owned()));
            }
            if l.location != f_location {
                return Err(SimError::MergeMismatch("location differs".to_owned()));
            }
            total = match total.checked_add(l.quantity) {
                Some(t) => t,
                None => {
                    return Err(SimError::Overflow);
                },
            };
            i = i + 1;
        }
        // Reject duplicates: merging a lot with itself would double-count.
        let mut a: usize = 0;
        while a < sources.len()
            invariant
                self.wf(),
                self@ == v,
                sources@.len() >= 2,
                first == v.lots[sources@[0].0],
                merge_scan(v, sources@, first, 0, 0) == Ok::<int, Option<SimError>>(total as int),
                0 <= a <= sources@.len(),
                forall|x: int, y: int| 0 <= x < a && x < y < sources@.len() ==> sources@[x] != sources@[y],
            decreases sources@.len() - a,
        {
            let mut b: usize = a + 1;
            while b < sources.len()
                invariant
                    self.wf(),
                    self@ == v,
                    sources@.len() >= 2,
                    first == v.lots[sources@[0].0],
                    merge_scan(v, sources@, first, 0, 0) == Ok::<int, Option<SimError>>(total as int),
                    0 <= a < sources@.len(),
                    a + 1 <= b <= sources@.len(),
                    forall|x: int, y: int| 0 <= x < a && x < y < sources@.len() ==> sources@[x] != sources@[y],
                    forall|y: int| a < y < b ==> sources@[a as int] != sources@[y],
                decreases sources@.len() - b,
            {
                if sources[a].0 == sources[b].0 {
                    return Err(SimError::MergeMismatch("duplicate source lot".to_owned()));
                }
                b = b + 1;
            }
            a = a + 1;
        }
        assert(sources@.no_duplicates()) by {
            assert forall|x: int, y: int| 0 <= x < sources@.len() && 0 <= y < sources@.len() && x != y implies sources@[x] != sources@[y] by {
                if x > y {
                    assert(sources@[y] != sources@[x]);
                }
            }
        }
        proof {
            lemma_merge_scan_ok(v, sources@, first, 0, 0);
        }
        let result = self.create_lot_raw(
            f_owner,
            f_commodity,
            total,
            f_quality,
            f_legal,
            f_location,
            Lineage::MergedFrom(crate::table::copy_slice(sources)),
        )?;
        let ghost made = self@;
        let mut j: usize = 0;
        while j < sources.len()
            invariant
                self.tables_wf(),
                self@.log_wf(),
                0 <= j <= sources@.len(),
                self@ == (WorldView { lots: mark_merged(made.lots, sources@.take(j as int), result), ..made }),
                merge_scan(v, sources@, first, 0, 0) is Ok,
                forall|k: int| 0 <= k < sources@.len() ==> #[trigger] made.lots.dom().contains(sources@[k].0),
                made.lots.dom() == v.lots.dom().insert(result.0),
            decreases sources@.len() - j,
        {
            let id = sources[j];
            proof {
                let t = sources@.take(j as int);
                assert forall|k: int| 0 <= k < t.len() implies #[trigger] made.lots.dom().contains(t[k].0) by {
                    assert(t[k] == sources@[k]);
                }
                lemma_mark_merged_dom(made.lots, t, result);
                assert(made.lots.dom().contains(sources@[j as int].0));
            }
            let l = self.lots.get_mut(id.0);
            l.state = LotState::MergedInto(result);
            j = j + 1;
            assert(sources@.take(j as int).drop_last() =~= sources@.take(j - 1));
        }
        assert(sources@.take(sources@.len() as int) =~= sources@);
        proof {
            lemma_mark_merged_dom(made.lots, sources@, result);
            assert forall|i: int| 0 <= i < sources@.len() implies #[trigger] sources@[i].0 != result.0 by {
                assert(v.lots.dom().contains(sources@[i].0));
            }
            lemma_mark_merged_other(made.lots, sources@, result, result.0);
            self.lemma_keys_wf();
        }
        self.push_event(EventKind::LotsMerged { sources: crate::table::copy_slice(sources), result });
        proof {
            if crate::invariants::consistent(old(self)@) && forall|i: int| 0 <= i < sources@.len() ==> !crate::invariants::on_manifest(old(self)@, #[trigger] sources@[i]) {
                crate::invariants::law_merge_keeps_invariants(old(self)@, self@, sources@, result);
            }
        }
        Ok(result)
    }
    /// Resolve a lot's root origins by walking lineage through retired
    /// records. A merged lot reports every root origin it descends from, in
    /// first-encountered order, without repeats.
    pub fn root_origins(&self, lot: LotId) -> (r: Result<Vec<LotOrigin>, SimError>)
        requires
            self.wf(),
        ensures
            r matches Ok(origins) ==> {
                &&& forall|i: int| 0 <= i < origins@.len() ==> is_root_origin_of(self@, lot, #[trigger] origins@[i])
                &&& forall|i: int, j: int|
                    0 <= i < j < origins@.len() ==> !origin_equiv(#[trigger] origins@[i], #[trigger] origins@[j])
                &&& forall|o: LotOrigin|
                    is_root_origin_of(self@, lot, o) ==> exists|i: int|
                        0 <= i < origins@.len() && origin_equiv(#[trigger] origins@[i], o)
            },
            r matches Err(e) ==> e matches SimError::UnknownLot(x) && stacked_ok(self@, lot, x) && !self@.lots.dom().contains(
                x.0,
            ),
            !self@.lots.dom().contains(lot.0) ==> r == Err::<Vec<LotOrigin>, SimError>(SimError::UnknownLot(lot)),
    {
        let ghost v = self@;
        let mut origins: Vec<LotOrigin> = Vec::new();
        let mut stack: Vec<LotId> = Vec::new();
        stack.push(lot);
        let mut visited: Vec<u64> = Vec::new();
        let n_lots = self.lots.len();
        proof {
            self.lots.lemma_facts();
            crate::table::lemma_increasing_distinct(self.lots.keys());
        }
        loop
            invariant
                self.wf(),
                self@ == v,
                n_lots == self.lots.keys().len(),
                self.lots.keys().no_duplicates(),
                visited@.no_duplicates(),
                forall|i: int| 0 <= i < visited@.len() ==> self.lots.keys().contains(#[trigger] visited@[i]),
                forall|i: int| 0 <= i < stack@.len() ==> stacked_ok(v, lot, #[trigger] stack@[i]),
                forall|i: int| 0 <= i < origins@.len() ==> is_root_origin_of(v, lot, #[trigger] origins@[i]),
                forall|i: int, j: int|
                    0 <= i < j < origins@.len() ==> !origin_equiv(#[trigger] origins@[i], #[trigger] origins@[j]),
                !v.lots.dom().contains(lot.0) ==> stack@.len() == 1 && stack@[0] == lot && visited@.len() == 0,
                visited@.contains(lot.0) || stack@.contains(lot),
                forall|x: int| 0 <= x < visited@.len() ==> walk_closed(v, visited@, stack@, #[trigger] visited@[x]),
                forall|x: int| 0 <= x < visited@.len() ==> origin_found(v, origins@, #[trigger] visited@[x]),
            ensures
                v.lots.dom().contains(lot.0),
                forall|i: int| 0 <= i < origins@.len() ==> is_root_origin_of(v, lot, #[trigger] origins@[i]),
                forall|i: int, j: int|
                    0 <= i < j < origins@.len() ==> !origin_equiv(#[trigger] origins@[i], #[trigger] origins@[j]),
                visited@.contains(lot.0),
                forall|x: int|
                    0 <= x < visited@.len() ==> walk_closed(v, visited@, Seq::<LotId>::empty(), #[trigger] visited@[x]),
                forall|x: int| 0 <= x < visited@.len() ==> origin_found(v, origins@, #[trigger] visited@[x]),
            decreases n_lots - visited@.len(), stack@.len(),
        {
            proof {
                crate::table::lemma_distinct_within(visited@, self.lots.keys());
            }
            let ghost st0 = stack@;
            let ghost vis0 = visited@;
            let ghost ors0 = origins@;
            let id = match stack.pop() {
                None => {
                    proof {
                        assert(stack@ =~= Seq::<LotId>::empty());
                    }
                    break;
                },
                Some(id) => id,
            };
            let mut seen = false;
            let mut t: usize = 0;
            while t < visited.len()
                invariant
                    t <= visited@.len(),
                    seen == exists|x: int| 0 <= x < t && visited@[x] == id.0,
                decreases visited@.len() - t,
            {
                if visited[t] == id.0 {
                    seen = true;
                }
                t = t + 1;
            }
            if seen {
                proof {
                    let y = choose|y: int| 0 <= y < vis0.len() && vis0[y] == id.0;
                    assert(vis0.contains(id.0));
                    assert forall|x: int| 0 <= x < visited@.len() implies walk_closed(
                        v,
                        visited@,
                        stack@,
                        #[trigger] visited@[x],
                    ) by {
                        lemma_pop_walked(v, vis0, st0, vis0[x]);
                    }
                    if !vis0.contains(lot.0) {
                        let z = choose|z: int| 0 <= z < st0.len() && st0[z] == lot;
                        if z < st0.len() - 1 {
                            assert(stack@[z] == lot);
                        }
                    }
                }
                continue;
            }
            let l = match self.lots.get(id.0) {
                None => {
                    proof {
                        assert(st0[st0.len() - 1] == id);
                        assert(stacked_ok(v, lot, st0[st0.len() - 1]));
                    }
                    return Err(SimError::UnknownLot(id));
                },
                Some(l) => l,
            };
            proof {
                self.lots.lemma_facts();
                assert(self.lots.keys().contains(id.0));
                assert forall|x: int, y: int| 0 <= x < visited@.push(id.0).len() && 0 <= y < visited@.push(id.0).len() && x != y implies visited@.push(id.0)[x] != visited@.push(id.0)[y] by {
                    if x < visited@.len() && y < visited@.len() {
                    } else if x == visited@.len() {
                        assert(visited@[y] != id.0);
                    } else {
                        assert(visited@[x] != id.0);
                    }
                }
                // the popped lot is an ancestor of the start
                if id == lot {
                    assert(lineage_path(v, seq![lot]));
                    assert(seq![lot][0] == lot && seq![lot].last() == lot);
                } else {
                    let path = choose|path: Seq<LotId>| #[trigger] lineage_path(v, path) && path[0] == lot
                        && lineage_parents(v.lots[path.last().0].lineage).contains(id);
                    lemma_path_step(v, path, id);
                }
                assert(is_ancestor(v, lot, id));
            }
            visited.push(id.0);
            proof {
                crate::table::lemma_distinct_within(visited@, self.lots.keys());
                assert forall|x: int| 0 <= x < vis0.len() implies walk_closed(v, visited@, stack@, #[trigger] vis0[x]) by {
                    lemma_visit_walked(v, vis0, st0, vis0[x]);
                }
                assert(visited@[vis0.len() as int] == id.0);
                if !vis0.contains(lot.0) {
                    let z = choose|z: int| 0 <= z < st0.len() && st0[z] == lot;
                    if z < st0.len() - 1 {
                        assert(stack@[z] == lot);
                    }
                } else {
                    let z = choose|z: int| 0 <= z < vis0.len() && vis0[z] == lot.0;
                    assert(visited@[z] == lot.0);
                }
                assert(visited@.contains(lot.0) || stack@.contains(lot));
            }
            let ghost vis1 = visited@;
            match &l.lineage {
                Lineage::Root(origin) => {
                    let mut dup = false;
                    let mut q: usize = 0;
                    while q < origins.len()
                        invariant
                            q <= origins@.len(),
                            dup == exists|x: int| 0 <= x < q && origin_equiv(origins@[x], *origin),
                        decreases origins@.len() - q,
                    {
                        if origins[q].same_as(origin) {
                            dup = true;
                        }
                        q = q + 1;
                    }
                    if !dup {
                        let o = origin.duplicate();
                        proof {
                            assert(is_ancestor(v, lot, id));
                            assert(is_root_origin_of(v, lot, o));
                        }
                        origins.push(o);
                        proof {
                            assert forall|i: int, j: int| 0 <= i < j < origins@.len() implies !origin_equiv(
                                #[trigger] origins@[i],
                                #[trigger] origins@[j],
                            ) by {
                                if j == origins@.len() - 1 {
                                    assert(!origin_equiv(origins@[i], o));
                                }
                            }
                            assert forall|x: int| 0 <= x < vis0.len() implies origin_found(v, origins@, #[trigger] vis0[x]) by {
                                lemma_found_push(v, ors0, vis0[x], o);
                            }
                            assert(origins@[ors0.len() as int] == o);
                            assert(origin_equiv(o, *origin));
                        }
                    }
                    proof {
                        assert(origin_found(v, origins@, id.0));
                        assert(walk_closed(v, visited@, stack@, id.0));
                        assert forall|x: int| 0 <= x < visited@.len() implies walk_closed(v, visited@, stack@, #[trigger] visited@[x])
                            && origin_found(v, origins@, visited@[x]) by {
                            if x < vis0.len() {
                                assert(visited@[x] == vis0[x]);
                            }
                        }
                    }
                },
                Lineage::SplitFrom(parent) => {
                    proof {
                        assert(lineage_parents(v.lots[id.0].lineage)[0] == *parent);
                        assert(lineage_parents(v.lots[id.0].lineage).contains(*parent));
                        lemma_stack_parent(v, lot, id, *parent);
                    }
                    let ghost st1 = stack@;
                    stack.push(*parent);
                    proof {
                        assert(stack@[st1.len() as int] == *parent);
                        assert(walk_closed(v, visited@, stack@, id.0));
                        assert forall|x: int| 0 <= x < visited@.len() implies walk_closed(v, visited@, stack@, #[trigger] visited@[x])
                            && origin_found(v, origins@, visited@[x]) by {
                            if x < vis0.len() {
                                assert(visited@[x] == vis0[x]);
                                lemma_push_walked(v, visited@, st1, vis0[x], *parent);
                            }
                        }
                        if st1.contains(lot) {
                            let z = choose|z: int| 0 <= z < st1.len() && st1[z] == lot;
                            assert(stack@[z] == lot);
                        }
                    }
                },
                Lineage::MergedFrom(parents) => {
                    let mut p: usize = 0;
                    while p < parents.len()
                        invariant
                            p <= parents@.len(),
                            lineage_parents(v.lots[id.0].lineage) == parents@,
                            is_ancestor(v, lot, id),
                            v.lots.dom().contains(id.0),
                            forall|i: int| 0 <= i < stack@.len() ==> stacked_ok(v, lot, #[trigger] stack@[i]),
                            visited@ == vis1,
                            vis1 == vis0.push(id.0),
                            origins@ == ors0,
                            visited@.contains(lot.0) || stack@.contains(lot),
                            forall|x: int| 0 <= x < vis0.len() ==> walk_closed(v, visited@, stack@, #[trigger] vis0[x]),
                            forall|j: int| 0 <= j < p ==> stack@.contains(#[trigger] parents@[j]),
                        decreases parents@.len() - p,
                    {
                        proof {
                            assert(parents@.contains(parents@[p as int]));
                            lemma_stack_parent(v, lot, id, parents@[p as int]);
                        }
                        let ghost st1 = stack@;
                        stack.push(parents[p]);
                        proof {
                            assert forall|x: int| 0 <= x < vis0.len() implies walk_closed(v, visited@, stack@, #[trigger] vis0[x]) by {
                                lemma_push_walked(v, visited@, st1, vis0[x], parents@[p as int]);
                            }
                            assert forall|j: int| 0 <= j < p + 1 implies stack@.contains(#[trigger] parents@[j]) by {
                                if j < p {
                                    let z = choose|z: int| 0 <= z < st1.len() && st1[z] == parents@[j];
                                    assert(stack@[z] == parents@[j]);
                                } else {
                                    assert(stack@[st1.len() as int] == parents@[j]);
                                }
                            }
                            if st1.contains(lot) {
                                let z = choose|z: int| 0 <= z < st1.len() && st1[z] == lot;
                                assert(stack@[z] == lot);
                            }
                        }
                        p = p + 1;
                    }
                    proof {
                        assert(walk_closed(v, visited@, stack@, id.0));
                        assert forall|x: int| 0 <= x < visited@.len() implies walk_closed(v, visited@, stack@, #[trigger] visited@[x])
                            && origin_found(v, origins@, visited@[x]) by {
                            if x < vis0.len() {
                                assert(visited@[x] == vis0[x]);
                            }
                        }
                    }
                },
            }
        }
        proof {
            lemma_walk_complete_all(v, visited@, origins@, lot);
            assert(self@ == v);
        }
        let found: Result<Vec<LotOrigin>, SimError> = Ok(origins);
        assert(found matches Ok(os) && os@ == origins@);
        found
    }
}

} // verus!
