use vstd::prelude::*;

use crate::id::Id;
use crate::pack_info::RepackCandidate;
use crate::pruner::{
    blob_step, blobs_fold, count_packs, decide_fold, pack_step, pc_zero, remove_ids, sel_fold,
    sel_step, spec_has_used, DecideState, PackCount, PackToDo, PrunePackV, SelState,
};
use crate::repofile::{BlobType, IndexBlob};

verus! {

// ------------------------------------------------------------------
// Counter saturation.
// ------------------------------------------------------------------

/// The used-ids table never holds a counter above 255: counters are bytes
/// and the counting phase adds with saturation.
pub proof fn lemma_counter_saturation(m: Map<Id, u8>, packs: Seq<PrunePackV>, id: Id)
    ensures
        count_packs(m, packs).contains_key(id) ==> count_packs(m, packs)[id] <= 255,
{
}

// ------------------------------------------------------------------
// Budget monotonicity.
// ------------------------------------------------------------------

/// Along the budgeted selection, the repack volume and the picked set only
/// grow, and the unused, removed and projected-residual tallies that the
/// guards read never change except that the residual shrinks.
pub proof fn lemma_sel_monotone(st: SelState, cands: Seq<RepackCandidate>, mr: int, mu: int)
    ensures
        ({
            let r = sel_fold(st, cands, mr, mu);
            &&& r.stats.size_repack >= st.stats.size_repack
            &&& r.stats.size_repackrm >= st.stats.size_repackrm
            &&& r.stats.size_unused == st.stats.size_unused
            &&& r.stats.size_remove == st.stats.size_remove
            &&& forall|id: Id| st.repack_ids.contains(id) ==> r.repack_ids.contains(id)
        }),
    decreases cands.len(),
{
    if cands.len() > 0 {
        lemma_sel_monotone(sel_step(st, cands.first(), mr, mu), cands.drop_first(), mr, mu);
    }
}

/// Budget monotonicity: the total volume selected for rewriting never
/// exceeds the repack cap.
pub proof fn lemma_repack_budget(st: SelState, cands: Seq<RepackCandidate>, mr: int, mu: int)
    requires
        st.stats.size_repack <= mr,
    ensures
        sel_fold(st, cands, mr, mu).stats.size_repack <= mr,
    decreases cands.len(),
{
    if cands.len() > 0 {
        lemma_repack_budget(sel_step(st, cands.first(), mr, mu), cands.drop_first(), mr, mu);
    }
}

/// Residual-waste feasibility: a data candidate that the selection left
/// unpicked was either blocked by the repack cap (admitting it would reach
/// the cap even against the final volume), or the projected residual unused
/// bytes already sit within the tolerance at the end.  Tree packs bypass
/// the tolerance floor by design, so nothing is claimed of them.
pub proof fn lemma_residual_unused(st: SelState, cands: Seq<RepackCandidate>, mr: int, mu: int)
    ensures
        ({
            let r = sel_fold(st, cands, mr, mu);
            forall|t: int|
                0 <= t < cands.len() && (#[trigger] cands[t]).pi.blob_type != BlobType::Tree
                    && !r.repack_ids.contains(cands[t].id) ==> {
                    ||| r.stats.size_unused - r.stats.size_remove - r.stats.size_repackrm <= mu
                    ||| r.stats.size_repack + cands[t].pi.unused_size + cands[t].pi.used_size
                        >= mr
                }
        }),
    decreases cands.len(),
{
    if cands.len() > 0 {
        let c = cands.first();
        let st1 = sel_step(st, c, mr, mu);
        lemma_residual_unused(st1, cands.drop_first(), mr, mu);
        lemma_sel_monotone(st1, cands.drop_first(), mr, mu);
        let r = sel_fold(st, cands, mr, mu);
        assert forall|t: int|
            0 <= t < cands.len() && (#[trigger] cands[t]).pi.blob_type != BlobType::Tree
                && !r.repack_ids.contains(cands[t].id) implies {
            ||| r.stats.size_unused - r.stats.size_remove - r.stats.size_repackrm <= mu
            ||| r.stats.size_repack + cands[t].pi.unused_size + cands[t].pi.used_size >= mr
        } by {
            if t == 0 {
                let total_c = c.pi.unused_size + c.pi.used_size;
                let unused_after = st.stats.size_unused - st.stats.size_remove
                    - st.stats.size_repackrm;
                if st.stats.size_repack + total_c >= mr {
                    assert(r.stats.size_repack >= st1.stats.size_repack);
                } else if c.pi.blob_type != BlobType::Tree && unused_after <= mu {
                    assert(r.stats.size_repackrm >= st.stats.size_repackrm);
                } else {
                    assert(st1.repack_ids.contains(c.id));
                    assert(r.repack_ids.contains(c.id));
                }
            } else {
                assert(cands.drop_first()[t - 1] == cands[t]);
            }
        }
    }
}

// ------------------------------------------------------------------
// Duplicate resolution: a used blob is claimed by at most one pack.
// ------------------------------------------------------------------

/// A used id is settled once its counter shows zero or its entry is gone:
/// from then on no pack counts it as used again.
pub open spec fn settled(m: Map<Id, u8>, id: Id) -> bool {
    !m.contains_key(id) || m[id] == 0
}

/// Whether classifying one blob counts `id` as used (claims it).
pub open spec fn blob_claims(m: Map<Id, u8>, b: IndexBlob, hu: bool, id: Id) -> int {
    if b.id == id && m.contains_key(id) && (m[id] == 1 || (m[id] >= 2 && hu)) {
        1
    } else {
        0
    }
}

/// How often a pack's blobs claim `id`, threading the table as the
/// classification does.
pub open spec fn blobs_claims(
    pc: PackCount,
    m: Map<Id, u8>,
    blobs: Seq<IndexBlob>,
    hu: bool,
    id: Id,
) -> int
    decreases blobs.len(),
{
    if blobs.len() == 0 {
        0
    } else {
        let c = blob_claims(m, blobs.first(), hu, id);
        let (pc2, m2) = blob_step(pc, m, blobs.first(), hu);
        c + blobs_claims(pc2, m2, blobs.drop_first(), hu, id)
    }
}

/// How often one pack claims `id`.
pub open spec fn pack_claims(st: DecideState, p: PrunePackV, id: Id) -> int {
    if st.missing is Some {
        0
    } else {
        blobs_claims(pc_zero(), st.m, p.blobs, spec_has_used(p.blobs, st.m), id)
    }
}

/// How often a run of packs claims `id`, in classification order.
pub open spec fn packs_claims(st: DecideState, packs: Seq<PrunePackV>, id: Id) -> int
    decreases packs.len(),
{
    if packs.len() == 0 {
        0
    } else {
        pack_claims(st, packs.first(), id) + packs_claims(
            pack_step(st, packs.first()),
            packs.drop_first(),
            id,
        )
    }
}

/// Within one pack: a settled id is never claimed and stays settled; an
/// unsettled id is claimed at most once, and if it is claimed it comes out
/// settled.
proof fn lemma_blobs_claims_le(pc: PackCount, m: Map<Id, u8>, blobs: Seq<IndexBlob>, hu: bool, id: Id)
    ensures
        ({
            let cl = blobs_claims(pc, m, blobs, hu, id);
            let m2 = blobs_fold(pc, m, blobs, hu).1;
            &&& 0 <= cl <= 1
            &&& settled(m, id) ==> cl == 0 && settled(m2, id)
            &&& cl == 1 ==> settled(m2, id)
            &&& (!settled(m, id) && cl == 0) ==> !settled(m2, id)
        }),
    decreases blobs.len(),
{
    if blobs.len() > 0 {
        let b = blobs.first();
        let (pc2, m2) = blob_step(pc, m, b, hu);
        lemma_blobs_claims_le(pc2, m2, blobs.drop_first(), hu, id);
    }
}

/// Dropping the ids of a fully used pack keeps a settled id settled, and
/// settles nothing new for ids that do not occur in it.
proof fn lemma_remove_ids_settled(m: Map<Id, u8>, blobs: Seq<IndexBlob>, id: Id)
    ensures
        settled(m, id) ==> settled(remove_ids(m, blobs), id),
        remove_ids(m, blobs).contains_key(id) ==> m.contains_key(id) && remove_ids(m, blobs)[id]
            == m[id],
    decreases blobs.len(),
{
    if blobs.len() > 0 {
        lemma_remove_ids_settled(m.remove(blobs.first().id), blobs.drop_first(), id);
    }
}

/// Duplicate resolution, the uniqueness half: across the whole
/// classification, a used blob is counted as used by at most one pack, and
/// once some pack claimed it the table shows it settled.
pub proof fn lemma_claims_at_most_once(st: DecideState, packs: Seq<PrunePackV>, id: Id)
    ensures
        ({
            let cl = packs_claims(st, packs, id);
            let st2 = decide_fold(st, packs);
            &&& 0 <= cl <= 1
            &&& settled(st.m, id) ==> cl == 0
        }),
    decreases packs.len(),
{
    if packs.len() > 0 {
        let p = packs.first();
        let st1 = pack_step(st, p);
        lemma_claims_at_most_once(st1, packs.drop_first(), id);
        if st.missing is Some {
            assert(st1 == st);
            assert(pack_claims(st, p, id) == 0);
        } else {
            let hu = spec_has_used(p.blobs, st.m);
            lemma_blobs_claims_le(pc_zero(), st.m, p.blobs, hu, id);
            let m2 = blobs_fold(pc_zero(), st.m, p.blobs, hu).1;
            if pack_claims(st, p, id) == 1 {
                // claimed here: afterwards the id is settled everywhere
                assert(settled(m2, id));
                if st1.missing is None {
                    lemma_remove_ids_settled(m2, p.blobs, id);
                    assert(settled(st1.m, id));
                }
                lemma_settled_claims_zero(st1, packs.drop_first(), id);
            }
            if settled(st.m, id) {
                assert(pack_claims(st, p, id) == 0);
                if st1.missing is None {
                    lemma_remove_ids_settled(m2, p.blobs, id);
                    assert(settled(st1.m, id));
                }
                lemma_settled_claims_zero(st1, packs.drop_first(), id);
            }
        }
    }
}

/// How often `id` occurs among a run of blob descriptors.
pub open spec fn occ_blobs(id: Id, blobs: Seq<IndexBlob>) -> int
    decreases blobs.len(),
{
    if blobs.len() == 0 {
        0
    } else {
        (if blobs.first().id == id {
            1int
        } else {
            0int
        }) + occ_blobs(id, blobs.drop_first())
    }
}

/// How often `id` occurs across a run of packs.
pub open spec fn occ_packs(id: Id, packs: Seq<PrunePackV>) -> int
    decreases packs.len(),
{
    if packs.len() == 0 {
        0
    } else {
        occ_blobs(id, packs.first().blobs) + occ_packs(id, packs.drop_first())
    }
}

proof fn lemma_occ_nonneg(id: Id, blobs: Seq<IndexBlob>)
    ensures
        occ_blobs(id, blobs) >= 0,
    decreases blobs.len(),
{
    if blobs.len() > 0 {
        lemma_occ_nonneg(id, blobs.drop_first());
    }
}

proof fn lemma_occ_packs_nonneg(id: Id, packs: Seq<PrunePackV>)
    ensures
        occ_packs(id, packs) >= 0,
    decreases packs.len(),
{
    if packs.len() > 0 {
        lemma_occ_nonneg(id, packs.first().blobs);
        lemma_occ_packs_nonneg(id, packs.drop_first());
    }
}

/// Dropping ids that do not occur in a pack leaves an entry alone.
proof fn lemma_remove_ids_absent(m: Map<Id, u8>, blobs: Seq<IndexBlob>, id: Id)
    requires
        occ_blobs(id, blobs) == 0,
    ensures
        remove_ids(m, blobs).contains_key(id) == m.contains_key(id),
        m.contains_key(id) ==> remove_ids(m, blobs)[id] == m[id],
    decreases blobs.len(),
{
    if blobs.len() > 0 {
        lemma_occ_nonneg(id, blobs.drop_first());
        assert(blobs.first().id != id);
        lemma_remove_ids_absent(m.remove(blobs.first().id), blobs.drop_first(), id);
    }
}

/// Within one pack: a live used id is either claimed exactly once and comes
/// out settled, or it is not claimed, loses one count for each of its
/// occurrences while staying live, and each such occurrence was charged to
/// the unused side.
proof fn lemma_blobs_fold_progress(
    pc: PackCount,
    m: Map<Id, u8>,
    blobs: Seq<IndexBlob>,
    hu: bool,
    id: Id,
)
    requires
        m.contains_key(id),
        1 <= m[id],
    ensures
        ({
            let cl = blobs_claims(pc, m, blobs, hu, id);
            let (pc2, m2) = blobs_fold(pc, m, blobs, hu);
            ||| (cl == 1 && settled(m2, id))
            ||| (cl == 0 && m2.contains_key(id) && 1 <= m2[id] && m2[id] == m[id] - occ_blobs(
                id,
                blobs,
            ) && (occ_blobs(id, blobs) >= 1 ==> pc2.unused_blobs > pc.unused_blobs))
        }),
    decreases blobs.len(),
{
    if blobs.len() > 0 {
        let b = blobs.first();
        let (pc1, m1) = blob_step(pc, m, b, hu);
        if b.id == id {
            let c = m[id];
            if c == 1 || (c >= 2 && hu) {
                // claimed here; afterwards the id is settled for the rest
                lemma_blobs_claims_le(pc1, m1, blobs.drop_first(), hu, id);
            } else {
                // counted off: the occurrence is charged unused
                lemma_blobs_fold_progress(pc1, m1, blobs.drop_first(), hu, id);
                crate::pruner::lemma_blobs_fold_sums(pc1, m1, blobs.drop_first(), hu);
            }
        } else {
            lemma_blobs_fold_progress(pc1, m1, blobs.drop_first(), hu, id);
            crate::pruner::lemma_blobs_fold_sums(pc1, m1, blobs.drop_first(), hu);
        }
    }
}

/// Duplicate resolution, the existence half together with uniqueness: when
/// a used blob's counter is live and does not overstate the occurrences
/// still ahead — which the counting phase guarantees, since it counts with
/// saturation and the integrity check rules out counter zero — then across
/// a classification that found every needed pack on disk, exactly one pack
/// counts the blob as used.
pub proof fn lemma_claims_exactly_once(st: DecideState, packs: Seq<PrunePackV>, id: Id)
    requires
        st.missing is None,
        decide_fold(st, packs).missing is None,
        st.m.contains_key(id),
        1 <= st.m[id],
        st.m[id] <= occ_packs(id, packs),
    ensures
        packs_claims(st, packs, id) == 1,
    decreases packs.len(),
{
    lemma_occ_packs_nonneg(id, packs);
    if packs.len() == 0 {
        assert(false);
    } else {
        let p = packs.first();
        let st1 = pack_step(st, p);
        if st1.missing is Some {
            crate::pruner::lemma_decide_fold_frozen(st1, packs.drop_first());
            assert(false);
        }
        let hu = spec_has_used(p.blobs, st.m);
        let (pc2, m2) = blobs_fold(pc_zero(), st.m, p.blobs, hu);
        lemma_blobs_fold_progress(pc_zero(), st.m, p.blobs, hu, id);
        let cl = blobs_claims(pc_zero(), st.m, p.blobs, hu, id);
        if cl == 1 {
            // claimed in this pack; nothing later claims it again
            if pc2.used_blobs != 0 && pc2.unused_blobs == 0 {
                lemma_remove_ids_settled(m2, p.blobs, id);
            }
            assert(settled(st1.m, id));
            lemma_settled_claims_zero(st1, packs.drop_first(), id);
        } else {
            // not claimed here: it stays live for the later packs
            lemma_occ_nonneg(id, p.blobs);
            lemma_occ_packs_nonneg(id, packs.drop_first());
            if pc2.used_blobs != 0 && pc2.unused_blobs == 0 {
                // a fully used pack cannot hold an uncounted occurrence
                assert(occ_blobs(id, p.blobs) == 0);
                lemma_remove_ids_absent(m2, p.blobs, id);
            }
            assert(st1.m.contains_key(id) && st1.m[id] == st.m[id] - occ_blobs(id, p.blobs));
            lemma_claims_exactly_once(st1, packs.drop_first(), id);
        }
    }
}

/// Each claim charges a blob to the used side.
proof fn lemma_claims_le_used(pc: PackCount, m: Map<Id, u8>, blobs: Seq<IndexBlob>, hu: bool, id: Id)
    ensures
        blobs_claims(pc, m, blobs, hu, id) <= blobs_fold(pc, m, blobs, hu).0.used_blobs
            - pc.used_blobs,
    decreases blobs.len(),
{
    if blobs.len() > 0 {
        let (pc1, m1) = blob_step(pc, m, blobs.first(), hu);
        lemma_claims_le_used(pc1, m1, blobs.drop_first(), hu, id);
    }
}

/// Reachability preservation, at the decision level: the pack that claims a
/// used blob holds a used blob, so its disposition is never removal — it
/// either stays on disk or is repacked, and a repacked pack's claimed blobs
/// are exactly what the plan copies into fresh packs.
pub proof fn lemma_claiming_pack_kept(st: DecideState, packs: Seq<PrunePackV>, t: int, id: Id)
    requires
        st.missing is None,
        decide_fold(st, packs).missing is None,
        0 <= t < packs.len(),
        pack_claims(decide_fold(st, packs.take(t)), packs[t], id) >= 1,
    ensures
        ({
            let st2 = decide_fold(st, packs);
            &&& st2.todos.len() == st.todos.len() + packs.len()
            &&& st2.todos[st.todos.len() + t] != PackToDo::Remove
        }),
    decreases packs.len(),
{
    let p = packs.first();
    let st1 = pack_step(st, p);
    if st1.missing is Some {
        crate::pruner::lemma_decide_fold_frozen(st1, packs.drop_first());
        assert(false);
    }
    lemma_todos_extend(st, packs);
    if t == 0 {
        assert(packs.take(0) =~= Seq::<PrunePackV>::empty());
        assert(decide_fold(st, packs.take(0)) == st);
        let hu = spec_has_used(p.blobs, st.m);
        lemma_claims_le_used(pc_zero(), st.m, p.blobs, hu, id);
        let pc2 = blobs_fold(pc_zero(), st.m, p.blobs, hu).0;
        assert(pc2.used_blobs >= 1);
        lemma_todos_extend(st1, packs.drop_first());
        assert(st1.todos[st.todos.len() as int] == st1.todos.last());
    } else {
        assert(packs.take(t).first() == p);
        assert(packs.take(t).drop_first() =~= packs.drop_first().take(t - 1));
        assert(decide_fold(st, packs.take(t)) == decide_fold(
            st1,
            packs.drop_first().take(t - 1),
        ));
        assert(packs.drop_first()[t - 1] == packs[t]);
        lemma_claiming_pack_kept(st1, packs.drop_first(), t - 1, id);
        assert(st1.todos.len() == st.todos.len() + 1);
    }
}

/// The counting phase never overstates: a counter grows by at most one per
/// occurrence, so a counter seeded at zero ends at or below the number of
/// occurrences — which is what `lemma_claims_exactly_once` asks of it.
pub proof fn lemma_count_le_occ(m: Map<Id, u8>, packs: Seq<PrunePackV>, id: Id)
    requires
        m.contains_key(id),
    ensures
        count_packs(m, packs).contains_key(id),
        count_packs(m, packs)[id] <= m[id] + occ_packs(id, packs),
    decreases packs.len(),
{
    if packs.len() > 0 {
        lemma_count_blobs_le_occ(m, packs.first().blobs, id);
        lemma_count_le_occ(
            crate::pruner::count_blobs(m, packs.first().blobs),
            packs.drop_first(),
            id,
        );
        lemma_occ_packs_nonneg(id, packs.drop_first());
        lemma_occ_nonneg(id, packs.first().blobs);
    }
}

proof fn lemma_count_blobs_le_occ(m: Map<Id, u8>, blobs: Seq<IndexBlob>, id: Id)
    requires
        m.contains_key(id),
    ensures
        crate::pruner::count_blobs(m, blobs).contains_key(id),
        crate::pruner::count_blobs(m, blobs)[id] <= m[id] + occ_blobs(id, blobs),
    decreases blobs.len(),
{
    if blobs.len() > 0 {
        let m1 = crate::pruner::bump(m, blobs.first().id);
        lemma_count_blobs_le_occ(m1, blobs.drop_first(), id);
        lemma_occ_nonneg(id, blobs.drop_first());
    }
}

// ------------------------------------------------------------------
// No dangling references.
// ------------------------------------------------------------------

/// The record of dispositions only grows, one per pack, and what was
/// recorded stays.
proof fn lemma_todos_extend(st: DecideState, packs: Seq<PrunePackV>)
    requires
        decide_fold(st, packs).missing is None,
    ensures
        ({
            let st2 = decide_fold(st, packs);
            &&& st2.todos.len() == st.todos.len() + packs.len()
            &&& forall|q: int| 0 <= q < st.todos.len() ==> #[trigger] st2.todos[q] == st.todos[q]
        }),
    decreases packs.len(),
{
    if packs.len() > 0 {
        let st1 = pack_step(st, packs.first());
        if st1.missing is Some {
            crate::pruner::lemma_decide_fold_frozen(st1, packs.drop_first());
            assert(false);
        }
        lemma_todos_extend(st1, packs.drop_first());
    }
}

/// No dangling references, at the decision level: every pack whose
/// disposition is not removal — every pack a surviving index will still
/// name — was found in the on-disk catalog the classification started
/// from.
pub proof fn lemma_kept_packs_exist(st: DecideState, packs: Seq<PrunePackV>, t: int)
    requires
        st.missing is None,
        decide_fold(st, packs).missing is None,
        0 <= t < packs.len(),
    ensures
        ({
            let st2 = decide_fold(st, packs);
            &&& st2.todos.len() == st.todos.len() + packs.len()
            &&& (st2.todos[st.todos.len() + t] != PackToDo::Remove ==> st.existing.contains_key(
                packs[t].id,
            ))
        }),
    decreases packs.len(), 1int,
{
    let p = packs.first();
    let st1 = pack_step(st, p);
    if st1.missing is Some {
        crate::pruner::lemma_decide_fold_frozen(st1, packs.drop_first());
        assert(false);
    }
    lemma_todos_extend(st, packs);
    if t == 0 {
        lemma_todos_extend(st1, packs.drop_first());
        assert(st1.todos[st.todos.len() as int] == st1.todos.last());
    } else {
        lemma_claims_helper_kept(st, st1, packs, t);
    }
}

/// The inductive step of `lemma_kept_packs_exist` for a later pack.
proof fn lemma_claims_helper_kept(
    st: DecideState,
    st1: DecideState,
    packs: Seq<PrunePackV>,
    t: int,
)
    requires
        st.missing is None,
        st1 == pack_step(st, packs.first()),
        st1.missing is None,
        decide_fold(st, packs).missing is None,
        1 <= t < packs.len(),
    ensures
        ({
            let st2 = decide_fold(st, packs);
            st2.todos[st.todos.len() + t] != PackToDo::Remove ==> st.existing.contains_key(
                packs[t].id,
            )
        }),
    decreases packs.len(), 0int,
{
    lemma_kept_packs_exist(st1, packs.drop_first(), t - 1);
    assert(packs.drop_first()[t - 1] == packs[t]);
    assert(st1.todos.len() == st.todos.len() + 1);
    let st2 = decide_fold(st, packs);
    if st2.todos[st.todos.len() + t] != PackToDo::Remove {
        assert(st1.existing.contains_key(packs[t].id));
        assert(st.existing.contains_key(packs[t].id));
    }
}

/// No leftover unreferenced packs, at the decision level: after a
/// classification that found every needed pack, the on-disk catalog holds
/// exactly the packs no index mentions — an initially present pack either
/// got a disposition (so a surviving index names it or its removal is
/// scheduled), or it stays in the catalog and the plan removes it first as
/// unreferenced.
pub proof fn lemma_existing_partition(st: DecideState, packs: Seq<PrunePackV>, pid: Id)
    requires
        st.missing is None,
        decide_fold(st, packs).missing is None,
    ensures
        decide_fold(st, packs).existing.contains_key(pid) <==> st.existing.contains_key(pid)
            && !(exists|t: int| 0 <= t < packs.len() && (#[trigger] packs[t]).id == pid),
    decreases packs.len(),
{
    if packs.len() > 0 {
        let p = packs.first();
        let st1 = pack_step(st, p);
        if st1.missing is Some {
            crate::pruner::lemma_decide_fold_frozen(st1, packs.drop_first());
            assert(false);
        }
        lemma_existing_partition(st1, packs.drop_first(), pid);
        assert(st1.existing == st.existing.remove(p.id));
        if exists|t: int| 0 <= t < packs.len() && (#[trigger] packs[t]).id == pid {
            let t = choose|t: int| 0 <= t < packs.len() && (#[trigger] packs[t]).id == pid;
            if t > 0 {
                assert(packs.drop_first()[t - 1] == packs[t]);
            }
        }
        if exists|t: int| 0 <= t < packs.drop_first().len() && (#[trigger] packs.drop_first()[
            t
        ]).id == pid {
            let t = choose|t: int|
                0 <= t < packs.drop_first().len() && (#[trigger] packs.drop_first()[t]).id == pid;
            assert(packs[t + 1].id == pid);
        }
        if p.id == pid {
            assert(packs[0].id == pid);
        }
    }
}

/// A settled id is never claimed later.
proof fn lemma_settled_claims_zero(st: DecideState, packs: Seq<PrunePackV>, id: Id)
    requires
        st.missing is Some || settled(st.m, id),
    ensures
        packs_claims(st, packs, id) == 0,
    decreases packs.len(),
{
    if packs.len() > 0 {
        let p = packs.first();
        let st1 = pack_step(st, p);
        if st.missing is Some {
            lemma_settled_claims_zero(st1, packs.drop_first(), id);
        } else {
            let hu = spec_has_used(p.blobs, st.m);
            lemma_blobs_claims_le(pc_zero(), st.m, p.blobs, hu, id);
            let m2 = blobs_fold(pc_zero(), st.m, p.blobs, hu).1;
            assert(pack_claims(st, p, id) == 0);
            if st1.missing is None {
                lemma_remove_ids_settled(m2, p.blobs, id);
                assert(settled(st1.m, id) || st1.missing is Some);
            }
            lemma_settled_claims_zero(st1, packs.drop_first(), id);
        }
    }
}

} // verus!
