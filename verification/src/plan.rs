use vstd::prelude::*;

use crate::id::Id;
use crate::pruner::{PackToDo, PruneIndexV, Pruner, PrunePackV};
use crate::repofile::{IndexBlob, IndexPack, IndexPackV};

verus! {

/// What the executor does with one pack of a rewritten index: copy the
/// surviving blobs of a repacked pack into fresh packs, or re-register a
/// kept pack verbatim into the new index.
pub enum PackAction {
    Repack { pack_id: Id, blobs: Vec<IndexBlob> },
    Keep { pack: IndexPack },
}

pub enum PackActionV {
    Repack { pack_id: Id, blobs: Seq<IndexBlob> },
    Keep { pack: IndexPackV },
}

impl View for PackAction {
    type V = PackActionV;

    open spec fn view(&self) -> PackActionV {
        match self {
            PackAction::Repack { pack_id, blobs } => PackActionV::Repack {
                pack_id: *pack_id,
                blobs: blobs@,
            },
            PackAction::Keep { pack } => PackActionV::Keep { pack: pack@ },
        }
    }
}

/// The mutation plan of one prune, in the order crash safety demands:
/// first the unreferenced on-disk packs go, then new packs and indexes are
/// written (the actions), and only after both are durable are the superseded
/// packs, and last the superseded index files, removed.
pub struct PrunePlan {
    pub packs_unref: Vec<Id>,
    pub actions: Vec<PackAction>,
    pub packs_remove: Vec<Id>,
    pub indexes_remove: Vec<Id>,
}

/// Which blobs of a repacked pack are still owed to the new packs: each blob
/// whose id the used-ids table still holds is copied once and its entry is
/// consumed, so a duplicate is never written twice.
pub open spec fn consume_fold(m: Map<Id, u8>, blobs: Seq<IndexBlob>) -> (Map<Id, u8>, Seq<
    IndexBlob,
>)
    decreases blobs.len(),
{
    if blobs.len() == 0 {
        (m, Seq::empty())
    } else {
        let b = blobs.first();
        if m.contains_key(b.id) {
            let r = consume_fold(m.remove(b.id), blobs.drop_first());
            (r.0, seq![b] + r.1)
        } else {
            consume_fold(m, blobs.drop_first())
        }
    }
}

/// The plan builder's state.
pub struct PlanState {
    pub m: Map<Id, u8>,
    pub actions: Seq<PackActionV>,
    pub packs_remove: Seq<Id>,
    pub indexes_remove: Seq<Id>,
}

pub open spec fn plan_pack_step(st: PlanState, p: PrunePackV) -> PlanState {
    match p.to_do {
        PackToDo::Repack => {
            let r = consume_fold(st.m, p.blobs);
            PlanState {
                m: r.0,
                actions: st.actions.push(PackActionV::Repack { pack_id: p.id, blobs: r.1 }),
                packs_remove: st.packs_remove.push(p.id),
                ..st
            }
        },
        PackToDo::Keep => PlanState {
            actions: st.actions.push(
                PackActionV::Keep {
                    pack: IndexPackV { id: p.id, time: p.time, blobs: p.blobs },
                },
            ),
            ..st
        },
        PackToDo::Remove => PlanState { packs_remove: st.packs_remove.push(p.id), ..st },
    }
}

pub open spec fn plan_packs_fold(st: PlanState, packs: Seq<PrunePackV>) -> PlanState
    decreases packs.len(),
{
    if packs.len() == 0 {
        st
    } else {
        plan_packs_fold(plan_pack_step(st, packs.first()), packs.drop_first())
    }
}

pub open spec fn plan_indexes_fold(st: PlanState, ixs: Seq<PruneIndexV>) -> PlanState
    decreases ixs.len(),
{
    if ixs.len() == 0 {
        st
    } else {
        let st1 = plan_packs_fold(st, ixs.first().packs);
        let st2 = PlanState { indexes_remove: st1.indexes_remove.push(ixs.first().id), ..st1 };
        plan_indexes_fold(st2, ixs.drop_first())
    }
}

impl Pruner {
    /// Build the mutation plan from the decisions.  The engine is consumed:
    /// its used-ids table tells which blob of a repacked pack is copied (one
    /// occurrence for each surviving duplicate), every index that was kept
    /// for processing is rewritten and its file scheduled for removal, and
    /// whatever the on-disk catalog still holds is removed first as
    /// unreferenced.
    pub fn do_prune(self) -> (r: PrunePlan)
        requires
            self.wf(),
        ensures
            ({
                let st = plan_indexes_fold(
                    PlanState {
                        m: self.used_ids@,
                        actions: Seq::empty(),
                        packs_remove: Seq::empty(),
                        indexes_remove: Seq::empty(),
                    },
                    self.indexes_view(),
                );
                &&& r.packs_unref@.len() == self.existing_packs.entries_seq().len()
                &&& (forall|t: int|
                    0 <= t < r.packs_unref@.len() ==> r.packs_unref@[t]
                        == self.existing_packs.entries_seq()[t].0)
                &&& r.actions@.map_values(|a: PackAction| a@) == st.actions
                &&& r.packs_remove@ == st.packs_remove
                &&& r.indexes_remove@ == st.indexes_remove
            }),
    {
        let ghost ixs0 = self.indexes_view();
        let ghost st_target = plan_indexes_fold(
            PlanState {
                m: self.used_ids@,
                actions: Seq::empty(),
                packs_remove: Seq::empty(),
                indexes_remove: Seq::empty(),
            },
            ixs0,
        );
        let Pruner { mut used_ids, existing_packs, index_files, .. } = self;
        // unreferenced on-disk packs go first
        let mut packs_unref: Vec<Id> = Vec::new();
        let en = existing_packs.len();
        let mut t: usize = 0;
        while t < en
            invariant
                t <= en,
                existing_packs.wf(),
                en == existing_packs.entries_seq().len(),
                packs_unref@.len() == t,
                forall|q: int|
                    0 <= q < t ==> packs_unref@[q] == existing_packs.entries_seq()[q].0,
            decreases en - t,
        {
            let (id, _) = existing_packs.entry_at(t);
            packs_unref.push(id);
            t += 1;
        }
        let mut actions: Vec<PackAction> = Vec::new();
        let mut packs_remove: Vec<Id> = Vec::new();
        let mut indexes_remove: Vec<Id> = Vec::new();
        let mut rest = index_files;
        proof {
            assert(ixs0.skip(0) =~= ixs0);
            assert(rest@.map_values(|ix: crate::pruner::PruneIndex| ix@) =~= ixs0.skip(0));
            assert(actions@.map_values(|a: PackAction| a@) =~= Seq::<PackActionV>::empty());
            assert(PlanState {
                m: used_ids@,
                actions: actions@.map_values(|a: PackAction| a@),
                packs_remove: packs_remove@,
                indexes_remove: indexes_remove@,
            } == PlanState {
                m: self.used_ids@,
                actions: Seq::empty(),
                packs_remove: Seq::empty(),
                indexes_remove: Seq::empty(),
            });
        }
        let ghost mut i: int = 0;
        while rest.len() > 0
            invariant
                0 <= i <= ixs0.len(),
                used_ids.wf(),
                rest@.map_values(|ix: crate::pruner::PruneIndex| ix@) =~= ixs0.skip(i),
                plan_indexes_fold(
                    PlanState {
                        m: used_ids@,
                        actions: actions@.map_values(|a: PackAction| a@),
                        packs_remove: packs_remove@,
                        indexes_remove: indexes_remove@,
                    },
                    ixs0.skip(i),
                ) == st_target,
            decreases rest.len(),
        {
            let ghost prev_rest = rest@;
            let ix = rest.remove(0);
            proof {
                assert(rest@ =~= prev_rest.skip(1));
                assert(prev_rest.map_values(|q: crate::pruner::PruneIndex| q@)[0] == ix@);
                assert(ixs0.skip(i).first() == ix@);
                let mapped = rest@.map_values(|q: crate::pruner::PruneIndex| q@);
                assert forall|k: int| 0 <= k < mapped.len() implies #[trigger] mapped[k]
                    == ixs0.skip(i + 1)[k] by {
                    assert(rest@[k] == prev_rest[k + 1]);
                    assert(prev_rest.map_values(|q: crate::pruner::PruneIndex| q@)[k + 1]
                        == ixs0.skip(i)[k + 1]);
                }
                assert(rest@.map_values(|q: crate::pruner::PruneIndex| q@) =~= ixs0.skip(i + 1));
                assert(ixs0.skip(i).drop_first() =~= ixs0.skip(i + 1));
            }
            let ghost packs_v = ix@.packs;
            let mut prest = ix.packs;
            let ix_id = ix.id;
            proof {
                assert(packs_v.skip(0) =~= packs_v);
                assert(prest@.map_values(|p: crate::pruner::PrunePack| p@) =~= packs_v.skip(0));
            }
            let ghost mut j: int = 0;
            while prest.len() > 0
                invariant
                    0 <= j <= packs_v.len(),
                    used_ids.wf(),
                    prest@.map_values(|p: crate::pruner::PrunePack| p@) =~= packs_v.skip(j),
                    plan_indexes_fold(
                        PlanState {
                            m: plan_packs_fold(
                                PlanState {
                                    m: used_ids@,
                                    actions: actions@.map_values(|a: PackAction| a@),
                                    packs_remove: packs_remove@,
                                    indexes_remove: indexes_remove@,
                                },
                                packs_v.skip(j),
                            ).m,
                            actions: plan_packs_fold(
                                PlanState {
                                    m: used_ids@,
                                    actions: actions@.map_values(|a: PackAction| a@),
                                    packs_remove: packs_remove@,
                                    indexes_remove: indexes_remove@,
                                },
                                packs_v.skip(j),
                            ).actions,
                            packs_remove: plan_packs_fold(
                                PlanState {
                                    m: used_ids@,
                                    actions: actions@.map_values(|a: PackAction| a@),
                                    packs_remove: packs_remove@,
                                    indexes_remove: indexes_remove@,
                                },
                                packs_v.skip(j),
                            ).packs_remove,
                            indexes_remove: plan_packs_fold(
                                PlanState {
                                    m: used_ids@,
                                    actions: actions@.map_values(|a: PackAction| a@),
                                    packs_remove: packs_remove@,
                                    indexes_remove: indexes_remove@,
                                },
                                packs_v.skip(j),
                            ).indexes_remove.push(ix_id),
                        },
                        ixs0.skip(i + 1),
                    ) == st_target,
                decreases prest.len(),
            {
                let ghost prev_prest = prest@;
                let ghost st_cur = PlanState {
                    m: used_ids@,
                    actions: actions@.map_values(|a: PackAction| a@),
                    packs_remove: packs_remove@,
                    indexes_remove: indexes_remove@,
                };
                let pack = prest.remove(0);
                let ghost pack_v = pack@;
                proof {
                    assert(prest@ =~= prev_prest.skip(1));
                    assert(prev_prest.map_values(|q: crate::pruner::PrunePack| q@)[0] == pack_v);
                    assert(packs_v.skip(j).first() == pack_v);
                    let pmapped = prest@.map_values(|q: crate::pruner::PrunePack| q@);
                    assert forall|k: int| 0 <= k < pmapped.len() implies #[trigger] pmapped[k]
                        == packs_v.skip(j + 1)[k] by {
                        assert(prest@[k] == prev_prest[k + 1]);
                        assert(prev_prest.map_values(|q: crate::pruner::PrunePack| q@)[k + 1]
                            == packs_v.skip(j)[k + 1]);
                    }
                    assert(prest@.map_values(|q: crate::pruner::PrunePack| q@) =~= packs_v.skip(
                        j + 1,
                    ));
                    assert(packs_v.skip(j).drop_first() =~= packs_v.skip(j + 1));
                }
                match pack.to_do {
                    PackToDo::Repack => {
                        let ghost m_start = used_ids@;
                        let ghost blobs_v = pack_v.blobs;
                        let ghost ctarget = consume_fold(m_start, blobs_v);
                        let mut kept: Vec<IndexBlob> = Vec::new();
                        let bn = pack.blobs.len();
                        let mut k: usize = 0;
                        proof {
                            assert(blobs_v.skip(0) =~= blobs_v);
                        }
                        while k < bn
                            invariant
                                k <= bn,
                                used_ids.wf(),
                                bn == blobs_v.len(),
                                bn == pack.blobs@.len(),
                                pack.blobs@ == blobs_v,
                                blobs_v == pack_v.blobs,
                                ctarget == consume_fold(m_start, blobs_v),
                                ({
                                    let c = consume_fold(used_ids@, blobs_v.skip(k as int));
                                    &&& c.0 == ctarget.0
                                    &&& kept@ + c.1 =~= ctarget.1
                                }),
                            decreases bn - k,
                        {
                            let blob = pack.blobs[k];
                            proof {
                                assert(blobs_v.skip(k as int).first() == blob);
                                assert(blobs_v.skip(k as int).drop_first() =~= blobs_v.skip(
                                    k as int + 1,
                                ));
                            }
                            let ghost kept_prev = kept@;
                            let ghost m_old = used_ids@;
                            match used_ids.remove(blob.id) {
                                Some(_) => {
                                    kept.push(blob);
                                    proof {
                                        let c2 = consume_fold(
                                            used_ids@,
                                            blobs_v.skip(k as int + 1),
                                        );
                                        assert(used_ids@ == m_old.remove(blob.id));
                                        assert(consume_fold(m_old, blobs_v.skip(k as int)).0
                                            == c2.0);
                                        assert(consume_fold(m_old, blobs_v.skip(k as int)).1
                                            == seq![blob] + c2.1);
                                        assert(kept@ =~= kept_prev.push(blob));
                                        assert(kept_prev + (seq![blob] + c2.1) =~= kept_prev.push(
                                            blob,
                                        ) + c2.1);
                                        assert(kept@ + c2.1 == ctarget.1);
                                    }
                                },
                                None => {
                                    proof {
                                        let c2 = consume_fold(
                                            used_ids@,
                                            blobs_v.skip(k as int + 1),
                                        );
                                        assert(!m_old.contains_key(blob.id));
                                        assert(used_ids@ =~= m_old);
                                        assert(consume_fold(m_old, blobs_v.skip(k as int))
                                            == c2);
                                    }
                                },
                            }
                            k += 1;
                        }
                        proof {
                            assert(blobs_v.skip(bn as int) =~= Seq::<IndexBlob>::empty());
                            assert(kept@ + Seq::<IndexBlob>::empty() =~= kept@);
                            assert(kept@ == ctarget.1);
                        }
                        let ghost actions_prev = actions@.map_values(|a: PackAction| a@);
                        actions.push(PackAction::Repack { pack_id: pack.id, blobs: kept });
                        packs_remove.push(pack.id);
                        proof {
                            assert(actions@.map_values(|a: PackAction| a@) =~= actions_prev.push(
                                PackActionV::Repack { pack_id: pack_v.id, blobs: ctarget.1 },
                            ));
                        }
                    },
                    PackToDo::Keep => {
                        let ghost actions_prev = actions@.map_values(|a: PackAction| a@);
                        let new_pack = IndexPack { id: pack.id, time: pack.time, blobs: pack.blobs };
                        proof {
                            assert(new_pack@ == (IndexPackV {
                                id: pack_v.id,
                                time: pack_v.time,
                                blobs: pack_v.blobs,
                            }));
                        }
                        actions.push(PackAction::Keep { pack: new_pack });
                        proof {
                            assert(actions@.map_values(|a: PackAction| a@) =~= actions_prev.push(
                                PackActionV::Keep {
                                    pack: IndexPackV {
                                        id: pack_v.id,
                                        time: pack_v.time,
                                        blobs: pack_v.blobs,
                                    },
                                },
                            ));
                        }
                    },
                    PackToDo::Remove => {
                        packs_remove.push(pack.id);
                    },
                }
                proof {
                    let st_new = PlanState {
                        m: used_ids@,
                        actions: actions@.map_values(|a: PackAction| a@),
                        packs_remove: packs_remove@,
                        indexes_remove: indexes_remove@,
                    };
                    assert(st_new == plan_pack_step(st_cur, pack_v));
                    assert(plan_packs_fold(st_cur, packs_v.skip(j)) == plan_packs_fold(
                        st_new,
                        packs_v.skip(j + 1),
                    ));
                    j = j + 1;
                }
            }
            proof {
                assert(packs_v.skip(packs_v.len() as int) =~= Seq::<PrunePackV>::empty());
            }
            indexes_remove.push(ix_id);
            proof {
                i = i + 1;
            }
        }
        proof {
            assert(ixs0.skip(ixs0.len() as int) =~= Seq::<PruneIndexV>::empty());
        }
        PrunePlan { packs_unref, actions, packs_remove, indexes_remove }
    }
}

} // verus!
