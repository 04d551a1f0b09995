use vstd::prelude::*;

use crate::id::Id;
use crate::limit::{max_repack_of, max_unused_of, LimitOption};
use crate::pack_info::{lemma_u64_mul_fits, pi_le, PackInfo, RepackCandidate};
use crate::repofile::{
    blobs_size, pack_blob_type, valid_blob, BlobType, IndexBlob, IndexFile, IndexFileV, IndexPack,
    IndexPackV,
};
use crate::table::IdMap;

verus! {

/// What prune has decided to do with one pack.
#[derive(Clone, Copy, PartialEq, Eq, Structural, Debug)]
pub enum PackToDo {
    Keep,
    Repack,
    Remove,
}

/// A pack while prune works on it: the index data plus the disposition.
pub struct PrunePack {
    pub id: Id,
    pub blob_type: BlobType,
    pub to_do: PackToDo,
    pub time: Option<i64>,
    pub blobs: Vec<IndexBlob>,
}

pub struct PrunePackV {
    pub id: Id,
    pub blob_type: BlobType,
    pub to_do: PackToDo,
    pub time: Option<i64>,
    pub blobs: Seq<IndexBlob>,
}

impl View for PrunePack {
    type V = PrunePackV;

    open spec fn view(&self) -> PrunePackV {
        PrunePackV {
            id: self.id,
            blob_type: self.blob_type,
            to_do: self.to_do,
            time: self.time,
            blobs: self.blobs@,
        }
    }
}

/// An index file while prune works on it.
pub struct PruneIndex {
    pub id: Id,
    pub modified: bool,
    pub packs: Vec<PrunePack>,
    pub packs_to_delete: Vec<IndexPack>,
}

pub struct PruneIndexV {
    pub id: Id,
    pub modified: bool,
    pub packs: Seq<PrunePackV>,
    pub packs_to_delete: Seq<IndexPackV>,
}

impl View for PruneIndex {
    type V = PruneIndexV;

    open spec fn view(&self) -> PruneIndexV {
        PruneIndexV {
            id: self.id,
            modified: self.modified,
            packs: self.packs@.map_values(|p: PrunePack| p@),
            packs_to_delete: self.packs_to_delete@.map_values(|p: IndexPack| p@),
        }
    }
}

/// Pack counters of the prune statistics.
#[derive(Clone, Copy, PartialEq, Eq, Structural, Debug)]
pub struct PackStats {
    pub used: u64,
    pub partly_used: u64,
    pub unused: u64,
    pub repack: u64,
    pub keep: u64,
}

/// Blob or byte counters of the prune statistics.
#[derive(Clone, Copy, PartialEq, Eq, Structural, Debug)]
pub struct SizeStats {
    pub used: u64,
    pub unused: u64,
    pub remove: u64,
    pub repack: u64,
    pub repackrm: u64,
    pub unref: u64,
}

/// Everything prune reports before it mutates anything.
#[derive(Clone, Copy, PartialEq, Eq, Structural, Debug)]
pub struct PruneStats {
    pub packs: PackStats,
    pub blobs: SizeStats,
    pub size: SizeStats,
    pub index_files: u64,
}

impl SizeStats {
    pub open spec fn spec_zero() -> SizeStats {
        SizeStats { used: 0, unused: 0, remove: 0, repack: 0, repackrm: 0, unref: 0 }
    }

    pub fn new() -> (r: SizeStats)
        ensures
            r == SizeStats::spec_zero(),
    {
        SizeStats { used: 0, unused: 0, remove: 0, repack: 0, repackrm: 0, unref: 0 }
    }

    /// All bytes (or blobs) the indexes describe.
    pub fn total(&self) -> (r: u64)
        requires
            self.used + self.unused <= u64::MAX,
        ensures
            r == self.used + self.unused,
    {
        self.used + self.unused
    }

    /// What stays unused once the planned removals and repacks are done.
    pub fn unused_after_prune(&self) -> (r: u64)
        requires
            self.remove + self.repackrm <= self.unused,
        ensures
            r == self.unused - self.remove - self.repackrm,
    {
        self.unused - self.remove - self.repackrm
    }

    /// What remains in the repository once the plan is done.
    pub fn total_after_prune(&self) -> (r: u64)
        requires
            self.remove + self.repackrm <= self.unused,
            self.used + self.unused <= u64::MAX,
        ensures
            r == self.used + self.unused - self.remove - self.repackrm,
    {
        self.used + self.unused_after_prune()
    }
}

impl PackStats {
    pub open spec fn spec_zero() -> PackStats {
        PackStats { used: 0, partly_used: 0, unused: 0, repack: 0, keep: 0 }
    }

    pub fn new() -> (r: PackStats)
        ensures
            r == PackStats::spec_zero(),
    {
        PackStats { used: 0, partly_used: 0, unused: 0, repack: 0, keep: 0 }
    }
}

impl PruneStats {
    pub open spec fn spec_zero() -> PruneStats {
        PruneStats {
            packs: PackStats::spec_zero(),
            blobs: SizeStats::spec_zero(),
            size: SizeStats::spec_zero(),
            index_files: 0,
        }
    }

    pub fn new() -> (r: PruneStats)
        ensures
            r == PruneStats::spec_zero(),
    {
        PruneStats { packs: PackStats::new(), blobs: SizeStats::new(), size: SizeStats::new(), index_files: 0 }
    }
}

/// The errors that stop a prune before it mutates anything.
#[derive(Clone, Copy, PartialEq, Eq, Structural, Debug)]
pub enum PruneError {
    /// A snapshot refers to a blob that no index lists.
    MissingBlob { id: Id },
    /// An index lists a pack that must be kept, but no such pack file exists.
    MissingPack { id: Id },
}

// ------------------------------------------------------------------
// The mathematical model of the decision engine.
// ------------------------------------------------------------------

/// Per-pack classification counters, unbounded.
pub struct PackCount {
    pub used_blobs: int,
    pub unused_blobs: int,
    pub used_size: int,
    pub unused_size: int,
}

pub open spec fn pc_zero() -> PackCount {
    PackCount { used_blobs: 0, unused_blobs: 0, used_size: 0, unused_size: 0 }
}

pub open spec fn pc_add_used(pc: PackCount, b: IndexBlob) -> PackCount {
    PackCount {
        used_blobs: pc.used_blobs + 1,
        used_size: pc.used_size + b.length,
        ..pc
    }
}

pub open spec fn pc_add_unused(pc: PackCount, b: IndexBlob) -> PackCount {
    PackCount {
        unused_blobs: pc.unused_blobs + 1,
        unused_size: pc.unused_size + b.length,
        ..pc
    }
}

/// The executable counters agree with the model.
pub open spec fn pc_match(pi: PackInfo, pc: PackCount) -> bool {
    &&& pi.used_blobs == pc.used_blobs
    &&& pi.unused_blobs == pc.unused_blobs
    &&& pi.used_size == pc.used_size
    &&& pi.unused_size == pc.unused_size
}

/// Saturating counter increment, clamped at 255.
pub open spec fn sat_inc(v: u8) -> u8 {
    if v == 255 {
        255
    } else {
        (v + 1) as u8
    }
}

/// Counting phase, one blob: a used id has its occurrence counter bumped.
pub open spec fn bump(m: Map<Id, u8>, id: Id) -> Map<Id, u8> {
    if m.contains_key(id) {
        m.insert(id, sat_inc(m[id]))
    } else {
        m
    }
}

pub open spec fn count_blobs(m: Map<Id, u8>, blobs: Seq<IndexBlob>) -> Map<Id, u8>
    decreases blobs.len(),
{
    if blobs.len() == 0 {
        m
    } else {
        count_blobs(bump(m, blobs.first().id), blobs.drop_first())
    }
}

pub open spec fn count_packs(m: Map<Id, u8>, packs: Seq<PrunePackV>) -> Map<Id, u8>
    decreases packs.len(),
{
    if packs.len() == 0 {
        m
    } else {
        count_packs(count_blobs(m, packs.first().blobs), packs.drop_first())
    }
}

/// Whether a pack holds a blob for which this is the last remaining
/// occurrence (counter exactly 1).
pub open spec fn spec_has_used(blobs: Seq<IndexBlob>, m: Map<Id, u8>) -> bool {
    exists|i: int|
        0 <= i < blobs.len() && m.contains_key((#[trigger] blobs[i]).id) && m[blobs[i].id] == 1
}

/// Classification of one blob of a pack, threading the used-ids table.
pub open spec fn blob_step(pc: PackCount, m: Map<Id, u8>, b: IndexBlob, has_used: bool) -> (
    PackCount,
    Map<Id, u8>,
) {
    if !m.contains_key(b.id) {
        (pc_add_unused(pc, b), m)
    } else {
        let c = m[b.id];
        if c == 0 {
            (pc_add_unused(pc, b), m)
        } else if c == 1 {
            (pc_add_used(pc, b), m.insert(b.id, 0))
        } else if has_used {
            (pc_add_used(pc, b), m.insert(b.id, 0))
        } else {
            (pc_add_unused(pc, b), m.insert(b.id, (c - 1) as u8))
        }
    }
}

pub open spec fn blobs_fold(pc: PackCount, m: Map<Id, u8>, blobs: Seq<IndexBlob>, has_used: bool) -> (
    PackCount,
    Map<Id, u8>,
)
    decreases blobs.len(),
{
    if blobs.len() == 0 {
        (pc, m)
    } else {
        let (pc2, m2) = blob_step(pc, m, blobs.first(), has_used);
        blobs_fold(pc2, m2, blobs.drop_first(), has_used)
    }
}

/// Drop the ids of a fully used pack from the table.
pub open spec fn remove_ids(m: Map<Id, u8>, blobs: Seq<IndexBlob>) -> Map<Id, u8>
    decreases blobs.len(),
{
    if blobs.len() == 0 {
        m
    } else {
        remove_ids(m.remove(blobs.first().id), blobs.drop_first())
    }
}

/// Unbounded mirror of the prune statistics.
pub struct StatsM {
    pub packs_used: int,
    pub packs_partly_used: int,
    pub packs_unused: int,
    pub packs_repack: int,
    pub packs_keep: int,
    pub blobs_used: int,
    pub blobs_unused: int,
    pub blobs_remove: int,
    pub blobs_repack: int,
    pub blobs_repackrm: int,
    pub size_used: int,
    pub size_unused: int,
    pub size_remove: int,
    pub size_repack: int,
    pub size_repackrm: int,
    pub size_unref: int,
}

pub open spec fn stats_m_of(s: PruneStats) -> StatsM {
    StatsM {
        packs_used: s.packs.used as int,
        packs_partly_used: s.packs.partly_used as int,
        packs_unused: s.packs.unused as int,
        packs_repack: s.packs.repack as int,
        packs_keep: s.packs.keep as int,
        blobs_used: s.blobs.used as int,
        blobs_unused: s.blobs.unused as int,
        blobs_remove: s.blobs.remove as int,
        blobs_repack: s.blobs.repack as int,
        blobs_repackrm: s.blobs.repackrm as int,
        size_used: s.size.used as int,
        size_unused: s.size.unused as int,
        size_remove: s.size.remove as int,
        size_repack: s.size.repack as int,
        size_repackrm: s.size.repackrm as int,
        size_unref: s.size.unref as int,
    }
}

/// A repack candidate in the model.
pub struct CandM {
    pub id: Id,
    pub blob_type: BlobType,
    pub pc: PackCount,
}

pub open spec fn cand_match(rc: RepackCandidate, c: CandM) -> bool {
    &&& rc.id == c.id
    &&& rc.pi.blob_type == c.blob_type
    &&& pc_match(rc.pi, c.pc)
}

/// Candidate tallies: what the candidates still hold of the catalog.
pub open spec fn sum_cm_unused(cs: Seq<CandM>) -> int
    decreases cs.len(),
{
    if cs.len() == 0 {
        0
    } else {
        sum_cm_unused(cs.drop_last()) + cs.last().pc.unused_size
    }
}

pub open spec fn sum_cm_total(cs: Seq<CandM>) -> int
    decreases cs.len(),
{
    if cs.len() == 0 {
        0
    } else {
        sum_cm_total(cs.drop_last()) + cs.last().pc.used_size + cs.last().pc.unused_size
    }
}

pub open spec fn sum_cm_blobs(cs: Seq<CandM>) -> int
    decreases cs.len(),
{
    if cs.len() == 0 {
        0
    } else {
        sum_cm_blobs(cs.drop_last()) + cs.last().pc.used_blobs + cs.last().pc.unused_blobs
    }
}

pub open spec fn sum_cm_ublobs(cs: Seq<CandM>) -> int
    decreases cs.len(),
{
    if cs.len() == 0 {
        0
    } else {
        sum_cm_ublobs(cs.drop_last()) + cs.last().pc.unused_blobs
    }
}

/// Every candidate's counters are non-negative.
pub open spec fn cm_wf(cs: Seq<CandM>) -> bool {
    forall|t: int|
        0 <= t < cs.len() ==> {
            let pc = (#[trigger] cs[t]).pc;
            0 <= pc.used_blobs && 0 <= pc.unused_blobs && 0 <= pc.used_size && 0 <= pc.unused_size
        }
}

/// What classification guarantees of its statistics and candidates: the
/// candidates' tallies are parts of the whole, and nothing is repacked yet.
pub open spec fn decide_outcome_ok(st: DecideState, flat_len: int) -> bool {
    &&& stats_bounds(
        st.stats,
        flat_len,
        st.stats.blobs_used + st.stats.blobs_unused,
        st.stats.size_used + st.stats.size_unused,
    )
    &&& st.stats.blobs_used + st.stats.blobs_unused <= st.stats.size_used + st.stats.size_unused
    &&& cm_wf(st.cands)
    &&& st.cands.len() == st.stats.packs_partly_used
    &&& sum_cm_unused(st.cands) + st.stats.size_remove <= st.stats.size_unused
    &&& sum_cm_total(st.cands) <= st.stats.size_used + st.stats.size_unused
    &&& sum_cm_blobs(st.cands) <= st.stats.blobs_used + st.stats.blobs_unused
    &&& sum_cm_ublobs(st.cands) + st.stats.blobs_remove <= st.stats.blobs_unused
}

/// The decision engine's state while packs are classified.
pub struct DecideState {
    pub m: Map<Id, u8>,
    pub existing: Map<Id, u32>,
    pub stats: StatsM,
    pub cands: Seq<CandM>,
    pub todos: Seq<PackToDo>,
    pub missing: Option<Id>,
}

/// Classification of one whole pack (phase C for that pack).
pub open spec fn pack_step(st: DecideState, p: PrunePackV) -> DecideState {
    if st.missing is Some {
        st
    } else {
        let hu = spec_has_used(p.blobs, st.m);
        let (pc, m2) = blobs_fold(pc_zero(), st.m, p.blobs, hu);
        let stats1 = StatsM {
            blobs_used: st.stats.blobs_used + pc.used_blobs,
            blobs_unused: st.stats.blobs_unused + pc.unused_blobs,
            size_used: st.stats.size_used + pc.used_size,
            size_unused: st.stats.size_unused + pc.unused_size,
            ..st.stats
        };
        if pc.used_blobs == 0 {
            DecideState {
                m: m2,
                existing: st.existing.remove(p.id),
                stats: StatsM {
                    packs_unused: stats1.packs_unused + 1,
                    blobs_remove: stats1.blobs_remove + pc.unused_blobs,
                    size_remove: stats1.size_remove + pc.unused_size,
                    ..stats1
                },
                cands: st.cands,
                todos: st.todos.push(PackToDo::Remove),
                missing: None,
            }
        } else if !st.existing.contains_key(p.id) {
            DecideState { missing: Some(p.id), ..st }
        } else if pc.unused_blobs == 0 {
            DecideState {
                m: remove_ids(m2, p.blobs),
                existing: st.existing.remove(p.id),
                stats: StatsM {
                    packs_used: stats1.packs_used + 1,
                    packs_keep: stats1.packs_keep + 1,
                    ..stats1
                },
                cands: st.cands,
                todos: st.todos.push(PackToDo::Keep),
                missing: None,
            }
        } else {
            DecideState {
                m: m2,
                existing: st.existing.remove(p.id),
                stats: StatsM { packs_partly_used: stats1.packs_partly_used + 1, ..stats1 },
                cands: st.cands.push(CandM { id: p.id, blob_type: p.blob_type, pc }),
                todos: st.todos.push(PackToDo::Keep),
                missing: None,
            }
        }
    }
}

pub open spec fn decide_fold(st: DecideState, packs: Seq<PrunePackV>) -> DecideState
    decreases packs.len(),
{
    if packs.len() == 0 {
        st
    } else {
        decide_fold(pack_step(st, packs.first()), packs.drop_first())
    }
}

/// All packs of a run of indexes, in processing order.
pub open spec fn flat_packs(ixs: Seq<PruneIndexV>) -> Seq<PrunePackV>
    decreases ixs.len(),
{
    if ixs.len() == 0 {
        Seq::empty()
    } else {
        ixs.first().packs + flat_packs(ixs.drop_first())
    }
}

/// The number of packs in the first `i` indexes: the flat position where
/// index `i` starts.
pub open spec fn packs_before(ixs: Seq<PruneIndexV>, i: int) -> int
    decreases i,
{
    if i <= 0 {
        0
    } else {
        packs_before(ixs, i - 1) + ixs[i - 1].packs.len()
    }
}

// ------------------------------------------------------------------
// Lemmas about the model.
// ------------------------------------------------------------------

/// Classification neither adds nor drops table keys.
pub proof fn lemma_blobs_fold_dom(pc: PackCount, m: Map<Id, u8>, blobs: Seq<IndexBlob>, hu: bool)
    ensures
        blobs_fold(pc, m, blobs, hu).1.dom() == m.dom(),
    decreases blobs.len(),
{
    if blobs.len() > 0 {
        let (pc2, m2) = blob_step(pc, m, blobs.first(), hu);
        assert(m2.dom() =~= m.dom());
        lemma_blobs_fold_dom(pc2, m2, blobs.drop_first(), hu);
    }
}

/// Classification splits a pack's blobs and bytes between the used and the
/// unused side, and only ever counts up.
pub proof fn lemma_blobs_fold_sums(pc: PackCount, m: Map<Id, u8>, blobs: Seq<IndexBlob>, hu: bool)
    ensures
        ({
            let (pc2, m2) = blobs_fold(pc, m, blobs, hu);
            &&& pc2.used_blobs >= pc.used_blobs
            &&& pc2.unused_blobs >= pc.unused_blobs
            &&& pc2.used_size >= pc.used_size
            &&& pc2.unused_size >= pc.unused_size
            &&& pc2.used_blobs + pc2.unused_blobs == pc.used_blobs + pc.unused_blobs + blobs.len()
            &&& pc2.used_size + pc2.unused_size == pc.used_size + pc.unused_size + blobs_size(blobs)
        }),
    decreases blobs.len(),
{
    if blobs.len() > 0 {
        let (pc1, m1) = blob_step(pc, m, blobs.first(), hu);
        lemma_blobs_fold_sums(pc1, m1, blobs.drop_first(), hu);
        lemma_blobs_size_first(blobs);
    }
}

/// Unrolling `blobs_size` from the front.
pub proof fn lemma_blobs_size_first(blobs: Seq<IndexBlob>)
    requires
        blobs.len() > 0,
    ensures
        blobs_size(blobs) == blobs.first().length + blobs_size(blobs.drop_first()),
    decreases blobs.len(),
{
    if blobs.len() == 1 {
        assert(blobs.drop_last() =~= Seq::<IndexBlob>::empty());
        assert(blobs.drop_first() =~= Seq::<IndexBlob>::empty());
    } else {
        assert(blobs.drop_last().first() == blobs.first());
        lemma_blobs_size_first(blobs.drop_last());
        assert(blobs.drop_first().drop_last() =~= blobs.drop_last().drop_first());
        assert(blobs.drop_first().last() == blobs.last());
    }
}

/// A state that has recorded a fatal error stays as it is.
pub proof fn lemma_decide_fold_frozen(st: DecideState, packs: Seq<PrunePackV>)
    requires
        st.missing is Some,
    ensures
        decide_fold(st, packs) == st,
    decreases packs.len(),
{
    if packs.len() > 0 {
        lemma_decide_fold_frozen(st, packs.drop_first());
    }
}

// ------------------------------------------------------------------
// Input bounds: what must hold of the catalog for the engine's u64
// arithmetic to be exact.
// ------------------------------------------------------------------

/// The bytes a run of packs occupies.
pub open spec fn packs_size(packs: Seq<PrunePackV>) -> int
    decreases packs.len(),
{
    if packs.len() == 0 {
        0
    } else {
        blobs_size(packs.first().blobs) + packs_size(packs.drop_first())
    }
}

/// The number of blob descriptors a run of packs holds.
pub open spec fn packs_blob_count(packs: Seq<PrunePackV>) -> int
    decreases packs.len(),
{
    if packs.len() == 0 {
        0
    } else {
        packs.first().blobs.len() + packs_blob_count(packs.drop_first())
    }
}

/// Every blob descriptor of the catalog occupies at least one byte.
pub open spec fn blobs_valid(ixs: Seq<PruneIndexV>) -> bool {
    forall|a: int, b: int, c: int|
        0 <= a < ixs.len() && 0 <= b < ixs[a].packs.len() && 0 <= c
            < ixs[a].packs[b].blobs.len() ==> valid_blob(#[trigger] ixs[a].packs[b].blobs[c])
}

/// The machine limits under which the engine's u64 statistics are exact:
/// valid blob descriptors, and a catalog that fits 64-bit byte and pack
/// counters.
pub open spec fn prune_input_ok(ixs: Seq<PruneIndexV>) -> bool {
    &&& blobs_valid(ixs)
    &&& packs_size(flat_packs(ixs)) <= u64::MAX
    &&& flat_packs(ixs).len() <= u64::MAX
}

pub proof fn lemma_blobs_size_nonneg(blobs: Seq<IndexBlob>)
    ensures
        blobs_size(blobs) >= 0,
    decreases blobs.len(),
{
    if blobs.len() > 0 {
        lemma_blobs_size_nonneg(blobs.drop_last());
    }
}

pub proof fn lemma_packs_size_nonneg(packs: Seq<PrunePackV>)
    ensures
        packs_size(packs) >= 0,
        packs_blob_count(packs) >= 0,
    decreases packs.len(),
{
    if packs.len() > 0 {
        lemma_blobs_size_nonneg(packs.first().blobs);
        lemma_packs_size_nonneg(packs.drop_first());
    }
}

/// Splitting a concatenation of pack runs splits its size and count.
pub proof fn lemma_packs_size_add(a: Seq<PrunePackV>, b: Seq<PrunePackV>)
    ensures
        packs_size(a + b) == packs_size(a) + packs_size(b),
        packs_blob_count(a + b) == packs_blob_count(a) + packs_blob_count(b),
    decreases a.len(),
{
    if a.len() == 0 {
        assert(a + b =~= b);
    } else {
        assert((a + b).first() == a.first());
        assert((a + b).drop_first() =~= a.drop_first() + b);
        lemma_packs_size_add(a.drop_first(), b);
    }
}

/// The running statistics while packs are classified: blob and byte tallies
/// are exactly what was processed, removals never exceed the unused side,
/// and the repack tallies are still untouched.
pub open spec fn stats_bounds(s: StatsM, packs_done: int, blobs_done: int, size_done: int) -> bool {
    &&& 0 <= s.packs_used
    &&& 0 <= s.packs_partly_used
    &&& 0 <= s.packs_unused
    &&& s.packs_used + s.packs_partly_used + s.packs_unused <= packs_done
    &&& 0 <= s.packs_keep <= s.packs_used
    &&& 0 <= s.blobs_used
    &&& 0 <= s.blobs_unused
    &&& s.blobs_used + s.blobs_unused == blobs_done
    &&& 0 <= s.blobs_remove <= s.blobs_unused
    &&& 0 <= s.size_used
    &&& 0 <= s.size_unused
    &&& s.size_used + s.size_unused == size_done
    &&& 0 <= s.size_remove <= s.size_unused
    &&& s.packs_repack == 0
    &&& s.blobs_repack == 0
    &&& s.blobs_repackrm == 0
    &&& s.size_repack == 0
    &&& s.size_repackrm == 0
    &&& s.size_unref == 0
}

/// The catalog as the classification left it: every pack before flat
/// position `pos` carries its decided disposition, everything else is
/// untouched.
pub open spec fn todo_applied(
    cur: Seq<PruneIndexV>,
    orig: Seq<PruneIndexV>,
    todos: Seq<PackToDo>,
    pos: int,
) -> bool {
    &&& cur.len() == orig.len()
    &&& forall|a: int, b: int|
        0 <= a < cur.len() && 0 <= b < orig[a].packs.len() ==> (#[trigger] cur[a].packs[b])
            == if packs_before(orig, a) + b < pos {
            PrunePackV { to_do: todos[packs_before(orig, a) + b], ..orig[a].packs[b] }
        } else {
            orig[a].packs[b]
        }
    &&& forall|a: int|
        0 <= a < cur.len() ==> {
            let ca = #[trigger] cur[a];
            ca.id == orig[a].id && ca.modified == orig[a].modified && ca.packs_to_delete
                == orig[a].packs_to_delete && ca.packs.len() == orig[a].packs.len()
        }
}

/// The executable candidate list mirrors the model's.
pub open spec fn cands_match_seq(rcs: Seq<RepackCandidate>, cs: Seq<CandM>) -> bool {
    &&& rcs.len() == cs.len()
    &&& forall|i: int| 0 <= i < rcs.len() ==> cand_match(#[trigger] rcs[i], cs[i])
}

/// A catalog fresh from loading: no pack has a disposition yet.
pub open spec fn all_keep(ixs: Seq<PruneIndexV>) -> bool {
    forall|a: int, b: int|
        0 <= a < ixs.len() && 0 <= b < ixs[a].packs.len() ==> (#[trigger] ixs[a].packs[b]).to_do
            == PackToDo::Keep
}

/// The decision state that an engine value embodies.
pub open spec fn cur_state(p: Pruner, todos: Seq<PackToDo>, cands_m: Seq<CandM>) -> DecideState {
    DecideState {
        m: p.used_ids@,
        existing: p.existing_packs@,
        stats: stats_m_of(p.stats),
        cands: cands_m,
        todos,
        missing: None,
    }
}

pub proof fn lemma_packs_before_mono(ixs: Seq<PruneIndexV>, a: int, b: int)
    requires
        0 <= a <= b <= ixs.len(),
    ensures
        packs_before(ixs, a) <= packs_before(ixs, b),
    decreases b - a,
{
    if a < b {
        lemma_packs_before_mono(ixs, a, b - 1);
    }
}

proof fn lemma_packs_before_shift(ixs: Seq<PruneIndexV>, m: int)
    requires
        ixs.len() > 0,
        0 <= m <= ixs.len() - 1,
    ensures
        packs_before(ixs, m + 1) == ixs[0].packs.len() + packs_before(ixs.drop_first(), m),
    decreases m,
{
    if m > 0 {
        lemma_packs_before_shift(ixs, m - 1);
        assert(ixs.drop_first()[m - 1] == ixs[m]);
    } else {
        assert(packs_before(ixs, 0) == 0);
        assert(packs_before(ixs.drop_first(), 0) == 0);
        assert(packs_before(ixs, 1) == packs_before(ixs, 0) + ixs[0].packs.len());
    }
}

/// The flat pack count is what `packs_before` reaches at the end.
pub proof fn lemma_packs_before_flat(ixs: Seq<PruneIndexV>)
    ensures
        packs_before(ixs, ixs.len() as int) == flat_packs(ixs).len(),
    decreases ixs.len(),
{
    if ixs.len() > 0 {
        lemma_packs_before_flat(ixs.drop_first());
        lemma_packs_before_shift(ixs, ixs.len() - 1);
    }
}

pub proof fn lemma_packs_before_nonneg(ixs: Seq<PruneIndexV>)
    ensures
        forall|a: int| 0 <= a <= ixs.len() ==> #[trigger] packs_before(ixs, a) >= 0,
{
    assert forall|a: int| 0 <= a <= ixs.len() implies #[trigger] packs_before(ixs, a) >= 0 by {
        lemma_packs_before_mono(ixs, 0, a);
    }
}

/// One pack got its disposition: the applied-dispositions record advances by
/// one flat position.
proof fn lemma_todo_applied_step(
    cur: Seq<PruneIndexV>,
    next: Seq<PruneIndexV>,
    orig: Seq<PruneIndexV>,
    todos: Seq<PackToDo>,
    pos: int,
    i: int,
    j: int,
    td: PackToDo,
)
    requires
        todo_applied(cur, orig, todos, pos),
        0 <= i < orig.len(),
        0 <= j < orig[i].packs.len(),
        pos == packs_before(orig, i) + j,
        todos.len() == pos,
        next.len() == cur.len(),
        forall|a: int| 0 <= a < cur.len() && a != i ==> next[a] == cur[a],
        next[i].id == cur[i].id,
        next[i].modified == cur[i].modified,
        next[i].packs_to_delete == cur[i].packs_to_delete,
        next[i].packs.len() == cur[i].packs.len(),
        forall|b: int|
            0 <= b < cur[i].packs.len() && b != j ==> next[i].packs[b] == cur[i].packs[b],
        next[i].packs[j] == (PrunePackV { to_do: td, ..orig[i].packs[j] }),
    ensures
        todo_applied(next, orig, todos.push(td), pos + 1),
{
    lemma_packs_before_nonneg(orig);
    assert forall|a: int, b: int|
        0 <= a < next.len() && 0 <= b < orig[a].packs.len() implies (#[trigger] next[a].packs[b])
        == if packs_before(orig, a) + b < pos + 1 {
        PrunePackV { to_do: todos.push(td)[packs_before(orig, a) + b], ..orig[a].packs[b] }
    } else {
        orig[a].packs[b]
    } by {
        let fp = packs_before(orig, a) + b;
        assert(cur[a].packs[b] == if fp < pos {
            PrunePackV { to_do: todos[fp], ..orig[a].packs[b] }
        } else {
            orig[a].packs[b]
        });
        if a < i {
            assert(packs_before(orig, a + 1) == packs_before(orig, a) + orig[a].packs.len());
            lemma_packs_before_mono(orig, a + 1, i);
            assert(fp < pos);
            assert(next[a] == cur[a]);
        } else if a == i {
            if b < j {
                assert(fp < pos);
                assert(next[i].packs[b] == cur[i].packs[b]);
            } else if b == j {
                assert(todos.push(td)[pos] == td);
            } else {
                assert(fp > pos);
                assert(next[i].packs[b] == cur[i].packs[b]);
            }
        } else {
            assert(packs_before(orig, i + 1) == packs_before(orig, i) + orig[i].packs.len());
            lemma_packs_before_mono(orig, i + 1, a);
            assert(fp >= packs_before(orig, a));
            assert(fp > pos);
            assert(next[a] == cur[a]);
        }
    }
    assert forall|a: int| 0 <= a < next.len() implies {
        let na = #[trigger] next[a];
        na.id == orig[a].id && na.modified == orig[a].modified && na.packs_to_delete == orig[
            a
        ].packs_to_delete && na.packs.len() == orig[a].packs.len()
    } by {
        if a != i {
            assert(next[a] == cur[a]);
        }
    }
}

/// The sizes bound by an association list of on-disk packs.
pub open spec fn sum_vals(s: Seq<(Id, u32)>) -> int
    decreases s.len(),
{
    if s.len() == 0 {
        0
    } else {
        sum_vals(s.drop_last()) + s.last().1
    }
}

pub proof fn lemma_sum_vals_bound(s: Seq<(Id, u32)>)
    ensures
        0 <= sum_vals(s) <= s.len() * (u32::MAX as int),
    decreases s.len(),
{
    if s.len() > 0 {
        lemma_sum_vals_bound(s.drop_last());
        assert((s.len() - 1) * (u32::MAX as int) + u32::MAX as int == s.len() * (u32::MAX as int))
            by (nonlinear_arith);
    }
}

/// Unrolling `sum_vals` from the front.
pub proof fn lemma_sum_vals_first(s: Seq<(Id, u32)>)
    requires
        s.len() > 0,
    ensures
        sum_vals(s) == s.first().1 + sum_vals(s.drop_first()),
    decreases s.len(),
{
    if s.len() == 1 {
        assert(s.drop_last() =~= Seq::<(Id, u32)>::empty());
        assert(s.drop_first() =~= Seq::<(Id, u32)>::empty());
    } else {
        assert(s.drop_last().first() == s.first());
        lemma_sum_vals_first(s.drop_last());
        assert(s.drop_first().drop_last() =~= s.drop_last().drop_first());
        assert(s.drop_first().last() == s.last());
    }
}

// ------------------------------------------------------------------
// Budgeted repack selection (phase D).
// ------------------------------------------------------------------

/// Candidate tallies over the executable candidate list.
pub open spec fn sum_rc_unused(s: Seq<RepackCandidate>) -> int
    decreases s.len(),
{
    if s.len() == 0 {
        0
    } else {
        sum_rc_unused(s.drop_last()) + s.last().pi.unused_size
    }
}

pub open spec fn sum_rc_total(s: Seq<RepackCandidate>) -> int
    decreases s.len(),
{
    if s.len() == 0 {
        0
    } else {
        sum_rc_total(s.drop_last()) + s.last().pi.used_size + s.last().pi.unused_size
    }
}

pub open spec fn sum_rc_blobs(s: Seq<RepackCandidate>) -> int
    decreases s.len(),
{
    if s.len() == 0 {
        0
    } else {
        sum_rc_blobs(s.drop_last()) + s.last().pi.used_blobs + s.last().pi.unused_blobs
    }
}

pub open spec fn sum_rc_ublobs(s: Seq<RepackCandidate>) -> int
    decreases s.len(),
{
    if s.len() == 0 {
        0
    } else {
        sum_rc_ublobs(s.drop_last()) + s.last().pi.unused_blobs
    }
}

/// Unrolling the candidate tallies from the front.
pub proof fn lemma_sum_rc_first(s: Seq<RepackCandidate>)
    requires
        s.len() > 0,
    ensures
        sum_rc_unused(s) == s.first().pi.unused_size + sum_rc_unused(s.drop_first()),
        sum_rc_total(s) == s.first().pi.used_size + s.first().pi.unused_size + sum_rc_total(
            s.drop_first(),
        ),
        sum_rc_blobs(s) == s.first().pi.used_blobs + s.first().pi.unused_blobs + sum_rc_blobs(
            s.drop_first(),
        ),
        sum_rc_ublobs(s) == s.first().pi.unused_blobs + sum_rc_ublobs(s.drop_first()),
    decreases s.len(),
{
    if s.len() == 1 {
        assert(s.drop_last() =~= Seq::<RepackCandidate>::empty());
        assert(s.drop_first() =~= Seq::<RepackCandidate>::empty());
    } else {
        assert(s.drop_last().first() == s.first());
        lemma_sum_rc_first(s.drop_last());
        assert(s.drop_first().drop_last() =~= s.drop_last().drop_first());
        assert(s.drop_first().last() == s.last());
    }
}

/// The executable candidates tally exactly like their models.
pub proof fn lemma_rc_cm_sums(rcs: Seq<RepackCandidate>, cs: Seq<CandM>)
    requires
        cands_match_seq(rcs, cs),
    ensures
        sum_rc_unused(rcs) == sum_cm_unused(cs),
        sum_rc_total(rcs) == sum_cm_total(cs),
        sum_rc_blobs(rcs) == sum_cm_blobs(cs),
        sum_rc_ublobs(rcs) == sum_cm_ublobs(cs),
    decreases rcs.len(),
{
    if rcs.len() > 0 {
        assert(cand_match(rcs.last(), cs.last()));
        assert forall|t: int| 0 <= t < rcs.len() - 1 implies cand_match(
            #[trigger] rcs.drop_last()[t],
            cs.drop_last()[t],
        ) by {
            assert(rcs.drop_last()[t] == rcs[t] && cs.drop_last()[t] == cs[t]);
        }
        lemma_rc_cm_sums(rcs.drop_last(), cs.drop_last());
    }
}

/// Stable insertion of a candidate into a run sorted by the pack-info order.
pub open spec fn spec_insert_cand(s: Seq<RepackCandidate>, c: RepackCandidate) -> Seq<
    RepackCandidate,
>
    decreases s.len(),
{
    if s.len() == 0 {
        seq![c]
    } else if pi_le(s.first().pi, c.pi) {
        seq![s.first()] + spec_insert_cand(s.drop_first(), c)
    } else {
        seq![c] + s
    }
}

/// Insertion sort of the repack candidates: deterministic and stable.
pub open spec fn spec_sort_cands(s: Seq<RepackCandidate>) -> Seq<RepackCandidate>
    decreases s.len(),
{
    if s.len() == 0 {
        Seq::empty()
    } else {
        spec_insert_cand(spec_sort_cands(s.drop_last()), s.last())
    }
}

#[verifier::rlimit(60)]
pub proof fn lemma_insert_cand_sums(s: Seq<RepackCandidate>, c: RepackCandidate)
    ensures
        spec_insert_cand(s, c).len() == s.len() + 1,
        sum_rc_unused(spec_insert_cand(s, c)) == sum_rc_unused(s) + c.pi.unused_size,
        sum_rc_total(spec_insert_cand(s, c)) == sum_rc_total(s) + c.pi.used_size
            + c.pi.unused_size,
        sum_rc_blobs(spec_insert_cand(s, c)) == sum_rc_blobs(s) + c.pi.used_blobs
            + c.pi.unused_blobs,
        sum_rc_ublobs(spec_insert_cand(s, c)) == sum_rc_ublobs(s) + c.pi.unused_blobs,
    decreases s.len(),
{
    let r = spec_insert_cand(s, c);
    if s.len() == 0 {
        assert(r =~= seq![c]);
        assert(r.len() == 1);
        assert(r.drop_last() =~= Seq::<RepackCandidate>::empty());
        assert(r.last() == c);
        assert(sum_rc_unused(r.drop_last()) == 0);
        assert(sum_rc_total(r.drop_last()) == 0);
        assert(sum_rc_blobs(r.drop_last()) == 0);
        assert(sum_rc_ublobs(r.drop_last()) == 0);
        assert(sum_rc_unused(r) == sum_rc_unused(r.drop_last()) + r.last().pi.unused_size);
        assert(sum_rc_total(r) == sum_rc_total(r.drop_last()) + r.last().pi.used_size
            + r.last().pi.unused_size);
        assert(sum_rc_blobs(r) == sum_rc_blobs(r.drop_last()) + r.last().pi.used_blobs
            + r.last().pi.unused_blobs);
        assert(sum_rc_ublobs(r) == sum_rc_ublobs(r.drop_last()) + r.last().pi.unused_blobs);
    } else if pi_le(s.first().pi, c.pi) {
        lemma_insert_cand_sums(s.drop_first(), c);
        assert(r == seq![s.first()] + spec_insert_cand(s.drop_first(), c));
        assert(r.first() == s.first());
        assert(r.drop_first() =~= spec_insert_cand(s.drop_first(), c));
        assert(r.len() == s.len() + 1);
        lemma_sum_rc_first(r);
        lemma_sum_rc_first(s);
        assert(sum_rc_unused(r.drop_first()) == sum_rc_unused(s.drop_first())
            + c.pi.unused_size);
        assert(sum_rc_total(r.drop_first()) == sum_rc_total(s.drop_first()) + c.pi.used_size
            + c.pi.unused_size);
        assert(sum_rc_blobs(r.drop_first()) == sum_rc_blobs(s.drop_first()) + c.pi.used_blobs
            + c.pi.unused_blobs);
        assert(sum_rc_ublobs(r.drop_first()) == sum_rc_ublobs(s.drop_first())
            + c.pi.unused_blobs);
    } else {
        assert(r.first() == c);
        assert(r.drop_first() =~= s);
        lemma_sum_rc_first(r);
    }
}

pub proof fn lemma_sort_cands_sums(s: Seq<RepackCandidate>)
    ensures
        spec_sort_cands(s).len() == s.len(),
        sum_rc_unused(spec_sort_cands(s)) == sum_rc_unused(s),
        sum_rc_total(spec_sort_cands(s)) == sum_rc_total(s),
        sum_rc_blobs(spec_sort_cands(s)) == sum_rc_blobs(s),
        sum_rc_ublobs(spec_sort_cands(s)) == sum_rc_ublobs(s),
    decreases s.len(),
{
    if s.len() > 0 {
        lemma_sort_cands_sums(s.drop_last());
        lemma_insert_cand_sums(spec_sort_cands(s.drop_last()), s.last());
    }
}

/// Where an insertion lands: before the first strictly greater element.
proof fn lemma_insert_cand_at(s: Seq<RepackCandidate>, c: RepackCandidate, at: int)
    requires
        0 <= at <= s.len(),
        forall|t: int| 0 <= t < at ==> pi_le((#[trigger] s[t]).pi, c.pi),
        at < s.len() ==> !pi_le(s[at].pi, c.pi),
    ensures
        spec_insert_cand(s, c) == s.subrange(0, at) + seq![c] + s.subrange(at, s.len() as int),
    decreases at,
{
    if s.len() == 0 {
        assert(spec_insert_cand(s, c) =~= s.subrange(0, at) + seq![c] + s.subrange(
            at,
            s.len() as int,
        ));
    } else if at == 0 {
        assert(!pi_le(s.first().pi, c.pi));
        assert(spec_insert_cand(s, c) =~= s.subrange(0, 0) + seq![c] + s.subrange(
            0,
            s.len() as int,
        ));
    } else {
        assert(pi_le(s[0].pi, c.pi));
        assert forall|t: int| 0 <= t < at - 1 implies pi_le(
            (#[trigger] s.drop_first()[t]).pi,
            c.pi,
        ) by {
            assert(s.drop_first()[t] == s[t + 1]);
        }
        assert(at - 1 < s.drop_first().len() ==> !pi_le(s.drop_first()[at - 1].pi, c.pi));
        lemma_insert_cand_at(s.drop_first(), c, at - 1);
        assert(spec_insert_cand(s, c) =~= s.subrange(0, at) + seq![c] + s.subrange(
            at,
            s.len() as int,
        ));
    }
}

/// The selection state: which packs were picked, and the running statistics.
pub struct SelState {
    pub repack_ids: Set<Id>,
    pub stats: StatsM,
}

/// One budgeting decision.  A candidate is kept when admitting it would push
/// the repack volume to the cap, or when it is a data pack and the projected
/// residual unused bytes are already tolerable; tree packs bypass that
/// floor.
pub open spec fn sel_step(st: SelState, c: RepackCandidate, mr: int, mu: int) -> SelState {
    let total_c = c.pi.unused_size + c.pi.used_size;
    let unused_after = st.stats.size_unused - st.stats.size_remove - st.stats.size_repackrm;
    if st.stats.size_repack + total_c >= mr || (c.pi.blob_type != BlobType::Tree && unused_after
        <= mu) {
        SelState {
            repack_ids: st.repack_ids,
            stats: StatsM { packs_keep: st.stats.packs_keep + 1, ..st.stats },
        }
    } else {
        SelState {
            repack_ids: st.repack_ids.insert(c.id),
            stats: StatsM {
                packs_repack: st.stats.packs_repack + 1,
                blobs_repack: st.stats.blobs_repack + c.pi.unused_blobs + c.pi.used_blobs,
                blobs_repackrm: st.stats.blobs_repackrm + c.pi.unused_blobs,
                size_repack: st.stats.size_repack + total_c,
                size_repackrm: st.stats.size_repackrm + c.pi.unused_size,
                ..st.stats
            },
        }
    }
}

pub open spec fn sel_fold(st: SelState, cands: Seq<RepackCandidate>, mr: int, mu: int) -> SelState
    decreases cands.len(),
{
    if cands.len() == 0 {
        st
    } else {
        sel_fold(sel_step(st, cands.first(), mr, mu), cands.drop_first(), mr, mu)
    }
}

/// A pack after marking: picked packs flip to `Repack`.
pub open spec fn marked(p: PrunePackV, ids: Set<Id>) -> PrunePackV {
    if ids.contains(p.id) {
        PrunePackV { to_do: PackToDo::Repack, ..p }
    } else {
        p
    }
}

/// The catalog while picked packs are being marked, up to position (i, j) in
/// lexicographic order.
pub open spec fn mark_applied(
    cur: Seq<PruneIndexV>,
    prev: Seq<PruneIndexV>,
    ids: Set<Id>,
    i: int,
    j: int,
) -> bool {
    &&& cur.len() == prev.len()
    &&& forall|a: int, b: int|
        0 <= a < cur.len() && 0 <= b < prev[a].packs.len() ==> (#[trigger] cur[a].packs[b]) == (
        if a < i || (a == i && b < j) {
            marked(prev[a].packs[b], ids)
        } else {
            prev[a].packs[b]
        })
    &&& forall|a: int|
        0 <= a < cur.len() ==> {
            let ca = #[trigger] cur[a];
            ca.id == prev[a].id && ca.modified == prev[a].modified && ca.packs_to_delete == prev[
                a
            ].packs_to_delete && ca.packs.len() == prev[a].packs.len()
        }
}

pub proof fn lemma_sum_rc_nonneg(s: Seq<RepackCandidate>)
    ensures
        sum_rc_unused(s) >= 0,
        sum_rc_total(s) >= 0,
        sum_rc_blobs(s) >= 0,
        sum_rc_ublobs(s) >= 0,
    decreases s.len(),
{
    if s.len() > 0 {
        lemma_sum_rc_nonneg(s.drop_last());
    }
}

/// One pack marked (or left alone): the marking record advances one step.
proof fn lemma_mark_step(
    cur: Seq<PruneIndexV>,
    next: Seq<PruneIndexV>,
    prev: Seq<PruneIndexV>,
    ids: Set<Id>,
    i: int,
    j: int,
)
    requires
        mark_applied(cur, prev, ids, i, j),
        0 <= i < prev.len(),
        0 <= j < prev[i].packs.len(),
        next.len() == cur.len(),
        forall|a: int| 0 <= a < cur.len() && a != i ==> next[a] == cur[a],
        next[i].id == cur[i].id,
        next[i].modified == cur[i].modified,
        next[i].packs_to_delete == cur[i].packs_to_delete,
        next[i].packs.len() == cur[i].packs.len(),
        forall|b: int|
            0 <= b < cur[i].packs.len() && b != j ==> next[i].packs[b] == cur[i].packs[b],
        next[i].packs[j] == marked(prev[i].packs[j], ids),
    ensures
        mark_applied(next, prev, ids, i, j + 1),
{
    assert forall|a: int, b: int|
        0 <= a < next.len() && 0 <= b < prev[a].packs.len() implies (#[trigger] next[a].packs[b])
        == (if a < i || (a == i && b < j + 1) {
        marked(prev[a].packs[b], ids)
    } else {
        prev[a].packs[b]
    }) by {
        assert(cur[a].packs[b] == (if a < i || (a == i && b < j) {
            marked(prev[a].packs[b], ids)
        } else {
            prev[a].packs[b]
        }));
        if a != i {
            assert(next[a] == cur[a]);
        } else if b != j {
            assert(next[i].packs[b] == cur[i].packs[b]);
        }
    }
    assert forall|a: int| 0 <= a < next.len() implies {
        let na = #[trigger] next[a];
        na.id == prev[a].id && na.modified == prev[a].modified && na.packs_to_delete == prev[
            a
        ].packs_to_delete && na.packs.len() == prev[a].packs.len()
    } by {
        if a != i {
            assert(next[a] == cur[a]);
        }
    }
}

/// Insertion sort of the repack candidates by the pack-info order.
fn sort_candidates(cands: Vec<RepackCandidate>) -> (r: Vec<RepackCandidate>)
    ensures
        r@ == spec_sort_cands(cands@),
{
    let mut out: Vec<RepackCandidate> = Vec::new();
    let n = cands.len();
    let mut t: usize = 0;
    proof {
        assert(cands@.take(0) =~= Seq::<RepackCandidate>::empty());
    }
    while t < n
        invariant
            t <= n,
            n == cands@.len(),
            out@ == spec_sort_cands(cands@.take(t as int)),
        decreases n - t,
    {
        let c = cands[t];
        let m = out.len();
        let mut at: usize = 0;
        while at < m && out[at].pi.le(&c.pi)
            invariant
                at <= m,
                m == out@.len(),
                forall|q: int| 0 <= q < at ==> pi_le((#[trigger] out@[q]).pi, c.pi),
            decreases m - at,
        {
            at += 1;
        }
        let ghost out_prev = out@;
        out.insert(at, c);
        proof {
            lemma_insert_cand_at(out_prev, c, at as int);
            assert(out@ =~= out_prev.subrange(0, at as int) + seq![c] + out_prev.subrange(
                at as int,
                out_prev.len() as int,
            ));
            assert(cands@.take(t as int + 1).drop_last() =~= cands@.take(t as int));
            assert(cands@.take(t as int + 1).last() == cands@[t as int]);
        }
        t += 1;
    }
    proof {
        assert(cands@.take(n as int) =~= cands@);
    }
    out
}

// ------------------------------------------------------------------
// Loading the index catalog: duplicate packs are dropped.
// ------------------------------------------------------------------

/// A freshly loaded pack: disposition `Keep` until the decision engine rules.
pub open spec fn prune_pack_of(p: IndexPackV) -> PrunePackV {
    PrunePackV {
        id: p.id,
        blob_type: pack_blob_type(p),
        to_do: PackToDo::Keep,
        time: p.time,
        blobs: p.blobs,
    }
}

/// Drop every pack whose id was already sighted, remembering whether any was
/// dropped: (kept packs, ids sighted afterwards, dropped any).
pub open spec fn dedup_packs(packs: Seq<IndexPackV>, seen: Set<Id>) -> (
    Seq<PrunePackV>,
    Set<Id>,
    bool,
)
    decreases packs.len(),
{
    if packs.len() == 0 {
        (Seq::empty(), seen, false)
    } else {
        let p = packs.first();
        if seen.contains(p.id) {
            let r = dedup_packs(packs.drop_first(), seen);
            (r.0, r.1, true)
        } else {
            let r = dedup_packs(packs.drop_first(), seen.insert(p.id));
            (seq![prune_pack_of(p)] + r.0, r.1, r.2)
        }
    }
}

/// Load all index files in order, collapsing duplicate packs; an index that
/// lost a pack is flagged modified so that rewriting it drops the duplicate.
pub open spec fn dedup_indexes(ixs: Seq<(Id, IndexFileV)>, seen: Set<Id>) -> (
    Seq<PruneIndexV>,
    Set<Id>,
)
    decreases ixs.len(),
{
    if ixs.len() == 0 {
        (Seq::empty(), seen)
    } else {
        let (id, f) = ixs.first();
        let d = dedup_packs(f.packs, seen);
        let ix = PruneIndexV { id, modified: d.2, packs: d.0, packs_to_delete: f.packs_to_delete };
        let r = dedup_indexes(ixs.drop_first(), d.1);
        (seq![ix] + r.0, r.1)
    }
}

// ------------------------------------------------------------------
// The index planner: which index files are rewritten.
// ------------------------------------------------------------------

/// Rebuild threshold: an index describing fewer blobs than this is rewritten
/// to consolidate fragmentation.
pub const MIN_INDEX_LEN: u64 = 10000;

/// An index file must be rewritten when duplicate packs were dropped from it
/// at load, or when any of its packs is repacked or removed.
pub open spec fn index_must_modify(ix: PruneIndexV) -> bool {
    ix.modified || exists|b: int|
        0 <= b < ix.packs.len() && (#[trigger] ix.packs[b]).to_do != PackToDo::Keep
}

/// Keep the indexes that must be rewritten, and those too small to stay as
/// they are: (kept, any index must be rewritten).
pub open spec fn filter_fold(ixs: Seq<PruneIndexV>) -> (Seq<PruneIndexV>, bool)
    decreases ixs.len(),
{
    if ixs.len() == 0 {
        (Seq::empty(), false)
    } else {
        let r = filter_fold(ixs.drop_first());
        let must = index_must_modify(ixs.first());
        if must || packs_blob_count(ixs.first().packs) < MIN_INDEX_LEN {
            (seq![ixs.first()] + r.0, must || r.1)
        } else {
            (r.0, must || r.1)
        }
    }
}

/// The planner's outcome.  When nothing must be rewritten and a single
/// undersized index is all that was selected, it is left alone: rewriting a
/// lone small index into itself would never converge.
pub open spec fn spec_filter_index_files(ixs: Seq<PruneIndexV>) -> Seq<PruneIndexV> {
    let r = filter_fold(ixs);
    if !r.1 && r.0.len() == 1 {
        Seq::empty()
    } else {
        r.0
    }
}

impl PruneIndex {
    /// The number of blobs this index describes.
    pub fn len(&self) -> (r: u128)
        ensures
            r == packs_blob_count(self@.packs),
    {
        let pn = self.packs.len();
        let mut total: u128 = 0;
        let mut j: usize = 0;
        let ghost packs_v = self@.packs;
        proof {
            assert(packs_v.skip(0) =~= packs_v);
            lemma_packs_size_nonneg(packs_v);
            assert forall|b: int| 0 <= b < packs_v.len() implies (#[trigger] packs_v[
                b
            ]).blobs.len() <= u64::MAX by {
                vstd::std_specs::vec::axiom_spec_len(&self.packs@[b].blobs);
                assert(packs_v[b].blobs == self.packs@[b].blobs@);
            }
            lemma_packs_count_coarse(packs_v);
        }
        while j < pn
            invariant
                j <= pn,
                pn == self.packs@.len(),
                packs_v == self@.packs,
                total + packs_blob_count(packs_v.skip(j as int)) == packs_blob_count(packs_v),
                total <= (u64::MAX as u128) * (u64::MAX as u128),
                packs_blob_count(packs_v) <= packs_v.len() * (u64::MAX as int),
                packs_v.len() <= u64::MAX,
            decreases pn - j,
        {
            proof {
                assert(packs_v.skip(j as int).first() == packs_v[j as int]);
                assert(packs_v.skip(j as int).drop_first() =~= packs_v.skip(j as int + 1));
                lemma_packs_size_nonneg(packs_v.skip(j as int + 1));
                lemma_u64_mul_fits(u64::MAX, u64::MAX);
                assert(packs_v[j as int].blobs.len() <= u64::MAX) by {
                    vstd::std_specs::vec::axiom_spec_len(&self.packs@[j as int].blobs);
                    assert(packs_v[j as int].blobs == self.packs@[j as int].blobs@);
                }
                assert(total + packs_v[j as int].blobs.len() <= (u64::MAX as u128) * (
                u64::MAX as u128)) by (nonlinear_arith)
                    requires
                        total + packs_blob_count(packs_v.skip(j as int)) == packs_blob_count(
                            packs_v,
                        ),
                        packs_blob_count(packs_v.skip(j as int)) == packs_v[j as int].blobs.len()
                            + packs_blob_count(packs_v.skip(j as int + 1)),
                        packs_blob_count(packs_v.skip(j as int + 1)) >= 0,
                        packs_blob_count(packs_v) <= packs_v.len() * (u64::MAX as int),
                        packs_v.len() <= u64::MAX,
                        total >= 0,
                ;
            }
            total = total + (self.packs[j].blobs.len() as u128);
            j += 1;
        }
        proof {
            assert(packs_v.skip(pn as int) =~= Seq::<PrunePackV>::empty());
        }
        total
    }
}

/// A run of packs holds at most `u64::MAX` blobs for each pack.
pub proof fn lemma_packs_count_coarse(packs: Seq<PrunePackV>)
    requires
        forall|b: int| 0 <= b < packs.len() ==> (#[trigger] packs[b]).blobs.len() <= u64::MAX,
    ensures
        packs_blob_count(packs) <= packs.len() * (u64::MAX as int),
    decreases packs.len(),
{
    if packs.len() > 0 {
        assert forall|b: int| 0 <= b < packs.drop_first().len() implies (#[trigger] packs.drop_first()[
            b
        ]).blobs.len() <= u64::MAX by {
            assert(packs.drop_first()[b] == packs[b + 1]);
        }
        lemma_packs_count_coarse(packs.drop_first());
        assert(packs.first() == packs[0]);
        assert((packs.len() - 1) * (u64::MAX as int) + u64::MAX as int == packs.len() * (
        u64::MAX as int)) by (nonlinear_arith);
    }
}

// ------------------------------------------------------------------
// The decision engine.
// ------------------------------------------------------------------

/// The prune decision engine: owns the used-ids table, the on-disk pack
/// catalog, and the loaded indexes for the length of one prune.
pub struct Pruner {
    pub used_ids: IdMap<u8>,
    pub existing_packs: IdMap<u32>,
    pub repack_candidates: Vec<RepackCandidate>,
    pub index_files: Vec<PruneIndex>,
    pub stats: PruneStats,
}

impl Pruner {
    pub open spec fn indexes_view(self) -> Seq<PruneIndexV> {
        self.index_files@.map_values(|ix: PruneIndex| ix@)
    }

    pub open spec fn wf(self) -> bool {
        &&& self.used_ids.wf()
        &&& self.existing_packs.wf()
    }

    /// Build the engine: take the used-ids table and the pack catalog as they
    /// are, and load the index files, collapsing duplicate packs.
    pub fn new(
        used_ids: IdMap<u8>,
        existing_packs: IdMap<u32>,
        index_files: Vec<(Id, IndexFile)>,
    ) -> (r: Pruner)
        requires
            used_ids.wf(),
            existing_packs.wf(),
        ensures
            r.wf(),
            r.used_ids == used_ids,
            r.existing_packs == existing_packs,
            r.stats == PruneStats::spec_zero(),
            r.repack_candidates@ == Seq::<RepackCandidate>::empty(),
            r.indexes_view() == dedup_indexes(
                index_files@.map_values(|e: (Id, IndexFile)| (e.0, e.1@)),
                Set::empty(),
            ).0,
    {
        let ghost ixs0: Seq<(Id, IndexFileV)> = index_files@.map_values(
            |e: (Id, IndexFile)| (e.0, e.1@),
        );
        let ghost target = dedup_indexes(ixs0, Set::empty());
        let mut processed_packs = crate::table::IdSet::new();
        let mut out: Vec<PruneIndex> = Vec::new();
        let mut rest = index_files;
        proof {
            assert(ixs0.skip(0) =~= ixs0);
        }
        let ghost mut i: int = 0;
        while rest.len() > 0
            invariant
                0 <= i <= ixs0.len(),
                rest@.map_values(|e: (Id, IndexFile)| (e.0, e.1@)) =~= ixs0.skip(i),
                out@.map_values(|ix: PruneIndex| ix@) + dedup_indexes(ixs0.skip(i), processed_packs@).0
                    =~= target.0,
            decreases rest.len(),
        {
            let ghost prev_rest = rest@;
            let (id, f) = rest.remove(0);
            proof {
                assert(rest@ =~= prev_rest.skip(1));
                assert(prev_rest.map_values(|e: (Id, IndexFile)| (e.0, e.1@))[0] == (id, f@));
                assert(ixs0.skip(i).first() == (id, f@));
                let mapped = rest@.map_values(|e: (Id, IndexFile)| (e.0, e.1@));
                assert forall|k: int| 0 <= k < mapped.len() implies #[trigger] mapped[k]
                    == ixs0.skip(i + 1)[k] by {
                    assert(rest@[k] == prev_rest[k + 1]);
                    assert(prev_rest.map_values(|e: (Id, IndexFile)| (e.0, e.1@))[k + 1]
                        == ixs0.skip(i)[k + 1]);
                }
                assert(rest@.map_values(|e: (Id, IndexFile)| (e.0, e.1@)) =~= ixs0.skip(i + 1));
                assert(ixs0.skip(i).drop_first() =~= ixs0.skip(i + 1));
            }
            let ghost f_v = f@;
            let ghost seen_start = processed_packs@;
            let ghost ptarget = dedup_packs(f_v.packs, seen_start);
            let mut modified = false;
            let mut packs: Vec<PrunePack> = Vec::new();
            let mut prest = f.packs;
            let packs_to_delete = f.packs_to_delete;
            proof {
                assert(f_v.packs.skip(0) =~= f_v.packs);
            }
            let ghost mut j: int = 0;
            while prest.len() > 0
                invariant
                    0 <= j <= f_v.packs.len(),
                    prest@.map_values(|p: IndexPack| p@) =~= f_v.packs.skip(j),
                    ({
                        let d = dedup_packs(f_v.packs.skip(j), processed_packs@);
                        &&& packs@.map_values(|p: PrunePack| p@) + d.0 =~= ptarget.0
                        &&& d.1 == ptarget.1
                        &&& (modified || d.2) == ptarget.2
                    }),
                decreases prest.len(),
            {
                let ghost prev_prest = prest@;
                let ghost seen_cur = processed_packs@;
                let ghost packs_cur = packs@.map_values(|q: PrunePack| q@);
                let p = prest.remove(0);
                proof {
                    assert(prest@ =~= prev_prest.skip(1));
                    assert(prev_prest.map_values(|q: IndexPack| q@)[0] == p@);
                    assert(f_v.packs.skip(j).first() == p@);
                    let pmapped = prest@.map_values(|q: IndexPack| q@);
                    assert forall|k: int| 0 <= k < pmapped.len() implies #[trigger] pmapped[k]
                        == f_v.packs.skip(j + 1)[k] by {
                        assert(prest@[k] == prev_prest[k + 1]);
                        assert(prev_prest.map_values(|q: IndexPack| q@)[k + 1] == f_v.packs.skip(
                            j,
                        )[k + 1]);
                    }
                    assert(prest@.map_values(|q: IndexPack| q@) =~= f_v.packs.skip(j + 1));
                    assert(f_v.packs.skip(j).drop_first() =~= f_v.packs.skip(j + 1));
                }
                let no_duplicate = processed_packs.insert(p.id);
                if no_duplicate {
                    let bt = p.blob_type();
                    packs.push(PrunePack {
                        id: p.id,
                        blob_type: bt,
                        to_do: PackToDo::Keep,
                        time: p.time,
                        blobs: p.blobs,
                    });
                    proof {
                        let d2 = dedup_packs(f_v.packs.skip(j + 1), seen_cur.insert(p@.id));
                        assert(packs@.map_values(|q: PrunePack| q@) =~= packs_cur.push(
                            prune_pack_of(p@),
                        ));
                        assert(packs_cur + (seq![prune_pack_of(p@)] + d2.0) =~= packs_cur.push(
                            prune_pack_of(p@),
                        ) + d2.0);
                    }
                } else {
                    modified = true;
                    proof {
                        assert(seen_cur.insert(p@.id) =~= seen_cur);
                    }
                }
                proof {
                    j = j + 1;
                }
            }
            proof {
                assert(f_v.packs.skip(f_v.packs.len() as int) =~= Seq::<IndexPackV>::empty());
                assert(packs@.map_values(|p: PrunePack| p@) =~= ptarget.0);
            }
            out.push(PruneIndex { id, modified, packs, packs_to_delete });
            proof {
                let prev = out@.drop_last().map_values(|ix: PruneIndex| ix@);
                assert(out@.drop_last() =~= out@.subrange(0, out@.len() - 1));
                assert(out@.map_values(|ix: PruneIndex| ix@) =~= prev.push(
                    PruneIndexV {
                        id,
                        modified,
                        packs: ptarget.0,
                        packs_to_delete: f_v.packs_to_delete,
                    },
                ));
                i = i + 1;
            }
        }
        proof {
            assert(ixs0.skip(ixs0.len() as int) =~= Seq::<(Id, IndexFileV)>::empty());
        }
        let r = Pruner {
            used_ids,
            existing_packs,
            repack_candidates: Vec::new(),
            index_files: out,
            stats: PruneStats::new(),
        };
        proof {
            assert(r.indexes_view() =~= target.0);
        }
        r
    }

    /// Phase A: for every blob of every pack of every index whose id the
    /// used-ids table knows, bump its occurrence counter, saturating at 255.
    pub fn count_used_blobs(&mut self)
        requires
            old(self).wf(),
        ensures
            final(self).wf(),
            final(self).used_ids@ == count_packs(
                old(self).used_ids@,
                flat_packs(old(self).indexes_view()),
            ),
            final(self).existing_packs == old(self).existing_packs,
            final(self).repack_candidates == old(self).repack_candidates,
            final(self).index_files == old(self).index_files,
            final(self).stats == old(self).stats,
    {
        let ghost ixs = self.indexes_view();
        let ghost target = count_packs(self.used_ids@, flat_packs(ixs));
        let ghost m0 = self.used_ids@;
        proof {
            assert(ixs.skip(0) =~= ixs);
        }
        let n = self.index_files.len();
        let mut i: usize = 0;
        while i < n
            invariant
                i <= n,
                n == self.index_files@.len(),
                self.used_ids.wf(),
                count_packs(self.used_ids@, flat_packs(ixs.skip(i as int))) == target,
                self.existing_packs == old(self).existing_packs,
                self.repack_candidates == old(self).repack_candidates,
                self.index_files == old(self).index_files,
                self.stats == old(self).stats,
                ixs == self.indexes_view(),
            decreases n - i,
        {
            proof {
                assert(ixs.skip(i as int).first() == ixs[i as int]);
                assert(ixs.skip(i as int).drop_first() =~= ixs.skip(i as int + 1));
            }
            let ghost blobs_target = count_packs(
                count_blobs(self.used_ids@, ixs[i as int].packs[0int].blobs),
                ixs[i as int].packs.drop_first() + flat_packs(ixs.skip(i as int + 1)),
            );
            let pn = self.index_files[i].packs.len();
            let ghost packs_i = ixs[i as int].packs;
            proof {
                assert(packs_i.skip(0) =~= packs_i);
                assert(flat_packs(ixs.skip(i as int)) == packs_i + flat_packs(ixs.skip(i as int + 1)));
            }
            let mut j: usize = 0;
            while j < pn
                invariant
                    j <= pn,
                    i < n,
                    n == self.index_files@.len(),
                    pn == self.index_files@[i as int].packs@.len(),
                    self.used_ids.wf(),
                    count_packs(
                        self.used_ids@,
                        packs_i.skip(j as int) + flat_packs(ixs.skip(i as int + 1)),
                    ) == target,
                    self.existing_packs == old(self).existing_packs,
                    self.repack_candidates == old(self).repack_candidates,
                    self.index_files == old(self).index_files,
                    self.stats == old(self).stats,
                    ixs == self.indexes_view(),
                    packs_i == ixs[i as int].packs,
                decreases pn - j,
            {
                proof {
                    let rem = packs_i.skip(j as int) + flat_packs(ixs.skip(i as int + 1));
                    assert(rem.first() == packs_i[j as int]);
                    assert(rem.drop_first() =~= packs_i.skip(j as int + 1) + flat_packs(
                        ixs.skip(i as int + 1),
                    ));
                }
                let ghost blobs_j = packs_i[j as int].blobs;
                proof {
                    assert(blobs_j.skip(0) =~= blobs_j);
                }
                let bn = self.index_files[i].packs[j].blobs.len();
                let mut k: usize = 0;
                while k < bn
                    invariant
                        k <= bn,
                        i < n,
                        j < pn,
                        n == self.index_files@.len(),
                        pn == self.index_files@[i as int].packs@.len(),
                        bn == self.index_files@[i as int].packs@[j as int].blobs@.len(),
                        self.used_ids.wf(),
                        count_packs(
                            count_blobs(self.used_ids@, blobs_j.skip(k as int)),
                            packs_i.skip(j as int + 1) + flat_packs(ixs.skip(i as int + 1)),
                        ) == target,
                        self.existing_packs == old(self).existing_packs,
                        self.repack_candidates == old(self).repack_candidates,
                        self.index_files == old(self).index_files,
                        self.stats == old(self).stats,
                        ixs == self.indexes_view(),
                        packs_i == ixs[i as int].packs,
                        blobs_j == packs_i[j as int].blobs,
                    decreases bn - k,
                {
                    let blob = self.index_files[i].packs[j].blobs[k];
                    proof {
                        assert(blobs_j.skip(k as int).first() == blob);
                        assert(blobs_j.skip(k as int).drop_first() =~= blobs_j.skip(k as int + 1));
                    }
                    match self.used_ids.get(blob.id) {
                        Some(count) => {
                            let bumped = if count == 255 {
                                255
                            } else {
                                count + 1
                            };
                            self.used_ids.insert(blob.id, bumped);
                        },
                        None => {
                            proof {
                                assert(bump(self.used_ids@, blob.id) == self.used_ids@);
                            }
                        },
                    }
                    k += 1;
                }
                j += 1;
                proof {
                    assert(blobs_j.skip(bn as int) =~= Seq::<IndexBlob>::empty());
                }
            }
            i += 1;
            proof {
                assert(packs_i.skip(pn as int) =~= Seq::<PrunePackV>::empty());
                assert(flat_packs(ixs.skip(i as int)) =~= Seq::<PrunePackV>::empty() + flat_packs(
                    ixs.skip(i as int),
                ));
            }
        }
        proof {
            assert(ixs.skip(n as int) =~= Seq::<PruneIndexV>::empty());
        }
    }

    /// Phase C: classify every pack and resolve duplicate used blobs.  Fully
    /// unused packs are marked for removal, fully used packs stay and their
    /// ids leave the table, partly used packs become repack candidates.  A
    /// pack that must be kept but is absent from disk is fatal.  Whatever
    /// remains of the on-disk catalog afterwards is unreferenced; its size is
    /// charged to the `unref` statistic.
    pub fn decide_packs(&mut self) -> (r: Result<(), PruneError>)
        requires
            old(self).wf(),
            old(self).stats == PruneStats::spec_zero(),
            old(self).repack_candidates@ == Seq::<RepackCandidate>::empty(),
            prune_input_ok(old(self).indexes_view()),
            all_keep(old(self).indexes_view()),
            old(self).existing_packs.entries_seq().len() <= u32::MAX,
        ensures
            ({
                let ixs0 = old(self).indexes_view();
                let target = decide_fold(
                    cur_state(*old(self), Seq::empty(), Seq::empty()),
                    flat_packs(ixs0),
                );
                match r {
                    Ok(()) => {
                        &&& final(self).wf()
                        &&& target.missing is None
                        &&& final(self).used_ids@ == target.m
                        &&& final(self).existing_packs@ == target.existing
                        &&& final(self).existing_packs.entries_seq().len() <= u32::MAX
                        &&& stats_m_of(final(self).stats) == (StatsM {
                            size_unref: sum_vals(final(self).existing_packs.entries_seq()),
                            ..target.stats
                        })
                        &&& cands_match_seq(final(self).repack_candidates@, target.cands)
                        &&& todo_applied(
                            final(self).indexes_view(),
                            ixs0,
                            target.todos,
                            packs_before(ixs0, ixs0.len() as int),
                        )
                        &&& target.todos.len() == packs_before(ixs0, ixs0.len() as int)
                        &&& final(self).indexes_view().len() == ixs0.len()
                        &&& decide_outcome_ok(target, flat_packs(ixs0).len() as int)
                        &&& target.stats.size_used + target.stats.size_unused <= u64::MAX
                    },
                    Err(e) => {
                        &&& target.missing is Some
                        &&& e == (PruneError::MissingPack { id: target.missing.unwrap() })
                    },
                }
            }),
    {
        let ghost ixs0 = old(self).indexes_view();
        let ghost total_size: int = packs_size(flat_packs(ixs0));
        let ghost target = decide_fold(
            cur_state(*old(self), Seq::empty(), Seq::empty()),
            flat_packs(ixs0),
        );
        let ghost mut todos: Seq<PackToDo> = Seq::empty();
        let ghost mut cands_m: Seq<CandM> = Seq::empty();
        let ghost mut pos: int = 0;
        proof {
            assert(ixs0.skip(0) =~= ixs0);
            lemma_packs_before_nonneg(ixs0);
            assert(todo_applied(self.indexes_view(), ixs0, todos, pos));
        }
        let n = self.index_files.len();
        let mut i: usize = 0;
        while i < n
            invariant
                i <= n,
                n == self.index_files@.len(),
                n == ixs0.len(),
                self.wf(),
                ixs0 == old(self).indexes_view(),
                prune_input_ok(ixs0),
                all_keep(ixs0),
                target == decide_fold(
                    cur_state(*old(self), Seq::empty(), Seq::empty()),
                    flat_packs(ixs0),
                ),
                total_size == packs_size(flat_packs(ixs0)),
                decide_fold(
                    cur_state(*self, todos, cands_m),
                    flat_packs(ixs0.skip(i as int)),
                ) == target,
                todo_applied(self.indexes_view(), ixs0, todos, pos),
                pos == packs_before(ixs0, i as int),
                todos.len() == pos,
                cands_match_seq(self.repack_candidates@, cands_m),
                cm_wf(cands_m),
                cands_m.len() == stats_m_of(self.stats).packs_partly_used,
                sum_cm_unused(cands_m) + stats_m_of(self.stats).size_remove <= stats_m_of(self.stats).size_unused,
                sum_cm_total(cands_m) <= stats_m_of(self.stats).size_used + stats_m_of(self.stats).size_unused,
                sum_cm_blobs(cands_m) <= stats_m_of(self.stats).blobs_used + stats_m_of(self.stats).blobs_unused,
                sum_cm_ublobs(cands_m) + stats_m_of(self.stats).blobs_remove <= stats_m_of(self.stats).blobs_unused,
                stats_bounds(
                    stats_m_of(self.stats),
                    pos,
                    stats_m_of(self.stats).blobs_used + stats_m_of(self.stats).blobs_unused,
                    stats_m_of(self.stats).size_used + stats_m_of(self.stats).size_unused,
                ),
                stats_m_of(self.stats).blobs_used + stats_m_of(self.stats).blobs_unused
                    <= stats_m_of(self.stats).size_used + stats_m_of(self.stats).size_unused,
                stats_m_of(self.stats).size_used + stats_m_of(self.stats).size_unused + packs_size(
                    flat_packs(ixs0.skip(i as int)),
                ) == total_size,
                self.stats.index_files == 0,
                self.existing_packs.entries_seq().len() <= u32::MAX,
            decreases n - i,
        {
            let pn = self.index_files[i].packs.len();
            let ghost packs_i = ixs0[i as int].packs;
            proof {
                assert(self.indexes_view()[i as int].packs.len() == packs_i.len());
                assert(packs_i.skip(0) =~= packs_i);
                assert(ixs0.skip(i as int).first() == ixs0[i as int]);
                assert(ixs0.skip(i as int).drop_first() =~= ixs0.skip(i as int + 1));
                assert(flat_packs(ixs0.skip(i as int)) == packs_i + flat_packs(
                    ixs0.skip(i as int + 1),
                ));
            }
            let mut j: usize = 0;
            while j < pn
                invariant
                    j <= pn,
                    i < n,
                    n == self.index_files@.len(),
                    n == ixs0.len(),
                    pn == packs_i.len(),
                    packs_i == ixs0[i as int].packs,
                    self.wf(),
                    ixs0 == old(self).indexes_view(),
                    prune_input_ok(ixs0),
                    all_keep(ixs0),
                    target == decide_fold(
                        cur_state(*old(self), Seq::empty(), Seq::empty()),
                        flat_packs(ixs0),
                    ),
                    total_size == packs_size(flat_packs(ixs0)),
                    decide_fold(
                        cur_state(*self, todos, cands_m),
                        packs_i.skip(j as int) + flat_packs(ixs0.skip(i as int + 1)),
                    ) == target,
                    todo_applied(self.indexes_view(), ixs0, todos, pos),
                    pos == packs_before(ixs0, i as int) + j,
                    todos.len() == pos,
                    cands_match_seq(self.repack_candidates@, cands_m),
                    cm_wf(cands_m),
                    cands_m.len() == stats_m_of(self.stats).packs_partly_used,
                    sum_cm_unused(cands_m) + stats_m_of(self.stats).size_remove <= stats_m_of(self.stats).size_unused,
                    sum_cm_total(cands_m) <= stats_m_of(self.stats).size_used + stats_m_of(self.stats).size_unused,
                    sum_cm_blobs(cands_m) <= stats_m_of(self.stats).blobs_used + stats_m_of(self.stats).blobs_unused,
                    sum_cm_ublobs(cands_m) + stats_m_of(self.stats).blobs_remove <= stats_m_of(self.stats).blobs_unused,
                    stats_bounds(
                        stats_m_of(self.stats),
                        pos,
                        stats_m_of(self.stats).blobs_used + stats_m_of(self.stats).blobs_unused,
                        stats_m_of(self.stats).size_used + stats_m_of(self.stats).size_unused,
                    ),
                    stats_m_of(self.stats).blobs_used + stats_m_of(self.stats).blobs_unused
                        <= stats_m_of(self.stats).size_used + stats_m_of(self.stats).size_unused,
                    stats_m_of(self.stats).size_used + stats_m_of(self.stats).size_unused
                        + packs_size(
                        packs_i.skip(j as int) + flat_packs(ixs0.skip(i as int + 1)),
                    ) == total_size,
                    self.stats.index_files == 0,
                    self.existing_packs.entries_seq().len() <= u32::MAX,
                decreases pn - j,
            {
                let ghost rem = packs_i.skip(j as int) + flat_packs(ixs0.skip(i as int + 1));
                let ghost p_v = packs_i[j as int];
                let ghost st0 = cur_state(*self, todos, cands_m);
                let ghost self0 = *self;
                proof {
                    assert(rem.first() == p_v);
                    assert(rem.drop_first() =~= packs_i.skip(j as int + 1) + flat_packs(
                        ixs0.skip(i as int + 1),
                    ));
                    assert(decide_fold(st0, rem) == decide_fold(
                        pack_step(st0, p_v),
                        rem.drop_first(),
                    ));
                    // the pack as it sits in the engine is still the original
                    lemma_packs_before_nonneg(ixs0);
                    lemma_packs_before_mono(ixs0, i as int, ixs0.len() as int);
                    assert(self.indexes_view()[i as int].packs[j as int] == ixs0[i as int].packs[
                        j as int
                    ]);
                    assert(self.index_files@[i as int].packs@.len() == packs_i.len());
                    assert(self.index_files@[i as int].packs@[j as int]@ == p_v);
                    // this pack's bytes fit: they are part of what remains
                    lemma_packs_size_add(
                        packs_i.skip(j as int),
                        flat_packs(ixs0.skip(i as int + 1)),
                    );
                    assert(packs_i.skip(j as int).first() == p_v);
                    assert(packs_i.skip(j as int).drop_first() =~= packs_i.skip(j as int + 1));
                    lemma_packs_size_nonneg(packs_i.skip(j as int + 1));
                    lemma_packs_size_nonneg(flat_packs(ixs0.skip(i as int + 1)));
                    lemma_blobs_size_nonneg(p_v.blobs);
                    assert(blobs_size(p_v.blobs) + packs_size(packs_i.skip(j as int + 1))
                        == packs_size(packs_i.skip(j as int)));
                    assert forall|c: int| 0 <= c < p_v.blobs.len() implies valid_blob(
                        #[trigger] p_v.blobs[c],
                    ) by {
                        assert(ixs0[i as int].packs[j as int].blobs[c] == p_v.blobs[c]);
                    }
                    crate::repofile::lemma_blobs_size_bounds(p_v.blobs);
                }
                let ghost size_budget: int = blobs_size(p_v.blobs);
                let pack_id = self.index_files[i].packs[j].id;
                let pack_bt = self.index_files[i].packs[j].blob_type;
                let bn = self.index_files[i].packs[j].blobs.len();
                proof {
                    assert(pack_id == p_v.id);
                    assert(pack_bt == p_v.blob_type);
                    assert(bn == p_v.blobs.len());
                    assert(bn as int <= size_budget);
                    assert(size_budget <= packs_size(rem));
                }
                // first pass: does the pack hold a blob whose counter is 1?
                let mut has_used = false;
                let mut k: usize = 0;
                while k < bn
                    invariant
                        k <= bn,
                        i < n,
                        (j as int) < self.index_files@[i as int].packs@.len(),
                        n == self.index_files@.len(),
                        bn == p_v.blobs.len(),
                        self.wf(),
                        *self == self0,
                        self.index_files@[i as int].packs@[j as int]@ == p_v,
                        has_used == exists|t: int|
                            0 <= t < k && self.used_ids@.contains_key(
                                (#[trigger] p_v.blobs[t]).id,
                            ) && self.used_ids@[p_v.blobs[t].id] == 1,
                    decreases bn - k,
                {
                    let blob = self.index_files[i].packs[j].blobs[k];
                    proof {
                        assert(blob == p_v.blobs[k as int]);
                    }
                    match self.used_ids.get(blob.id) {
                        Some(c) => if c == 1 {
                            has_used = true;
                        },
                        None => {},
                    }
                    k += 1;
                }
                proof {
                    assert(has_used == spec_has_used(p_v.blobs, self.used_ids@));
                }
                // second pass: classify each blob, threading the counters
                let ghost m_pack = self.used_ids@;
                let ghost pack_target = blobs_fold(pc_zero(), m_pack, p_v.blobs, has_used);
                proof {
                    lemma_blobs_fold_sums(pc_zero(), m_pack, p_v.blobs, has_used);
                }
                let mut pi = PackInfo::new(pack_bt);
                let ghost mut pc: PackCount = pc_zero();
                let mut k: usize = 0;
                proof {
                    assert(p_v.blobs.skip(0) =~= p_v.blobs);
                }
                while k < bn
                    invariant
                        k <= bn,
                        i < n,
                        (j as int) < self.index_files@[i as int].packs@.len(),
                        n == self.index_files@.len(),
                        bn == p_v.blobs.len(),
                        self.wf(),
                        self.index_files == self0.index_files,
                        self.existing_packs == self0.existing_packs,
                        self.repack_candidates == self0.repack_candidates,
                        self.stats == self0.stats,
                        self.index_files@[i as int].packs@[j as int]@ == p_v,
                        pc_match(pi, pc),
                        pi.blob_type == p_v.blob_type,
                        0 <= pc.used_blobs,
                        0 <= pc.unused_blobs,
                        pc.used_blobs + pc.unused_blobs == k,
                        0 <= pc.used_size,
                        0 <= pc.unused_size,
                        pc.used_size + pc.unused_size + blobs_size(p_v.blobs.skip(k as int))
                            == size_budget,
                        size_budget == blobs_size(p_v.blobs),
                        size_budget <= u64::MAX,
                        bn <= size_budget,
                        blobs_fold(pc, self.used_ids@, p_v.blobs.skip(k as int), has_used)
                            == pack_target,
                    decreases bn - k,
                {
                    let blob = self.index_files[i].packs[j].blobs[k];
                    proof {
                        assert(blob == p_v.blobs[k as int]);
                        assert(p_v.blobs.skip(k as int).first() == blob);
                        assert(p_v.blobs.skip(k as int).drop_first() =~= p_v.blobs.skip(
                            k as int + 1,
                        ));
                        lemma_blobs_size_first(p_v.blobs.skip(k as int));
                        lemma_blobs_size_nonneg(p_v.blobs.skip(k as int + 1));
                    }
                    let ghost m_before = self.used_ids@;
                    match self.used_ids.get(blob.id) {
                        None => {
                            pi.add_unused_blob(&blob);
                            proof {
                                pc = pc_add_unused(pc, blob);
                            }
                        },
                        Some(c) => {
                            let mut cnt = c;
                            pi.add_blob(&blob, has_used, &mut cnt);
                            self.used_ids.insert(blob.id, cnt);
                            proof {
                                if c == 0 {
                                    pc = pc_add_unused(pc, blob);
                                    assert(self.used_ids@ =~= m_before);
                                } else if c == 1 || has_used {
                                    pc = pc_add_used(pc, blob);
                                } else {
                                    pc = pc_add_unused(pc, blob);
                                }
                            }
                        },
                    }
                    k += 1;
                }
                proof {
                    assert(p_v.blobs.skip(bn as int) =~= Seq::<IndexBlob>::empty());
                    assert(pc == pack_target.0);
                    assert(self.used_ids@ == pack_target.1);
                }
                // tally the pack, then classify it
                proof {
                    lemma_packs_before_mono(ixs0, i as int + 1, ixs0.len() as int);
                    assert(packs_before(ixs0, i as int + 1) == packs_before(ixs0, i as int)
                        + pn);
                    assert(pos + (pn - j) <= packs_before(ixs0, ixs0.len() as int));
                    lemma_packs_before_flat(ixs0);
                }
                let ghost stats_before = stats_m_of(self.stats);
                proof {
                    // every tally stays within what the whole catalog holds
                    assert(pc.used_blobs + pc.unused_blobs == bn as int);
                    assert(pc.used_size + pc.unused_size == size_budget);
                    assert(stats_before.size_used + stats_before.size_unused + size_budget
                        <= total_size);
                    assert(stats_before.blobs_used + stats_before.blobs_unused + bn as int
                        <= total_size);
                    assert(pos + 1 <= flat_packs(ixs0).len());
                }
                self.stats.blobs.used = self.stats.blobs.used + pi.used_blobs;
                self.stats.blobs.unused = self.stats.blobs.unused + pi.unused_blobs;
                self.stats.size.used = self.stats.size.used + pi.used_size;
                self.stats.size.unused = self.stats.size.unused + pi.unused_size;
                if pi.used_blobs == 0 {
                    self.stats.packs.unused = self.stats.packs.unused + 1;
                    self.stats.blobs.remove = self.stats.blobs.remove + pi.unused_blobs;
                    self.stats.size.remove = self.stats.size.remove + pi.unused_size;
                    let ghost cur_view = self.indexes_view();
                    let ghost files_before = self.index_files@;
                    self.index_files[i].packs[j].to_do = PackToDo::Remove;
                    let _ = self.existing_packs.remove(pack_id);
                    proof {
                        let next_view = self.indexes_view();
                        assert forall|a: int|
                            0 <= a < cur_view.len() && a != i as int implies next_view[a]
                            == cur_view[a] by {
                            assert(self.index_files@[a] == files_before[a]);
                        }
                        assert forall|b: int|
                            0 <= b < cur_view[i as int].packs.len() && b != j as int implies
                            next_view[i as int].packs[b] == cur_view[i as int].packs[b] by {
                            assert(self.index_files@[i as int].packs@[b] == files_before[
                                i as int
                            ].packs@[b]);
                        }
                        assert(next_view[i as int].packs[j as int] == (PrunePackV {
                            to_do: PackToDo::Remove,
                            ..ixs0[i as int].packs[j as int]
                        }));
                        lemma_todo_applied_step(
                            cur_view,
                            next_view,
                            ixs0,
                            todos,
                            pos,
                            i as int,
                            j as int,
                            PackToDo::Remove,
                        );
                        todos = todos.push(PackToDo::Remove);
                    }
                } else {
                    match self.existing_packs.remove(pack_id) {
                        None => {
                            proof {
                                assert(pack_step(st0, p_v).missing == Some(p_v.id));
                                lemma_decide_fold_frozen(
                                    pack_step(st0, p_v),
                                    rem.drop_first(),
                                );
                            }
                            return Err(PruneError::MissingPack { id: pack_id });
                        },
                        Some(_) => {
                            if pi.unused_blobs == 0 {
                                self.stats.packs.used = self.stats.packs.used + 1;
                                self.stats.packs.keep = self.stats.packs.keep + 1;
                                let ghost m_full = self.used_ids@;
                                let ghost self1 = *self;
                                let mut k: usize = 0;
                                proof {
                                    assert(p_v.blobs.skip(0) =~= p_v.blobs);
                                }
                                while k < bn
                                    invariant
                                        k <= bn,
                                        i < n,
                                        (j as int) < self.index_files@[i as int].packs@.len(),
                                        n == self.index_files@.len(),
                                        bn == p_v.blobs.len(),
                                        self.wf(),
                                        self.index_files == self1.index_files,
                                        self.existing_packs == self1.existing_packs,
                                        self.repack_candidates == self1.repack_candidates,
                                        self.stats == self1.stats,
                                        self.index_files@[i as int].packs@[j as int]@ == p_v,
                                        remove_ids(
                                            self.used_ids@,
                                            p_v.blobs.skip(k as int),
                                        ) == remove_ids(m_full, p_v.blobs),
                                    decreases bn - k,
                                {
                                    let blob = self.index_files[i].packs[j].blobs[k];
                                    proof {
                                        assert(blob == p_v.blobs[k as int]);
                                        assert(p_v.blobs.skip(k as int).first() == blob);
                                        assert(p_v.blobs.skip(k as int).drop_first()
                                            =~= p_v.blobs.skip(k as int + 1));
                                    }
                                    self.used_ids.remove(blob.id);
                                    k += 1;
                                }
                                proof {
                                    assert(p_v.blobs.skip(bn as int) =~= Seq::<
                                        IndexBlob,
                                    >::empty());
                                    let v = self.indexes_view();
                                    assert(v[i as int].packs[j as int] == ixs0[i as int].packs[
                                        j as int
                                    ]);
                                    assert(ixs0[i as int].packs[j as int].to_do
                                        == PackToDo::Keep);
                                    assert(v[i as int].packs[j as int] == (PrunePackV {
                                        to_do: PackToDo::Keep,
                                        ..ixs0[i as int].packs[j as int]
                                    }));
                                    lemma_todo_applied_step(
                                        v,
                                        v,
                                        ixs0,
                                        todos,
                                        pos,
                                        i as int,
                                        j as int,
                                        PackToDo::Keep,
                                    );
                                    todos = todos.push(PackToDo::Keep);
                                }
                            } else {
                                self.stats.packs.partly_used = self.stats.packs.partly_used
                                    + 1;
                                self.repack_candidates.push(
                                    RepackCandidate { id: pack_id, pi },
                                );
                                proof {
                                    let v = self.indexes_view();
                                    assert(v[i as int].packs[j as int] == ixs0[i as int].packs[
                                        j as int
                                    ]);
                                    assert(ixs0[i as int].packs[j as int].to_do
                                        == PackToDo::Keep);
                                    assert(v[i as int].packs[j as int] == (PrunePackV {
                                        to_do: PackToDo::Keep,
                                        ..ixs0[i as int].packs[j as int]
                                    }));
                                    lemma_todo_applied_step(
                                        v,
                                        v,
                                        ixs0,
                                        todos,
                                        pos,
                                        i as int,
                                        j as int,
                                        PackToDo::Keep,
                                    );
                                    todos = todos.push(PackToDo::Keep);
                                    let c_new = CandM {
                                        id: p_v.id,
                                        blob_type: p_v.blob_type,
                                        pc,
                                    };
                                    assert(cands_m.push(c_new).drop_last() =~= cands_m);
                                    assert(cands_m.push(c_new).last() == c_new);
                                    cands_m = cands_m.push(c_new);
                                }
                            }
                        },
                    }
                }
                proof {
                    pos = pos + 1;
                    let st1 = pack_step(st0, p_v);
                    assert(cur_state(*self, todos, cands_m).m == st1.m);
                    assert(cur_state(*self, todos, cands_m).existing == st1.existing);
                    assert(cur_state(*self, todos, cands_m).stats == st1.stats);
                    assert(cur_state(*self, todos, cands_m).cands == st1.cands);
                    assert(cur_state(*self, todos, cands_m).todos == st1.todos);
                    assert(cur_state(*self, todos, cands_m) == st1);
                }
                j += 1;
            }
            proof {
                assert(packs_i.skip(pn as int) =~= Seq::<PrunePackV>::empty());
                assert(packs_i.skip(pn as int) + flat_packs(ixs0.skip(i as int + 1))
                    =~= flat_packs(ixs0.skip(i as int + 1)));
                assert(packs_before(ixs0, i as int + 1) == pos);
            }
            i += 1;
        }
        proof {
            assert(ixs0.skip(n as int) =~= Seq::<PruneIndexV>::empty());
            assert(cur_state(*self, todos, cands_m) == target);
            lemma_packs_before_flat(ixs0);
            assert(decide_outcome_ok(target, flat_packs(ixs0).len() as int));
        }
        // whatever is still in the catalog is an unreferenced on-disk pack
        let ghost entries = self.existing_packs.entries_seq();
        proof {
            lemma_sum_vals_bound(entries);
            assert((u32::MAX as int) * (u32::MAX as int) <= u64::MAX as int) by (nonlinear_arith);
            assert(entries.take(0) =~= Seq::<(Id, u32)>::empty());
        }
        let en = self.existing_packs.len();
        let mut t: usize = 0;
        while t < en
            invariant
                t <= en,
                self.wf(),
                en == entries.len(),
                entries == self.existing_packs.entries_seq(),
                entries.len() <= u32::MAX,
                ixs0 == old(self).indexes_view(),
                target == decide_fold(
                    cur_state(*old(self), Seq::empty(), Seq::empty()),
                    flat_packs(ixs0),
                ),
                target.missing is None,
                decide_outcome_ok(target, flat_packs(ixs0).len() as int),
                target.stats.size_used + target.stats.size_unused <= u64::MAX,
                self.used_ids@ == target.m,
                self.existing_packs@ == target.existing,
                cands_match_seq(self.repack_candidates@, target.cands),
                todo_applied(
                    self.indexes_view(),
                    ixs0,
                    target.todos,
                    packs_before(ixs0, ixs0.len() as int),
                ),
                target.todos.len() == packs_before(ixs0, ixs0.len() as int),
                self.indexes_view().len() == ixs0.len(),
                stats_m_of(self.stats) == (StatsM {
                    size_unref: sum_vals(entries.take(t as int)),
                    ..target.stats
                }),
            decreases en - t,
        {
            let (_, size) = self.existing_packs.entry_at(t);
            proof {
                lemma_sum_vals_bound(entries.take(t as int));
                assert(entries.take(t as int).len() * (u32::MAX as int) <= (u32::MAX as int) * (
                u32::MAX as int)) by (nonlinear_arith)
                    requires
                        0 <= entries.take(t as int).len() <= u32::MAX as int,
                ;
                assert(entries.take(t as int + 1).drop_last() =~= entries.take(t as int));
                assert(entries.take(t as int + 1).last() == entries[t as int]);
            }
            self.stats.size.unref = self.stats.size.unref + (size as u64);
            t += 1;
        }
        proof {
            assert(entries.take(en as int) =~= entries);
        }
        Ok(())
    }

    /// Phase D: order the repack candidates (tree packs first, then by
    /// descending waste ratio) and admit them against the two budgets.
    /// Admitted packs flip to `Repack`; the rest stay kept.
    #[verifier::rlimit(100)]
    pub fn decide_repack(&mut self, max_repack: &LimitOption, max_unused: &LimitOption)
        requires
            old(self).wf(),
            (match *max_unused {
                LimitOption::Percentage(p) => p < 100,
                _ => true,
            }),
            old(self).stats.size.used + old(self).stats.size.unused <= u64::MAX,
            old(self).stats.blobs.used + old(self).stats.blobs.unused <= u64::MAX,
            sum_rc_unused(old(self).repack_candidates@) + old(self).stats.size.remove + old(
                self,
            ).stats.size.repackrm <= old(self).stats.size.unused,
            sum_rc_total(old(self).repack_candidates@) + old(self).stats.size.repack <= old(
                self,
            ).stats.size.used + old(self).stats.size.unused,
            sum_rc_blobs(old(self).repack_candidates@) + old(self).stats.blobs.repack <= old(
                self,
            ).stats.blobs.used + old(self).stats.blobs.unused,
            sum_rc_ublobs(old(self).repack_candidates@) + old(self).stats.blobs.remove + old(
                self,
            ).stats.blobs.repackrm <= old(self).stats.blobs.unused,
            old(self).stats.packs.keep + old(self).stats.packs.repack + old(
                self,
            ).repack_candidates@.len() <= u64::MAX,
        ensures
            ({
                let sorted = spec_sort_cands(old(self).repack_candidates@);
                let mr = max_repack_of(
                    *max_repack,
                    old(self).stats.size.used + old(self).stats.size.unused,
                );
                let mu = max_unused_of(*max_unused, old(self).stats.size.used as int);
                let sel = sel_fold(
                    SelState { repack_ids: Set::empty(), stats: stats_m_of(old(self).stats) },
                    sorted,
                    mr,
                    mu,
                );
                &&& final(self).wf()
                &&& final(self).used_ids == old(self).used_ids
                &&& final(self).existing_packs == old(self).existing_packs
                &&& final(self).repack_candidates@ == Seq::<RepackCandidate>::empty()
                &&& stats_m_of(final(self).stats) == sel.stats
                &&& final(self).indexes_view().len() == old(self).indexes_view().len()
                &&& ({
                    let fixs = final(self).indexes_view();
                    let oixs = old(self).indexes_view();
                    &&& forall|a: int, b: int|
                        0 <= a < oixs.len() && 0 <= b < oixs[a].packs.len() ==> (
                        #[trigger] fixs[a].packs[b]) == marked(
                            oixs[a].packs[b],
                            sel.repack_ids,
                        )
                    &&& forall|a: int|
                        0 <= a < oixs.len() ==> {
                            let ca = #[trigger] fixs[a];
                            let oa = oixs[a];
                            ca.id == oa.id && ca.modified == oa.modified && ca.packs_to_delete
                                == oa.packs_to_delete && ca.packs.len() == oa.packs.len()
                        }
                })
            }),
    {
        let ghost prev_view = self.indexes_view();
        let ghost cands0 = self.repack_candidates@;
        let used = self.stats.size.used;
        let total = self.stats.size.used + self.stats.size.unused;
        let mu: u128 = match *max_unused {
            LimitOption::Unlimited => u128::MAX,
            LimitOption::Size(s) => s as u128,
            LimitOption::Percentage(p) => {
                proof {
                    lemma_u64_mul_fits(p, used);
                }
                ((p as u128) * (used as u128)) / ((100 - p) as u128)
            },
        };
        let mr: u128 = match *max_repack {
            LimitOption::Unlimited => u128::MAX,
            LimitOption::Size(s) => s as u128,
            LimitOption::Percentage(p) => {
                proof {
                    lemma_u64_mul_fits(p, total);
                }
                ((p as u128) * (total as u128)) / 100
            },
        };
        proof {
            assert(mu as int == max_unused_of(*max_unused, used as int));
            assert(mr as int == max_repack_of(*max_repack, total as int));
        }
        let mut cands_vec: Vec<RepackCandidate> = Vec::new();
        core::mem::swap(&mut cands_vec, &mut self.repack_candidates);
        let sorted = sort_candidates(cands_vec);
        let ghost sorted_seq = sorted@;
        let ghost st_init = SelState { repack_ids: Set::empty(), stats: stats_m_of(self.stats) };
        let ghost sel_target = sel_fold(st_init, sorted_seq, mr as int, mu as int);
        let mut repack_ids = crate::table::IdSet::new();
        let n2 = sorted.len();
        let mut t: usize = 0;
        proof {
            assert(sorted_seq.skip(0) =~= sorted_seq);
            lemma_sort_cands_sums(cands0);
        }
        while t < n2
            invariant
                t <= n2,
                n2 == sorted_seq.len(),
                sorted@ == sorted_seq,
                mr as int == max_repack_of(
                    *max_repack,
                    old(self).stats.size.used + old(self).stats.size.unused,
                ),
                mu as int == max_unused_of(*max_unused, old(self).stats.size.used as int),
                sel_target == sel_fold(
                    SelState {
                        repack_ids: Set::empty(),
                        stats: stats_m_of(old(self).stats),
                    },
                    sorted_seq,
                    mr as int,
                    mu as int,
                ),
                self.wf(),
                self.used_ids == old(self).used_ids,
                self.existing_packs == old(self).existing_packs,
                self.index_files == old(self).index_files,
                self.repack_candidates@ == Seq::<RepackCandidate>::empty(),
                sel_fold(
                    SelState { repack_ids: repack_ids@, stats: stats_m_of(self.stats) },
                    sorted_seq.skip(t as int),
                    mr as int,
                    mu as int,
                ) == sel_target,
                self.stats.packs.used == old(self).stats.packs.used,
                self.stats.packs.partly_used == old(self).stats.packs.partly_used,
                self.stats.packs.unused == old(self).stats.packs.unused,
                self.stats.blobs.used == old(self).stats.blobs.used,
                self.stats.blobs.unused == old(self).stats.blobs.unused,
                self.stats.blobs.remove == old(self).stats.blobs.remove,
                self.stats.blobs.unref == old(self).stats.blobs.unref,
                self.stats.size.used == old(self).stats.size.used,
                self.stats.size.unused == old(self).stats.size.unused,
                self.stats.size.remove == old(self).stats.size.remove,
                self.stats.size.unref == old(self).stats.size.unref,
                self.stats.index_files == old(self).stats.index_files,
                sum_rc_unused(sorted_seq.skip(t as int)) + self.stats.size.remove
                    + self.stats.size.repackrm <= self.stats.size.unused,
                sum_rc_total(sorted_seq.skip(t as int)) + self.stats.size.repack
                    <= self.stats.size.used + self.stats.size.unused,
                sum_rc_blobs(sorted_seq.skip(t as int)) + self.stats.blobs.repack
                    <= self.stats.blobs.used + self.stats.blobs.unused,
                sum_rc_ublobs(sorted_seq.skip(t as int)) + self.stats.blobs.remove
                    + self.stats.blobs.repackrm <= self.stats.blobs.unused,
                self.stats.packs.keep + self.stats.packs.repack + (n2 - t) == old(
                    self,
                ).stats.packs.keep + old(self).stats.packs.repack + n2,
                self.stats.size.used + self.stats.size.unused <= u64::MAX,
                self.stats.blobs.used + self.stats.blobs.unused <= u64::MAX,
                n2 == old(self).repack_candidates@.len(),
                old(self).stats.packs.keep + old(self).stats.packs.repack + old(
                    self,
                ).repack_candidates@.len() <= u64::MAX,
            decreases n2 - t,
        {
            let c = sorted[t];
            proof {
                assert(sorted_seq.skip(t as int).first() == c);
                assert(sorted_seq.skip(t as int).drop_first() =~= sorted_seq.skip(t as int + 1));
                lemma_sum_rc_first(sorted_seq.skip(t as int));
                lemma_sum_rc_nonneg(sorted_seq.skip(t as int + 1));
                lemma_sum_rc_nonneg(sorted_seq.skip(t as int));
            }
            let total_c: u64 = c.pi.unused_size + c.pi.used_size;
            let unused_after: u64 = self.stats.size.unused - self.stats.size.remove
                - self.stats.size.repackrm;
            let is_tree = match c.pi.blob_type {
                BlobType::Tree => true,
                BlobType::Data => false,
            };
            if (self.stats.size.repack as u128) + (total_c as u128) >= mr || (!is_tree && (
            unused_after as u128) <= mu) {
                self.stats.packs.keep = self.stats.packs.keep + 1;
            } else {
                let _ = repack_ids.insert(c.id);
                self.stats.packs.repack = self.stats.packs.repack + 1;
                self.stats.blobs.repack = self.stats.blobs.repack + c.pi.unused_blobs
                    + c.pi.used_blobs;
                self.stats.blobs.repackrm = self.stats.blobs.repackrm + c.pi.unused_blobs;
                self.stats.size.repack = self.stats.size.repack + total_c;
                self.stats.size.repackrm = self.stats.size.repackrm + c.pi.unused_size;
            }
            t += 1;
        }
        proof {
            assert(sorted_seq.skip(n2 as int) =~= Seq::<RepackCandidate>::empty());
            assert(SelState { repack_ids: repack_ids@, stats: stats_m_of(self.stats) }
                == sel_target);
        }
        // mark the picked packs in the catalog
        let ghost self_mid = *self;
        let ghost ids_set = repack_ids@;
        let n = self.index_files.len();
        let mut i: usize = 0;
        while i < n
            invariant
                i <= n,
                n == self.index_files@.len(),
                n == prev_view.len(),
                self.wf(),
                self.used_ids == self_mid.used_ids,
                self.existing_packs == self_mid.existing_packs,
                self.repack_candidates == self_mid.repack_candidates,
                self.stats == self_mid.stats,
                ids_set == repack_ids@,
                mark_applied(self.indexes_view(), prev_view, ids_set, i as int, 0),
            decreases n - i,
        {
            let pn = self.index_files[i].packs.len();
            proof {
                assert(self.indexes_view()[i as int].packs.len() == prev_view[
                    i as int
                ].packs.len());
            }
            let mut j: usize = 0;
            while j < pn
                invariant
                    j <= pn,
                    i < n,
                    n == self.index_files@.len(),
                    n == prev_view.len(),
                    pn == prev_view[i as int].packs.len(),
                    self.wf(),
                    self.used_ids == self_mid.used_ids,
                    self.existing_packs == self_mid.existing_packs,
                    self.repack_candidates == self_mid.repack_candidates,
                    self.stats == self_mid.stats,
                    ids_set == repack_ids@,
                    mark_applied(self.indexes_view(), prev_view, ids_set, i as int, j as int),
                decreases pn - j,
            {
                proof {
                    assert(self.indexes_view()[i as int].packs.len() == pn);
                    assert(self.indexes_view()[i as int].packs[j as int] == prev_view[
                        i as int
                    ].packs[j as int]);
                }
                let id = self.index_files[i].packs[j].id;
                let ghost cur_view = self.indexes_view();
                let ghost files_before = self.index_files@;
                if repack_ids.contains(id) {
                    self.index_files[i].packs[j].to_do = PackToDo::Repack;
                    proof {
                        let next_view = self.indexes_view();
                        assert forall|a: int|
                            0 <= a < cur_view.len() && a != i as int implies next_view[a]
                            == cur_view[a] by {
                            assert(self.index_files@[a] == files_before[a]);
                        }
                        assert forall|b: int|
                            0 <= b < cur_view[i as int].packs.len() && b != j as int implies
                            next_view[i as int].packs[b] == cur_view[i as int].packs[b] by {
                            assert(self.index_files@[i as int].packs@[b] == files_before[
                                i as int
                            ].packs@[b]);
                        }
                        assert(next_view[i as int].packs[j as int] == marked(
                            prev_view[i as int].packs[j as int],
                            ids_set,
                        ));
                        lemma_mark_step(
                            cur_view,
                            next_view,
                            prev_view,
                            ids_set,
                            i as int,
                            j as int,
                        );
                    }
                } else {
                    proof {
                        assert(cur_view[i as int].packs[j as int] == marked(
                            prev_view[i as int].packs[j as int],
                            ids_set,
                        ));
                        lemma_mark_step(
                            cur_view,
                            cur_view,
                            prev_view,
                            ids_set,
                            i as int,
                            j as int,
                        );
                    }
                }
                j += 1;
            }
            proof {
                assert forall|a: int, b: int|
                    0 <= a < self.indexes_view().len() && 0 <= b < prev_view[a].packs.len()
                        implies (#[trigger] self.indexes_view()[a].packs[b]) == (if a < i as int
                    + 1 || (a == i as int + 1 && b < 0) {
                    marked(prev_view[a].packs[b], ids_set)
                } else {
                    prev_view[a].packs[b]
                }) by {
                    assert(self.indexes_view()[a].packs[b] == (if a < i as int || (a == i as int
                        && b < pn as int) {
                        marked(prev_view[a].packs[b], ids_set)
                    } else {
                        prev_view[a].packs[b]
                    }));
                }
            }
            i += 1;
        }
    }

    /// The index planner: keep for processing only the index files that must
    /// be rewritten, or that are too small to stay alone — except when a
    /// single undersized index is all there is, which is left in place.
    pub fn filter_index_files(&mut self)
        requires
            old(self).wf(),
            old(self).indexes_view().len() <= u64::MAX,
        ensures
            final(self).wf(),
            final(self).used_ids == old(self).used_ids,
            final(self).existing_packs == old(self).existing_packs,
            final(self).repack_candidates == old(self).repack_candidates,
            final(self).indexes_view() == spec_filter_index_files(old(self).indexes_view()),
            final(self).stats == (PruneStats {
                index_files: old(self).indexes_view().len() as u64,
                ..old(self).stats
            }),
    {
        let ghost ixs0 = self.indexes_view();
        let ghost ftarget = filter_fold(ixs0);
        let n = self.index_files.len();
        self.stats.index_files = n as u64;
        let mut any_must_modify = false;
        let mut kept: Vec<PruneIndex> = Vec::new();
        let mut rest = Vec::new();
        core::mem::swap(&mut rest, &mut self.index_files);
        proof {
            assert(ixs0.skip(0) =~= ixs0);
        }
        let ghost mut i: int = 0;
        while rest.len() > 0
            invariant
                0 <= i <= ixs0.len(),
                self.wf(),
                self.used_ids == old(self).used_ids,
                self.existing_packs == old(self).existing_packs,
                self.repack_candidates == old(self).repack_candidates,
                self.stats == (PruneStats {
                    index_files: ixs0.len() as u64,
                    ..old(self).stats
                }),
                ixs0.len() <= u64::MAX,
                ixs0 == old(self).indexes_view(),
                ftarget == filter_fold(ixs0),
                rest@.map_values(|ix: PruneIndex| ix@) =~= ixs0.skip(i),
                ({
                    let r = filter_fold(ixs0.skip(i));
                    &&& kept@.map_values(|ix: PruneIndex| ix@) + r.0 =~= ftarget.0
                    &&& (any_must_modify || r.1) == ftarget.1
                }),
            decreases rest.len(),
        {
            let ghost prev_rest = rest@;
            let ix = rest.remove(0);
            proof {
                assert(rest@ =~= prev_rest.skip(1));
                assert(prev_rest.map_values(|q: PruneIndex| q@)[0] == ix@);
                assert(ixs0.skip(i).first() == ix@);
                let mapped = rest@.map_values(|q: PruneIndex| q@);
                assert forall|k: int| 0 <= k < mapped.len() implies #[trigger] mapped[k]
                    == ixs0.skip(i + 1)[k] by {
                    assert(rest@[k] == prev_rest[k + 1]);
                    assert(prev_rest.map_values(|q: PruneIndex| q@)[k + 1] == ixs0.skip(i)[k
                        + 1]);
                }
                assert(rest@.map_values(|q: PruneIndex| q@) =~= ixs0.skip(i + 1));
                assert(ixs0.skip(i).drop_first() =~= ixs0.skip(i + 1));
            }
            // does this index have to be rewritten?
            let pn = ix.packs.len();
            let mut must_modify = ix.modified;
            let mut j: usize = 0;
            while j < pn
                invariant
                    j <= pn,
                    pn == ix.packs@.len(),
                    must_modify == (ix@.modified || exists|b: int|
                        0 <= b < j && (#[trigger] ix@.packs[b]).to_do != PackToDo::Keep),
                decreases pn - j,
            {
                let keep_pack = match ix.packs[j].to_do {
                    PackToDo::Keep => true,
                    _ => false,
                };
                if !keep_pack {
                    must_modify = true;
                    proof {
                        assert(ix@.packs[j as int].to_do != PackToDo::Keep);
                    }
                }
                j += 1;
            }
            proof {
                assert(must_modify == index_must_modify(ix@));
            }
            any_must_modify = any_must_modify || must_modify;
            let small = ix.len() < (MIN_INDEX_LEN as u128);
            if must_modify || small {
                kept.push(ix);
                proof {
                    let d2 = filter_fold(ixs0.skip(i + 1));
                    let prev = kept@.drop_last().map_values(|q: PruneIndex| q@);
                    assert(kept@.drop_last() =~= kept@.subrange(0, kept@.len() - 1));
                    assert(kept@.map_values(|q: PruneIndex| q@) =~= prev.push(ixs0.skip(
                        i,
                    ).first()));
                    assert(prev + (seq![ixs0.skip(i).first()] + d2.0) =~= prev.push(ixs0.skip(
                        i,
                    ).first()) + d2.0);
                }
            }
            proof {
                i = i + 1;
            }
        }
        proof {
            assert(ixs0.skip(ixs0.len() as int) =~= Seq::<PruneIndexV>::empty());
            assert(kept@.map_values(|ix: PruneIndex| ix@) =~= ftarget.0);
        }
        if !any_must_modify && kept.len() == 1 {
            // a lone undersized index: leave it untouched
            self.index_files = Vec::new();
            proof {
                assert(self.indexes_view() =~= spec_filter_index_files(ixs0));
            }
        } else {
            self.index_files = kept;
            proof {
                assert(self.indexes_view() =~= spec_filter_index_files(ixs0));
            }
        }
    }

    /// Phase B: every used blob must appear in some index; a counter still at
    /// zero names a blob that no index lists, which is fatal.
    pub fn check(&self) -> (r: Result<(), PruneError>)
        requires
            self.wf(),
        ensures
            match r {
                Ok(()) => forall|id: Id|
                    self.used_ids@.contains_key(id) ==> self.used_ids@[id] != 0,
                Err(e) => e matches PruneError::MissingBlob { id } && self.used_ids@.contains_key(
                    id,
                ) && self.used_ids@[id] == 0,
            },
    {
        let n = self.used_ids.len();
        let mut i: usize = 0;
        while i < n
            invariant
                i <= n,
                self.wf(),
                n == self.used_ids.entries_seq().len(),
                forall|j: int|
                    0 <= j < i ==> (#[trigger] self.used_ids.entries_seq()[j]).1 != 0,
            decreases n - i,
        {
            let (id, count) = self.used_ids.entry_at(i);
            if count == 0 {
                proof {
                    self.used_ids.lemma_entries();
                }
                return Err(PruneError::MissingBlob { id });
            }
            i += 1;
        }
        proof {
            self.used_ids.lemma_entries();
        }
        Ok(())
    }
}

} // verus!
