use vstd::prelude::*;

mod id;
mod key;
mod laws;
mod limit;
mod pack_info;
mod plan;
mod pruner;
mod repofile;
mod scan;
mod table;

pub use id::Id;
pub use key::{log_2, Key, KeyError, KeyFile};
pub use laws::{
    lemma_claims_at_most_once, lemma_claims_exactly_once, lemma_counter_saturation,
    lemma_claiming_pack_kept, lemma_count_le_occ, lemma_existing_partition, lemma_kept_packs_exist,
    lemma_repack_budget, lemma_residual_unused, lemma_sel_monotone,
};
pub use limit::{LimitOption, LimitParseError};
pub use pack_info::{PackInfo, RepackCandidate};
pub use plan::{PackAction, PrunePlan};
pub use pruner::{
    PackStats, PackToDo, PruneError, PruneIndex, PrunePack, PruneStats, Pruner, SizeStats,
};
pub use repofile::{BlobType, IndexBlob, IndexFile, IndexPack, Node, NodeType, SnapshotFile};
pub use scan::{record_node, seed_used_ids};
pub use table::{IdMap, IdSet};

verus! {

} // verus!
