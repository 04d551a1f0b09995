use vstd::prelude::*;

use crate::id::Id;

verus! {

/// The two kinds of blob a repository stores: serialized directory trees and
/// file-content chunks.  Tree packs sort before data packs when repack
/// candidates are ordered.
#[derive(Clone, Copy, PartialEq, Eq, Structural, Debug)]
pub enum BlobType {
    Tree,
    Data,
}

/// One blob as an index records it: its identity and where its encrypted
/// bytes lie inside the pack.
#[derive(Clone, Copy, PartialEq, Eq, Structural, Debug)]
pub struct IndexBlob {
    pub id: Id,
    pub tpe: BlobType,
    pub offset: u32,
    pub length: u32,
}

/// A blob descriptor is valid when it occupies at least one byte.
pub open spec fn valid_blob(b: IndexBlob) -> bool {
    b.length > 0
}

/// The bytes a run of blob descriptors occupies.
pub open spec fn blobs_size(blobs: Seq<IndexBlob>) -> int
    decreases blobs.len(),
{
    if blobs.len() == 0 {
        0
    } else {
        blobs_size(blobs.drop_last()) + blobs.last().length
    }
}

pub proof fn lemma_blobs_size_bounds(blobs: Seq<IndexBlob>)
    requires
        forall|i: int| 0 <= i < blobs.len() ==> valid_blob(#[trigger] blobs[i]),
    ensures
        blobs.len() <= blobs_size(blobs),
        blobs_size(blobs) <= blobs.len() * (u32::MAX as int),
    decreases blobs.len(),
{
    if blobs.len() > 0 {
        assert forall|i: int| 0 <= i < blobs.drop_last().len() implies valid_blob(
            #[trigger] blobs.drop_last()[i],
        ) by {
            assert(blobs.drop_last()[i] == blobs[i]);
        }
        lemma_blobs_size_bounds(blobs.drop_last());
        assert(valid_blob(blobs[blobs.len() - 1]));
        assert((blobs.len() - 1) * (u32::MAX as int) + u32::MAX as int == blobs.len() * (
        u32::MAX as int)) by (nonlinear_arith);
    }
}

/// One pack as an index file records it: identity, an optional creation time
/// (seconds since the epoch, opaque carry-over), and the blobs it holds.
pub struct IndexPack {
    pub id: Id,
    pub time: Option<i64>,
    pub blobs: Vec<IndexBlob>,
}

/// The mathematical shape of an [`IndexPack`].
pub struct IndexPackV {
    pub id: Id,
    pub time: Option<i64>,
    pub blobs: Seq<IndexBlob>,
}

impl View for IndexPack {
    type V = IndexPackV;

    open spec fn view(&self) -> IndexPackV {
        IndexPackV { id: self.id, time: self.time, blobs: self.blobs@ }
    }
}

/// The pack-level blob type: the type of the first blob, data if the pack is
/// empty.  All blobs of a well-formed pack share one type.
pub open spec fn pack_blob_type(p: IndexPackV) -> BlobType {
    if p.blobs.len() == 0 {
        BlobType::Data
    } else {
        p.blobs[0].tpe
    }
}

impl IndexPack {
    pub open spec fn spec_blob_type(self) -> BlobType {
        pack_blob_type(self@)
    }

    pub fn blob_type(&self) -> (r: BlobType)
        ensures
            r == self.spec_blob_type(),
    {
        if self.blobs.len() == 0 {
            BlobType::Data
        } else {
            self.blobs[0].tpe
        }
    }
}

/// One index file: the packs it describes and the pack-ids it carries over as
/// scheduled for deletion (opaque metadata preserved across prunes).
pub struct IndexFile {
    pub packs: Vec<IndexPack>,
    pub packs_to_delete: Vec<IndexPack>,
}

pub struct IndexFileV {
    pub packs: Seq<IndexPackV>,
    pub packs_to_delete: Seq<IndexPackV>,
}

impl View for IndexFile {
    type V = IndexFileV;

    open spec fn view(&self) -> IndexFileV {
        IndexFileV {
            packs: self.packs@.map_values(|p: IndexPack| p@),
            packs_to_delete: self.packs_to_delete@.map_values(|p: IndexPack| p@),
        }
    }
}

/// A snapshot as the prune core needs it: the root tree blob it refers to.
pub struct SnapshotFile {
    pub tree: Id,
}

/// The kind of a directory-tree node.
#[derive(Clone, Copy, PartialEq, Eq, Structural, Debug)]
pub enum NodeType {
    File,
    Dir,
    Other,
}

/// One decoded tree node: files carry their content chunks, directories their
/// subtree; every other kind contributes no blobs.
pub struct Node {
    pub node_type: NodeType,
    pub content: Vec<Id>,
    pub subtree: Option<Id>,
}

} // verus!
