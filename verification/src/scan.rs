use vstd::prelude::*;

use crate::id::Id;
use crate::repofile::{Node, NodeType, SnapshotFile};
use crate::table::IdMap;

verus! {

/// Seed the used-ids table of a reachability scan: every snapshot's root
/// tree is used, with its occurrence counter at zero.
pub fn seed_used_ids(snapshots: &Vec<SnapshotFile>) -> (r: IdMap<u8>)
    ensures
        r.wf(),
        forall|id: Id|
            r@.contains_key(id) <==> exists|t: int|
                0 <= t < snapshots@.len() && (#[trigger] snapshots@[t]).tree == id,
        forall|id: Id| r@.contains_key(id) ==> r@[id] == 0,
{
    let mut r = IdMap::new();
    let n = snapshots.len();
    let mut t: usize = 0;
    while t < n
        invariant
            t <= n,
            n == snapshots@.len(),
            r.wf(),
            forall|id: Id|
                r@.contains_key(id) <==> exists|q: int|
                    0 <= q < t && (#[trigger] snapshots@[q]).tree == id,
            forall|id: Id| r@.contains_key(id) ==> r@[id] == 0,
        decreases n - t,
    {
        let id = snapshots[t].tree;
        r.insert(id, 0);
        proof {
            assert forall|x: Id| r@.contains_key(x) implies exists|q: int|
                0 <= q < t + 1 && (#[trigger] snapshots@[q]).tree == x by {
                if x == id {
                    assert(snapshots@[t as int].tree == x);
                }
            }
        }
        t += 1;
    }
    r
}

/// Record one streamed tree node of the reachability scan: a file's content
/// chunks and a directory's subtree are used blobs; every other node kind
/// contributes nothing.  Counters stay at zero; re-encountered ids are
/// absorbed by the table.
pub fn record_node(ids: &mut IdMap<u8>, node: &Node)
    requires
        old(ids).wf(),
        node.node_type == NodeType::Dir ==> node.subtree is Some,
    ensures
        final(ids).wf(),
        node.node_type == NodeType::File ==> {
            &&& forall|id: Id|
                final(ids)@.contains_key(id) <==> old(ids)@.contains_key(id)
                    || node.content@.contains(id)
            &&& forall|id: Id|
                final(ids)@.contains_key(id) ==> final(ids)@[id] == (
                if node.content@.contains(id) {
                    0u8
                } else {
                    old(ids)@[id]
                })
        },
        node.node_type == NodeType::Dir ==> final(ids)@ == old(ids)@.insert(
            node.subtree.unwrap(),
            0u8,
        ),
        node.node_type == NodeType::Other ==> final(ids)@ == old(ids)@,
    {
        match node.node_type {
            NodeType::File => {
                let n = node.content.len();
                let mut t: usize = 0;
                while t < n
                    invariant
                        t <= n,
                        n == node.content@.len(),
                        ids.wf(),
                        forall|id: Id|
                            ids@.contains_key(id) <==> old(ids)@.contains_key(id) || exists|q: int|
                                0 <= q < t && node.content@[q] == id,
                        forall|id: Id|
                            ids@.contains_key(id) ==> ids@[id] == (
                            if exists|q: int| 0 <= q < t && node.content@[q] == id {
                                0u8
                            } else {
                                old(ids)@[id]
                            }),
                    decreases n - t,
                {
                    let id = node.content[t];
                    ids.insert(id, 0);
                    proof {
                        assert(node.content@[t as int] == id);
                        assert forall|x: Id| ids@.contains_key(x) implies old(
                            ids,
                        )@.contains_key(x) || exists|q: int|
                            0 <= q < t + 1 && node.content@[q] == x by {
                            if x != id && !old(ids)@.contains_key(x) {
                                let q = choose|q: int| 0 <= q < t && node.content@[q] == x;
                                assert(node.content@[q] == x);
                            }
                        }
                    }
                    t += 1;
                }
                proof {
                    assert forall|id: Id| true implies ((exists|q: int|
                        0 <= q < node.content@.len() && node.content@[q] == id)
                        == node.content@.contains(id)) by {}
                }
            },
            NodeType::Dir => {
                let id = match node.subtree {
                    Some(id) => id,
                    None => {
                        proof {
                            assert(false);
                        }
                        Id { w0: 0, w1: 0, w2: 0, w3: 0 }
                    },
                };
                ids.insert(id, 0);
            },
            NodeType::Other => {},
        }
    }

} // verus!
