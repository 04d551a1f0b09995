use rustic_prune::{
    BlobType, Id, IdMap, IndexBlob, IndexFile, IndexPack, LimitOption, PackAction, PackToDo,
    PruneError, Pruner,
};

fn id(n: u64) -> Id {
    Id::new(n, 0, 0, 0)
}

fn blob(n: u64, tpe: BlobType, length: u32) -> IndexBlob {
    IndexBlob { id: id(n), tpe, offset: 0, length }
}

fn data_pack(pack: u64, blobs: Vec<IndexBlob>) -> IndexPack {
    IndexPack { id: id(pack), time: None, blobs }
}

fn used(ids: &[u64]) -> IdMap<u8> {
    let mut m = IdMap::new();
    for n in ids {
        m.insert(id(*n), 0);
    }
    m
}

fn existing(packs: &[(u64, u32)]) -> IdMap<u32> {
    let mut m = IdMap::new();
    for (n, size) in packs {
        m.insert(id(*n), *size);
    }
    m
}

const MB: u32 = 1_000_000;

#[test]
fn fully_unused_pack_is_removed() {
    // pack 10 holds blobs {1, 2}, both used; pack 11 holds blob {3}, unused
    let index = IndexFile {
        packs: vec![
            data_pack(10, vec![blob(1, BlobType::Data, MB), blob(2, BlobType::Data, MB)]),
            data_pack(11, vec![blob(3, BlobType::Data, MB)]),
        ],
        packs_to_delete: vec![],
    };
    let mut pruner = Pruner::new(
        used(&[1, 2]),
        existing(&[(10, 2 * MB), (11, MB)]),
        vec![(id(100), index)],
    );
    pruner.count_used_blobs();
    pruner.check().unwrap();
    pruner.decide_packs().unwrap();
    pruner.decide_repack(&LimitOption::Unlimited, &LimitOption::Percentage(5));
    assert_eq!(pruner.index_files[0].packs[0].to_do, PackToDo::Keep);
    assert_eq!(pruner.index_files[0].packs[1].to_do, PackToDo::Remove);
    assert_eq!(pruner.stats.packs.used, 1);
    assert_eq!(pruner.stats.packs.unused, 1);
    assert_eq!(pruner.stats.packs.repack, 0);
    assert_eq!(pruner.stats.blobs.remove, 1);
    assert_eq!(pruner.stats.size.remove, MB as u64);
    pruner.filter_index_files();
    let plan = pruner.do_prune();
    assert!(plan.packs_unref.is_empty());
    assert_eq!(plan.packs_remove, vec![id(11)]);
    assert_eq!(plan.indexes_remove, vec![id(100)]);
    assert_eq!(plan.actions.len(), 1);
    match &plan.actions[0] {
        PackAction::Keep { pack } => assert_eq!(pack.id, id(10)),
        _ => panic!("expected the used pack to be re-registered"),
    }
}

#[test]
fn partly_used_pack_within_tolerance_stays() {
    // pack 10: 90 MB used + 10 MB unused; pack 11: 100 MB fully used.
    // used = 190 MB, so 5% tolerance is 5*190/95 = 10 MB; 10 MB of unused
    // does not exceed it, so the pack stays kept.
    let index = IndexFile {
        packs: vec![
            data_pack(
                10,
                vec![blob(1, BlobType::Data, 90 * MB), blob(2, BlobType::Data, 10 * MB)],
            ),
            data_pack(11, vec![blob(3, BlobType::Data, 100 * MB)]),
        ],
        packs_to_delete: vec![],
    };
    let mut pruner = Pruner::new(
        used(&[1, 3]),
        existing(&[(10, 100 * MB), (11, 100 * MB)]),
        vec![(id(100), index)],
    );
    pruner.count_used_blobs();
    pruner.check().unwrap();
    pruner.decide_packs().unwrap();
    assert_eq!(pruner.stats.packs.partly_used, 1);
    pruner.decide_repack(&LimitOption::Unlimited, &LimitOption::Percentage(5));
    assert_eq!(pruner.index_files[0].packs[0].to_do, PackToDo::Keep);
    assert_eq!(pruner.stats.packs.repack, 0);
    assert_eq!(pruner.stats.size.repackrm, 0);
}

#[test]
fn partly_used_pack_over_tolerance_is_repacked() {
    // pack 10: 70 MB used + 30 MB unused; pack 11: 100 MB fully used.
    // used = 170 MB, tolerance is 5*170/95 = 8 MB (and change); 30 MB of
    // unused exceeds it, so the pack is repacked and its 30 MB reclaimed.
    let index = IndexFile {
        packs: vec![
            data_pack(
                10,
                vec![blob(1, BlobType::Data, 70 * MB), blob(2, BlobType::Data, 30 * MB)],
            ),
            data_pack(11, vec![blob(3, BlobType::Data, 100 * MB)]),
        ],
        packs_to_delete: vec![],
    };
    let mut pruner = Pruner::new(
        used(&[1, 3]),
        existing(&[(10, 100 * MB), (11, 100 * MB)]),
        vec![(id(100), index)],
    );
    pruner.count_used_blobs();
    pruner.check().unwrap();
    pruner.decide_packs().unwrap();
    pruner.decide_repack(&LimitOption::Unlimited, &LimitOption::Percentage(5));
    assert_eq!(pruner.index_files[0].packs[0].to_do, PackToDo::Repack);
    assert_eq!(pruner.stats.packs.repack, 1);
    assert_eq!(pruner.stats.size.repack, 100 * MB as u64);
    assert_eq!(pruner.stats.size.repackrm, 30 * MB as u64);
    assert_eq!(
        pruner.stats.size.unused - pruner.stats.size.remove - pruner.stats.size.repackrm,
        0
    );
    pruner.filter_index_files();
    let plan = pruner.do_prune();
    assert_eq!(plan.packs_remove, vec![id(10)]);
    match &plan.actions[0] {
        PackAction::Repack { pack_id, blobs } => {
            assert_eq!(*pack_id, id(10));
            assert_eq!(blobs.len(), 1);
            assert_eq!(blobs[0].id, id(1));
        }
        _ => panic!("expected a repack action first"),
    }
}

#[test]
fn duplicate_blob_is_claimed_by_the_pack_with_other_used_blobs() {
    // blob 5 (1 MB) sits in pack 10 (with 10 MB of other used blobs) and in
    // pack 11 (where it is the only used blob, next to 5 MB unused).
    // Pack 10 claims it; pack 11 ends fully unused and is removed.
    let index = IndexFile {
        packs: vec![
            data_pack(
                10,
                vec![blob(1, BlobType::Data, 10 * MB), blob(5, BlobType::Data, MB)],
            ),
            data_pack(
                11,
                vec![blob(5, BlobType::Data, MB), blob(6, BlobType::Data, 5 * MB)],
            ),
        ],
        packs_to_delete: vec![],
    };
    let mut pruner = Pruner::new(
        used(&[1, 5]),
        existing(&[(10, 11 * MB), (11, 6 * MB)]),
        vec![(id(100), index)],
    );
    pruner.count_used_blobs();
    pruner.check().unwrap();
    pruner.decide_packs().unwrap();
    pruner.decide_repack(&LimitOption::Unlimited, &LimitOption::Percentage(5));
    assert_eq!(pruner.index_files[0].packs[0].to_do, PackToDo::Keep);
    assert_eq!(pruner.index_files[0].packs[1].to_do, PackToDo::Remove);
    assert_eq!(pruner.stats.packs.used, 1);
    assert_eq!(pruner.stats.packs.unused, 1);
    // blob 5 was counted used exactly once
    assert_eq!(pruner.stats.blobs.used, 2);
    assert_eq!(pruner.stats.blobs.unused, 2);
}

#[test]
fn tree_packs_are_repacked_first() {
    // a 40 MB data pack with high waste and a 10 MB tree pack with lower
    // waste; the budget admits the tree pack first and the data pack after
    let index = IndexFile {
        packs: vec![
            data_pack(
                10,
                vec![blob(1, BlobType::Data, 8 * MB), blob(2, BlobType::Data, 32 * MB)],
            ),
            IndexPack {
                id: id(11),
                time: Some(7),
                blobs: vec![blob(3, BlobType::Tree, 7 * MB), blob(4, BlobType::Tree, 3 * MB)],
            },
        ],
        packs_to_delete: vec![],
    };
    let mut pruner = Pruner::new(
        used(&[1, 3]),
        existing(&[(10, 40 * MB), (11, 10 * MB)]),
        vec![(id(100), index)],
    );
    pruner.count_used_blobs();
    pruner.check().unwrap();
    pruner.decide_packs().unwrap();
    // max-unused 0 bytes: everything with waste is over the floor
    pruner.decide_repack(&LimitOption::Size(50 * MB as u64 + 1), &LimitOption::Size(0));
    assert_eq!(pruner.index_files[0].packs[0].to_do, PackToDo::Repack);
    assert_eq!(pruner.index_files[0].packs[1].to_do, PackToDo::Repack);
    assert_eq!(pruner.stats.packs.repack, 2);
    assert_eq!(pruner.stats.size.repack, 50 * MB as u64);
}

#[test]
fn budget_keeps_data_pack_out() {
    // same repository, but the cap only admits the tree pack
    let index = IndexFile {
        packs: vec![
            data_pack(
                10,
                vec![blob(1, BlobType::Data, 8 * MB), blob(2, BlobType::Data, 32 * MB)],
            ),
            IndexPack {
                id: id(11),
                time: None,
                blobs: vec![blob(3, BlobType::Tree, 7 * MB), blob(4, BlobType::Tree, 3 * MB)],
            },
        ],
        packs_to_delete: vec![],
    };
    let mut pruner = Pruner::new(
        used(&[1, 3]),
        existing(&[(10, 40 * MB), (11, 10 * MB)]),
        vec![(id(100), index)],
    );
    pruner.count_used_blobs();
    pruner.check().unwrap();
    pruner.decide_packs().unwrap();
    pruner.decide_repack(&LimitOption::Size(20 * MB as u64), &LimitOption::Size(0));
    assert_eq!(pruner.index_files[0].packs[0].to_do, PackToDo::Keep);
    assert_eq!(pruner.index_files[0].packs[1].to_do, PackToDo::Repack);
    assert!(pruner.stats.size.repack <= 20 * MB as u64);
}

#[test]
fn missing_blob_aborts_before_mutation() {
    // a snapshot references blob 9 but no index lists it
    let index = IndexFile {
        packs: vec![data_pack(10, vec![blob(1, BlobType::Data, MB)])],
        packs_to_delete: vec![],
    };
    let mut pruner = Pruner::new(
        used(&[1, 9]),
        existing(&[(10, MB)]),
        vec![(id(100), index)],
    );
    pruner.count_used_blobs();
    match pruner.check() {
        Err(PruneError::MissingBlob { id: missing }) => assert_eq!(missing, id(9)),
        other => panic!("expected a missing-blob failure, got {:?}", other),
    }
}

#[test]
fn missing_pack_on_disk_is_fatal() {
    // pack 10 must be kept but no pack file with its id exists
    let index = IndexFile {
        packs: vec![data_pack(10, vec![blob(1, BlobType::Data, MB)])],
        packs_to_delete: vec![],
    };
    let mut pruner = Pruner::new(used(&[1]), existing(&[]), vec![(id(100), index)]);
    pruner.count_used_blobs();
    pruner.check().unwrap();
    match pruner.decide_packs() {
        Err(PruneError::MissingPack { id: missing }) => assert_eq!(missing, id(10)),
        other => panic!("expected a missing-pack failure, got {:?}", other),
    }
}

#[test]
fn unreferenced_packs_are_scheduled_first() {
    // pack 12 exists on disk but no index mentions it
    let index = IndexFile {
        packs: vec![data_pack(10, vec![blob(1, BlobType::Data, MB)])],
        packs_to_delete: vec![],
    };
    let mut pruner = Pruner::new(
        used(&[1]),
        existing(&[(10, MB), (12, 3 * MB)]),
        vec![(id(100), index)],
    );
    pruner.count_used_blobs();
    pruner.check().unwrap();
    pruner.decide_packs().unwrap();
    assert_eq!(pruner.stats.size.unref, 3 * MB as u64);
    pruner.decide_repack(&LimitOption::Unlimited, &LimitOption::Percentage(5));
    pruner.filter_index_files();
    let plan = pruner.do_prune();
    assert_eq!(plan.packs_unref, vec![id(12)]);
}

#[test]
fn duplicate_pack_across_indexes_is_collapsed() {
    // both indexes list pack 10; the second loses it and is flagged modified
    let first = IndexFile {
        packs: vec![data_pack(10, vec![blob(1, BlobType::Data, MB)])],
        packs_to_delete: vec![],
    };
    let second = IndexFile {
        packs: vec![data_pack(10, vec![blob(1, BlobType::Data, MB)])],
        packs_to_delete: vec![],
    };
    let pruner = Pruner::new(
        used(&[1]),
        existing(&[(10, MB)]),
        vec![(id(100), first), (id(101), second)],
    );
    assert_eq!(pruner.index_files[0].packs.len(), 1);
    assert!(!pruner.index_files[0].modified);
    assert_eq!(pruner.index_files[1].packs.len(), 0);
    assert!(pruner.index_files[1].modified);
}

#[test]
fn lone_undersized_index_is_left_alone() {
    let index = IndexFile {
        packs: vec![data_pack(10, vec![blob(1, BlobType::Data, MB)])],
        packs_to_delete: vec![],
    };
    let mut pruner = Pruner::new(used(&[1]), existing(&[(10, MB)]), vec![(id(100), index)]);
    pruner.count_used_blobs();
    pruner.check().unwrap();
    pruner.decide_packs().unwrap();
    pruner.decide_repack(&LimitOption::Unlimited, &LimitOption::Percentage(5));
    pruner.filter_index_files();
    assert_eq!(pruner.stats.index_files, 1);
    assert!(pruner.index_files.is_empty());
    let plan = pruner.do_prune();
    assert!(plan.actions.is_empty());
    assert!(plan.packs_remove.is_empty());
    assert!(plan.indexes_remove.is_empty());
    assert!(plan.packs_unref.is_empty());
}

#[test]
fn second_run_after_prune_changes_nothing() {
    // first run: remove the unused pack 11 and rewrite the index
    let index = IndexFile {
        packs: vec![
            data_pack(10, vec![blob(1, BlobType::Data, MB), blob(2, BlobType::Data, MB)]),
            data_pack(11, vec![blob(3, BlobType::Data, MB)]),
        ],
        packs_to_delete: vec![],
    };
    let mut pruner = Pruner::new(
        used(&[1, 2]),
        existing(&[(10, 2 * MB), (11, MB)]),
        vec![(id(100), index)],
    );
    pruner.count_used_blobs();
    pruner.check().unwrap();
    pruner.decide_packs().unwrap();
    pruner.decide_repack(&LimitOption::Unlimited, &LimitOption::Percentage(5));
    pruner.filter_index_files();
    let plan = pruner.do_prune();
    // apply the plan by hand: pack 11 and index 100 are gone, a fresh index
    // 200 carries the re-registered packs
    let mut new_packs = Vec::new();
    for action in plan.actions {
        match action {
            PackAction::Keep { pack } => new_packs.push(pack),
            PackAction::Repack { .. } => panic!("nothing should be repacked here"),
        }
    }
    let second_index = IndexFile { packs: new_packs, packs_to_delete: vec![] };
    // second run over the pruned repository
    let mut second = Pruner::new(
        used(&[1, 2]),
        existing(&[(10, 2 * MB)]),
        vec![(id(200), second_index)],
    );
    second.count_used_blobs();
    second.check().unwrap();
    second.decide_packs().unwrap();
    second.decide_repack(&LimitOption::Unlimited, &LimitOption::Percentage(5));
    second.filter_index_files();
    let second_plan = second.do_prune();
    assert!(second_plan.packs_unref.is_empty());
    assert!(second_plan.actions.is_empty());
    assert!(second_plan.packs_remove.is_empty());
    assert!(second_plan.indexes_remove.is_empty());
}
