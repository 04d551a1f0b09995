use rustic_prune::{
    record_node, seed_used_ids, BlobType, Id, IdMap, IdSet, KeyError, KeyFile, LimitOption,
    LimitParseError, Node, NodeType, PackInfo, SnapshotFile,
};

fn id(n: u64) -> Id {
    Id::new(n, 0, 0, 0)
}

#[test]
fn limit_grammar_percentage() {
    assert_eq!(LimitOption::from_str("10%"), Ok(LimitOption::Percentage(10)));
    assert_eq!(LimitOption::from_str("5%"), Ok(LimitOption::Percentage(5)));
    assert_eq!(LimitOption::from_str("+7%"), Ok(LimitOption::Percentage(7)));
    assert_eq!(
        LimitOption::from_str("18446744073709551615%"),
        Ok(LimitOption::Percentage(u64::MAX))
    );
    assert_eq!(
        LimitOption::from_str("18446744073709551616%"),
        Err(LimitParseError::BadNumber)
    );
    assert_eq!(LimitOption::from_str("abc%"), Err(LimitParseError::BadNumber));
    assert_eq!(LimitOption::from_str("%"), Err(LimitParseError::BadNumber));
}

#[test]
fn limit_grammar_unlimited_and_sizes() {
    assert_eq!(LimitOption::from_str("unlimited"), Ok(LimitOption::Unlimited));
    assert_eq!(LimitOption::from_str("5b"), Ok(LimitOption::Size(5)));
    assert_eq!(LimitOption::from_str("2 kB"), Ok(LimitOption::Size(2_000)));
    assert_eq!(LimitOption::from_str("3M"), Ok(LimitOption::Size(3_000_000)));
    assert_eq!(
        LimitOption::from_str("4TiB"),
        Ok(LimitOption::Size(4 * (1u64 << 40)))
    );
    assert_eq!(LimitOption::from_str("123"), Ok(LimitOption::Size(123)));
    assert_eq!(LimitOption::from_str(""), Err(LimitParseError::BadSize));
    assert_eq!(LimitOption::from_str("wat"), Err(LimitParseError::BadSize));
}

fn pi(tpe: BlobType, unused: u64, used: u64) -> PackInfo {
    PackInfo { blob_type: tpe, used_blobs: 1, unused_blobs: 1, used_size: used, unused_size: unused }
}

#[test]
fn comparator_orders_tree_packs_first() {
    let tree = pi(BlobType::Tree, 3, 7);
    let data = pi(BlobType::Data, 32, 8);
    assert_eq!(tree.cmp(&data), core::cmp::Ordering::Less);
    assert_eq!(data.cmp(&tree), core::cmp::Ordering::Greater);
}

#[test]
fn comparator_prefers_higher_waste_ratio() {
    let wasteful = pi(BlobType::Data, 32, 8);
    let modest = pi(BlobType::Data, 10, 30);
    assert_eq!(wasteful.cmp(&modest), core::cmp::Ordering::Less);
    assert_eq!(modest.cmp(&wasteful), core::cmp::Ordering::Greater);
    assert_eq!(wasteful.cmp(&wasteful), core::cmp::Ordering::Equal);
    assert_eq!(wasteful.partial_cmp(&modest), Some(core::cmp::Ordering::Less));
    // equal cross products compare equal even for different sizes
    let a = pi(BlobType::Data, 2, 1);
    let b = pi(BlobType::Data, 4, 2);
    assert_eq!(a.cmp(&b), core::cmp::Ordering::Equal);
}

#[test]
fn id_table_inserts_and_removes() {
    let mut m: IdMap<u8> = IdMap::new();
    assert_eq!(m.get(id(1)), None);
    m.insert(id(1), 3);
    m.insert(id(2), 4);
    m.insert(id(1), 5);
    assert_eq!(m.len(), 2);
    assert_eq!(m.get(id(1)), Some(5));
    assert_eq!(m.remove(id(1)), Some(5));
    assert_eq!(m.remove(id(1)), None);
    assert!(!m.contains(id(1)));
    assert!(m.contains(id(2)));
}

#[test]
fn id_set_deduplicates() {
    let mut s = IdSet::new();
    assert!(s.insert(id(7)));
    assert!(!s.insert(id(7)));
    assert!(s.contains(id(7)));
    assert!(!s.contains(id(8)));
}

#[test]
fn reachability_scan_records_all_node_kinds() {
    let snapshots = vec![SnapshotFile { tree: id(1) }, SnapshotFile { tree: id(2) }];
    let mut ids = seed_used_ids(&snapshots);
    assert_eq!(ids.get(id(1)), Some(0));
    assert_eq!(ids.get(id(2)), Some(0));
    let file = Node { node_type: NodeType::File, content: vec![id(3), id(4)], subtree: None };
    record_node(&mut ids, &file);
    let dir = Node { node_type: NodeType::Dir, content: vec![], subtree: Some(id(5)) };
    record_node(&mut ids, &dir);
    let other = Node { node_type: NodeType::Other, content: vec![], subtree: None };
    record_node(&mut ids, &other);
    for n in [1u64, 2, 3, 4, 5] {
        assert_eq!(ids.get(id(n)), Some(0));
    }
    assert_eq!(ids.len(), 5);
    // a re-encountered tree contributes nothing new
    let again = Node { node_type: NodeType::Dir, content: vec![], subtree: Some(id(5)) };
    record_node(&mut ids, &again);
    assert_eq!(ids.len(), 5);
}

#[test]
fn key_file_parses_its_fields() {
    let data = br#"{"kdf":"scrypt","N":16,"r":1,"p":1,"data":"AQI=","salt":"AA=="}"#.to_vec();
    let kf = KeyFile::parse(&data).unwrap();
    assert_eq!(kf.kdf, "scrypt");
    assert_eq!(kf.n, 16);
    assert_eq!(kf.r, 1);
    assert_eq!(kf.p, 1);
    assert_eq!(kf.data, "AQI=");
    assert_eq!(kf.salt, "AA==");
    let bad = b"not json".to_vec();
    assert_eq!(KeyFile::parse(&bad).unwrap_err(), KeyError::InvalidKeyFile);
}

#[test]
fn kdf_key_matches_the_published_scrypt_vector() {
    // scrypt(P="", S="", N=16, r=1, p=1, dkLen=64), the first published test
    // vector of the scrypt specification; the salt decodes from base64 to
    // the empty string
    let kf = KeyFile {
        kdf: String::from("scrypt"),
        n: 16,
        r: 1,
        p: 1,
        data: String::new(),
        salt: String::new(),
    };
    let key = kf.kdf_key("").unwrap();
    let expected: [u8; 64] = [
        0x77, 0xd6, 0x57, 0x62, 0x38, 0x65, 0x7b, 0x20, 0x3b, 0x19, 0xca, 0x42, 0xc1, 0x8a,
        0x04, 0x97, 0xf1, 0x6b, 0x48, 0x44, 0xe3, 0x07, 0x4a, 0xe8, 0xdf, 0xdf, 0xfa, 0x3f,
        0xed, 0xe2, 0x14, 0x42, 0xfc, 0xd0, 0x06, 0x9d, 0xed, 0x09, 0x48, 0xf8, 0x32, 0x6a,
        0x75, 0x3a, 0x0f, 0xc8, 0x1f, 0x17, 0xe8, 0xd3, 0xe0, 0xfb, 0x2e, 0x0d, 0x36, 0x28,
        0xcf, 0x35, 0xe2, 0x0c, 0x38, 0xd1, 0x89, 0x06,
    ];
    assert_eq!(key.encrypt, expected[0..32].to_vec());
    assert_eq!(key.k, expected[32..48].to_vec());
    assert_eq!(key.r, expected[48..64].to_vec());
    // deterministic, and sensitive to the password
    let again = kf.kdf_key("").unwrap();
    assert_eq!(again.encrypt, key.encrypt);
    let other = kf.kdf_key("hunter2").unwrap();
    assert_ne!(other.encrypt, key.encrypt);
}

#[test]
fn kdf_key_rejects_bad_inputs() {
    let bad_salt = KeyFile {
        kdf: String::from("scrypt"),
        n: 16,
        r: 1,
        p: 1,
        data: String::new(),
        salt: String::from("!!!"),
    };
    assert_eq!(bad_salt.kdf_key("pw").unwrap_err(), KeyError::InvalidBase64);
    let bad_params = KeyFile {
        kdf: String::from("scrypt"),
        n: 16,
        r: 0,
        p: 1,
        data: String::new(),
        salt: String::new(),
    };
    assert_eq!(bad_params.kdf_key("pw").unwrap_err(), KeyError::InvalidScryptParams);
}

#[test]
fn master_key_record_is_decoded() {
    let enc = base64::engine::general_purpose::STANDARD;
    let k_b64 = base64::Engine::encode(&enc, (0u8..16).collect::<Vec<u8>>());
    let r_b64 = base64::Engine::encode(&enc, (16u8..32).collect::<Vec<u8>>());
    let e_b64 = base64::Engine::encode(&enc, (32u8..64).collect::<Vec<u8>>());
    let plain = format!(
        r#"{{"mac":{{"k":"{}","r":"{}"}},"encrypt":"{}"}}"#,
        k_b64, r_b64, e_b64
    )
    .into_bytes();
    let key = KeyFile::key_from_data(&plain).unwrap();
    assert_eq!(key.k, (0u8..16).collect::<Vec<u8>>());
    assert_eq!(key.r, (16u8..32).collect::<Vec<u8>>());
    assert_eq!(key.encrypt, (32u8..64).collect::<Vec<u8>>());
    let bad = b"{}".to_vec();
    assert_eq!(KeyFile::key_from_data(&bad).unwrap_err(), KeyError::InvalidMasterKey);
}

#[test]
fn key_from_password_yields_kdf_key_and_encrypted_record() {
    let kf = KeyFile {
        kdf: String::from("scrypt"),
        n: 16,
        r: 1,
        p: 1,
        data: String::from("AQID"),
        salt: String::new(),
    };
    let (key, record) = kf.key_from_password("").unwrap();
    assert_eq!(key.encrypt.len(), 32);
    assert_eq!(record, vec![1u8, 2, 3]);
}

#[test]
fn log_2_rounds_down() {
    assert_eq!(rustic_prune::log_2(1), 0);
    assert_eq!(rustic_prune::log_2(2), 1);
    assert_eq!(rustic_prune::log_2(16), 4);
    assert_eq!(rustic_prune::log_2(17), 4);
    assert_eq!(rustic_prune::log_2(u32::MAX), 31);
}
