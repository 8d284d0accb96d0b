use minilsm::{
    FileId, FileStore, KVPair, LSM, LSMBlock, LSMBlockMeta, LSMCacheManager, LSMConfig, LSMLevel,
    FileIdManager,
};
use std::collections::BTreeMap;
use rand::RngExt;

fn pair(k: &str, v: &str) -> KVPair {
    KVPair(k.to_string(), v.to_string())
}

/// The first `count` three-letter lowercase keys starting at `start`.
fn gen_keys(start: &str, count: usize) -> Vec<String> {
    let mut all = Vec::new();
    for c1 in b'a'..=b'z' {
        for c2 in b'a'..=b'z' {
            for c3 in b'a'..=b'z' {
                all.push(format!("{}{}{}", char::from(c1), char::from(c2), char::from(c3)));
            }
        }
    }
    let at = all.iter().position(|k| k == start).unwrap();
    all[at..at + count].to_vec()
}

fn gen_kv(start: &str, count: usize) -> Vec<KVPair> {
    gen_keys(start, count)
        .into_iter()
        .enumerate()
        .map(|(i, k)| KVPair(k, format!("value{}", i)))
        .collect()
}

/// A fixed pseudo-random order of 0..n.
fn shuffled(n: usize, seed: u64) -> Vec<usize> {
    let mut idx: Vec<usize> = (0..n).collect();
    let mut state = seed;
    for i in (1..n).rev() {
        state = state.wrapping_mul(6364136223846793005).wrapping_add(1442695040888963407);
        let j = (state >> 33) as usize % (i + 1);
        idx.swap(i, j);
    }
    idx
}

#[test]
fn test_cached_read() {
    let mut fs = FileStore::new();
    let data = vec![pair("alpha", "1"), pair("beta", "2"), pair("gamma", "3")];
    let block = LSMBlock::create(1, 0, &data, &mut fs);
    let mut cache_manager = LSMCacheManager::new(4);
    assert!(!cache_manager.is_cached(block.metadata()));
    assert_eq!(block.get("beta", &mut cache_manager, &fs).unwrap(), "2");
    assert!(cache_manager.is_cached(block.metadata()));
    assert_eq!(block.get("beta", &mut cache_manager, &fs).unwrap(), "2");
    assert_eq!(cache_manager.cached_count(), 1);
}

#[test]
fn test_build_sst() {
    let mut data = vec![
        ("Yifan ZHU", "CHUK(SZ)"),
        ("ice1000", "PSU"),
        ("ICEY", "QDU"),
        ("Lyzh", "Railway Middle School"),
        ("Accelerator", "長期コンピューター学校"),
        ("MisakawaMikoto", "常盤台中学校"),
        ("KamijouTouma", "PERMISSION_DENIED"),
    ];
    data.sort_by(|&(k1, _), &(k2, _)| k1.cmp(k2));
    let data: Vec<KVPair> = data.iter().map(|&(k, v)| pair(k, v)).collect();

    let mut fs = FileStore::new();
    let block = LSMBlock::create(1, 0, &data, &mut fs);
    let mut cache_manager = LSMCacheManager::new(10);

    assert_eq!(block.get("ice1000", &mut cache_manager, &fs).unwrap(), "PSU");
}

#[test]
fn test_block_iter() {
    let mut data = vec![
        ("Yifan ZHU", "CHUK(SZ)"),
        ("ice1000", "PSU"),
        ("ICEY", "QDU"),
        ("Lyzh", "Railway Middle School"),
        ("Accelerator", "長期コンピューター学校"),
        ("MisakawaMikoto", "常盤台中学校"),
        ("KamijouTouma", "PERMISSION_DENIED"),
    ];
    data.sort_by(|&(k1, _), &(k2, _)| k1.cmp(k2));
    let data: Vec<KVPair> = data.iter().map(|&(k, v)| pair(k, v)).collect();

    let mut fs = FileStore::new();
    let block = LSMBlock::create(1, 1, &data, &mut fs);
    let read_back = block.pairs(&fs);
    assert_eq!(read_back.len(), data.len());
    for (a, b) in read_back.iter().zip(data.iter()) {
        assert_eq!(a.0, b.0);
        assert_eq!(a.1, b.1);
    }
}

#[test]
fn test_level1_lookup() {
    let data_pieces = vec![
        vec![("ice1000", "100"), ("xyy", "99"), ("chu1gda", "60"), ("lyzh", "60/182.5")],
        vec![("ice1000", "101"), ("fish", "55"), ("xtl", "45"), ("duangsuse", "0")],
        vec![("chu1gda", "75"), ("duangsuse", "1"), ("xtl", "55"), ("huge", "95")],
        vec![("fzy", "100"), ("zyf", "100"), ("lyzh", "75"), ("ice1000", "1000")],
    ];
    let mut fs = FileStore::new();
    let blocks: Vec<LSMBlock> = data_pieces
        .into_iter()
        .enumerate()
        .map(|(i, piece)| {
            let mut data: Vec<KVPair> = piece.into_iter().map(|(k, v)| pair(k, v)).collect();
            data.sort_by(|a, b| a.0.cmp(&b.0));
            LSMBlock::create(9, i as u32, &data, &mut fs)
        })
        .collect();
    let file_id_manager = FileIdManager::new(0);
    let mut cache_manager = LSMCacheManager::new(4);
    let level = LSMLevel::with_blocks(1, blocks, file_id_manager);

    assert_eq!(level.get("lyzh", &mut cache_manager, &fs).unwrap(), "75");
    assert_eq!(level.get("chu1gda", &mut cache_manager, &fs).unwrap(), "75");
    assert_eq!(level.get("xtl", &mut cache_manager, &fs).unwrap(), "55");
    assert_eq!(level.get("huge", &mut cache_manager, &fs).unwrap(), "95");
    assert_eq!(level.get("xyy", &mut cache_manager, &fs).unwrap(), "99");
    assert_eq!(level.get("zyf", &mut cache_manager, &fs).unwrap(), "100");
    assert_eq!(level.get("fzy", &mut cache_manager, &fs).unwrap(), "100");
    assert!(level.get("zyy", &mut cache_manager, &fs).is_none());
}

#[test]
fn test_lvn_lookup() {
    let mut fs = FileStore::new();
    let mut cache_manager = LSMCacheManager::new(4);

    let kvs = vec![gen_kv("aaa", 8), gen_kv("aba", 8), gen_kv("aca", 8), gen_kv("ada", 8)];
    let blocks: Vec<LSMBlock> = kvs
        .iter()
        .enumerate()
        .map(|(i, data)| LSMBlock::create(10, i as u32, data, &mut fs))
        .collect();
    let level2 = LSMLevel::with_blocks(2, blocks, FileIdManager::new(0));

    for piece in &kvs {
        for p in piece {
            assert_eq!(level2.get(&p.0, &mut cache_manager, &fs).unwrap(), p.1);
        }
    }
}

#[test]
fn test_merge() {
    let config = LSMConfig::testing("merge_db".to_string());
    let mut fs = FileStore::new();
    let mut cache_manager = LSMCacheManager::new(4);

    let lv1_data = vec![gen_kv("aae", 8), gen_kv("aca", 8)];
    let lv2_data = vec![
        vec![
            pair("aaa", "unique1"),
            pair("aab", "unique2"),
            pair("aac", "unique3"),
            pair("aad", "unique4"),
            pair("aae", "special1"),
            pair("aag", "special2"),
            pair("aah", "special3"),
            pair("aaj", "special4"),
        ],
        vec![
            pair("aal", "很多时候"),
            pair("aam", "重复地向别人请教一些高度相似的问题"),
            pair("aan", "尤其是在这个问题很trivial的情况下"),
            pair("aao", "是一种很不礼貌的行为"),
            pair("aaq", "最近在网上看到一个人"),
            pair("aar", "他每天都会重复一件事"),
            pair("aas", "首先问一个用直觉就能感觉出来答案的问题"),
            pair("aat", "然后在刚才的问题中的名词随便选一个"),
        ],
        gen_kv("aba", 8),
        gen_kv("ada", 8),
    ];

    let mut expectations: BTreeMap<String, String> = BTreeMap::new();
    for kvs in lv2_data.iter().chain(lv1_data.iter()) {
        for p in kvs {
            expectations.insert(p.0.clone(), p.1.clone());
        }
    }

    let lv1_blocks: Vec<LSMBlock> = lv1_data
        .iter()
        .enumerate()
        .map(|(i, kvs)| LSMBlock::create(1, i as u32, kvs, &mut fs))
        .collect();
    let lv2_blocks: Vec<LSMBlock> = lv2_data
        .iter()
        .enumerate()
        .map(|(i, kvs)| LSMBlock::create(2, i as u32, kvs, &mut fs))
        .collect();

    let mut level2 = LSMLevel::with_blocks(2, lv2_blocks, FileIdManager::new(99));
    let _ = level2.merge_blocks(lv1_blocks, &mut fs, &config);

    for (k, v) in expectations.iter() {
        assert_eq!(level2.get(k, &mut cache_manager, &fs).unwrap(), *v);
    }

    for i in 0..level2.block_count() {
        for j in 0..level2.block_count() {
            if i != j {
                assert!(!LSMBlock::interleave(level2.block_at(i), level2.block_at(j)));
            }
        }
    }
}

#[test]
fn test_kway_precedence() {
    let old_run = vec![pair("k", "old")];
    let new_run = vec![pair("k", "new")];
    let merged = minilsm::merge_runs(&vec![old_run, new_run]);
    assert_eq!(merged.len(), 1);
    assert_eq!(merged[0].0, "k");
    assert_eq!(merged[0].1, "new");
}

#[test]
fn test_lookup_short_circuit() {
    let mut fs = FileStore::new();
    let data = vec![pair("m", "1"), pair("p", "2")];
    let block = LSMBlock::create(1, 0, &data, &mut fs);
    let mut cache_manager = LSMCacheManager::new(2);
    assert!(block.get("a", &mut cache_manager, &fs).is_none());
    // the probe was answered from the range alone: nothing was cached
    assert_eq!(cache_manager.cached_count(), 0);
}

#[test]
fn test_cache_eviction() {
    let mut fs = FileStore::new();
    let a = LSMBlock::create(1, 0, &vec![pair("a", "1")], &mut fs);
    let b = LSMBlock::create(1, 1, &vec![pair("b", "2")], &mut fs);
    let c = LSMBlock::create(1, 2, &vec![pair("c", "3")], &mut fs);
    let mut cm = LSMCacheManager::new(2);
    assert_eq!(a.get("a", &mut cm, &fs).unwrap(), "1");
    assert_eq!(b.get("b", &mut cm, &fs).unwrap(), "2");
    assert_eq!(a.get("a", &mut cm, &fs).unwrap(), "1");
    assert_eq!(c.get("c", &mut cm, &fs).unwrap(), "3");
    assert!(cm.cached_count() <= 2);
    assert!(cm.is_cached(a.metadata()));
    assert!(cm.is_cached(c.metadata()));
    assert!(!cm.is_cached(b.metadata()));
}

#[test]
fn test_block_file_names() {
    let meta = LSMBlockMeta { origin_level: 3, block_file_id: 41 };
    assert_eq!(meta.block_file_name(), "lv3_41.msst");
    assert_eq!(LSMLevel::meta_file_name_int(7), "lv7_meta.mfst");
}

#[test]
fn test_corrupt_block_text() {
    let no_colon: Vec<char> = "plainline\n".chars().collect();
    assert!(minilsm::parse_pairs_exec(&no_colon).is_none());
    let two_colons: Vec<char> = "a:b:c\n".chars().collect();
    assert!(minilsm::parse_pairs_exec(&two_colons).is_none());
    let fine: Vec<char> = "a:b\nc:d".chars().collect();
    let parsed = minilsm::parse_pairs_exec(&fine).unwrap();
    assert_eq!(parsed.len(), 2);
    assert_eq!(parsed[1].0, "c");
    assert_eq!(parsed[1].1, "d");
}

#[test]
fn workload_test() {
    let mut kvs = gen_kv("aaa", 512);
    let order = shuffled(kvs.len(), 7);
    let mut shuffled_kvs = Vec::new();
    for i in order {
        shuffled_kvs.push(kvs[i].clone());
    }
    kvs = shuffled_kvs;

    let lsm_config = LSMConfig::testing("wl_test_db".to_string());
    let mut lsm = LSM::new(lsm_config);
    let mut memds: BTreeMap<String, String> = BTreeMap::new();

    for p in kvs.iter() {
        lsm.put(p.0.clone(), p.1.clone());
        memds.insert(p.0.clone(), p.1.clone());
    }

    for (k, v) in memds.iter() {
        assert_eq!(lsm.get(k).unwrap(), *v);
    }
}

#[test]
fn overlapping_test() {
    let mut kvs: Vec<KVPair> = Vec::new();
    for round in 0..8u32 {
        for p in gen_kv("aaa", 32) {
            kvs.push(KVPair(p.0, format!("{}@{}", p.1, round)));
        }
    }
    let order = shuffled(kvs.len(), 11);
    let mut shuffled_kvs = Vec::new();
    for i in order {
        shuffled_kvs.push(kvs[i].clone());
    }

    let lsm_config = LSMConfig::testing("ol_test_db".to_string());
    let mut lsm = LSM::new(lsm_config);
    let mut memds: BTreeMap<String, String> = BTreeMap::new();

    for p in shuffled_kvs.iter() {
        lsm.put(p.0.clone(), p.1.clone());
        memds.insert(p.0.clone(), p.1.clone());
    }

    for (k, v) in memds.iter() {
        assert_eq!(lsm.get(k).unwrap(), *v);
    }
}

#[test]
fn test_store_round_trip_with_rand() {
    // fresh values chosen by a real random source; reads still follow writes
    let mut rng = rand::rng();
    let keys = gen_keys("caa", 40);
    let mut lsm = LSM::new(LSMConfig::testing("rand_db".to_string()));
    let mut memds: BTreeMap<String, String> = BTreeMap::new();
    for k in keys {
        let v = format!("v{}", rng.random_range(0..1000u32));
        lsm.put(k.clone(), v.clone());
        memds.insert(k, v);
    }
    for (k, v) in memds.iter() {
        assert_eq!(lsm.get(k).unwrap(), *v);
    }
}

#[test]
fn test_manifest_round_trip() {
    let mut fs = FileStore::new();
    let b1 = LSMBlock::create(2, 5, &vec![pair("aaa", "1"), pair("abc", "2")], &mut fs);
    let b2 = LSMBlock::create(1, 7, &vec![pair("b", "x")], &mut fs);
    let level = LSMLevel::with_blocks(3, vec![b1, b2], FileIdManager::new(9));
    level.update_meta_file(&mut fs);

    let text = fs.read(FileId::Manifest { level: 3 }).unwrap().clone();
    let back = LSMLevel::from_manifest(3, &text).unwrap();
    assert_eq!(back.current_file_id(), 9);
    assert_eq!(back.block_count(), 2);
    assert_eq!(back.block_at(0).lower_bound(), "aaa");
    assert_eq!(back.block_at(0).upper_bound(), "abc");
    assert_eq!(back.block_at(0).metadata().origin_level, 2);
    assert_eq!(back.block_at(0).metadata().block_file_id, 5);
    assert_eq!(back.block_at(1).metadata().origin_level, 1);
    assert_eq!(back.block_at(1).metadata().block_file_id, 7);

    let garbled: Vec<char> = "9\nonly:three:fields\n".chars().collect();
    assert!(LSMLevel::from_manifest(1, &garbled).is_none());
    let nonnum: Vec<char> = "x9\n".chars().collect();
    assert!(LSMLevel::from_manifest(1, &nonnum).is_none());
}
