//! The chunked codec and the save/load round trip.

use cargo_trend::persist::CodecError;
use cargo_trend::store::Db;
use cargo_trend::store::Entry;

fn entry(time: i64, direct: u64, transitive: u64, total: u64) -> Entry {
    Entry {
        time,
        direct_dependents: direct,
        transitive_dependents: transitive,
        total_crates: total,
    }
}

fn sample_db() -> Db {
    Db {
        update: 300,
        map: vec![
            (
                "alpha".to_string(),
                vec![entry(100, 1, 2, 10), entry(200, 2, 3, 11), entry(300, 3, 4, 12)],
            ),
            ("beta".to_string(), vec![entry(100, 5, 6, 10)]),
            ("gamma".to_string(), vec![entry(200, 7, 8, 11), entry(300, 7, 9, 12)]),
        ],
    }
}

#[test]
fn round_trip_single_chunk() {
    let db = sample_db();
    let (header, chunks) = db.to_chunks(1000000);
    assert_eq!(chunks.len(), 1);
    assert_eq!(header.update, 300);
    assert_eq!(header.hash.len(), 1);
    let loaded = Db::from_chunks(header.update, &chunks).unwrap();
    assert_eq!(loaded.update, 300);
    assert_eq!(loaded.map, db.map);
}

#[test]
fn round_trip_across_multiple_chunks() {
    let db = sample_db();
    // Six pairs in all; two rows per chunk forces a split.
    let (header, chunks) = db.to_chunks(2);
    assert_eq!(chunks.len(), 3);
    assert_eq!(header.hash.len(), 3);
    let loaded = Db::from_chunks(header.update, &chunks).unwrap();
    assert_eq!(loaded.update, 300);
    assert_eq!(loaded.map, db.map);
    assert!(loaded.check_wf());
}

#[test]
fn round_trip_with_uneven_final_chunk() {
    let db = sample_db();
    let (_, chunks) = db.to_chunks(4);
    assert_eq!(chunks.len(), 2);
    let loaded = Db::from_chunks(300, &chunks).unwrap();
    assert_eq!(loaded.map, db.map);
}

#[test]
fn round_trip_keeps_non_ascii_names() {
    let db = Db {
        update: 50,
        map: vec![
            ("enciclopedia-ñ".to_string(), vec![entry(50, 1, 1, 2)]),
            ("かに".to_string(), vec![entry(50, 2, 2, 2)]),
        ],
    };
    let (header, chunks) = db.to_chunks(1);
    let loaded = Db::from_chunks(header.update, &chunks).unwrap();
    let find = |n: &str| loaded.map.iter().find(|p| p.0 == n).cloned();
    assert_eq!(find("enciclopedia-ñ").unwrap().1, vec![entry(50, 1, 1, 2)]);
    assert_eq!(find("かに").unwrap().1, vec![entry(50, 2, 2, 2)]);
}

#[test]
fn empty_store_round_trips() {
    let db = Db::new();
    let (header, chunks) = db.to_chunks(1000000);
    assert_eq!(chunks.len(), 1);
    let loaded = Db::from_chunks(header.update, &chunks).unwrap();
    assert_eq!(loaded.update, 0);
    assert!(loaded.map.is_empty());
}

#[test]
fn header_hashes_match_recomputed_digests() {
    let db = sample_db();
    let (header, chunks) = db.to_chunks(2);
    for (h, c) in header.hash.iter().zip(chunks.iter()) {
        let recomputed = format!("{:x}", <sha2::Sha256 as sha2::Digest>::digest(c));
        assert_eq!(*h, recomputed);
    }
}

#[test]
fn truncated_chunk_is_rejected() {
    let db = sample_db();
    let (_, mut chunks) = db.to_chunks(1000000);
    chunks[0].pop();
    assert!(matches!(Db::from_chunks(300, &chunks), Err(CodecError::MalformedChunk)));
}

#[test]
fn trailing_garbage_is_rejected() {
    let db = sample_db();
    let (_, mut chunks) = db.to_chunks(1000000);
    chunks[0].push(0);
    assert!(matches!(Db::from_chunks(300, &chunks), Err(CodecError::MalformedChunk)));
}

#[test]
fn short_header_bytes_are_rejected() {
    let chunks = vec![vec![1u8, 2, 3]];
    assert!(matches!(Db::from_chunks(0, &chunks), Err(CodecError::MalformedChunk)));
}

#[test]
fn invalid_name_bytes_are_rejected() {
    let db = Db {
        update: 10,
        map: vec![("ab".to_string(), vec![entry(10, 1, 1, 1)])],
    };
    let (_, mut chunks) = db.to_chunks(1000000);
    // The name bytes sit after the pair count and the name length; 0xFF
    // can never start a UTF-8 encoded character.
    chunks[0][16] = 0xFF;
    assert!(matches!(Db::from_chunks(10, &chunks), Err(CodecError::MalformedChunk)));
}

#[test]
fn load_merges_pairs_in_order_of_appearance() {
    // Hand-built chunks with one name spread over two chunks.
    let part1 = Db {
        update: 0,
        map: vec![("n".to_string(), vec![entry(1, 1, 1, 1)])],
    };
    let part2 = Db {
        update: 0,
        map: vec![("n".to_string(), vec![entry(2, 2, 2, 2)])],
    };
    let (_, c1) = part1.to_chunks(1000000);
    let (_, c2) = part2.to_chunks(1000000);
    let chunks = vec![c1[0].clone(), c2[0].clone()];
    let loaded = Db::from_chunks(9, &chunks).unwrap();
    assert_eq!(loaded.map.len(), 1);
    assert_eq!(loaded.map[0].0, "n");
    assert_eq!(loaded.map[0].1, vec![entry(1, 1, 1, 1), entry(2, 2, 2, 2)]);
}

#[test]
fn check_wf_accepts_and_rejects() {
    assert!(Db::new().check_wf());
    assert!(sample_db().check_wf());
    let dup = Db {
        update: 10,
        map: vec![
            ("x".to_string(), vec![entry(1, 1, 1, 1)]),
            ("x".to_string(), vec![entry(2, 2, 2, 2)]),
        ],
    };
    assert!(!dup.check_wf());
    let unsorted_times = Db {
        update: 10,
        map: vec![("x".to_string(), vec![entry(5, 1, 1, 1), entry(3, 2, 2, 2)])],
    };
    assert!(!unsorted_times.check_wf());
    let uncompressed = Db {
        update: 10,
        map: vec![("x".to_string(), vec![entry(1, 1, 1, 1), entry(2, 1, 1, 9)])],
    };
    assert!(!uncompressed.check_wf());
    let above_high_water = Db {
        update: 1,
        map: vec![("x".to_string(), vec![entry(5, 1, 1, 1)])],
    };
    assert!(!above_high_water.check_wf());
    let empty_history = Db {
        update: 1,
        map: vec![("x".to_string(), vec![])],
    };
    assert!(!empty_history.check_wf());
}
