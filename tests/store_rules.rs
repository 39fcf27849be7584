use base64::Engine;
use gget::cache::{disk_lookup, entry_location, location_for_digest, sweep_deletes, CacheEntry, DiskLookup};
use gget::dependency::PackageDependency;
use gget::fetch::{
    decode_response_text, encode_query_path, file_cache_key, files_cache_key, is_source_file_name,
    package_file_path, parse_file_list, plan_downloads, validate_extracted, temp_dir_name, DependencyWalk,
};
use gget::parallel::RetryConfig;
use gget::query::RpcRequest;

#[test]
fn entry_reads_back_until_its_ttl_passes() {
    let entry = CacheEntry::new("value".to_string(), 1000, 3600);
    assert!(!entry.is_expired(1000));
    assert!(!entry.is_expired(4599));
    assert!(entry.is_expired(4600));
    match disk_lookup(Some(entry.clone()), 1000) {
        DiskLookup::Fresh(v) => assert_eq!(v, "value"),
        other => panic!("unexpected {:?}", other),
    }
    assert!(matches!(disk_lookup(Some(entry.clone()), 4600), DiskLookup::Expired));
    assert!(matches!(disk_lookup(None, 4600), DiskLookup::Absent));
    assert!(sweep_deletes(&entry, 4600));
    assert!(!sweep_deletes(&entry, 4599));
}

#[test]
fn zero_ttl_entry_is_expired_at_once() {
    let entry = CacheEntry::new("value".to_string(), 50, 0);
    assert!(entry.is_expired(50));
    assert!(matches!(disk_lookup(Some(entry), 50), DiskLookup::Expired));
}

#[test]
fn expiry_does_not_overflow() {
    let entry = CacheEntry::new("v".to_string(), u64::MAX - 1, u64::MAX);
    assert!(!entry.is_expired(u64::MAX));
    let earlier = CacheEntry::new("v".to_string(), 10, 5);
    assert!(!earlier.is_expired(3));
}

#[test]
fn entry_location_is_sharded_by_digest() {
    let digest = blake3::hash("files:gno.land/p/demo/avl".as_bytes()).to_hex().to_string();
    let (shard, file) = entry_location("files:gno.land/p/demo/avl");
    assert_eq!(shard, digest[0..2].to_string());
    assert_eq!(file, format!("{}.json", digest));
    assert_eq!(file.len(), 69);
    let (s2, f2) = location_for_digest("abcdef");
    assert_eq!((s2.as_str(), f2.as_str()), ("ab", "abcdef.json"));
}

#[test]
fn cache_keys() {
    assert_eq!(files_cache_key("gno.land/p/demo/avl"), "files:gno.land/p/demo/avl");
    let path = package_file_path("gno.land/p/demo/avl", "node.gno");
    assert_eq!(path, "gno.land/p/demo/avl/node.gno");
    assert_eq!(file_cache_key(&path), "file:gno.land/p/demo/avl/node.gno");
}

#[test]
fn query_payload_round_trip() {
    let encoded = encode_query_path("gno.land/p/demo/avl");
    assert_eq!(encoded, base64::engine::general_purpose::STANDARD.encode("gno.land/p/demo/avl"));
    assert_ne!(encoded, "gno.land/p/demo/avl");
    assert_eq!(decode_response_text(&encoded).unwrap(), "gno.land/p/demo/avl");
    assert!(decode_response_text("not base64!").is_err());
    let request = RpcRequest::file_query(&encoded);
    assert_eq!(request.jsonrpc, "2.0");
    assert_eq!(request.id, 1);
    assert_eq!(request.method, "abci_query");
    assert_eq!(request.params.path, "vm/qfile");
    assert_eq!(request.params.data, encoded);
}

#[test]
fn source_file_names() {
    assert!(is_source_file_name("main.gno"));
    assert!(is_source_file_name("a.b.gno"));
    assert!(!is_source_file_name(".gno"));
    assert!(!is_source_file_name("gno"));
    assert!(!is_source_file_name("main.go"));
    assert!(!is_source_file_name("README.md"));
    assert!(!is_source_file_name("x.gno.bak"));
}

#[test]
fn temp_dir_names() {
    assert_eq!(temp_dir_name(Some("avl"), 1234567890123), "avl_tmp_1234567890123");
    assert_eq!(temp_dir_name(None, 0), "package_tmp_0");
}

#[test]
fn download_plan_gives_earlier_packages_higher_priority() {
    let packages = vec!["gno.land/p/a".to_string(), "gno.land/p/b".to_string(), "gno.land/p/c".to_string()];
    let config = RetryConfig { max_attempts: 5, initial_backoff_ms: 1, max_backoff_ms: 2, multiplier_percent: 300 };
    let tasks = plan_downloads(&packages, "/tmp/out", config);
    assert_eq!(tasks.len(), 3);
    assert_eq!(tasks.iter().map(|t| t.priority).collect::<Vec<_>>(), vec![3, 2, 1]);
    assert_eq!(tasks[0].package_id, "gno.land/p/a");
    assert_eq!(tasks[1].package_path, "gno.land/p/b");
    assert_eq!(tasks[2].target_dir, "/tmp/out/gno.land/p/c");
    assert_eq!(tasks[2].retry_config.max_attempts, 5);
    let many: Vec<String> = (0..300).map(|i| format!("p{}", i)).collect();
    let tasks = plan_downloads(&many, "d", RetryConfig::default());
    assert_eq!(tasks[0].priority, 44);
    assert_eq!(tasks[299].priority, 1);
}

#[test]
fn dependency_walk_visits_each_package_once() {
    let dep = |name: &str, imports: &[&str]| PackageDependency {
        name: name.to_string(),
        imports: imports.iter().map(|s| s.to_string()).collect(),
    };
    let mut walk = DependencyWalk::new("a");
    let mut visited = Vec::new();
    while let Some(p) = walk.next_package() {
        let d = match p.as_str() {
            "a" => dep("a", &["b", "c"]),
            "b" => dep("b", &["a", "c", "d", "b"]),
            "c" => dep("c", &["d"]),
            _ => dep(&p, &[]),
        };
        visited.push(p.clone());
        walk.record(p, &d);
    }
    assert_eq!(visited, vec!["a", "b", "c", "d"]);
    let found = walk.into_found();
    assert_eq!(found.len(), 4);
    assert_eq!(found[3], ("d".to_string(), "d".to_string()));
}

#[test]
fn file_listing_lines_are_trimmed_and_blank_ones_dropped() {
    assert_eq!(
        parse_file_list("node.gno\n  tree.gno \r\n\n\t\ngno.mod"),
        vec!["node.gno", "tree.gno", "gno.mod"]
    );
    assert_eq!(parse_file_list("a.gno\n"), vec!["a.gno"]);
    assert!(parse_file_list("").is_empty());
    assert!(parse_file_list("\n \n").is_empty());
}

#[test]
fn validation_needs_a_source_package() {
    assert_eq!(validate_extracted(&Vec::new()), Err("No .gno files found".to_string()));
    let found = vec![PackageDependency { name: "avl".to_string(), imports: Vec::new() }];
    assert_eq!(validate_extracted(&found), Ok(()));
}
