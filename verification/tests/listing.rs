use filepipe::aio::{
    compose_path_dir_and_name, extract_hash_file_sizes_from_file_entries, extract_path_dir_and_name, hash_str_to_u128,
    hash_u128_to_str, is_walked, listed_file, ContentHasher,
};
use filepipe::filepipe::{pack_repository_files_info, unpack_repository_files_info, ErrorKind, RepositoryFile};

fn file(dir: &str, name: &str, size: u64, hash: &str) -> RepositoryFile {
    RepositoryFile { path_dir: dir.to_string(), name: name.to_string(), size, hash: hash.to_string() }
}

const H1: &str = "01000000000000000000000000000000";
const H2: &str = "ff00000000000000000000000000000a";

#[test]
fn extract_splits_at_last_slash() {
    assert_eq!(extract_path_dir_and_name("a/b/c.txt"), ("a/b".to_string(), "c.txt".to_string()));
    assert_eq!(extract_path_dir_and_name("c.txt"), (String::new(), "c.txt".to_string()));
    assert_eq!(extract_path_dir_and_name("/c.txt"), (String::new(), "c.txt".to_string()));
    assert_eq!(extract_path_dir_and_name("dir/"), ("dir".to_string(), String::new()));
    assert_eq!(extract_path_dir_and_name(""), (String::new(), String::new()));
}

#[test]
fn compose_joins_dir_and_name() {
    assert_eq!(compose_path_dir_and_name("a/b", "c.txt"), "a/b/c.txt");
    assert_eq!(compose_path_dir_and_name("", "c.txt"), "c.txt");
}

#[test]
fn compose_undoes_extract() {
    for p in ["a/b/c", "c", "x/y", "d/"] {
        let (d, n) = extract_path_dir_and_name(p);
        assert_eq!(compose_path_dir_and_name(&d, &n), p);
    }
    // a leading slash is the one case that does not come back
    let (d, n) = extract_path_dir_and_name("/c");
    assert_eq!(compose_path_dir_and_name(&d, &n), "c");
}

#[test]
fn extract_undoes_compose() {
    assert_eq!(extract_path_dir_and_name(&compose_path_dir_and_name("x/y", "z")), ("x/y".to_string(), "z".to_string()));
    assert_eq!(extract_path_dir_and_name(&compose_path_dir_and_name("", "z")), (String::new(), "z".to_string()));
}

#[test]
fn hash_reads_little_endian_hex() {
    assert_eq!(hash_str_to_u128(H1), Ok(1));
    assert_eq!(hash_str_to_u128(H2), Ok(0x0a00_0000_0000_0000_0000_0000_0000_00ff));
    assert_eq!(hash_str_to_u128("FF00000000000000000000000000000A"), Ok(0x0a00_0000_0000_0000_0000_0000_0000_00ff));
}

#[test]
fn hash_rejects_bad_strings() {
    assert_eq!(hash_str_to_u128(""), Err(()));
    assert_eq!(hash_str_to_u128("0100"), Err(()));
    assert_eq!(hash_str_to_u128("010000000000000000000000000000000"), Err(()));
    assert_eq!(hash_str_to_u128("0100000000000000000000000000000g"), Err(()));
    assert_eq!(hash_str_to_u128("0100000000000000000000000000000000"), Err(()));
}

#[test]
fn hash_writes_little_endian_hex() {
    assert_eq!(hash_u128_to_str(1), H1);
    assert_eq!(hash_u128_to_str(0), "00000000000000000000000000000000");
    assert_eq!(hash_u128_to_str(u128::MAX), "ffffffffffffffffffffffffffffffff");
    assert_eq!(hash_u128_to_str(0x0a00_0000_0000_0000_0000_0000_0000_00ff), H2);
}

#[test]
fn hash_round_trip() {
    for h in [0u128, 1, 255, 256, 0x1234_5678_9abc_def0_0fed_cba9_8765_4321, u128::MAX] {
        assert_eq!(hash_str_to_u128(&hash_u128_to_str(h)), Ok(h));
    }
}

#[test]
fn walk_skips_only_the_tool_directory() {
    assert!(!is_walked(".fp"));
    assert!(is_walked(".fpignore"));
    assert!(is_walked("src"));
    assert!(is_walked(""));
}

#[test]
fn listed_file_splits_path_and_hex_hash() {
    let (key, f) = listed_file("docs/readme.md", 42, 1);
    assert_eq!(key, "docs/readme.md");
    assert_eq!(f.path_dir, "docs");
    assert_eq!(f.name, "readme.md");
    assert_eq!(f.size, 42);
    assert_eq!(f.hash, H1);
}

#[test]
fn content_hasher_matches_one_shot_xxh3() {
    let mut h = ContentHasher::new();
    assert!(h.feed(b"hello "));
    assert!(h.feed(b"world"));
    assert!(!h.feed(b""));
    assert_eq!(h.digest(), xxhash_rust::xxh3::xxh3_128(b"hello world"));
    let empty = ContentHasher::new();
    assert_eq!(empty.digest(), xxhash_rust::xxh3::xxh3_128(b""));
}

#[test]
fn hash_sizes_keep_last_and_skip_invalid() {
    let entries = vec![file("", "a", 3, H1), file("", "b", 5, "zz"), file("", "c", 7, H1), file("", "d", 9, H2)];
    let m = extract_hash_file_sizes_from_file_entries(&entries);
    assert_eq!(m.len(), 2);
    assert_eq!(m.get(&1), Some(&7));
    assert_eq!(m.get(&0x0a00_0000_0000_0000_0000_0000_0000_00ff), Some(&9));
}

#[test]
fn pack_writes_records() {
    let files = vec![file("a", "x.txt", 12, H1), file("", "y", 0, H2)];
    assert_eq!(pack_repository_files_info(files), format!("a/x.txt:12:{H1};/y:0:{H2}"));
    assert_eq!(pack_repository_files_info(Vec::new()), "");
}

#[test]
fn unpack_reads_records() {
    let files = unpack_repository_files_info(&format!("a/x.txt: 12 :{H1};/y:0:h:extra")).ok().unwrap();
    assert_eq!(files.len(), 2);
    assert_eq!((files[0].path_dir.as_str(), files[0].name.as_str(), files[0].size, files[0].hash.as_str()), ("a", "x.txt", 12, H1));
    assert_eq!((files[1].path_dir.as_str(), files[1].name.as_str(), files[1].size, files[1].hash.as_str()), ("", "y", 0, "h"));
}

#[test]
fn unpack_reports_missing_size() {
    let e = unpack_repository_files_info("a/x").err().unwrap();
    assert_eq!((e.index, e.tuple_position), (0, 1));
    assert!(matches!(e.error_kind, ErrorKind::InvalidType));
    // an empty listing is one empty record
    let e = unpack_repository_files_info("").err().unwrap();
    assert_eq!((e.index, e.tuple_position), (0, 1));
    assert!(matches!(e.error_kind, ErrorKind::InvalidType));
}

#[test]
fn unpack_reports_bad_size() {
    let e = unpack_repository_files_info("a:1:h;b:-3:h").err().unwrap();
    assert_eq!((e.index, e.tuple_position), (1, 1));
    assert!(matches!(e.error_kind, ErrorKind::InvalidRange));
    let e = unpack_repository_files_info("a:18446744073709551616:h").err().unwrap();
    assert!(matches!(e.error_kind, ErrorKind::InvalidRange));
    let ok = unpack_repository_files_info("a:+18446744073709551615:h").ok().unwrap();
    assert_eq!(ok[0].size, u64::MAX);
}

#[test]
fn unpack_reports_missing_hash() {
    let e = unpack_repository_files_info("a:1:h;b:2;c:x").err().unwrap();
    assert_eq!((e.index, e.tuple_position), (1, 2));
    assert!(matches!(e.error_kind, ErrorKind::InvalidType));
}

#[test]
fn unpack_undoes_pack() {
    let files = vec![file("a/b", "x.txt", 12, H1), file("", "y", 0, H2), file("c", "z", u64::MAX, "")];
    let back = unpack_repository_files_info(&pack_repository_files_info(files.clone())).ok().unwrap();
    assert_eq!(back.len(), files.len());
    for (f, g) in files.iter().zip(back.iter()) {
        assert_eq!((&f.path_dir, &f.name, f.size, &f.hash), (&g.path_dir, &g.name, g.size, &g.hash));
    }
}
