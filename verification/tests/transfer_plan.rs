use filepipe::aio::{allocate_network_disk_from_transf, transf_fs_operations, FsOp};
use filepipe::filepipe::transf::{compute, FileProcessError, FileTranformations};
use filepipe::filepipe::RepositoryFile;
use std::collections::HashMap;

const H1: &str = "01000000000000000000000000000000";
const H2: &str = "02000000000000000000000000000000";
const H3: &str = "03000000000000000000000000000000";

fn plan_state(entries: &[(&str, &str)]) -> Vec<(String, RepositoryFile)> {
    entries
        .iter()
        .map(|(p, h)| {
            (p.to_string(), RepositoryFile { path_dir: String::new(), name: p.to_string(), size: 1, hash: h.to_string() })
        })
        .collect()
}

fn sorted(mut v: Vec<String>) -> Vec<String> {
    v.sort();
    v
}

fn plan(current: &[(&str, &str)], goal: &[(&str, &str)]) -> FileTranformations {
    compute(&plan_state(current), &plan_state(goal), |_: &str| false).ok().unwrap()
}

#[test]
fn identical_states_need_nothing() {
    let t = plan(&[("a", H1), ("b", H2)], &[("a", H1), ("b", H2)]);
    assert_eq!(sorted(t.to_keep.clone()), vec!["a", "b"]);
    assert!(t.to_delete.is_empty());
    assert!(t.to_move.is_empty());
    assert!(t.to_transfer.is_empty());
    assert!(t.temp_paths.is_empty());
    for (_, (rename, copies)) in &t.to_copy {
        assert!(rename.is_none());
        assert!(copies.is_empty());
    }
}

#[test]
fn renamed_file_is_renamed() {
    let t = plan(&[("old", H1)], &[("new", H1)]);
    assert!(t.to_keep.is_empty());
    assert!(t.to_delete.is_empty());
    assert!(t.to_transfer.is_empty());
    assert_eq!(t.to_copy.len(), 1);
    assert_eq!(t.to_copy[0].0, "old");
    assert_eq!(t.to_copy[0].1 .0.as_deref(), Some("new"));
    assert!(t.to_copy[0].1 .1.is_empty());
}

#[test]
fn extra_copy_is_copied_from_kept_file() {
    let t = plan(&[("a", H1)], &[("a", H1), ("c", H1)]);
    assert_eq!(t.to_keep, vec!["a"]);
    assert_eq!(t.to_copy.len(), 1);
    assert_eq!(t.to_copy[0].0, "a");
    assert!(t.to_copy[0].1 .0.is_none());
    assert_eq!(t.to_copy[0].1 .1, vec!["c"]);
}

#[test]
fn surplus_and_unneeded_files_are_deleted() {
    let t = plan(&[("a", H1), ("b", H1), ("x", H3)], &[("a", H1)]);
    assert_eq!(t.to_keep, vec!["a"]);
    assert_eq!(sorted(t.to_delete.clone()), vec!["b", "x"]);
    assert!(t.to_move.is_empty());
}

#[test]
fn surplus_file_moves_before_it_is_deleted() {
    let t = plan(&[("a", H1), ("b", H1), ("c", H1)], &[("a", H1), ("d", H1)]);
    assert_eq!(t.to_keep, vec!["a"]);
    assert_eq!(t.to_move.len(), 1);
    assert_eq!(t.to_move[0].1, "d");
    assert_eq!(t.to_delete.len(), 1);
    assert_ne!(t.to_delete[0], t.to_move[0].0);
}

#[test]
fn new_content_is_transferred() {
    let t = plan(&[("a", H1)], &[("a", H1), ("n1", H2), ("n2", H2)]);
    assert_eq!(t.to_transfer.len(), 1);
    assert_eq!(t.to_transfer[0].0, 2);
    assert_eq!(sorted(t.to_transfer[0].1.clone()), vec!["n1", "n2"]);
}

#[test]
fn invalid_hash_is_refused() {
    let r = compute(&plan_state(&[("a", "nothex")]), &plan_state(&[("a", H1)]), |_: &str| false);
    assert!(matches!(r, Err(FileProcessError::HashConversionError)));
    let r = compute(&plan_state(&[("a", H1)]), &plan_state(&[("a", "0100")]), |_: &str| false);
    assert!(matches!(r, Err(FileProcessError::HashConversionError)));
}

#[test]
fn swapped_files_go_through_temporary_paths() {
    let t = plan(&[("a", H1), ("b", H2)], &[("a", H2), ("b", H1)]);
    assert_eq!(t.to_copy.len(), 2);
    assert_eq!(t.temp_paths.len(), 2);
    for (dest, temp) in &t.temp_paths {
        assert!(dest == "a" || dest == "b");
        assert_eq!(temp.len(), 12);
        assert!(temp.ends_with(".tmp"));
        assert!(temp[..8].chars().all(|c| c.is_ascii_uppercase() || c.is_ascii_digit()));
    }
    for (origin, (rename, _)) in &t.to_copy {
        let target = rename.clone().unwrap();
        let recorded = t.temp_paths.iter().find(|(_, temp)| *temp == target).unwrap();
        assert_ne!(&recorded.0, origin);
    }
}

#[test]
fn temporary_path_stays_in_directory() {
    let current = vec![
        ("d/a".to_string(), RepositoryFile { path_dir: "d".into(), name: "a".into(), size: 1, hash: H1.into() }),
        ("d/b".to_string(), RepositoryFile { path_dir: "d".into(), name: "b".into(), size: 1, hash: H2.into() }),
    ];
    let goal = vec![
        ("d/a".to_string(), RepositoryFile { path_dir: "d".into(), name: "a".into(), size: 1, hash: H2.into() }),
        ("d/b".to_string(), RepositoryFile { path_dir: "d".into(), name: "b".into(), size: 1, hash: H1.into() }),
    ];
    let t = compute(&current, &goal, |_: &str| false).ok().unwrap();
    for (_, temp) in &t.temp_paths {
        assert!(temp.starts_with("d/"));
        assert!(temp.ends_with(".tmp"));
    }
}

#[test]
fn network_allocations_use_first_path_and_known_size() {
    let t = FileTranformations {
        to_delete: vec![],
        to_keep: vec![],
        to_copy: vec![],
        to_move: vec![],
        to_transfer: vec![(1, vec!["x/f".to_string(), "g".to_string()]), (2, vec![]), (3, vec!["h".to_string()])],
        temp_paths: vec![],
    };
    let mut sizes = HashMap::new();
    sizes.insert(1u128, 10u64);
    sizes.insert(2u128, 20u64);
    let allocs = allocate_network_disk_from_transf(&t, &sizes, "repo");
    assert_eq!(allocs, vec![(".fp/nt/repo/x/f".to_string(), 10)]);
}

fn op(o: &FsOp) -> (bool, &str, &str) {
    match o {
        FsOp::Rename { from, to } => (false, from.as_str(), to.as_str()),
        FsOp::Copy { from, to } => (true, from.as_str(), to.as_str()),
    }
}

#[test]
fn fs_operations_follow_the_plan() {
    let t = FileTranformations {
        to_delete: vec!["gone".to_string()],
        to_keep: vec!["k".to_string()],
        to_copy: vec![
            ("o".to_string(), (None, vec!["c1".to_string(), "c2".to_string()])),
            ("p".to_string(), (Some("q".to_string()), vec!["c3".to_string()])),
        ],
        to_move: vec![("m1".to_string(), "m2".to_string())],
        to_transfer: vec![(7, vec!["t1".to_string(), "t2".to_string(), "t1".to_string()]), (8, vec![])],
        temp_paths: vec![("x".to_string(), "y.tmp".to_string())],
    };
    let ops = transf_fs_operations(&t, "/repo", "key");
    let got: Vec<(bool, &str, &str)> = ops.iter().map(op).collect();
    assert_eq!(
        got,
        vec![
            (false, "m1", "m2"),
            (true, "o", "c1"),
            (true, "o", "c2"),
            (false, "q", "q"),
            (true, "q", "c3"),
            (true, ".fp/nt/key/t1", "/repo/t2"),
            (false, ".fp/nt/key/t1", "/repo/t1"),
        ]
    );
}
