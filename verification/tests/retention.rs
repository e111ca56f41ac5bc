use backup_retention::amortizer::{compress_all_model, free_space_for, pick_candidate, BackupModel, SpaceOutcome};
use backup_retention::catalog::{Catalog, Snapshot, SnapshotKey};
use backup_retention::errors::RetentionError;
use backup_retention::name::{format_name, parse_name};
use backup_retention::orchestrator::{make_room, plan_backup};
use backup_retention::paths::{ancestors, artifact_version};
use backup_retention::policy::select_victim;
use backup_retention::sizing::{size_of, FsTree};

fn snap(major: u64, minor: u64, patch: u64, ts: i64, name: &str, compressed: bool, size: u64) -> Snapshot {
    Snapshot {
        key: SnapshotKey { major, minor, patch, ts },
        name: name.as_bytes().to_vec(),
        compressed,
        size,
    }
}

fn catalog_of(names: &[&str]) -> Catalog {
    let list: Vec<Vec<u8>> = names.iter().map(|n| n.as_bytes().to_vec()).collect();
    Catalog::from_names(&list).expect("listing should parse")
}

#[test]
fn size_counts_regular_files() {
    let tree = FsTree::Dir {
        children: vec![
            FsTree::File { len: 5 },
            FsTree::Dir {
                children: vec![FsTree::File { len: 7 }],
            },
            FsTree::File { len: 2 },
        ],
    };
    assert_eq!(size_of(&tree), Some(14));
}

#[test]
fn size_of_empty_directory_is_zero() {
    let tree = FsTree::Dir { children: vec![] };
    assert_eq!(size_of(&tree), Some(0));
}

#[test]
fn size_uses_link_length_not_target() {
    let tree = FsTree::Dir {
        children: vec![
            FsTree::File { len: 5 },
            FsTree::Symlink { len: 3, target_len: 1000 },
        ],
    };
    assert_eq!(size_of(&tree), Some(8));
    let followed = FsTree::Dir {
        children: vec![
            FsTree::File { len: 5 },
            FsTree::File { len: 1000 },
        ],
    };
    assert_ne!(size_of(&tree), size_of(&followed));
}

#[test]
fn size_overflow_is_reported() {
    let tree = FsTree::Dir {
        children: vec![
            FsTree::File { len: u64::MAX },
            FsTree::File { len: 1 },
        ],
    };
    assert_eq!(size_of(&tree), None);
}

#[test]
fn parse_splits_timestamp_version_and_suffix() {
    let name = b"2024-06-01_12-00-00_1.20.4".to_vec();
    let p = parse_name(&name).expect("should parse");
    assert_eq!(p.ts, b"2024-06-01_12-00-00".to_vec());
    assert_eq!((p.major, p.minor, p.patch), (1, 20, 4));
    assert!(!p.compressed);

    let archived = b"2024-06-01_12-00-00_1.20.4.tar.gz".to_vec();
    let p = parse_name(&archived).expect("should parse");
    assert_eq!((p.major, p.minor, p.patch), (1, 20, 4));
    assert!(p.compressed);
}

#[test]
fn parse_defaults_missing_version_components() {
    let name = b"2024-06-01_12-00-00_1.2".to_vec();
    let p = parse_name(&name).expect("should parse");
    assert_eq!((p.major, p.minor, p.patch), (1, 2, 0));
}

#[test]
fn parse_rejects_malformed_names() {
    assert_eq!(
        parse_name(&b"not-a-snapshot".to_vec()).unwrap_err(),
        RetentionError::FilenameFormat
    );
    assert_eq!(
        parse_name(&b"2024-06-01-12-00-00_1.2".to_vec()).unwrap_err(),
        RetentionError::FilenameFormat
    );
    assert_eq!(
        parse_name(&b"2024-06-01_12-00-00_1.x".to_vec()).unwrap_err(),
        RetentionError::VersionFormat
    );
    assert_eq!(
        parse_name(&b"2024-06-01_12-00-00_1.2.3.4".to_vec()).unwrap_err(),
        RetentionError::VersionFormat
    );
    assert_eq!(
        parse_name(&b"2024-06-01_12-00-00_".to_vec()).unwrap_err(),
        RetentionError::FilenameFormat
    );
}

#[test]
fn name_round_trips_through_format() {
    let original = b"2024-06-01_12-00-00_1.20.4".to_vec();
    let p = parse_name(&original).expect("should parse");
    let rebuilt = format_name(&p.ts, p.major, p.minor, p.patch, p.compressed);
    assert_eq!(rebuilt, original);

    let archived = b"2024-06-01_12-00-00_1.20.4.tar.gz".to_vec();
    let p = parse_name(&archived).expect("should parse");
    let rebuilt = format_name(&p.ts, p.major, p.minor, p.patch, p.compressed);
    assert_eq!(rebuilt, archived);

    let elided = b"2024-06-01_12-00-00_1.2".to_vec();
    let p = parse_name(&elided).expect("should parse");
    let rebuilt = format_name(&p.ts, p.major, p.minor, p.patch, p.compressed);
    assert_eq!(rebuilt, b"2024-06-01_12-00-00_1.2.0".to_vec());
}

#[test]
fn catalog_orders_by_version_then_time() {
    let cat = catalog_of(&[
        "2024-01-03_00-00-00_2",
        "2024-01-01_00-00-00_1",
        "2024-01-02_00-00-00_1",
    ]);
    assert_eq!(cat.entries.len(), 3);
    assert_eq!(cat.entries[0].name, b"2024-01-01_00-00-00_1".to_vec());
    assert_eq!(cat.entries[1].name, b"2024-01-02_00-00-00_1".to_vec());
    assert_eq!(cat.entries[2].name, b"2024-01-03_00-00-00_2".to_vec());
}

#[test]
fn catalog_rejects_invalid_instant() {
    let list = vec![b"2024-13-01_00-00-00_1".to_vec()];
    assert_eq!(Catalog::from_names(&list).unwrap_err(), RetentionError::FilenameFormat);
}

#[test]
fn catalog_keeps_last_entry_of_equal_keys() {
    let cat = catalog_of(&[
        "2024-01-01_00-00-00_1.2",
        "2024-01-01_00-00-00_1.2.tar.gz",
    ]);
    assert_eq!(cat.entries.len(), 1);
    assert!(cat.entries[0].compressed);
    assert_eq!(cat.entries[0].name, b"2024-01-01_00-00-00_1.2.tar.gz".to_vec());
}

#[test]
fn no_victim_among_zero_or_one() {
    let empty = Catalog::new();
    assert_eq!(select_victim(&empty), None);
    let one = catalog_of(&["2024-01-01_00-00-00_1"]);
    assert_eq!(select_victim(&one), None);
}

#[test]
fn pair_loses_smaller_key() {
    let cat = catalog_of(&["2024-01-02_00-00-00_1", "2024-01-01_00-00-00_2"]);
    let v = select_victim(&cat).expect("pair has a victim");
    assert_eq!(v, 0);
    assert_eq!(cat.entries[v].name, b"2024-01-02_00-00-00_1".to_vec());
}

#[test]
fn boundaries_are_never_evicted() {
    let cat = catalog_of(&[
        "2024-01-01_00-00-00_1",
        "2024-01-05_00-00-00_1.1",
        "2024-01-06_00-00-00_1.1.1",
        "2024-01-09_00-00-00_2",
    ]);
    let v = select_victim(&cat).expect("has a victim");
    assert!(1 <= v && v <= 2);
}

#[test]
fn middle_of_version_cluster_is_evicted() {
    let cat = catalog_of(&[
        "2024-01-01_00-00-00_1",
        "2024-01-02_00-00-00_1",
        "2024-01-03_00-00-00_2",
    ]);
    let v = select_victim(&cat).expect("has a victim");
    assert_eq!(v, 1);
    assert_eq!(cat.entries[v].name, b"2024-01-02_00-00-00_1".to_vec());
}

#[test]
fn closest_window_wins() {
    // The two 1.0.x snapshots a second apart are far closer to each other
    // than either 2.0 snapshot is to anything: their middle neighbour, the
    // second 1.0.x, sits in the window with the smallest distances.
    let cat = catalog_of(&[
        "2024-01-01_00-00-00_1",
        "2024-01-01_00-00-01_1",
        "2024-01-05_00-00-00_2",
        "2024-06-01_00-00-00_2.1",
    ]);
    let v = select_victim(&cat).expect("has a victim");
    assert_eq!(cat.entries[v].name, b"2024-01-01_00-00-01_1".to_vec());
}

fn three_sizes_model(avail: u64) -> BackupModel {
    let cat = Catalog {
        entries: vec![
            snap(1, 0, 0, 100, "2024-01-01_00-00-00_1", false, 50),
            snap(1, 1, 0, 200, "2024-01-02_00-00-00_1.1", false, 30),
            snap(2, 0, 0, 300, "2024-01-03_00-00-00_2", false, 10),
        ],
    };
    BackupModel { targets: vec![cat], avail }
}

#[test]
fn candidate_is_smallest_uncompressed() {
    let m = three_sizes_model(0);
    assert_eq!(pick_candidate(&m), Some((0, 2)));
}

#[test]
fn one_eviction_when_it_frees_enough() {
    let mut m = three_sizes_model(0);
    let (outcome, _, _) = free_space_for(&mut m, 0, 2, 10);
    match outcome {
        SpaceOutcome::Fits { candidate } => assert_eq!(candidate, 1),
        _ => panic!("space should fit after one eviction"),
    }
    assert_eq!(m.avail, 30);
    assert_eq!(m.targets[0].entries.len(), 2);
    assert_eq!(m.targets[0].entries[1].name, b"2024-01-03_00-00-00_2".to_vec());
}

#[test]
fn fixpoint_leaves_no_directories() {
    let mut m = three_sizes_model(100);
    let (r, _, _, _) = compress_all_model(&mut m);
    assert!(r.is_ok());
    assert_eq!(m.targets[0].entries.len(), 3);
    assert!(m.targets[0].entries.iter().all(|e| e.compressed));
}

#[test]
fn fixpoint_counts_evictions_against_compressions() {
    // Short on space: compressing the smallest (10) takes one eviction of
    // the middle entry (30); the next candidate (50) is then itself the
    // eviction victim of the remaining pair, so the scan restarts and
    // finds nothing left to compress.
    let mut m = three_sizes_model(0);
    let (r, _, _, _) = compress_all_model(&mut m);
    assert!(r.is_ok());
    assert_eq!(m.targets[0].entries.len(), 1);
    assert!(m.targets[0].entries[0].compressed);
    assert_eq!(m.targets[0].entries[0].name, b"2024-01-03_00-00-00_2".to_vec());
}

#[test]
fn nothing_to_compress_means_nothing_touched() {
    let cat = Catalog {
        entries: vec![
            snap(1, 0, 0, 100, "2024-01-01_00-00-00_1.tar.gz", true, 50),
            snap(2, 0, 0, 300, "2024-01-03_00-00-00_2.tar.gz", true, 10),
        ],
    };
    let mut m = BackupModel { targets: vec![cat], avail: 7 };
    let (r, _, _, _) = compress_all_model(&mut m);
    assert!(r.is_ok());
    assert_eq!(m.avail, 7);
    assert_eq!(m.targets[0].entries.len(), 2);
    assert!(m.targets[0].entries.iter().all(|e| e.compressed));
}

#[test]
fn no_eviction_when_space_already_suffices() {
    let mut m = three_sizes_model(1000);
    let (outcome, _, _) = free_space_for(&mut m, 0, 2, 10);
    match outcome {
        SpaceOutcome::Fits { candidate } => assert_eq!(candidate, 2),
        _ => panic!("space already suffices"),
    }
    assert_eq!(m.avail, 1000);
    assert_eq!(m.targets[0].entries.len(), 3);
}

#[test]
fn exhausted_target_fails_with_disk_space() {
    let cat = Catalog {
        entries: vec![snap(1, 0, 0, 100, "2024-01-01_00-00-00_1", false, 5)],
    };
    let mut m = BackupModel { targets: vec![cat], avail: 0 };
    let (r, _, _, _) = compress_all_model(&mut m);
    assert_eq!(r.unwrap_err(), RetentionError::DiskSpace);
    assert_eq!(m.targets[0].entries.len(), 1);
}

#[test]
fn make_room_evicts_until_enough() {
    let mut cat = Catalog {
        entries: vec![
            snap(1, 0, 0, 100, "2024-01-01_00-00-00_1", false, 50),
            snap(1, 1, 0, 200, "2024-01-02_00-00-00_1.1", false, 30),
            snap(2, 0, 0, 300, "2024-01-03_00-00-00_2", false, 10),
        ],
    };
    let (avail, enough) = make_room(&mut cat, 0, 25);
    assert!(enough);
    assert_eq!(avail, 30);
    assert_eq!(cat.entries.len(), 2);
}

#[test]
fn last_snapshot_is_never_deleted_for_room() {
    let mut cat = Catalog {
        entries: vec![snap(1, 0, 0, 100, "2024-01-01_00-00-00_1", false, 50)],
    };
    let r = plan_backup(&mut cat, 10, 100);
    assert_eq!(r.unwrap_err(), RetentionError::DiskSpace);
    assert_eq!(cat.entries.len(), 1);
}

#[test]
fn ancestors_walk_to_the_root() {
    let p = b"/media/backup/world".to_vec();
    let a = ancestors(&p);
    let got: Vec<&[u8]> = a.iter().map(|v| v.as_slice()).collect();
    assert_eq!(
        got,
        vec![
            b"/media/backup/world".as_slice(),
            b"/media/backup".as_slice(),
            b"/media".as_slice(),
            b"/".as_slice(),
        ]
    );
}

#[test]
fn artifact_version_comes_from_link_target() {
    let p = b"/srv/world/minecraft_server.1.19.2.jar".to_vec();
    assert_eq!(artifact_version(&p).unwrap(), b"1.19.2".to_vec());
    let bare = b"/srv/world/minecraft_server.jar".to_vec();
    assert_eq!(artifact_version(&bare).unwrap_err(), RetentionError::ArtifactPath);
}
