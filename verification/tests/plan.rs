use zts_installer::locate::ArchiveInfo;
use zts_installer::manifest::{FileMap, HashInfo, HashInfoMap};
use zts_installer::plan::{DownloadRange, PlanError, plan_downloads, sum_download_size};

fn file_map(entries: &[(&str, &str)]) -> FileMap {
    let mut m = FileMap::new();
    for (path, hash) in entries {
        m.push(path.to_string(), hash.to_string());
    }
    m
}

fn info_map(entries: &[(&str, u64, u64, u64)]) -> HashInfoMap {
    let mut m = HashInfoMap::new();
    for (hash, position, compressed, decompressed) in entries {
        m.push(
            hash.to_string(),
            HashInfo {
                position: *position,
                compressed_size: *compressed,
                decompressed_size: *decompressed,
            },
        );
    }
    m
}

fn blobs() -> Vec<ArchiveInfo> {
    vec![
        ArchiveInfo { index: 0, url: "https://host/part.bin.0".to_string(), size: 100 },
        ArchiveInfo { index: 1, url: "https://host/part.bin.1".to_string(), size: 50 },
    ]
}

#[test]
fn plans_one_spec_per_distinct_hash() {
    // Two paths share h1: one transfer; h2 lands in the second blob.
    let files = file_map(&[("a", "h1"), ("b", "h1"), ("c", "h2")]);
    let infos = info_map(&[("h1", 10, 5, 9), ("h2", 110, 7, 11)]);
    let scheduled = vec!["a".to_string(), "b".to_string(), "c".to_string()];
    let (specs, hash_dest) =
        plan_downloads(&scheduled, &files, &infos, &blobs(), &"dl".to_string()).unwrap();
    assert_eq!(specs.len(), 2);
    assert_eq!(hash_dest.len(), 2);

    assert_eq!(specs[0].url, "https://host/part.bin.0");
    assert_eq!(specs[0].dest, "dl/h1.lzma");
    assert_eq!(specs[0].range, Some(DownloadRange { start: 10, size: 5 }));

    assert_eq!(specs[1].url, "https://host/part.bin.1");
    assert_eq!(specs[1].dest, "dl/h2.lzma");
    assert_eq!(specs[1].range, Some(DownloadRange { start: 10, size: 7 }));

    assert_eq!(hash_dest[0], ("h1".to_string(), "dl/h1.lzma".to_string()));
    assert_eq!(hash_dest[1], ("h2".to_string(), "dl/h2.lzma".to_string()));
}

#[test]
fn plan_missing_hash_is_fatal() {
    let files = file_map(&[("a", "h1")]);
    let infos = info_map(&[("h1", 0, 5, 9)]);
    let scheduled = vec!["a".to_string(), "ghost".to_string()];
    let err = plan_downloads(&scheduled, &files, &infos, &blobs(), &"dl".to_string());
    assert!(matches!(err, Err(PlanError::MissingHash { path }) if path == "ghost"));
}

#[test]
fn plan_missing_hash_info_is_fatal() {
    let files = file_map(&[("a", "h1")]);
    let infos = info_map(&[]);
    let scheduled = vec!["a".to_string()];
    let err = plan_downloads(&scheduled, &files, &infos, &blobs(), &"dl".to_string());
    assert!(matches!(err, Err(PlanError::MissingHashInfo { hash }) if hash == "h1"));
}

#[test]
fn plan_without_blobs_is_fatal() {
    let files = file_map(&[("a", "h1")]);
    let infos = info_map(&[("h1", 0, 5, 9)]);
    let scheduled = vec!["a".to_string()];
    let err = plan_downloads(&scheduled, &files, &infos, &Vec::new(), &"dl".to_string());
    assert!(matches!(err, Err(PlanError::NoArchive { hash }) if hash == "h1"));
}

#[test]
fn plan_uncovered_position_is_fatal() {
    // The blobs total 150 bytes; a position at 150 falls in none of them.
    let files = file_map(&[("a", "h1")]);
    let infos = info_map(&[("h1", 150, 5, 9)]);
    let scheduled = vec!["a".to_string()];
    let err = plan_downloads(&scheduled, &files, &infos, &blobs(), &"dl".to_string());
    assert!(matches!(err, Err(PlanError::PositionNotCovered { hash }) if hash == "h1"));
}

#[test]
fn plan_nothing_scheduled_is_empty() {
    let files = file_map(&[("a", "h1")]);
    let infos = info_map(&[("h1", 0, 5, 9)]);
    let (specs, hash_dest) =
        plan_downloads(&Vec::new(), &files, &infos, &Vec::new(), &"dl".to_string()).unwrap();
    assert_eq!(specs.len(), 0);
    assert_eq!(hash_dest.len(), 0);
}

#[test]
fn sums_count_each_scheduled_path() {
    // A shared hash is counted once per scheduled path: scheduling a
    // path twice costs its size twice.
    let files = file_map(&[("a", "h1"), ("b", "h1"), ("c", "h2")]);
    let infos = info_map(&[("h1", 10, 5, 9), ("h2", 110, 7, 11)]);
    let scheduled = vec!["a".to_string(), "b".to_string(), "c".to_string()];
    let (compressed, decompressed) = sum_download_size(&scheduled, &files, &infos).unwrap();
    assert_eq!(compressed, 5 + 5 + 7);
    assert_eq!(decompressed, 9 + 9 + 11);
}

#[test]
fn sums_missing_entries_are_fatal() {
    let files = file_map(&[("a", "h1")]);
    let infos = info_map(&[]);
    let err = sum_download_size(&vec!["missing".to_string()], &files, &infos);
    assert!(matches!(err, Err(PlanError::MissingHash { path }) if path == "missing"));
    let err = sum_download_size(&vec!["a".to_string()], &files, &infos);
    assert!(matches!(err, Err(PlanError::MissingHashInfo { hash }) if hash == "h1"));
}
