use zts_installer::locate::{ArchiveInfo, locate, sort_blobs_by_index};

fn blob(index: u32, url: &str, size: u64) -> ArchiveInfo {
    ArchiveInfo { index, url: url.to_string(), size }
}

#[test]
fn locator_boundary() {
    // A position exactly at a blob's cumulative start resolves to that
    // blob, not the previous one.
    let blobs = vec![blob(0, "u0", 10), blob(1, "u1", 20)];
    assert_eq!(locate(&blobs, 10), Some((1, 0)));
}

#[test]
fn locator_within_blobs() {
    let blobs = vec![blob(0, "u0", 10), blob(1, "u1", 20), blob(2, "u2", 5)];
    assert_eq!(locate(&blobs, 0), Some((0, 0)));
    assert_eq!(locate(&blobs, 9), Some((0, 9)));
    assert_eq!(locate(&blobs, 29), Some((1, 19)));
    assert_eq!(locate(&blobs, 30), Some((2, 0)));
    assert_eq!(locate(&blobs, 34), Some((2, 4)));
}

#[test]
fn locator_rejects_uncovered_positions() {
    // A position at or past the end of the concatenation is covered by
    // no blob's [start, end) range.
    let blobs = vec![blob(0, "u0", 10), blob(1, "u1", 20), blob(2, "u2", 5)];
    assert_eq!(locate(&blobs, 35), None);
    assert_eq!(locate(&blobs, 100), None);
}

#[test]
fn locator_without_blobs_fails() {
    let blobs: Vec<ArchiveInfo> = vec![];
    assert_eq!(locate(&blobs, 0), None);
}

#[test]
fn blobs_sort_by_declared_index() {
    let mut blobs = vec![blob(2, "u2", 5), blob(0, "u0", 10), blob(1, "u1", 20)];
    sort_blobs_by_index(&mut blobs);
    let indices: Vec<u32> = blobs.iter().map(|b| b.index).collect();
    assert_eq!(indices, vec![0, 1, 2]);
    assert_eq!(blobs[0].url, "u0");
    assert_eq!(blobs[0].size, 10);
}
