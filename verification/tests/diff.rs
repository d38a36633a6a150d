use zts_installer::diff::diff_destination;
use zts_installer::manifest::FileMap;

fn file_map(entries: &[(&str, &str)]) -> FileMap {
    let mut m = FileMap::new();
    for (path, hash) in entries {
        m.push(path.to_string(), hash.to_string());
    }
    m
}

#[test]
fn diff_idempotent() {
    // Identical previous and new maps schedule nothing.
    let previous = file_map(&[("a", "h1"), ("b", "h2")]);
    let latest = file_map(&[("a", "h1"), ("b", "h2")]);
    let (downloads, removals) = diff_destination(&previous, &latest);
    assert_eq!(downloads, Vec::<String>::new());
    assert_eq!(removals, Vec::<String>::new());
}

#[test]
fn diff_update() {
    // An unchanged file touches neither set; a new file is downloaded, a
    // dropped one removed.
    let previous = file_map(&[("a", "h1"), ("b", "h2")]);
    let latest = file_map(&[("a", "h1"), ("c", "h3")]);
    let (downloads, removals) = diff_destination(&previous, &latest);
    assert_eq!(downloads, vec!["c".to_string()]);
    assert_eq!(removals, vec!["b".to_string()]);
}

#[test]
fn diff_changed_hash_schedules_download() {
    let previous = file_map(&[("a", "h1")]);
    let latest = file_map(&[("a", "h9")]);
    let (downloads, removals) = diff_destination(&previous, &latest);
    assert_eq!(downloads, vec!["a".to_string()]);
    assert_eq!(removals, Vec::<String>::new());
}

#[test]
fn diff_fresh_install_downloads_everything() {
    // An absent previous state is an empty map: everything is new.
    let previous = FileMap::new();
    let latest = file_map(&[("a", "h1"), ("b", "h2")]);
    let (downloads, removals) = diff_destination(&previous, &latest);
    assert_eq!(downloads, vec!["a".to_string(), "b".to_string()]);
    assert_eq!(removals, Vec::<String>::new());
}
