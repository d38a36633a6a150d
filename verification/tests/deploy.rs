use zts_installer::deploy::{DeployError, DeployOp, decompress_blob, deploy_ops, hash_to_files};
use zts_installer::manifest::FileMap;

fn file_map(entries: &[(&str, &str)]) -> FileMap {
    let mut m = FileMap::new();
    for (path, hash) in entries {
        m.push(path.to_string(), hash.to_string());
    }
    m
}

#[test]
fn fan_out_groups_paths_by_hash() {
    // Two paths sharing one hash form one group; the unscheduled path is
    // left out.
    let files = file_map(&[("a", "h1"), ("b", "h1"), ("c", "h2"), ("d", "h3")]);
    let scheduled = vec!["a".to_string(), "b".to_string(), "c".to_string()];
    let groups = hash_to_files(&scheduled, &files);
    assert_eq!(groups.len(), 2);
    assert_eq!(groups[0].hash, "h1");
    assert_eq!(groups[0].paths, vec!["a".to_string(), "b".to_string()]);
    assert_eq!(groups[1].hash, "h2");
    assert_eq!(groups[1].paths, vec!["c".to_string()]);
}

#[test]
fn fan_out_decompresses_once_and_copies() {
    // The first path receives the decompressed bytes; each further path
    // is a copy of the first.
    let paths = vec!["x/a".to_string(), "y/b".to_string(), "z/c".to_string()];
    let ops = deploy_ops(&"dl/h1.lzma".to_string(), &paths);
    assert_eq!(ops.len(), 3);
    assert!(matches!(
        &ops[0],
        DeployOp::Decompress { from, to } if from == "dl/h1.lzma" && to == "x/a"
    ));
    assert!(matches!(
        &ops[1],
        DeployOp::Copy { from, to } if from == "x/a" && to == "y/b"
    ));
    assert!(matches!(
        &ops[2],
        DeployOp::Copy { from, to } if from == "x/a" && to == "z/c"
    ));
}

#[test]
fn decompress_roundtrip() {
    let original: Vec<u8> = (0u8..=255).cycle().take(4096).collect();
    let compressed = lzma::compress(&original, 6).unwrap();
    assert_ne!(compressed, original);
    let restored = decompress_blob(&compressed, &"h1".to_string()).unwrap();
    assert_eq!(restored, original);
}

#[test]
fn decompress_failure_names_the_hash() {
    let garbage = vec![1u8, 2, 3, 4];
    let err = decompress_blob(&garbage, &"badhash".to_string());
    assert!(matches!(err, Err(DeployError::Decompress { hash }) if hash == "badhash"));
}
