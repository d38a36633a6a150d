use zts_installer::optimize::{OptimizedDownloadSpecification, optimize_specs};
use zts_installer::plan::{DownloadRange, DownloadSpecification};

fn spec(url: &str, dest: &str, range: Option<DownloadRange>) -> DownloadSpecification {
    DownloadSpecification { url: url.to_string(), dest: dest.to_string(), range }
}

#[test]
fn test_optimize_specs() {
    let specs = vec![
        spec("https://example.com/1", "1", Some(DownloadRange { start: 0, size: 10 })),
        spec("https://example.com/1", "2", Some(DownloadRange { start: 10, size: 10 })),
        spec("https://example.com/1", "3", Some(DownloadRange { start: 30, size: 10 })),
        spec("https://example.com/2", "4", Some(DownloadRange { start: 40, size: 10 })),
    ];
    let optimized = optimize_specs(&specs);
    assert_eq!(
        optimized,
        vec![
            OptimizedDownloadSpecification {
                url: "https://example.com/1".to_string(),
                dest: vec![("1".to_string(), 0), ("2".to_string(), 10)],
                range: Some(DownloadRange { start: 0, size: 20 }),
            },
            OptimizedDownloadSpecification {
                url: "https://example.com/1".to_string(),
                dest: vec![("3".to_string(), 0)],
                range: Some(DownloadRange { start: 30, size: 10 }),
            },
            OptimizedDownloadSpecification {
                url: "https://example.com/2".to_string(),
                dest: vec![("4".to_string(), 0)],
                range: Some(DownloadRange { start: 40, size: 10 }),
            },
        ]
    );
}

#[test]
fn non_merge_on_gap() {
    // Two ranges on one URL with a one-byte gap must stay two requests.
    let specs = vec![
        spec("https://example.com/a", "x", Some(DownloadRange { start: 0, size: 10 })),
        spec("https://example.com/a", "y", Some(DownloadRange { start: 11, size: 10 })),
    ];
    let optimized = optimize_specs(&specs);
    assert_eq!(optimized.len(), 2);
    assert_eq!(optimized[0].range, Some(DownloadRange { start: 0, size: 10 }));
    assert_eq!(optimized[1].range, Some(DownloadRange { start: 11, size: 10 }));
}

#[test]
fn merges_unsorted_contiguous_ranges() {
    // Contiguity is found after sorting by start.
    let specs = vec![
        spec("https://example.com/a", "second", Some(DownloadRange { start: 7, size: 3 })),
        spec("https://example.com/a", "first", Some(DownloadRange { start: 0, size: 7 })),
    ];
    let optimized = optimize_specs(&specs);
    assert_eq!(optimized.len(), 1);
    assert_eq!(optimized[0].range, Some(DownloadRange { start: 0, size: 10 }));
    assert_eq!(
        optimized[0].dest,
        vec![("first".to_string(), 0), ("second".to_string(), 7)]
    );
}

#[test]
fn whole_object_fetches_stay_single() {
    let specs = vec![
        spec("https://example.com/a", "whole", None),
        spec("https://example.com/a", "ranged", Some(DownloadRange { start: 0, size: 4 })),
    ];
    let optimized = optimize_specs(&specs);
    assert_eq!(optimized.len(), 2);
    assert_eq!(optimized[0].range, None);
    assert_eq!(optimized[0].dest, vec![("whole".to_string(), 0)]);
    assert_eq!(optimized[1].range, Some(DownloadRange { start: 0, size: 4 }));
}

#[test]
fn empty_input_yields_no_requests() {
    let specs: Vec<DownloadSpecification> = vec![];
    assert_eq!(optimize_specs(&specs).len(), 0);
}
