use zts_installer::plan::DownloadRange;
use zts_installer::splice::{SpliceState, range_header_bounds, splice_chunk, status_is_success};

fn dests(offsets: &[(&str, u64)]) -> Vec<(String, u64)> {
    offsets.iter().map(|(p, o)| (p.to_string(), *o)).collect()
}

#[test]
fn splice_single_destination() {
    let d = dests(&[("a", 0)]);
    let state = SpliceState { dest_index: 0, written: 0 };
    let (state, ops) = splice_chunk(&d, state, &vec![1, 2, 3]);
    assert_eq!(state, SpliceState { dest_index: 0, written: 3 });
    assert_eq!(ops.len(), 1);
    assert_eq!(ops[0].dest_index, 0);
    assert_eq!(ops[0].bytes, vec![1, 2, 3]);
}

#[test]
fn splice_cuts_at_boundary() {
    // A chunk crossing the boundary at offset 5 is split between the two
    // destinations.
    let d = dests(&[("a", 0), ("b", 5)]);
    let state = SpliceState { dest_index: 0, written: 0 };
    let (state, ops) = splice_chunk(&d, state, &vec![10, 11, 12, 13, 14, 15, 16, 17]);
    assert_eq!(state, SpliceState { dest_index: 1, written: 8 });
    assert_eq!(ops.len(), 2);
    assert_eq!(ops[0].dest_index, 0);
    assert_eq!(ops[0].bytes, vec![10, 11, 12, 13, 14]);
    assert_eq!(ops[1].dest_index, 1);
    assert_eq!(ops[1].bytes, vec![15, 16, 17]);
}

#[test]
fn splice_session_reproduces_windows() {
    // Feeding a body in uneven chunks hands each destination exactly its
    // window: [0,4) to the first, [4,9) to the second, the rest to the
    // third.
    let d = dests(&[("a", 0), ("b", 4), ("c", 9)]);
    let body: Vec<u8> = (0u8..12).collect();
    let mut state = SpliceState { dest_index: 0, written: 0 };
    let mut outputs: Vec<Vec<u8>> = vec![Vec::new(), Vec::new(), Vec::new()];
    for chunk in body.chunks(5) {
        let (next, ops) = splice_chunk(&d, state, &chunk.to_vec());
        for op in ops {
            outputs[op.dest_index].extend_from_slice(&op.bytes);
        }
        state = next;
    }
    assert_eq!(outputs[0], (0u8..4).collect::<Vec<u8>>());
    assert_eq!(outputs[1], (4u8..9).collect::<Vec<u8>>());
    assert_eq!(outputs[2], (9u8..12).collect::<Vec<u8>>());
}

#[test]
fn splice_exact_boundary_chunk_end() {
    // A chunk ending exactly on a boundary already advances to the next
    // destination, which then receives an empty write.
    let d = dests(&[("a", 0), ("b", 3)]);
    let state = SpliceState { dest_index: 0, written: 0 };
    let (state, ops) = splice_chunk(&d, state, &vec![7, 8, 9]);
    assert_eq!(state, SpliceState { dest_index: 1, written: 3 });
    assert_eq!(ops.len(), 2);
    assert_eq!(ops[0].bytes, vec![7, 8, 9]);
    assert_eq!(ops[1].bytes, Vec::<u8>::new());
}

#[test]
fn range_header_is_inclusive() {
    // "bytes=5-14" fetches ten bytes from offset five.
    let (first, last) = range_header_bounds(DownloadRange { start: 5, size: 10 });
    assert_eq!(first, 5);
    assert_eq!(last, 14);
}

#[test]
fn success_statuses() {
    assert!(status_is_success(200));
    assert!(status_is_success(206));
    assert!(!status_is_success(199));
    assert!(!status_is_success(300));
    assert!(!status_is_success(404));
}
