use station_stats::chunking::{find_boundary, read_chunk, ChunkBoundary};
use station_stats::error::PipelineError;

fn all_boundaries(data: &[u8], n: usize) -> Vec<Result<ChunkBoundary, PipelineError>> {
    (0..n).map(|i| find_boundary(data, i, n)).collect()
}

#[test]
fn single_chunk_covers_the_file() {
    let data = b"A;10.0\nB;20.5\nA;5.5\n";
    assert_eq!(find_boundary(data, 0, 1), Ok(ChunkBoundary { start: 0, end: 20 }));
}

#[test]
fn single_chunk_needs_no_newline() {
    let data = b"A;10.0";
    assert_eq!(find_boundary(data, 0, 1), Ok(ChunkBoundary { start: 0, end: 6 }));
}

#[test]
fn empty_file_is_one_empty_chunk() {
    assert_eq!(find_boundary(b"", 0, 1), Ok(ChunkBoundary { start: 0, end: 0 }));
}

#[test]
fn empty_file_cannot_be_cut_in_two() {
    assert_eq!(find_boundary(b"", 0, 2), Err(PipelineError::ChunkTooSmall));
    assert_eq!(find_boundary(b"", 1, 2), Err(PipelineError::ChunkTooSmall));
}

#[test]
fn two_chunks_meet_after_a_newline() {
    // 18 bytes, target size 9: the last newline before offset 9 is at 5.
    let data = b"A;1.0\nB;2.0\nC;3.0\n";
    assert_eq!(find_boundary(data, 0, 2), Ok(ChunkBoundary { start: 0, end: 6 }));
    assert_eq!(find_boundary(data, 1, 2), Ok(ChunkBoundary { start: 6, end: 18 }));
}

#[test]
fn boundary_is_put_after_the_last_newline_of_its_window() {
    // 12 bytes, target size 6: the window [0, 6) holds newlines at 1, 3 and 5.
    let data = b"a\nb\nc\nd\ne\nf\n";
    assert_eq!(find_boundary(data, 0, 2), Ok(ChunkBoundary { start: 0, end: 6 }));
    assert_eq!(find_boundary(data, 1, 2), Ok(ChunkBoundary { start: 6, end: 12 }));
}

#[test]
fn last_chunk_ends_at_the_end_of_the_file() {
    // No newline at the end, and 8 is not a multiple of 3.
    let data = b"a\nb\nc\ndd";
    let found = all_boundaries(data, 3);
    assert_eq!(found[0], Ok(ChunkBoundary { start: 0, end: 2 }));
    assert_eq!(found[1], Ok(ChunkBoundary { start: 2, end: 4 }));
    assert_eq!(found[2], Ok(ChunkBoundary { start: 4, end: 8 }));
}

#[test]
fn window_without_newline_is_too_small() {
    let data = b"A;10.0\nB;20.5\nA;5.5\n";
    assert_eq!(find_boundary(data, 0, 8), Err(PipelineError::ChunkTooSmall));
}

#[test]
fn one_long_line_is_too_small_for_its_neighbours() {
    // Target size 4: the window [4, 8) lies inside the long line.
    let data = b"a\nb\nlonglonglongg\nc\n";
    assert_eq!(data.len() / 5, 4);
    assert_eq!(find_boundary(data, 0, 5), Ok(ChunkBoundary { start: 0, end: 4 }));
    assert_eq!(find_boundary(data, 1, 5), Err(PipelineError::ChunkTooSmall));
    assert_eq!(find_boundary(data, 2, 5), Err(PipelineError::ChunkTooSmall));
}

#[test]
fn chunks_tile_the_file() {
    let mut data = Vec::new();
    for i in 0..200 {
        data.extend_from_slice(format!("station{};{}.{}\n", i % 17, i, i % 10).as_bytes());
    }
    for n in 1..=16 {
        let found = all_boundaries(&data, n);
        let mut at = 0;
        for (i, boundary) in found.iter().enumerate() {
            let boundary = boundary.expect("every window holds a newline");
            assert_eq!(boundary.start, at);
            assert!(boundary.start < boundary.end);
            if i + 1 < n {
                assert_eq!(data[boundary.end - 1], b'\n');
            }
            at = boundary.end;
        }
        assert_eq!(at, data.len());
    }
}

#[test]
fn more_chunks_than_lines_is_reported() {
    let data = b"A;10.0\nB;20.5\n";
    for n in 3..=20 {
        let found = all_boundaries(data, n);
        assert!(found.iter().any(|b| *b == Err(PipelineError::ChunkTooSmall)));
    }
}

#[test]
fn chunks_that_are_found_never_drop_a_record() {
    // Whatever the number of chunks: either a finder fails, or the chunks put
    // together are the file.
    let data = b"A;1.0\nB;2.0\nC;3.0\nD;4.0\nE;5.0\nF;6.0";
    for n in 1..=40 {
        let found = all_boundaries(data, n);
        if found.iter().all(|b| b.is_ok()) {
            let mut joined = Vec::new();
            for boundary in &found {
                let boundary = boundary.unwrap();
                joined.extend_from_slice(&data[boundary.start..boundary.end]);
            }
            assert_eq!(joined, data.to_vec());
        }
    }
}

#[test]
fn chunk_of_valid_text_is_read_as_it_stands() {
    let data = "Zürich;1.0\nKøbenhavn;2.0\n".as_bytes();
    let first = find_boundary(data, 0, 2).unwrap();
    let second = find_boundary(data, 1, 2).unwrap();
    assert_eq!(read_chunk(data, first), "Zürich;1.0\n");
    assert_eq!(read_chunk(data, second), "København;2.0\n");
}

#[test]
fn chunk_with_invalid_bytes_is_read_with_replacements() {
    let data = b"A\xff;1.0\nB;2.0\n";
    let text = read_chunk(data, ChunkBoundary { start: 0, end: 7 });
    assert_eq!(text, "A\u{fffd};1.0\n");
    assert_ne!(text.as_bytes(), &data[0..7]);
}

#[test]
fn empty_range_is_read_as_empty_text() {
    let data = b"A;1.0\n";
    assert_eq!(read_chunk(data, ChunkBoundary { start: 3, end: 3 }), "");
}
