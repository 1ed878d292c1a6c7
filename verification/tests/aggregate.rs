use station_stats::aggregate::{
    process_chunk, process_chunk_bytes, process_file_chunks, process_line, process_line_bytes,
};
use station_stats::error::PipelineError;
use station_stats::stats::StationStats;
use station_stats::table::StationTable;

fn summary(table: &StationTable, key: &str) -> Option<(i64, i64, i128, u64)> {
    table.get(key.as_bytes()).map(|s| (s.min(), s.max(), s.sum(), s.count()))
}

fn average(stats: &StationStats) -> f64 {
    (stats.sum() as f64 / 10.0) / (stats.count() as f64)
}

#[test]
fn first_reading_makes_a_record() {
    let mut table = StationTable::new();
    assert_eq!(process_line("A;10.0", &mut table), Ok(()));
    assert_eq!(table.len(), 1);
    assert_eq!(table.readings(), 1);
    assert_eq!(summary(&table, "A"), Some((100, 100, 100, 1)));
    assert_eq!(summary(&table, "B"), None);
}

#[test]
fn further_readings_update_the_record() {
    let mut table = StationTable::new();
    for line in ["A;10.0", "A;5.5", "A;-3.2", "A;20.1"] {
        assert_eq!(process_line(line, &mut table), Ok(()));
    }
    assert_eq!(table.len(), 1);
    assert_eq!(table.readings(), 4);
    assert_eq!(summary(&table, "A"), Some((-32, 201, 324, 4)));
}

#[test]
fn three_lines_give_two_stations() {
    let mut table = StationTable::new();
    assert_eq!(process_chunk("A;10.0\nB;20.5\nA;5.5\n", &mut table), Ok(()));
    assert_eq!(summary(&table, "A"), Some((55, 100, 155, 2)));
    assert_eq!(summary(&table, "B"), Some((205, 205, 205, 1)));
    let a = table.get(b"A").unwrap();
    let b = table.get(b"B").unwrap();
    assert_eq!(average(&a), 7.75);
    assert_eq!(a.min() as f64 / 10.0, 5.5);
    assert_eq!(a.max() as f64 / 10.0, 10.0);
    assert_eq!(average(&b), 20.5);
    let rows = table.into_sorted();
    assert_eq!(rows.len(), 2);
    assert_eq!(rows[0].key(), b"A");
    assert_eq!(rows[1].key(), b"B");
}

#[test]
fn line_without_separator_is_skipped() {
    let mut table = StationTable::new();
    assert_eq!(process_chunk("A;10.0\ngarbage-line\nB;20.5\n\nA;5.5\n", &mut table), Ok(()));
    assert_eq!(table.len(), 2);
    assert_eq!(table.readings(), 3);
    assert_eq!(summary(&table, "A"), Some((55, 100, 155, 2)));
    assert_eq!(summary(&table, "B"), Some((205, 205, 205, 1)));
    assert_eq!(summary(&table, "garbage-line"), None);
    let mut lone = StationTable::new();
    assert_eq!(process_line("garbage-line", &mut lone), Ok(()));
    assert_eq!(lone.len(), 0);
    assert_eq!(lone.readings(), 0);
}

#[test]
fn measurement_without_point_fails_the_run() {
    let mut table = StationTable::new();
    assert_eq!(process_chunk("A;10\n", &mut table), Err(PipelineError::MalformedMeasurement));
    assert_eq!(table.len(), 0);
    assert_eq!(
        process_file_chunks(&vec!["A;10\n".to_string()]).map(|t| t.len()),
        Err(PipelineError::MalformedMeasurement)
    );
}

#[test]
fn malformed_line_leaves_the_table_as_it_was() {
    let mut table = StationTable::new();
    assert_eq!(process_line("A;1.0", &mut table), Ok(()));
    assert_eq!(process_line("A;x", &mut table), Err(PipelineError::MalformedMeasurement));
    assert_eq!(process_line("B;", &mut table), Err(PipelineError::MalformedMeasurement));
    assert_eq!(table.len(), 1);
    assert_eq!(table.readings(), 1);
    assert_eq!(summary(&table, "A"), Some((10, 10, 10, 1)));
}

#[test]
fn run_ends_at_the_first_malformed_measurement() {
    let mut table = StationTable::new();
    assert_eq!(
        process_chunk("A;1.0\nB;2.0\nC;oops\nD;4.0\n", &mut table),
        Err(PipelineError::MalformedMeasurement)
    );
    assert_eq!(table.len(), 2);
    assert_eq!(summary(&table, "A"), Some((10, 10, 10, 1)));
    assert_eq!(summary(&table, "B"), Some((20, 20, 20, 1)));
    assert_eq!(summary(&table, "D"), None);
}

#[test]
fn key_ends_at_the_first_separator() {
    let mut table = StationTable::new();
    assert_eq!(process_line("A;B;1.0", &mut table), Err(PipelineError::MalformedMeasurement));
    assert_eq!(process_line(";1.0", &mut table), Ok(()));
    assert_eq!(summary(&table, ""), Some((10, 10, 10, 1)));
    assert_eq!(process_line("St. John's;-1.5", &mut table), Ok(()));
    assert_eq!(summary(&table, "St. John's"), Some((-15, -15, -15, 1)));
}

#[test]
fn keys_are_compared_byte_for_byte() {
    let mut table = StationTable::new();
    for line in ["a;1.0", "A;2.0", "a ;3.0", "ä;4.0", "a;5.0"] {
        assert_eq!(process_line(line, &mut table), Ok(()));
    }
    assert_eq!(table.len(), 4);
    assert_eq!(summary(&table, "a"), Some((10, 50, 60, 2)));
    assert_eq!(summary(&table, "A"), Some((20, 20, 20, 1)));
    assert_eq!(summary(&table, "a "), Some((30, 30, 30, 1)));
    assert_eq!(summary(&table, "ä"), Some((40, 40, 40, 1)));
}

#[test]
fn lines_end_at_newline_or_carriage_return_newline() {
    let mut table = StationTable::new();
    assert_eq!(process_chunk("A;1.0\r\nB;2.0\nA;3.0\r\n", &mut table), Ok(()));
    assert_eq!(summary(&table, "A"), Some((10, 30, 40, 2)));
    assert_eq!(summary(&table, "B"), Some((20, 20, 20, 1)));
}

#[test]
fn carriage_return_without_newline_stays_in_the_line() {
    let mut table = StationTable::new();
    assert_eq!(process_chunk("A;1.0\r", &mut table), Err(PipelineError::MalformedMeasurement));
    let mut other = StationTable::new();
    assert_eq!(process_chunk("A;1.0\r\r\n", &mut other), Err(PipelineError::MalformedMeasurement));
}

#[test]
fn last_line_needs_no_terminator() {
    let mut table = StationTable::new();
    assert_eq!(process_chunk("A;1.0\nB;2.0", &mut table), Ok(()));
    assert_eq!(table.len(), 2);
    assert_eq!(summary(&table, "B"), Some((20, 20, 20, 1)));
}

#[test]
fn empty_chunk_changes_nothing() {
    let mut table = StationTable::new();
    assert_eq!(process_chunk("", &mut table), Ok(()));
    assert_eq!(process_chunk("\n\n\r\n", &mut table), Ok(()));
    assert_eq!(table.len(), 0);
    assert_eq!(table.readings(), 0);
    assert!(table.into_sorted().is_empty());
}

#[test]
fn bytes_and_text_give_the_same_table() {
    let text = "Zürich;1.0\nBern;-2.5\nZürich;3.0\n";
    let mut from_text = StationTable::new();
    let mut from_bytes = StationTable::new();
    assert_eq!(process_chunk(text, &mut from_text), Ok(()));
    assert_eq!(process_chunk_bytes(text.as_bytes(), &mut from_bytes), Ok(()));
    assert_eq!(summary(&from_text, "Zürich"), summary(&from_bytes, "Zürich"));
    assert_eq!(summary(&from_bytes, "Zürich"), Some((10, 30, 40, 2)));
    assert_eq!(summary(&from_bytes, "Bern"), Some((-25, -25, -25, 1)));
    let mut one = StationTable::new();
    assert_eq!(process_line_bytes(b"Bern;-2.5", &mut one), Ok(()));
    assert_eq!(summary(&one, "Bern"), Some((-25, -25, -25, 1)));
}

#[test]
fn chunks_are_folded_into_one_table() {
    let chunks = vec!["A;10.0\nB;20.5\n".to_string(), "A;5.5\n".to_string(), String::new()];
    let table = process_file_chunks(&chunks).unwrap();
    assert_eq!(table.len(), 2);
    assert_eq!(table.readings(), 3);
    assert_eq!(summary(&table, "A"), Some((55, 100, 155, 2)));
    assert_eq!(summary(&table, "B"), Some((205, 205, 205, 1)));
    assert_eq!(process_file_chunks(&Vec::new()).map(|t| t.len()), Ok(0));
}

#[test]
fn order_of_chunks_does_not_show() {
    let chunks = vec![
        "A;10.0\nB;20.5\n".to_string(),
        "C;-1.0\nA;5.5\n".to_string(),
        "B;0.0\nC;7.7\nC;7.8\n".to_string(),
    ];
    let orders: [[usize; 3]; 6] =
        [[0, 1, 2], [0, 2, 1], [1, 0, 2], [1, 2, 0], [2, 0, 1], [2, 1, 0]];
    let whole = process_file_chunks(&vec![chunks.concat()]).unwrap();
    for order in orders {
        let arrival: Vec<String> = order.iter().map(|&i| chunks[i].clone()).collect();
        let table = process_file_chunks(&arrival).unwrap();
        for key in ["A", "B", "C"] {
            assert_eq!(summary(&table, key), summary(&whole, key));
        }
        assert_eq!(table.len(), 3);
    }
    assert_eq!(summary(&whole, "A"), Some((55, 100, 155, 2)));
    assert_eq!(summary(&whole, "B"), Some((0, 205, 205, 2)));
    assert_eq!(summary(&whole, "C"), Some((-10, 78, 145, 3)));
}

#[test]
fn malformed_chunk_fails_in_any_order() {
    let good = "A;1.0\n".to_string();
    let bad = "B;1\n".to_string();
    assert_eq!(
        process_file_chunks(&vec![good.clone(), bad.clone()]).map(|t| t.len()),
        Err(PipelineError::MalformedMeasurement)
    );
    assert_eq!(
        process_file_chunks(&vec![bad, good]).map(|t| t.len()),
        Err(PipelineError::MalformedMeasurement)
    );
}

#[test]
fn record_merged_with_itself_keeps_its_average() {
    let mut stats = StationStats::first(100);
    stats.absorb(55);
    stats.absorb(-7);
    let doubled = stats.merge(&stats);
    assert_eq!(doubled.min(), stats.min());
    assert_eq!(doubled.max(), stats.max());
    assert_eq!(doubled.sum(), 2 * stats.sum());
    assert_eq!(doubled.count(), 2 * stats.count());
    assert_eq!(average(&doubled), average(&stats));
    assert_eq!(doubled.sum() * stats.count() as i128, stats.sum() * doubled.count() as i128);
}

#[test]
fn records_of_two_chunks_merge_into_the_record_of_both() {
    let mut left = StationStats::first(10);
    left.absorb(30);
    let mut right = StationStats::first(-5);
    right.absorb(20);
    right.absorb(40);
    let both = left.merge(&right);
    assert_eq!((both.min(), both.max(), both.sum(), both.count()), (-5, 40, 95, 5));
    let other = right.merge(&left);
    assert_eq!((other.min(), other.max(), other.sum(), other.count()), (-5, 40, 95, 5));
}

#[test]
fn extremes_fill_sixty_four_bits() {
    let mut stats = StationStats::first(i64::MAX);
    stats.absorb(i64::MAX);
    stats.absorb(i64::MIN);
    assert_eq!(stats.min(), i64::MIN);
    assert_eq!(stats.max(), i64::MAX);
    assert_eq!(stats.sum(), i64::MAX as i128 - 1);
    assert_eq!(stats.count(), 3);
}

#[test]
fn table_tells_whether_it_has_room() {
    let mut table = StationTable::new();
    assert!(table.has_room(0));
    assert!(table.has_room(usize::MAX));
    assert_eq!(process_line("A;1.0", &mut table), Ok(()));
    assert!(table.has_room(10));
    assert_eq!(table.has_room(usize::MAX), (usize::MAX as u128) < u64::MAX as u128);
}

#[test]
fn chunk_is_split_as_std_splits_lines() {
    let texts = [
        "",
        "\n",
        "\r\n",
        "\r",
        "A;1.0",
        "A;1.0\n",
        "A;1.0\r\n",
        "A;1.0\n\nB;2.0\n",
        "A;1.0\r\n\r\nB;2.0",
        "\nA;1.0\n\n\n",
        "x\ny\r\nz;3.0\r\nA;-1.5\nA;2.5",
        "A;1.0\n;2.0\n;3.0\r\nB;4.0\n",
        "A;1.0\r\r\nB;2.0\n",
        "A;1.0\nB;2.0\r",
        "A;1.0\nB;2\nC;3.0\n",
    ];
    for text in texts {
        let mut by_chunk = StationTable::new();
        let chunk_done = process_chunk(text, &mut by_chunk);
        let mut by_line = StationTable::new();
        let mut line_done = Ok(());
        for line in text.lines() {
            line_done = process_line(line, &mut by_line);
            if line_done.is_err() {
                break;
            }
        }
        assert_eq!(chunk_done, line_done);
        assert_eq!(by_chunk.len(), by_line.len());
        assert_eq!(by_chunk.readings(), by_line.readings());
        for key in ["A", "B", "C", "", "z"] {
            assert_eq!(summary(&by_chunk, key), summary(&by_line, key));
        }
    }
}
