use file_reader::chunker::{ChunkStep, Chunker};
use file_reader::models::{TypeLineCounter, TypeLineResults};
use file_reader::printer::lean_table;
use file_reader::reader::{
    aggregate, calculate_results, calculate_results_naive, classify_chunk, classify_line,
    correct_boundary, find_last_newline_position, merge_counters, ERROR_TYPE,
};

const LINE_B: &str = "{\"type\":\"B\",\"foo\":\"bar\",\"items\":[\"one\",\"two\"]}";
const LINE_A: &str = "{\"type\":\"A\",\"foo\":\"bar\",\"items\":[\"one\",\"two\"]}";
const LINE_C: &str = "{\"type\":\"C\",\"foo\":\"bar\",\"items\":[\"one\",\"two\"]}";

fn four_lines() -> String {
    format!("{}\n{}\n{}\n{}\n", LINE_B, LINE_B, LINE_A, LINE_C)
}

fn sorted(results: &TypeLineResults) -> Vec<(String, usize, usize)> {
    let mut v: Vec<(String, usize, usize)> = results
        .entries()
        .into_iter()
        .map(|(k, c)| (k, c.count, c.bytes))
        .collect();
    v.sort();
    v
}

#[test]
fn four_records_give_three_categories_with_exact_tallies() {
    let input = four_lines();
    let result = calculate_results(input.as_bytes(), 1_000, false).unwrap();
    let line = LINE_B.len() + 1;
    assert_eq!(result.len(), 3);
    assert_eq!(result.get("A").map(|c| (c.count, c.bytes)), Some((1, line)));
    assert_eq!(result.get("B").map(|c| (c.count, c.bytes)), Some((2, 2 * line)));
    assert_eq!(result.get("C").map(|c| (c.count, c.bytes)), Some((1, line)));
    assert!(result.get(ERROR_TYPE).is_none());
}

#[test]
fn blank_line_is_one_error_of_one_byte() {
    let input = format!("{}\n{}\n{}\n\n{}\n", LINE_B, LINE_B, LINE_A, LINE_C);
    let result = calculate_results(input.as_bytes(), 1_000, false).unwrap();
    assert_eq!(result.len(), 4);
    assert_eq!(result.get(ERROR_TYPE).map(|c| (c.count, c.bytes)), Some((1, 1)));
}

#[test]
fn misnamed_discriminant_is_an_error_even_when_valid_json() {
    let odd = "{\"type1\":\"B\",\"foo\":\"bar\"}";
    let input = format!("{}\n{}\n{}\n{}\n", odd, LINE_B, LINE_A, LINE_C);
    let result = calculate_results(input.as_bytes(), 1_000, false).unwrap();
    assert_eq!(result.len(), 4);
    assert_eq!(result.get(ERROR_TYPE).map(|c| (c.count, c.bytes)), Some((1, odd.len() + 1)));
    assert_eq!(result.get("B").map(|c| c.count), Some(1));
}

#[test]
fn non_string_discriminant_is_an_error() {
    let input = "{\"type\":7}\n{\"type\":\"7\"}\n";
    let result = calculate_results(input.as_bytes(), 1_000, false).unwrap();
    assert_eq!(result.get(ERROR_TYPE).map(|c| (c.count, c.bytes)), Some((1, 11)));
    assert_eq!(result.get("7").map(|c| (c.count, c.bytes)), Some((1, 13)));
}

#[test]
fn missing_final_terminator_is_fatal_for_any_chunk_size() {
    let input = format!("{}", LINE_B);
    for size in [1usize, 2, 10, LINE_B.len(), LINE_B.len() + 1, 1_000, 100_000] {
        assert!(calculate_results(input.as_bytes(), size, false).is_none());
    }
    let input = format!("{}\n{}", LINE_A, LINE_B);
    assert!(calculate_results(input.as_bytes(), 1_000, false).is_none());
}

#[test]
fn line_longer_than_a_chunk_is_fatal() {
    let input = format!("{}\n{}\n", LINE_A, LINE_B);
    assert!(calculate_results(input.as_bytes(), LINE_A.len(), false).is_none());
    assert!(calculate_results(input.as_bytes(), LINE_A.len() + 1, false).is_some());
}

#[test]
fn chunk_size_does_not_change_the_result() {
    let input = format!("{}\n{}\n\nnot json\n{}\n{}\n", LINE_B, LINE_A, LINE_C, LINE_B);
    let reference = sorted(&calculate_results(input.as_bytes(), 1_000_000, false).unwrap());
    for size in (LINE_A.len() + 1)..(input.len() + 3) {
        let result = calculate_results(input.as_bytes(), size, false).unwrap();
        assert_eq!(sorted(&result), reference);
    }
}

#[test]
fn totals_cover_every_record_and_every_byte() {
    let input = format!("{}\n\n{}\nnot json\n{}\n{}\n", LINE_B, LINE_A, LINE_C, LINE_B);
    for size in [LINE_A.len() + 1, 60, 100, 1_000] {
        let result = calculate_results(input.as_bytes(), size, false).unwrap();
        let count: usize = result.entries().iter().map(|e| e.1.count).sum();
        let bytes: usize = result.entries().iter().map(|e| e.1.bytes).sum();
        assert_eq!(count, 6);
        assert_eq!(bytes, input.len());
    }
}

#[test]
fn empty_input_gives_an_empty_mapping() {
    let result = calculate_results(b"", 10, false).unwrap();
    assert_eq!(result.len(), 0);
    let result = calculate_results_naive(b"", false);
    assert_eq!(result.len(), 0);
}

#[test]
fn merging_in_either_order_gives_the_same_mapping() {
    let first = classify_chunk(format!("{}\n{}\n", LINE_A, LINE_B).as_bytes());
    let second = classify_chunk(format!("{}\n\n{}\n", LINE_B, LINE_C).as_bytes());
    let mut one = TypeLineResults::new();
    merge_counters(&mut one, &first);
    merge_counters(&mut one, &second);
    let mut two = TypeLineResults::new();
    merge_counters(&mut two, &second);
    merge_counters(&mut two, &first);
    assert_eq!(sorted(&one), sorted(&two));
    assert_eq!(one.get("B").map(|c| c.count), Some(2));
}

#[test]
fn classify_line_reads_the_type_field() {
    assert_eq!(classify_line(b"{\"type\":\"X\",\"n\":1}"), "X");
    assert_eq!(classify_line(b"  {\"a\":[1,2],\"type\":\"with space\"}  "), "with space");
    assert_eq!(classify_line(b"{\"type\":\"e\\u0041\"}"), "eA");
    assert_eq!(classify_line(b""), ERROR_TYPE);
    assert_eq!(classify_line(b"[\"type\"]"), ERROR_TYPE);
    assert_eq!(classify_line(b"{\"type\":null}"), ERROR_TYPE);
    assert_eq!(classify_line(b"{\"type\":\"X\""), ERROR_TYPE);
}

#[test]
fn classify_chunk_counts_the_trailing_empty_piece() {
    let items = classify_chunk(b"{\"type\":\"X\"}\nfoo\n");
    let got: Vec<(String, usize)> = items.into_iter().map(|i| (i.key, i.bytes)).collect();
    assert_eq!(
        got,
        vec![
            ("X".to_string(), 13),
            (ERROR_TYPE.to_string(), 4),
            (ERROR_TYPE.to_string(), 1)
        ]
    );
}

#[test]
fn last_newline_position_is_just_past_the_terminator() {
    assert_eq!(find_last_newline_position(b"ab\ncd\nef"), Some(6));
    assert_eq!(find_last_newline_position(b"ab\n"), Some(3));
    assert_eq!(find_last_newline_position(b"\nab"), Some(1));
    assert_eq!(find_last_newline_position(b"abc"), None);
    assert_eq!(find_last_newline_position(b""), None);
}

#[test]
fn chunker_carries_the_incomplete_line_over() {
    let mut chunker = Chunker::new(8);
    assert_eq!(chunker.wanted(), 8);
    match chunker.feed(b"ab\ncd\nef") {
        ChunkStep::Chunk(c) => assert_eq!(c, b"ab\ncd\n".to_vec()),
        _ => panic!("expected a chunk"),
    }
    assert_eq!(chunker.wanted(), 6);
    match chunker.feed(b"g\n") {
        ChunkStep::Chunk(c) => assert_eq!(c, b"efg\n".to_vec()),
        _ => panic!("expected a chunk"),
    }
    assert!(matches!(chunker.feed(b""), ChunkStep::Done));
    let mut chunker = Chunker::new(3);
    assert!(matches!(chunker.feed(b"abc"), ChunkStep::Fatal));
}

#[test]
fn correction_removes_an_error_category_made_only_of_empty_pieces() {
    let mut results = TypeLineResults::new();
    results.add_line(ERROR_TYPE.to_string(), 1);
    results.add_line(ERROR_TYPE.to_string(), 1);
    results.add_line("A".to_string(), 5);
    correct_boundary(&mut results, 2);
    assert_eq!(results.len(), 1);
    assert!(results.get(ERROR_TYPE).is_none());

    let mut results = TypeLineResults::new();
    results.add_line(ERROR_TYPE.to_string(), 1);
    results.add_line(ERROR_TYPE.to_string(), 7);
    correct_boundary(&mut results, 1);
    assert_eq!(results.get(ERROR_TYPE).map(|c| (c.count, c.bytes)), Some((1, 7)));
}

#[test]
fn aggregate_merges_and_corrects() {
    let parts = vec![
        classify_chunk(format!("{}\n", LINE_A).as_bytes()),
        classify_chunk(format!("{}\n{}\n", LINE_B, LINE_A).as_bytes()),
    ];
    let result = aggregate(&parts);
    assert_eq!(result.len(), 2);
    assert_eq!(result.get("A").map(|c| c.count), Some(2));
    assert!(result.get(ERROR_TYPE).is_none());
}

#[test]
fn naive_counts_a_last_line_without_terminator() {
    let input = format!("{}\n{}", LINE_A, LINE_B);
    let result = calculate_results_naive(input.as_bytes(), false);
    assert_eq!(result.get("A").map(|c| c.bytes), Some(LINE_A.len() + 1));
    assert_eq!(result.get("B").map(|c| c.bytes), Some(LINE_B.len()));
}

#[test]
fn counter_adds_one_line_at_a_time() {
    let mut c = TypeLineCounter::new();
    c.add_bytes(5);
    c.add_bytes(3);
    assert_eq!((c.count, c.bytes), (2, 8));
}

#[test]
fn lean_table_writes_one_row_per_category() {
    let entries = vec![
        ("B".to_string(), TypeLineCounter { count: 2, bytes: 120 }),
        ("ERROR".to_string(), TypeLineCounter { count: 1, bytes: 9 }),
    ];
    assert_eq!(
        lean_table(&entries),
        "TYPE: B | TOTAL COUNT: 2 | TOTAL BYTES: 120\nTYPE: ERROR | TOTAL COUNT: 1 | TOTAL BYTES: 9\n"
    );
    assert_eq!(lean_table(&Vec::new()), "");
}
