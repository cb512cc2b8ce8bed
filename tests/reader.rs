use file_reader::reader::{calculate_results, calculate_results_naive, ERROR_TYPE};

const FOUR_LINES: &str = "{\"type\":\"B\",\"foo\":\"bar\",\"items\":[\"one\",\"two\"]}
{\"type\":\"B\",\"foo\":\"bar\",\"items\":[\"one\",\"two\"]}
{\"type\":\"A\",\"foo\":\"bar\",\"items\":[\"one\",\"two\"]}
{\"type\":\"C\",\"foo\":\"bar\",\"items\":[\"one\",\"two\"]}
";

const WITH_EMPTY_LINE: &str = "{\"type\":\"B\",\"foo\":\"bar\",\"items\":[\"one\",\"two\"]}
{\"type\":\"B\",\"foo\":\"bar\",\"items\":[\"one\",\"two\"]}
{\"type\":\"A\",\"foo\":\"bar\",\"items\":[\"one\",\"two\"]}

{\"type\":\"C\",\"foo\":\"bar\",\"items\":[\"one\",\"two\"]}
";

const BAD_FORMAT: &str = "{\"type\":\"B\" \"foo\":\"bar\",\"items\":[\"one\",\"two\"]}
{\"type\":\"B\",\"foo\":\"bar\",\"items\":[\"one\",\"two\"]}
{\"type\":\"A\",\"foo\":\"bar\",\"items\":[\"one\",\"two\"]}
{\"type\":\"C\",\"foo\":\"bar\",\"items\":[\"one\",\"two\"]}
";

const NO_TYPE: &str = "{\"type1\":\"B\" \"foo\":\"bar\",\"items\":[\"one\",\"two\"]}
{\"type\":\"B\",\"foo\":\"bar\",\"items\":[\"one\",\"two\"]}
{\"type\":\"A\",\"foo\":\"bar\",\"items\":[\"one\",\"two\"]}
{\"type\":\"C\",\"foo\":\"bar\",\"items\":[\"one\",\"two\"]}
";

const SPACES: &str = "  {  \"type\":\"B\", \"foo\":\"bar\",\"items\":[\"one\",\"two\"]}  \n";

const SPACES_INVALID: &str = "  {  \"type\":\"B\" \"foo\":\"bar\",\"items\":[\"one\",\"two\"]}  \n";

const NO_NEWLINE: &str = "{ \"type\":\"B\", \"foo\":\"bar\",\"items\":[\"one\",\"two\"]}";

#[test]
fn calculate_results_correctly_creates_the_sets() {
    let file_content = FOUR_LINES.as_bytes();
    let result = calculate_results(file_content, 1_000, false).unwrap();
    assert_eq!(result.len(), 3);
}

#[test]
fn calculate_results_adds_empty_lines_as_errors_creating_the_sets() {
    let file_content = WITH_EMPTY_LINE.as_bytes();
    let result = calculate_results(file_content, 1_000, false).unwrap();
    assert_eq!(result.len(), 4);
    assert!(result.get(ERROR_TYPE).is_some())
}

#[test]
fn calculate_results_adds_bad_formatted_json_as_errors_creating_the_sets() {
    let file_content = BAD_FORMAT.as_bytes();
    let result = calculate_results(file_content, 1_000, false).unwrap();
    assert_eq!(result.len(), 4);
    assert!(result.get(ERROR_TYPE).is_some())
}

#[test]
fn calculate_results_adds_json_with_no_type_as_errors_creating_the_sets() {
    let file_content = NO_TYPE.as_bytes();
    let result = calculate_results(file_content, 1_000, false).unwrap();
    assert_eq!(result.len(), 4);
    assert!(result.get(ERROR_TYPE).is_some())
}

#[test]
fn calculate_results_takes_into_account_spaces_when_counting_bytes() {
    let file_content = SPACES.as_bytes();
    let num_bytes = file_content.len();
    let result = calculate_results(file_content, 1_000, false).unwrap();
    assert_eq!(result.len(), 1);
    assert!(result.get(ERROR_TYPE).is_none());
    assert_eq!(result.get("B").map(|r| r.bytes), Some(num_bytes));
}

#[test]
fn calculate_results_takes_into_account_spaces_when_counting_bytes_even_when_invalid_json() {
    let file_content = SPACES_INVALID.as_bytes();
    let num_bytes = file_content.len();
    let result = calculate_results(file_content, 1_000, false).unwrap();
    let error = result.get(ERROR_TYPE).map(|r| r.bytes);
    assert_eq!(result.len(), 1);
    assert!(error.is_some());
    assert_eq!(error, Some(num_bytes));
}

#[test]
fn calculate_results_does_not_work_when_file_does_not_end_with_newline() {
    let file_content = NO_NEWLINE.as_bytes();
    let result = calculate_results(file_content, 1_000, false);
    assert_eq!(result.map_or(0, |r| r.len()), 0);
}

#[test]
fn calculate_results_does_not_work_when_the_chunks_are_smaller_than_a_line() {
    let file_content = NO_NEWLINE.as_bytes();
    let result = calculate_results(file_content, 2, false);
    assert_eq!(result.map_or(0, |r| r.len()), 0);
}

#[test]
fn calculate_results_naive_correctly_creates_the_sets() {
    let file_content = FOUR_LINES.as_bytes();
    let result = calculate_results_naive(file_content, false);
    assert_eq!(result.len(), 3);
}

#[test]
fn calculate_results_naive_adds_empty_lines_as_errors_creating_the_sets() {
    let file_content = WITH_EMPTY_LINE.as_bytes();
    let result = calculate_results_naive(file_content, false);
    assert_eq!(result.len(), 4);
    assert!(result.get(ERROR_TYPE).is_some())
}

#[test]
fn calculate_results_naive_adds_bad_formatted_json_as_errors_creating_the_sets() {
    let file_content = BAD_FORMAT.as_bytes();
    let result = calculate_results_naive(file_content, false);
    assert_eq!(result.len(), 4);
    assert!(result.get(ERROR_TYPE).is_some())
}

#[test]
fn calculate_results_naive_adds_json_with_no_type_as_errors_creating_the_sets() {
    let file_content = NO_TYPE.as_bytes();
    let result = calculate_results_naive(file_content, false);
    assert_eq!(result.len(), 4);
    assert!(result.get(ERROR_TYPE).is_some())
}

#[test]
fn calculate_results_naive_takes_into_account_spaces_when_counting_bytes() {
    let file_content = SPACES.as_bytes();
    let num_bytes = file_content.len();
    let result = calculate_results_naive(file_content, false);
    assert_eq!(result.len(), 1);
    assert!(result.get(ERROR_TYPE).is_none());
    assert_eq!(result.get("B").map(|r| r.bytes), Some(num_bytes));
}

#[test]
fn calculate_results_naive_takes_into_account_spaces_when_counting_bytes_even_when_invalid_json() {
    let file_content = SPACES_INVALID.as_bytes();
    let num_bytes = file_content.len();
    let result = calculate_results_naive(file_content, false);
    let error = result.get(ERROR_TYPE).map(|r| r.bytes);
    assert_eq!(result.len(), 1);
    assert!(error.is_some());
    assert_eq!(error, Some(num_bytes));
}
