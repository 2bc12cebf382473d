use rusty_database::handler::QueryResult;
use rusty_database::storage_engine_interface::{Row, Value};

#[test]
fn test_display_format_matches_expected_automatically() {
    let rows = vec![
        Row { values: vec![Value::Int(1), Value::Varchar("Science Fiction".to_string())] },
        Row { values: vec![Value::Int(2), Value::Varchar("Action".to_string())] },
    ];
    let result = QueryResult::Data(rows);
    let column_names = vec!["id".to_string(), "name".to_string()];

    let actual_output = result.format_as_string(Some(&column_names));
    let expected_output = "| id  | name            |\n| --- | --------------- |\n| 1   | Science Fiction |\n| 2   | Action          |\n";

    println!("Expected output from test case:");
    println!("{}", expected_output);
    println!("Actual output:");
    println!("{}", actual_output);

    let actual_lines: Vec<&str> = actual_output.lines().collect();
    let expected_lines: Vec<&str> = expected_output.lines().collect();

    assert_eq!(actual_lines.len(), expected_lines.len(), "Number of output lines should match");

    for (i, (actual, expected)) in actual_lines.iter().zip(expected_lines.iter()).enumerate() {
        assert_eq!(actual, expected, "Line {} should match. Expected: '{}', Actual: '{}'", i + 1, expected, actual);
    }
}

#[test]
fn test_display_format_with_different_column_widths() {
    let rows = vec![
        Row { values: vec![Value::Int(1), Value::Varchar("Science Fiction".to_string())] },
        Row { values: vec![Value::Int(2), Value::Varchar("Action".to_string())] },
    ];
    let result = QueryResult::Data(rows);
    let column_names = vec!["id".to_string(), "name".to_string()];

    let output = result.format_as_string(Some(&column_names));

    assert!(output.contains("| id  | name            |"), "Header should have correct left-aligned spacing");
    assert!(output.contains("| --- | --------------- |"), "Separator should match column widths");
    assert!(output.contains("| 1   | Science Fiction |"), "Data should be left-aligned");
    assert!(output.contains("| 2   | Action          |"), "Data should be left-aligned");

    println!("Output with different column widths:");
    println!("{}", output);
}

#[test]
fn test_display_format_minimum_width() {
    let rows = vec![
        Row { values: vec![Value::Int(1), Value::Varchar("A".to_string())] },
        Row { values: vec![Value::Int(2), Value::Varchar("B".to_string())] },
    ];
    let result = QueryResult::Data(rows);
    let column_names = vec!["a".to_string(), "b".to_string()];

    let output = result.format_as_string(Some(&column_names));

    assert!(output.contains("| a   | b   |"), "Both columns should have minimum width of 3");
    assert!(output.contains("| --- | --- |"), "Separators should be 3 dashes each");
    assert!(output.contains("| 1   | A   |"), "Data should be left-aligned with padding");
    assert!(output.contains("| 2   | B   |"), "Data should be left-aligned with padding");

    println!("Output with minimum width:");
    println!("{}", output);
}

fn divide(a: i32, b: i32) -> Result<i32, String> {
    if b == 0 {
        Err("Division by zero".to_string())
    } else {
        Ok(a / b)
    }
}

#[derive(Debug, PartialEq)]
enum MyError {
    MathError(String),
    #[allow(dead_code)]
    Other,
}

#[test]
fn test_map_err_explanation() {
    let result: Result<i32, MyError> = divide(10, 2).map_err(MyError::MathError);
    assert_eq!(result, Ok(5));

    let error_result: Result<i32, MyError> = divide(10, 0).map_err(MyError::MathError);
    assert_eq!(error_result, Err(MyError::MathError("Division by zero".to_string())));

    let manual_result: Result<i32, MyError> = match divide(10, 0) {
        Ok(value) => Ok(value),
        Err(string_error) => Err(MyError::MathError(string_error)),
    };
    assert_eq!(manual_result, Err(MyError::MathError("Division by zero".to_string())));

    println!("map_err 测试通过！");
}

#[test]
fn no_rows_are_reported_as_such() {
    let result = QueryResult::Data(vec![]);
    assert_eq!(result.format_as_string(None), "No rows returned.");
    let names = vec!["id".to_string()];
    assert_eq!(result.format_as_string(Some(&names)), "No rows returned.");
}

#[test]
fn results_without_rows_have_no_text() {
    assert_eq!(QueryResult::Success.format_as_string(None), "");
    assert_eq!(QueryResult::RowsAffected(3).format_as_string(None), "");
}

#[test]
fn default_column_names_are_numbered() {
    let result = QueryResult::Data(vec![Row { values: vec![Value::Int(7), Value::Null, Value::Varchar("x".to_string())] }]);
    assert_eq!(
        result.format_as_string(None),
        "| col1 | col2 | col3 |\n| ---- | ---- | ---- |\n| 7    | NULL | x    |\n"
    );
}

#[test]
fn wide_values_widen_their_column() {
    let result = QueryResult::Data(vec![Row { values: vec![Value::Int(-123456)] }]);
    let names = vec!["n".to_string()];
    assert_eq!(result.format_as_string(Some(&names)), "| n       |\n| ------- |\n| -123456 |\n");
}
