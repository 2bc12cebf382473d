use rusty_database::error::ExecutionError;

#[test]
fn errors_read_as_messages() {
    assert_eq!(ExecutionError::StorageError("disk".to_string()).to_message(), "Storage error: disk");
    assert_eq!(ExecutionError::SyntaxError.to_message(), "Syntax error");
    assert_eq!(ExecutionError::UnsupportedStatement.to_message(), "Unsupported statement");
    assert_eq!(ExecutionError::TableNotFound("t".to_string()).to_message(), "Table not found: t");
    assert_eq!(ExecutionError::ColumnNotFound("c".to_string()).to_message(), "Column not found: c");
}

#[test]
fn debug_text_is_what_debug_prints() {
    let errors = vec![
        ExecutionError::StorageError("Error: Table 'a \"b\"' does not exist.\n".to_string()),
        ExecutionError::SyntaxError,
        ExecutionError::UnsupportedStatement,
        ExecutionError::TableNotFound("t\\u".to_string()),
        ExecutionError::ColumnNotFound("é".to_string()),
    ];
    for e in &errors {
        assert_eq!(e.debug_text(), format!("{:?}", e));
    }
    assert_eq!(errors[0].debug_text(), "StorageError(\"Error: Table 'a \\\"b\\\"' does not exist.\\n\")");
}
