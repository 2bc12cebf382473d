use rusty_database::script::{
    execute_sql, execute_sql_and_get_output, normalized_output, parse_admissible_text, parse_multiple_sql_statements,
    parse_statements,
};
use rusty_database::sql_ast::SqlStatement;
use rusty_database::storage::SimpleStorageEngine;

const USERS: &str = "CREATE TABLE users (id INT PRIMARY KEY, name VARCHAR(100) NOT NULL);\n\
INSERT INTO users VALUES (1, 'Alice');\n\
INSERT INTO users VALUES (2, 'Bob');\n";

fn engine_with_users() -> SimpleStorageEngine {
    let mut engine = SimpleStorageEngine::new("unused.json");
    assert_eq!(execute_sql_and_get_output(USERS, &mut engine), Ok(String::new()));
    engine
}

#[test]
fn select_all_prints_the_table() {
    let mut engine = engine_with_users();
    let out = execute_sql_and_get_output("SELECT * FROM users;", &mut engine);
    assert_eq!(out, Ok("| id  | name  |\n| --- | ----- |\n| 1   | Alice |\n| 2   | Bob   |\n".to_string()));
}

#[test]
fn select_with_equality_filters_rows() {
    let mut engine = engine_with_users();
    let out = execute_sql_and_get_output("SELECT id FROM users WHERE name = 'Bob';", &mut engine);
    assert_eq!(out, Ok("| id  |\n| --- |\n| 2   |\n".to_string()));
}

#[test]
fn outputs_of_several_queries_are_joined_by_newlines() {
    let mut engine = engine_with_users();
    let out = execute_sql(
        "SELECT id FROM users WHERE id = 1;\nSELECT name FROM users WHERE id = 2;",
        &mut engine,
    );
    assert_eq!(out, Ok("| id  |\n| --- |\n| 1   |\n\n| name |\n| ---- |\n| Bob  |\n".to_string()));
}

#[test]
fn queries_without_rows_print_nothing() {
    let mut engine = SimpleStorageEngine::new("unused.json");
    let out = execute_sql_and_get_output("CREATE TABLE t (a INT);\nSELECT * FROM t;", &mut engine);
    assert_eq!(out, Ok(String::new()));
}

#[test]
fn missing_table_is_an_execution_error() {
    let mut engine = SimpleStorageEngine::new("unused.json");
    let out = execute_sql_and_get_output("INSERT INTO missing VALUES (1);", &mut engine);
    assert_eq!(out, Err("Execution error: StorageError(\"Error: Table 'missing' does not exist.\")".to_string()));
}

#[test]
fn not_null_column_must_be_given() {
    let mut engine = engine_with_users();
    let out = execute_sql_and_get_output("INSERT INTO users (id) VALUES (3);", &mut engine);
    assert_eq!(
        out,
        Err("Execution error: StorageError(\"NOT NULL constraint violation: column 'name' cannot be NULL. You must provide a value for this column.\")".to_string())
    );
}

#[test]
fn value_counts_must_match() {
    let mut engine = engine_with_users();
    assert_eq!(
        execute_sql_and_get_output("INSERT INTO users VALUES (3);", &mut engine),
        Err("Execution error: StorageError(\"Error: Number of values (1) doesn't match number of table columns (2)\")".to_string())
    );
    assert_eq!(
        execute_sql_and_get_output("INSERT INTO users (id, name) VALUES (3);", &mut engine),
        Err("Execution error: StorageError(\"Error: Number of values (1) doesn't match number of specified columns (2)\")".to_string())
    );
}

#[test]
fn listed_columns_must_exist() {
    let mut engine = engine_with_users();
    assert_eq!(
        execute_sql_and_get_output("INSERT INTO users (id, age) VALUES (3, 4);", &mut engine),
        Err("Execution error: StorageError(\"Error: Column 'age' does not exist in table 'users'\")".to_string())
    );
}

#[test]
fn listed_columns_are_placed_by_name() {
    let mut engine = engine_with_users();
    assert_eq!(execute_sql_and_get_output("INSERT INTO users (name, id) VALUES ('Carol', 3);", &mut engine), Ok(String::new()));
    let out = execute_sql_and_get_output("SELECT name FROM users WHERE id = 3;", &mut engine);
    assert_eq!(out, Ok("| name  |\n| ----- |\n| Carol |\n".to_string()));
}

#[test]
fn expressions_without_from_are_evaluated() {
    let mut engine = SimpleStorageEngine::new("unused.json");
    assert_eq!(
        execute_sql_and_get_output("SELECT 1 + 2 * 3;", &mut engine),
        Ok("| 1 + 2 * 3 |\n| --------- |\n| 7         |\n".to_string())
    );
    assert_eq!(
        execute_sql_and_get_output("SELECT 7 / 2, 'x';", &mut engine),
        Ok("| 7 / 2 | x   |\n| ----- | --- |\n| 3     | x   |\n".to_string())
    );
}

#[test]
fn division_by_zero_is_a_syntax_error() {
    let mut engine = SimpleStorageEngine::new("unused.json");
    assert_eq!(execute_sql_and_get_output("SELECT 1 / 0;", &mut engine), Err("Execution error: SyntaxError".to_string()));
}

#[test]
fn out_of_range_arithmetic_stops_the_script() {
    let mut engine = SimpleStorageEngine::new("unused.json");
    assert_eq!(
        execute_sql_and_get_output("SELECT 2147483647 + 1;", &mut engine),
        Err("Execution error: the query cannot be evaluated".to_string())
    );
}

#[test]
fn update_changes_matching_rows() {
    let mut engine = engine_with_users();
    assert_eq!(execute_sql_and_get_output("UPDATE users SET name = 'Carol' WHERE id = 2;", &mut engine), Ok(String::new()));
    let out = execute_sql_and_get_output("SELECT name FROM users WHERE id = 2;", &mut engine);
    assert_eq!(out, Ok("| name  |\n| ----- |\n| Carol |\n".to_string()));
}

#[test]
fn dropped_table_cannot_be_queried() {
    let mut engine = engine_with_users();
    assert_eq!(execute_sql_and_get_output("DROP TABLE users;", &mut engine), Ok(String::new()));
    assert_eq!(
        execute_sql_and_get_output("SELECT * FROM users;", &mut engine),
        Err("Execution error: StorageError(\"Error: Table 'users' does not exist.\")".to_string())
    );
}

#[test]
fn unsupported_statements_are_refused() {
    let mut engine = engine_with_users();
    assert_eq!(
        execute_sql_and_get_output("CREATE VIEW v AS SELECT 1;", &mut engine),
        Err("Execution error: UnsupportedStatement".to_string())
    );
}

#[test]
fn comments_blank_lines_and_crlf_are_handled() {
    let mut engine = SimpleStorageEngine::new("unused.json");
    let out = execute_sql_and_get_output(
        "CREATE TABLE t (a INT);\r\n-- a comment\r\n\r\n   \r\nINSERT INTO t VALUES (5);\r\nSELECT * FROM t;\r\n",
        &mut engine,
    );
    assert_eq!(out, Ok("| a   |\n| --- |\n| 5   |\n".to_string()));
}

#[test]
fn statements_may_span_lines() {
    let mut engine = SimpleStorageEngine::new("unused.json");
    let out = execute_sql_and_get_output(
        "CREATE TABLE t (\n  a INT,\n  b VARCHAR(10)\n);\nINSERT INTO t\n  VALUES (1, 'x');\nSELECT b\nFROM t;",
        &mut engine,
    );
    assert_eq!(out, Ok("| b   |\n| --- |\n| x   |\n".to_string()));
}

#[test]
fn text_after_the_last_semicolon_is_ignored() {
    let statements = parse_multiple_sql_statements("CREATE TABLE t (a INT);\nSELECT * FROM t").unwrap();
    assert_eq!(statements.len(), 1);
    assert!(matches!(statements[0], SqlStatement::CreateTable { .. }));
}

#[test]
fn comment_lines_are_skipped() {
    let statements = parse_multiple_sql_statements("-- only a comment;\n\n  -- another;\n").unwrap();
    assert!(statements.is_empty());
}

#[test]
fn parse_errors_name_the_statement() {
    let err = parse_multiple_sql_statements("CREATE TABLE t (a INT);\nSELEC * FROM t;").unwrap_err();
    assert!(err.starts_with("Parse error for 'SELEC * FROM t;': "), "{}", err);
    let mut engine = SimpleStorageEngine::new("unused.json");
    let out = execute_sql_and_get_output("CREATE TABLE t (a INT);\nSELEC * FROM t;", &mut engine);
    assert_eq!(out, Err(err));
    assert_eq!(execute_sql_and_get_output("SELECT * FROM t;", &mut engine), Err("Execution error: StorageError(\"Error: Table 't' does not exist.\")".to_string()));
}

#[test]
fn a_failing_statement_keeps_earlier_changes() {
    let mut engine = SimpleStorageEngine::new("unused.json");
    let out = execute_sql_and_get_output("CREATE TABLE t (a INT);\nINSERT INTO t VALUES (1), (2, 3);", &mut engine);
    assert_eq!(
        out,
        Err("Execution error: StorageError(\"Error: Number of values (2) doesn't match number of table columns (1)\")".to_string())
    );
    assert_eq!(execute_sql_and_get_output("SELECT * FROM t;", &mut engine), Ok("| a   |\n| --- |\n| 1   |\n".to_string()));
}

#[test]
fn queries_leave_the_tables_unchanged() {
    let mut engine = engine_with_users();
    let first = execute_sql_and_get_output("SELECT * FROM users;\nSELECT 1 + 1;", &mut engine);
    let second = execute_sql_and_get_output("SELECT * FROM users;\nSELECT 1 + 1;", &mut engine);
    assert_eq!(first, second);
    assert_eq!(engine.table_count(), 1);
}

#[test]
fn outputs_are_compared_trimmed_with_lf_endings() {
    assert_eq!(normalized_output("  | a |\r\n| - |\r\n\r\n"), "| a |\n| - |");
    assert_eq!(normalized_output("x\r\ry\r\n"), "x\r\ry");
    assert_eq!(normalized_output("\r\r\n\n"), "");
    assert_eq!(normalized_output("a\r\r\nb"), "a\r\nb");
}

#[test]
fn delete_removes_the_rows_its_condition_picks() {
    let mut engine = engine_with_users();
    assert_eq!(execute_sql_and_get_output("DELETE FROM users WHERE id = 1;", &mut engine), Ok(String::new()));
    assert_eq!(
        execute_sql_and_get_output("SELECT * FROM users;", &mut engine),
        Ok("| id  | name |\n| --- | ---- |\n| 2   | Bob  |\n".to_string())
    );
    assert_eq!(execute_sql_and_get_output("DELETE FROM users;", &mut engine), Ok(String::new()));
    assert_eq!(execute_sql_and_get_output("SELECT * FROM users;", &mut engine), Ok(String::new()));
}

#[test]
fn where_comparisons_filter_rows() {
    let mut engine = SimpleStorageEngine::new("unused.json");
    let script = "CREATE TABLE people (id INT, age INT);\n\
INSERT INTO people VALUES (1, 20), (2, 30), (3, 40);\n\
SELECT id FROM people WHERE age > 25;\n\
DELETE FROM people WHERE age < 25;\n\
SELECT id FROM people;";
    assert_eq!(
        execute_sql_and_get_output(script, &mut engine),
        Ok("| id  |\n| --- |\n| 2   |\n| 3   |\n\n| id  |\n| --- |\n| 2   |\n| 3   |\n".to_string())
    );
}

#[test]
fn every_statement_of_a_line_is_kept() {
    let statements = parse_multiple_sql_statements("CREATE TABLE t (id INT); DROP TABLE t;").unwrap();
    assert_eq!(statements.len(), 2);
    assert!(matches!(statements[0], SqlStatement::CreateTable { .. }));
    assert!(matches!(statements[1], SqlStatement::Drop { .. }));
    let mut engine = SimpleStorageEngine::new("unused.json");
    assert_eq!(execute_sql_and_get_output("CREATE TABLE t (id INT); INSERT INTO t VALUES (4); SELECT * FROM t;", &mut engine),
        Ok("| id  |\n| --- |\n| 4   |\n".to_string()));
}

#[test]
fn texts_the_parser_cannot_take_are_refused() {
    assert_eq!(
        parse_multiple_sql_statements("GRANT SELECT ON t TO u GRANTED BY 1;").unwrap_err(),
        "Parse error for 'GRANT SELECT ON t TO u GRANTED BY 1;': statement is nested too deeply or uses GRANTED BY"
            .to_string()
    );
    assert!(!parse_admissible_text("REVOKE SELECT ON t FROM u GRANTED\n  by x"));
    assert!(!parse_admissible_text("GRANT SELECT ON t TO u granted\u{3000}BY x"));
    assert!(!parse_admissible_text("GRANT SELECT ON t TO u GRANTED /* who */ BY x"));
    assert!(parse_multiple_sql_statements("CREATE TABLE g (granted_at INT, granted INT);").is_ok());
    assert!(parse_multiple_sql_statements("SELECT (1+(2*(3)));").is_ok());
    assert!(parse_multiple_sql_statements("INSERT INTO t VALUES ('nothing', 'not granted');").is_ok());
    assert!(parse_multiple_sql_statements(
        "CREATE TABLE g (a INT NOT NULL, b INT NOT NULL, c INT NOT NULL, d INT NOT NULL, e INT NOT NULL, \
         f INT NOT NULL, g INT NOT NULL, h INT NOT NULL, i INT NOT NULL);"
    )
    .is_ok());
    let deep = format!("SELECT {}1{};", "(".repeat(22), ")".repeat(22));
    assert_eq!(
        parse_multiple_sql_statements(&deep).unwrap_err(),
        format!("Parse error for '{}': statement is nested too deeply or uses GRANTED BY", deep)
    );
    assert!(!parse_admissible_text(&format!("{}SELECT 1", "EXPLAIN ".repeat(10))));
    let mut engine = SimpleStorageEngine::new("unused.json");
    assert_eq!(
        execute_sql_and_get_output("SELECT ((1));", &mut engine),
        Err("Execution error: UnsupportedStatement".to_string())
    );
}

/// The text `prefix + unit * n + tail` for the largest `n` that the parser
/// may be handed, and that `n`.
fn deepest_admitted(prefix: &str, unit: &str, tail: &str) -> (String, usize) {
    let mut n = 0;
    loop {
        let next = format!("{}{}{}", prefix, unit.repeat(n + 1), tail);
        if !parse_admissible_text(&next) {
            return (format!("{}{}{}", prefix, unit.repeat(n), tail), n);
        }
        n += 1;
    }
}

/// The deepest text of a pattern that the parser may be handed comes back
/// from it, and so does a text twice as deep, handed to the parser itself.
fn deepest_parses(prefix: &str, unit: &str, tail: &str, at_least: usize) {
    let (text, n) = deepest_admitted(prefix, unit, tail);
    assert!(n >= at_least, "only {} repetitions admitted", n);
    let _ = parse_statements(&text);
    let twice = format!("{}{}{}", prefix, unit.repeat(2 * n), tail);
    let _ = sqlparser::parser::Parser::parse_sql(&sqlparser::dialect::GenericDialect {}, &twice);
}

#[test]
fn deepest_bracket_chain_returns() {
    deepest_parses("SELECT ", "(", "1", 20);
}

#[test]
fn deepest_query_bracket_chain_returns() {
    deepest_parses("", "(", "SELECT 1", 20);
}

#[test]
fn deepest_subquery_chain_returns() {
    deepest_parses("SELECT ", "(SELECT ", "1", 13);
}

#[test]
fn deepest_explain_chain_returns() {
    deepest_parses("", "EXPLAIN ", "SELECT 1", 8);
}

#[test]
fn deepest_prepare_chain_returns() {
    deepest_parses("", "PREPARE a AS ", "SELECT 1", 7);
}

#[test]
fn deepest_not_chain_returns() {
    deepest_parses("SELECT ", "NOT ", "1", 45);
}

#[test]
fn deepest_sign_chain_returns() {
    deepest_parses("SELECT ", "- ", "1", 45);
}

#[test]
fn deepest_negative_product_returns() {
    deepest_parses("SELECT 1", " * -1", "", 25);
}

#[test]
fn deepest_function_chain_returns() {
    deepest_parses("SELECT ", "f(", "1", 40);
}

#[test]
fn deepest_case_chain_returns() {
    deepest_parses("SELECT ", "CASE ", "1", 30);
}

#[test]
fn deepest_interval_chain_returns() {
    deepest_parses("SELECT ", "INTERVAL ", "'1'", 30);
}

#[test]
fn deepest_sum_bracket_chain_returns() {
    deepest_parses("SELECT ", "(1 + ", "1", 20);
}

#[test]
fn long_value_lists_are_admitted() {
    let rows = vec!["(1, 'a')"; 25].join(", ");
    let text = format!("INSERT INTO t VALUES {};", rows);
    assert!(parse_admissible_text(&text));
    assert_eq!(parse_statements(&text).unwrap().len(), 1);
}

#[test]
fn deepest_array_chain_returns() {
    deepest_parses("SELECT ", "[", "1", 20);
}

#[test]
fn deepest_common_table_chain_returns() {
    deepest_parses("", "WITH a AS (", "SELECT 1", 12);
}

#[test]
fn deepest_joined_table_chain_returns() {
    deepest_parses("SELECT * FROM ", "(", "t", 20);
}

#[test]
fn longest_sum_chain_returns() {
    let (text, n) = deepest_admitted("SELECT 1", " + 1", ";");
    assert!(n >= 30);
    assert_eq!(parse_statements(&text).unwrap().len(), 1);
}
