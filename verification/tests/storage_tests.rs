use rusty_database::storage::{SimpleStorageEngine, Table};
use rusty_database::storage_engine_interface::{
    ColumnDefinition, Condition, Constraint, DataType, Row, Schema, StorageEngine, Value,
};

fn schema() -> Schema {
    Schema {
        columns: vec![
            ColumnDefinition { name: "id".to_string(), data_type: DataType::Int(32), constraints: vec![Constraint::PrimaryKey] },
            ColumnDefinition { name: "name".to_string(), data_type: DataType::Varchar(20), constraints: vec![] },
        ],
    }
}

fn row(id: i32, name: &str) -> Row {
    Row { values: vec![Value::Int(id), Value::Varchar(name.to_string())] }
}

fn engine() -> SimpleStorageEngine {
    let mut e = SimpleStorageEngine::new("data.json");
    e.create_table("t", schema()).unwrap();
    e.insert_row("t", row(1, "a")).unwrap();
    e.insert_row("t", row(2, "b")).unwrap();
    e.insert_row("t", row(3, "b")).unwrap();
    e
}

fn all() -> Vec<String> {
    vec!["*".to_string()]
}

#[test]
fn new_engine_remembers_its_file() {
    let e = SimpleStorageEngine::new("some/path.json");
    assert_eq!(e.file_path(), "some/path.json");
    assert_eq!(e.table_count(), 0);
}

#[test]
fn created_table_has_its_schema_and_no_rows() {
    let mut e = SimpleStorageEngine::new("data.json");
    assert_eq!(e.create_table("t", schema()), Ok(()));
    assert_eq!(e.get_table_schema("t"), Ok(schema()));
    assert_eq!(e.select_rows("t", all(), None), Ok(vec![]));
}

#[test]
fn creating_an_existing_table_is_refused() {
    let mut e = engine();
    assert_eq!(e.create_table("t", schema()), Err("Error: Table 't' already exists.".to_string()));
    assert_eq!(e.select_rows("t", all(), None).unwrap().len(), 3);
}

#[test]
fn dropped_table_is_gone() {
    let mut e = engine();
    assert_eq!(e.drop_table("t"), Ok(()));
    assert_eq!(e.get_table_schema("t"), Err("Error: Table 't' does not exist.".to_string()));
    assert_eq!(e.drop_table("t"), Err("Error: Table 't' does not exist.".to_string()));
}

#[test]
fn inserted_row_is_selected_last() {
    let mut e = engine();
    e.insert_row("t", row(4, "d")).unwrap();
    let rows = e.select_rows("t", all(), None).unwrap();
    assert_eq!(rows, vec![row(1, "a"), row(2, "b"), row(3, "b"), row(4, "d")]);
}

#[test]
fn rows_must_fit_the_schema() {
    let mut e = engine();
    assert_eq!(
        e.insert_row("t", Row { values: vec![Value::Int(9)] }),
        Err("Error: Row values do not match table schema.".to_string())
    );
    assert_eq!(
        e.insert_row("t", Row { values: vec![Value::Varchar("x".to_string()), Value::Null] }),
        Err("Error: Value 'Varchar(\"x\")' does not match column type 'INT(32)'.".to_string())
    );
    assert_eq!(
        e.insert_row("t", Row { values: vec![Value::Int(5), Value::Int(6)] }),
        Err("Error: Value 'Int(6)' does not match column type 'VARCHAR(20)'.".to_string())
    );
    assert_eq!(e.insert_row("t", Row { values: vec![Value::Null, Value::Null] }), Ok(()));
    assert_eq!(e.insert_row("u", row(1, "a")), Err("Error: Table 'u' does not exist.".to_string()));
}

#[test]
fn select_projects_and_filters_by_equality() {
    let e = engine();
    let rows = e
        .select_rows("t", vec!["name".to_string(), "id".to_string()], Some(Condition::Equals("name".to_string(), Value::Varchar("b".to_string()))))
        .unwrap();
    assert_eq!(
        rows,
        vec![
            Row { values: vec![Value::Varchar("b".to_string()), Value::Int(2)] },
            Row { values: vec![Value::Varchar("b".to_string()), Value::Int(3)] },
        ]
    );
    let none = e.select_rows("t", all(), Some(Condition::Equals("nope".to_string(), Value::Int(1)))).unwrap();
    assert!(none.is_empty());
    let unknown_columns = e.select_rows("t", vec!["zzz".to_string()], None).unwrap();
    assert_eq!(unknown_columns, vec![Row { values: vec![] }, Row { values: vec![] }, Row { values: vec![] }]);
}

#[test]
fn comparisons_and_null_tests_filter() {
    let mut e = engine();
    e.insert_row("t", Row { values: vec![Value::Int(5), Value::Null] }).unwrap();
    let gt = e.select_rows("t", vec!["id".to_string()], Some(Condition::GreaterThan("id".to_string(), Value::Int(2)))).unwrap();
    assert_eq!(gt, vec![Row { values: vec![Value::Int(3)] }, Row { values: vec![Value::Int(5)] }]);
    let lt = e.select_rows("t", vec!["id".to_string()], Some(Condition::LessThan("id".to_string(), Value::Int(2)))).unwrap();
    assert_eq!(lt, vec![Row { values: vec![Value::Int(1)] }]);
    let none = e.select_rows("t", all(), Some(Condition::GreaterThan("id".to_string(), Value::Int(100)))).unwrap();
    assert!(none.is_empty());
    let strings = e.select_rows("t", vec!["id".to_string()], Some(Condition::GreaterThan("name".to_string(), Value::Varchar("a".to_string())))).unwrap();
    assert_eq!(strings, vec![Row { values: vec![Value::Int(2)] }, Row { values: vec![Value::Int(3)] }]);
    let mixed = e.select_rows("t", all(), Some(Condition::LessThan("id".to_string(), Value::Varchar("9".to_string())))).unwrap();
    assert!(mixed.is_empty());
    let nulls = e.select_rows("t", vec!["id".to_string()], Some(Condition::IsNull("name".to_string()))).unwrap();
    assert_eq!(nulls, vec![Row { values: vec![Value::Int(5)] }]);
    let not_nulls = e.select_rows("t", vec!["id".to_string()], Some(Condition::IsNotNull("name".to_string()))).unwrap();
    assert_eq!(not_nulls.len(), 3);
    let unknown = e.select_rows("t", all(), Some(Condition::IsNull("zzz".to_string()))).unwrap();
    assert!(unknown.is_empty());
}

#[test]
fn texts_compare_in_str_order() {
    let mut e = SimpleStorageEngine::new("data.json");
    e.create_table("t", schema()).unwrap();
    for (id, name) in [(1, "Al"), (2, "Alice"), (3, "Bob"), (4, "alice"), (5, "Émile")] {
        e.insert_row("t", row(id, name)).unwrap();
    }
    let ids = |rows: Vec<Row>| rows.into_iter().map(|r| r.values[0].clone()).collect::<Vec<Value>>();
    let before_alice = e.select_rows("t", vec!["id".to_string()], Some(Condition::LessThan("name".to_string(), Value::Varchar("Alice".to_string())))).unwrap();
    assert_eq!(ids(before_alice), vec![Value::Int(1)]);
    let after_bob = e.select_rows("t", vec!["id".to_string()], Some(Condition::GreaterThan("name".to_string(), Value::Varchar("Bob".to_string())))).unwrap();
    assert_eq!(ids(after_bob), vec![Value::Int(4), Value::Int(5)]);
}

#[test]
fn delete_with_less_than_removes_only_smaller_rows() {
    let mut e = SimpleStorageEngine::new("data.json");
    e.create_table("t", schema()).unwrap();
    e.insert_row("t", row(1, "a")).unwrap();
    e.insert_row("t", row(5, "b")).unwrap();
    assert_eq!(e.delete_rows("t", Some(Condition::LessThan("id".to_string(), Value::Int(3)))), Ok(1));
    assert_eq!(e.select_rows("t", all(), None).unwrap(), vec![row(5, "b")]);
}

#[test]
fn update_with_greater_than_changes_only_larger_rows() {
    let mut e = engine();
    let n = e
        .update_rows("t", vec![("name".to_string(), Value::Varchar("big".to_string()))], Some(Condition::GreaterThan("id".to_string(), Value::Int(1))))
        .unwrap();
    assert_eq!(n, 2);
    assert_eq!(e.select_rows("t", all(), None).unwrap(), vec![row(1, "a"), row(2, "big"), row(3, "big")]);
}

#[test]
fn update_changes_matching_rows_and_counts_them() {
    let mut e = engine();
    let n = e
        .update_rows(
            "t",
            vec![("name".to_string(), Value::Varchar("z".to_string())), ("missing".to_string(), Value::Int(0))],
            Some(Condition::Equals("name".to_string(), Value::Varchar("b".to_string()))),
        )
        .unwrap();
    assert_eq!(n, 2);
    assert_eq!(e.select_rows("t", all(), None).unwrap(), vec![row(1, "a"), row(2, "z"), row(3, "z")]);
    assert_eq!(e.update_rows("t", vec![], None), Ok(3));
    assert_eq!(e.update_rows("u", vec![], None), Err("Error: Table 'u' does not exist.".to_string()));
}

#[test]
fn delete_removes_matching_rows_and_counts_them() {
    let mut e = engine();
    assert_eq!(e.delete_rows("t", Some(Condition::Equals("id".to_string(), Value::Int(2)))), Ok(1));
    assert_eq!(e.select_rows("t", all(), None).unwrap(), vec![row(1, "a"), row(3, "b")]);
    assert_eq!(e.delete_rows("t", None), Ok(2));
    assert!(e.select_rows("t", all(), None).unwrap().is_empty());
}

#[test]
fn operations_leave_other_tables_alone() {
    let mut e = engine();
    e.create_table("u", schema()).unwrap();
    e.insert_row("u", row(7, "q")).unwrap();
    e.delete_rows("t", None).unwrap();
    e.drop_table("t").unwrap();
    assert_eq!(e.select_rows("u", all(), None), Ok(vec![row(7, "q")]));
}

#[test]
fn restored_tables_can_be_walked() {
    let mut e = SimpleStorageEngine::new("data.json");
    assert!(e.restore_table("t".to_string(), Table { schema: schema(), rows: vec![row(1, "a")] }));
    assert!(!e.restore_table("t".to_string(), Table { schema: schema(), rows: vec![] }));
    assert!(!e.restore_table("bad".to_string(), Table { schema: schema(), rows: vec![Row { values: vec![] }] }));
    assert_eq!(e.table_count(), 1);
    let (name, table) = e.table_at(0);
    assert_eq!(name, "t");
    assert_eq!(table.rows, vec![row(1, "a")]);
    assert_eq!(e.select_rows("t", all(), None), Ok(vec![row(1, "a")]));
}

#[test]
fn table_walk_names_every_table_once() {
    let mut e = SimpleStorageEngine::new("data.json");
    for name in ["a", "b", "c"] {
        e.create_table(name, schema()).unwrap();
    }
    e.drop_table("b").unwrap();
    let mut names: Vec<String> = (0..e.table_count()).map(|i| e.table_at(i).0.clone()).collect();
    names.sort();
    assert_eq!(names, vec!["a".to_string(), "c".to_string()]);
}

#[test]
fn dropping_a_new_table_restores_the_tables() {
    let mut e = engine();
    e.create_table("fresh", schema()).unwrap();
    assert_eq!(e.drop_table("fresh"), Ok(()));
    assert_eq!(e.table_count(), 1);
    assert_eq!(e.select_rows("t", all(), None).unwrap().len(), 3);
}
