//! The storage engine interface: the values, rows and schemas that tables
//! hold, the conditions of `WHERE` clauses, and the `StorageEngine` trait
//! that the executor drives.
//!
//! Each type has a view made of mathematical values. An engine is described
//! by its tables, viewed as a map from table name to `TableModel`, and by a
//! model function per operation saying what the operation answers and what
//! tables it leaves, for any given tables.
use vstd::prelude::*;

verus! {

/// A value stored in a table.
#[derive(Debug, PartialEq)]
pub enum Value {
    Int(i32),
    Varchar(String),
    Null,
}

/// The view of a `Value`.
pub enum ValueModel {
    Int(i32),
    Varchar(Seq<char>),
    Null,
}

impl View for Value {
    type V = ValueModel;

    open spec fn view(&self) -> ValueModel {
        match self {
            Value::Int(n) => ValueModel::Int(*n),
            Value::Varchar(s) => ValueModel::Varchar(s@),
            Value::Null => ValueModel::Null,
        }
    }
}

impl Clone for Value {
    fn clone(&self) -> (r: Self)
        ensures
            r@ == self@,
    {
        match self {
            Value::Int(n) => Value::Int(*n),
            Value::Varchar(s) => Value::Varchar(s.clone()),
            Value::Null => Value::Null,
        }
    }
}

impl Value {
    /// Whether two values are equal: same variant and same contents.
    pub fn equals(&self, other: &Value) -> (r: bool)
        ensures
            r == (self@ == other@),
    {
        match (self, other) {
            (Value::Int(a), Value::Int(b)) => *a == *b,
            (Value::Varchar(a), Value::Varchar(b)) => a.eq(b),
            (Value::Null, Value::Null) => true,
            _ => false,
        }
    }
}

/// A column's type: `INT` with a width in bits, or `VARCHAR` with a
/// maximum length.
#[derive(Debug, Clone, Copy, PartialEq, Eq, Structural)]
pub enum DataType {
    Int(u32),
    Varchar(u32),
}

/// A constraint on a column.
#[derive(Debug, Clone, Copy, PartialEq, Eq, Structural)]
pub enum Constraint {
    PrimaryKey,
    NotNull,
}

/// A column of a table: name, type and constraints.
#[derive(Debug, PartialEq)]
pub struct ColumnDefinition {
    pub name: String,
    pub data_type: DataType,
    pub constraints: Vec<Constraint>,
}

/// The view of a `ColumnDefinition`.
pub struct ColumnModel {
    pub name: Seq<char>,
    pub data_type: DataType,
    pub constraints: Seq<Constraint>,
}

impl View for ColumnDefinition {
    type V = ColumnModel;

    open spec fn view(&self) -> ColumnModel {
        ColumnModel { name: self.name@, data_type: self.data_type, constraints: self.constraints@ }
    }
}

impl Clone for ColumnDefinition {
    fn clone(&self) -> (r: Self)
        ensures
            r@ == self@,
    {
        let constraints = self.constraints.clone();
        assert(constraints@ =~= self.constraints@);
        ColumnDefinition { name: self.name.clone(), data_type: self.data_type, constraints }
    }
}

/// The structure of a table: its columns in order.
#[derive(Debug, PartialEq)]
pub struct Schema {
    pub columns: Vec<ColumnDefinition>,
}

impl View for Schema {
    type V = Seq<ColumnModel>;

    open spec fn view(&self) -> Seq<ColumnModel> {
        self.columns@.map_values(|c: ColumnDefinition| c@)
    }
}

impl Clone for Schema {
    fn clone(&self) -> (r: Self)
        ensures
            r@ == self@,
    {
        let mut columns: Vec<ColumnDefinition> = Vec::new();
        let mut i: usize = 0;
        while i < self.columns.len()
            invariant
                i <= self.columns@.len(),
                columns@.len() == i,
                forall|j: int| 0 <= j < i ==> #[trigger] columns@[j]@ == self.columns@[j]@,
            decreases self.columns@.len() - i,
        {
            columns.push(self.columns[i].clone());
            i = i + 1;
        }
        let r = Schema { columns };
        assert(r@ =~= self@);
        r
    }
}

/// One row of a table: a value per column.
#[derive(Debug, PartialEq)]
pub struct Row {
    pub values: Vec<Value>,
}

impl View for Row {
    type V = Seq<ValueModel>;

    open spec fn view(&self) -> Seq<ValueModel> {
        self.values@.map_values(|v: Value| v@)
    }
}

/// Copies a list of values.
pub fn clone_values(values: &Vec<Value>) -> (r: Vec<Value>)
    ensures
        r@.map_values(|v: Value| v@) == values@.map_values(|v: Value| v@),
{
    let mut out: Vec<Value> = Vec::new();
    let mut i: usize = 0;
    while i < values.len()
        invariant
            i <= values@.len(),
            out@.len() == i,
            forall|j: int| 0 <= j < i ==> #[trigger] out@[j]@ == values@[j]@,
        decreases values@.len() - i,
    {
        out.push(values[i].clone());
        i = i + 1;
    }
    assert(out@.map_values(|v: Value| v@) =~= values@.map_values(|v: Value| v@));
    out
}

impl Clone for Row {
    fn clone(&self) -> (r: Self)
        ensures
            r@ == self@,
    {
        Row { values: clone_values(&self.values) }
    }
}

/// A condition of a `WHERE` clause on one column.
#[derive(Debug, PartialEq)]
pub enum Condition {
    Equals(String, Value),
    GreaterThan(String, Value),
    LessThan(String, Value),
    IsNull(String),
    IsNotNull(String),
}

/// The view of a `Condition`.
pub enum ConditionModel {
    Equals(Seq<char>, ValueModel),
    GreaterThan(Seq<char>, ValueModel),
    LessThan(Seq<char>, ValueModel),
    IsNull(Seq<char>),
    IsNotNull(Seq<char>),
}

impl View for Condition {
    type V = ConditionModel;

    open spec fn view(&self) -> ConditionModel {
        match self {
            Condition::Equals(c, v) => ConditionModel::Equals(c@, v@),
            Condition::GreaterThan(c, v) => ConditionModel::GreaterThan(c@, v@),
            Condition::LessThan(c, v) => ConditionModel::LessThan(c@, v@),
            Condition::IsNull(c) => ConditionModel::IsNull(c@),
            Condition::IsNotNull(c) => ConditionModel::IsNotNull(c@),
        }
    }
}

impl Clone for Condition {
    fn clone(&self) -> (r: Self)
        ensures
            r@ == self@,
    {
        match self {
            Condition::Equals(c, v) => Condition::Equals(c.clone(), v.clone()),
            Condition::GreaterThan(c, v) => Condition::GreaterThan(c.clone(), v.clone()),
            Condition::LessThan(c, v) => Condition::LessThan(c.clone(), v.clone()),
            Condition::IsNull(c) => Condition::IsNull(c.clone()),
            Condition::IsNotNull(c) => Condition::IsNotNull(c.clone()),
        }
    }
}

/// The view of an optional condition.
pub open spec fn condition_view(c: Option<Condition>) -> Option<ConditionModel> {
    match c {
        Some(c) => Some(c@),
        None => None,
    }
}

/// A table's schema and rows.
pub struct TableModel {
    pub schema: Seq<ColumnModel>,
    pub rows: Seq<Seq<ValueModel>>,
}

/// The tables of an engine, by name.
pub type DbModel = Map<Seq<char>, TableModel>;

/// The view of a result whose error is a message.
pub open spec fn message_result<T>(r: Result<T, String>) -> Result<T, Seq<char>> {
    match r {
        Ok(t) => Ok(t),
        Err(e) => Err(e@),
    }
}

/// The view of a list of rows.
pub open spec fn rows_view(rows: Seq<Row>) -> Seq<Seq<ValueModel>> {
    rows.map_values(|r: Row| r@)
}

/// The view of a list of names.
pub open spec fn names_view(names: Seq<String>) -> Seq<Seq<char>> {
    names.map_values(|n: String| n@)
}

/// The view of a list of column updates.
pub open spec fn updates_view(updates: Seq<(String, Value)>) -> Seq<(Seq<char>, ValueModel)> {
    updates.map_values(|u: (String, Value)| (u.0@, u.1@))
}

/// The view of a result holding rows.
pub open spec fn rows_result(r: Result<Vec<Row>, String>) -> Result<Seq<Seq<ValueModel>>, Seq<char>> {
    match r {
        Ok(rows) => Ok(rows_view(rows@)),
        Err(e) => Err(e@),
    }
}

/// The view of a result holding a schema.
pub open spec fn schema_result(r: Result<Schema, String>) -> Result<Seq<ColumnModel>, Seq<char>> {
    match r {
        Ok(s) => Ok(s@),
        Err(e) => Err(e@),
    }
}

/// A storage engine: a set of named tables.
///
/// An engine's behaviour is given by one model function per operation,
/// from the engine's tables (`db`) and the operation's arguments to what
/// the operation answers and, for those that change the engine, the tables
/// that it leaves. An engine that does not describe itself keeps the
/// defaults, under which nothing is known of its tables or operations.
pub trait StorageEngine {
    /// The engine's internal consistency, which every operation keeps.
    open spec fn valid(&self) -> bool {
        true
    }

    /// The engine's tables, by name.
    open spec fn db(&self) -> DbModel {
        arbitrary()
    }

    /// What `create_table` leaves and answers.
    open spec fn create_table_model(db: DbModel, table_name: Seq<char>, schema: Seq<ColumnModel>) -> (DbModel, Result<(), Seq<char>>) {
        arbitrary()
    }

    /// What `drop_table` leaves and answers.
    open spec fn drop_table_model(db: DbModel, table_name: Seq<char>) -> (DbModel, Result<(), Seq<char>>) {
        arbitrary()
    }

    /// What `insert_row` leaves and answers.
    open spec fn insert_row_model(db: DbModel, table_name: Seq<char>, row: Seq<ValueModel>) -> (DbModel, Result<(), Seq<char>>) {
        arbitrary()
    }

    /// What `update_rows` leaves and answers.
    open spec fn update_rows_model(
        db: DbModel,
        table_name: Seq<char>,
        updates: Seq<(Seq<char>, ValueModel)>,
        condition: Option<ConditionModel>,
    ) -> (DbModel, Result<u64, Seq<char>>) {
        arbitrary()
    }

    /// What `delete_rows` leaves and answers.
    open spec fn delete_rows_model(db: DbModel, table_name: Seq<char>, condition: Option<ConditionModel>) -> (DbModel, Result<u64, Seq<char>>) {
        arbitrary()
    }

    /// What `select_rows` answers.
    open spec fn select_rows_model(
        db: DbModel,
        table_name: Seq<char>,
        columns: Seq<Seq<char>>,
        condition: Option<ConditionModel>,
    ) -> Result<Seq<Seq<ValueModel>>, Seq<char>> {
        arbitrary()
    }

    /// What `get_table_schema` answers.
    open spec fn get_table_schema_model(db: DbModel, table_name: Seq<char>) -> Result<Seq<ColumnModel>, Seq<char>> {
        arbitrary()
    }

    /// Creates a table with the given schema.
    fn create_table(&mut self, table_name: &str, schema: Schema) -> (r: Result<(), String>)
        requires
            old(self).valid(),
        ensures
            final(self).valid(),
            Self::create_table_model(old(self).db(), table_name@, schema@) == (final(self).db(), message_result(r)),
    ;

    /// Drops a table.
    fn drop_table(&mut self, table_name: &str) -> (r: Result<(), String>)
        requires
            old(self).valid(),
        ensures
            final(self).valid(),
            Self::drop_table_model(old(self).db(), table_name@) == (final(self).db(), message_result(r)),
    ;

    /// Inserts a row.
    fn insert_row(&mut self, table_name: &str, row: Row) -> (r: Result<(), String>)
        requires
            old(self).valid(),
        ensures
            final(self).valid(),
            Self::insert_row_model(old(self).db(), table_name@, row@) == (final(self).db(), message_result(r)),
    ;

    /// Updates the rows that satisfy the condition; answers their number.
    fn update_rows(&mut self, table_name: &str, updates: Vec<(String, Value)>, condition: Option<Condition>) -> (r: Result<u64, String>)
        requires
            old(self).valid(),
        ensures
            final(self).valid(),
            Self::update_rows_model(old(self).db(), table_name@, updates_view(updates@), condition_view(condition))
                == (final(self).db(), message_result(r)),
    ;

    /// Deletes the rows that satisfy the condition; answers their number.
    fn delete_rows(&mut self, table_name: &str, condition: Option<Condition>) -> (r: Result<u64, String>)
        requires
            old(self).valid(),
        ensures
            final(self).valid(),
            Self::delete_rows_model(old(self).db(), table_name@, condition_view(condition)) == (final(self).db(), message_result(r)),
    ;

    /// The rows that satisfy the condition, holding the named columns.
    fn select_rows(&self, table_name: &str, columns: Vec<String>, condition: Option<Condition>) -> (r: Result<Vec<Row>, String>)
        requires
            self.valid(),
        ensures
            rows_result(r) == Self::select_rows_model(self.db(), table_name@, names_view(columns@), condition_view(condition)),
    ;

    /// The schema of a table.
    fn get_table_schema(&self, table_name: &str) -> (r: Result<Schema, String>)
        requires
            self.valid(),
        ensures
            schema_result(r) == Self::get_table_schema_model(self.db(), table_name@),
    ;
}

} // verus!
