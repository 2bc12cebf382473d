//! `SimpleStorageEngine`: tables held in memory, looked up by name.
//!
//! A condition of a `WHERE` clause picks the rows whose value in the
//! condition's column satisfies it: `=` an equal value, `>` and `<` a
//! larger or smaller integer, `IS NULL` and `IS NOT NULL` whether the value
//! is `NULL`; a condition on a column the table lacks picks no row.
//!
//! Saving the tables to the engine's file and loading them back is left to
//! the caller.
use vstd::prelude::*;
use crate::storage_engine_interface::{
    clone_values, condition_view, message_result, names_view, rows_result, rows_view, schema_result, updates_view,
    ColumnDefinition, ColumnModel, Condition, ConditionModel, DataType, DbModel, Row, Schema, StorageEngine, TableModel,
    Value, ValueModel,
};
use crate::text::{int_decimal, push_decimal, str_equal, str_less, text_less};

verus! {

/// A table: its schema and its rows.
#[derive(Debug)]
pub struct Table {
    pub schema: Schema,
    pub rows: Vec<Row>,
}

impl View for Table {
    type V = TableModel;

    open spec fn view(&self) -> TableModel {
        TableModel { schema: self.schema@, rows: rows_view(self.rows@) }
    }
}

struct NamedTable {
    name: String,
    table: Table,
}

/// The tables of a list of named tables; a later entry wins over an
/// earlier one of the same name.
spec fn db_of(ts: Seq<NamedTable>) -> DbModel
    decreases ts.len(),
{
    if ts.len() == 0 {
        Map::empty()
    } else {
        db_of(ts.drop_last()).insert(ts.last().name@, ts.last().table@)
    }
}

spec fn distinct_names(ts: Seq<NamedTable>) -> bool {
    forall|i: int, j: int| 0 <= i < j < ts.len() ==> ts[i].name@ != ts[j].name@
}

/// Every row has one value per column of its table.
pub open spec fn rows_fit(t: TableModel) -> bool {
    forall|i: int| 0 <= i < t.rows.len() ==> #[trigger] t.rows[i].len() == t.schema.len()
}

/// The message of a refused `create_table`.
pub open spec fn already_exists_message(name: Seq<char>) -> Seq<char> {
    "Error: Table '"@ + name + "' already exists."@
}

/// The message of an operation on a table that does not exist.
pub open spec fn does_not_exist_message(name: Seq<char>) -> Seq<char> {
    "Error: Table '"@ + name + "' does not exist."@
}

/// The message of an insertion whose row has the wrong number of values.
pub open spec fn row_mismatch_message() -> Seq<char> {
    "Error: Row values do not match table schema."@
}

/// How `{:?}` prints a string, quotes and escapes included
/// (`<str as Debug>::fmt`).
pub uninterp spec fn str_debug_text(s: Seq<char>) -> Seq<char>;

/// Renders a string as `{:?}` does (`<str as Debug>::fmt`).
#[verifier::external_body]
pub(crate) fn str_debug(s: &str) -> (r: String)
    ensures
        r@ == str_debug_text(s@),
{
    format!("{:?}", s)
}

/// How `{:?}` prints a value: `Int(1)`, `Varchar("a")`, `Null`.
pub open spec fn value_debug_text(v: ValueModel) -> Seq<char> {
    match v {
        ValueModel::Int(n) => "Int("@ + int_decimal(n as int) + ")"@,
        ValueModel::Varchar(s) => "Varchar("@ + str_debug_text(s) + ")"@,
        ValueModel::Null => "Null"@,
    }
}

/// A column type as SQL writes it: `INT(32)`, `VARCHAR(255)`.
pub open spec fn data_type_text(t: DataType) -> Seq<char> {
    match t {
        DataType::Int(w) => "INT("@ + int_decimal(w as int) + ")"@,
        DataType::Varchar(n) => "VARCHAR("@ + int_decimal(n as int) + ")"@,
    }
}

/// The message of an insertion whose value does not fit its column's type.
pub open spec fn type_mismatch_message(v: ValueModel, t: DataType) -> Seq<char> {
    "Error: Value '"@ + value_debug_text(v) + "' does not match column type '"@ + data_type_text(t) + "'."@
}

/// A value fits a column type when both are integers or both are strings;
/// `NULL` fits every type.
pub open spec fn value_matches_type(v: ValueModel, t: DataType) -> bool {
    match v {
        ValueModel::Int(_) => t is Int,
        ValueModel::Varchar(_) => t is Varchar,
        ValueModel::Null => true,
    }
}

/// The index of the first column with the given name.
pub open spec fn column_position(cols: Seq<ColumnModel>, name: Seq<char>) -> Option<int>
    decreases cols.len(),
{
    if cols.len() == 0 {
        None
    } else if cols[0].name == name {
        Some(0)
    } else {
        match column_position(cols.drop_first(), name) {
            Some(i) => Some(i + 1),
            None => None,
        }
    }
}

/// The column a condition is about.
pub open spec fn condition_column(c: ConditionModel) -> Seq<char> {
    match c {
        ConditionModel::Equals(n, _) => n,
        ConditionModel::GreaterThan(n, _) => n,
        ConditionModel::LessThan(n, _) => n,
        ConditionModel::IsNull(n) => n,
        ConditionModel::IsNotNull(n) => n,
    }
}

/// Whether a value satisfies a condition: `=` holds of an equal value;
/// `>` and `<` compare two integers, or two texts in `str`'s order (a
/// pair of another kind does not satisfy them); `IS NULL` and
/// `IS NOT NULL` test for `NULL`.
pub open spec fn value_satisfies(v: ValueModel, c: ConditionModel) -> bool {
    match c {
        ConditionModel::Equals(_, e) => v == e,
        ConditionModel::GreaterThan(_, e) => match (v, e) {
            (ValueModel::Int(a), ValueModel::Int(b)) => a > b,
            (ValueModel::Varchar(a), ValueModel::Varchar(b)) => text_less(b, a),
            _ => false,
        },
        ConditionModel::LessThan(_, e) => match (v, e) {
            (ValueModel::Int(a), ValueModel::Int(b)) => a < b,
            (ValueModel::Varchar(a), ValueModel::Varchar(b)) => text_less(a, b),
            _ => false,
        },
        ConditionModel::IsNull(_) => v is Null,
        ConditionModel::IsNotNull(_) => !(v is Null),
    }
}

/// Whether a row satisfies a condition: every row satisfies no condition;
/// a condition on a column the table lacks is satisfied by no row;
/// otherwise the row's value in that column decides.
pub open spec fn simple_row_matches(cols: Seq<ColumnModel>, row: Seq<ValueModel>, condition: Option<ConditionModel>) -> bool {
    match condition {
        None => true,
        Some(c) => match column_position(cols, condition_column(c)) {
            Some(i) => value_satisfies(row[i], c),
            None => false,
        },
    }
}

/// The index of the first value that does not fit its column's type.
pub open spec fn first_type_mismatch(row: Seq<ValueModel>, cols: Seq<ColumnModel>) -> Option<int>
    decreases row.len(),
{
    if row.len() == 0 || cols.len() == 0 {
        None
    } else if !value_matches_type(row[0], cols[0].data_type) {
        Some(0)
    } else {
        match first_type_mismatch(row.drop_first(), cols.drop_first()) {
            Some(i) => Some(i + 1),
            None => None,
        }
    }
}

/// A row after the updates, applied in order; updates of unknown columns
/// are skipped.
pub open spec fn apply_updates(cols: Seq<ColumnModel>, row: Seq<ValueModel>, updates: Seq<(Seq<char>, ValueModel)>) -> Seq<ValueModel>
    decreases updates.len(),
{
    if updates.len() == 0 {
        row
    } else {
        let r = apply_updates(cols, row, updates.drop_last());
        match column_position(cols, updates.last().0) {
            Some(i) => r.update(i, updates.last().1),
            None => r,
        }
    }
}

/// The named columns of a row, in the order named; unknown names are
/// skipped, and a `*` among the names selects the whole row.
pub open spec fn project_row(cols: Seq<ColumnModel>, row: Seq<ValueModel>, columns: Seq<Seq<char>>) -> Seq<ValueModel> {
    if columns.contains("*"@) {
        row
    } else {
        project_named(cols, row, columns)
    }
}

/// The values of the named columns that exist, in the order named.
pub open spec fn project_named(cols: Seq<ColumnModel>, row: Seq<ValueModel>, columns: Seq<Seq<char>>) -> Seq<ValueModel>
    decreases columns.len(),
{
    if columns.len() == 0 {
        Seq::empty()
    } else {
        let r = project_named(cols, row, columns.drop_last());
        match column_position(cols, columns.last()) {
            Some(i) => r.push(row[i]),
            None => r,
        }
    }
}

/// What `SimpleStorageEngine::create_table` leaves and answers.
pub open spec fn simple_create_table(db: DbModel, name: Seq<char>, schema: Seq<ColumnModel>) -> (DbModel, Result<(), Seq<char>>) {
    if db.contains_key(name) {
        (db, Err(already_exists_message(name)))
    } else {
        (db.insert(name, TableModel { schema, rows: Seq::empty() }), Ok(()))
    }
}

/// What `SimpleStorageEngine::drop_table` leaves and answers.
pub open spec fn simple_drop_table(db: DbModel, name: Seq<char>) -> (DbModel, Result<(), Seq<char>>) {
    if !db.contains_key(name) {
        (db, Err(does_not_exist_message(name)))
    } else {
        (db.remove(name), Ok(()))
    }
}

/// What `SimpleStorageEngine::insert_row` leaves and answers.
pub open spec fn simple_insert_row(db: DbModel, name: Seq<char>, row: Seq<ValueModel>) -> (DbModel, Result<(), Seq<char>>) {
    if !db.contains_key(name) {
        (db, Err(does_not_exist_message(name)))
    } else {
        let t = db[name];
        if row.len() != t.schema.len() {
            (db, Err(row_mismatch_message()))
        } else {
            match first_type_mismatch(row, t.schema) {
                Some(i) => (db, Err(type_mismatch_message(row[i], t.schema[i].data_type))),
                None => (db.insert(name, TableModel { schema: t.schema, rows: t.rows.push(row) }), Ok(())),
            }
        }
    }
}

/// What `SimpleStorageEngine::update_rows` leaves and answers.
pub open spec fn simple_update_rows(
    db: DbModel,
    name: Seq<char>,
    updates: Seq<(Seq<char>, ValueModel)>,
    condition: Option<ConditionModel>,
) -> (DbModel, Result<u64, Seq<char>>) {
    if !db.contains_key(name) {
        (db, Err(does_not_exist_message(name)))
    } else {
        let t = db[name];
        let matches = |r: Seq<ValueModel>| simple_row_matches(t.schema, r, condition);
        let rows = t.rows.map_values(|r: Seq<ValueModel>| if matches(r) { apply_updates(t.schema, r, updates) } else { r });
        (db.insert(name, TableModel { schema: t.schema, rows }), Ok(t.rows.filter(matches).len() as u64))
    }
}

/// What `SimpleStorageEngine::delete_rows` leaves and answers.
pub open spec fn simple_delete_rows(db: DbModel, name: Seq<char>, condition: Option<ConditionModel>) -> (DbModel, Result<u64, Seq<char>>) {
    if !db.contains_key(name) {
        (db, Err(does_not_exist_message(name)))
    } else {
        let t = db[name];
        let kept = t.rows.filter(|r: Seq<ValueModel>| !simple_row_matches(t.schema, r, condition));
        (db.insert(name, TableModel { schema: t.schema, rows: kept }), Ok((t.rows.len() - kept.len()) as u64))
    }
}

/// What `SimpleStorageEngine::select_rows` answers.
pub open spec fn simple_select_rows(
    db: DbModel,
    name: Seq<char>,
    columns: Seq<Seq<char>>,
    condition: Option<ConditionModel>,
) -> Result<Seq<Seq<ValueModel>>, Seq<char>> {
    if !db.contains_key(name) {
        Err(does_not_exist_message(name))
    } else {
        let t = db[name];
        Ok(t.rows.filter_map(|r: Seq<ValueModel>|
            if simple_row_matches(t.schema, r, condition) { Some(project_row(t.schema, r, columns)) } else { None }))
    }
}

/// What `SimpleStorageEngine::get_table_schema` answers.
pub open spec fn simple_get_table_schema(db: DbModel, name: Seq<char>) -> Result<Seq<ColumnModel>, Seq<char>> {
    if !db.contains_key(name) {
        Err(does_not_exist_message(name))
    } else {
        Ok(db[name].schema)
    }
}

/// A storage engine that holds its tables in memory.
pub struct SimpleStorageEngine {
    tables: Vec<NamedTable>,
    file_path: String,
}

proof fn lemma_db_lookup(ts: Seq<NamedTable>, i: int)
    requires
        distinct_names(ts),
        0 <= i < ts.len(),
    ensures
        db_of(ts).contains_key(ts[i].name@),
        db_of(ts)[ts[i].name@] == ts[i].table@,
    decreases ts.len(),
{
    if i < ts.len() - 1 {
        lemma_db_lookup(ts.drop_last(), i);
    }
}

proof fn lemma_db_absent(ts: Seq<NamedTable>, name: Seq<char>)
    requires
        forall|i: int| 0 <= i < ts.len() ==> ts[i].name@ != name,
    ensures
        !db_of(ts).contains_key(name),
    decreases ts.len(),
{
    if ts.len() > 0 {
        lemma_db_absent(ts.drop_last(), name);
    }
}

proof fn lemma_db_update(ts: Seq<NamedTable>, i: int, x: NamedTable)
    requires
        distinct_names(ts),
        0 <= i < ts.len(),
        x.name@ == ts[i].name@,
    ensures
        distinct_names(ts.update(i, x)),
        db_of(ts.update(i, x)) == db_of(ts).insert(x.name@, x.table@),
    decreases ts.len(),
{
    let us = ts.update(i, x);
    if i == ts.len() - 1 {
        assert(us.drop_last() =~= ts.drop_last());
        lemma_db_absent_after(ts, i);
        assert(db_of(us) =~= db_of(ts).insert(x.name@, x.table@));
    } else {
        lemma_db_update(ts.drop_last(), i, x);
        assert(us.drop_last() =~= ts.drop_last().update(i, x));
        assert(db_of(us) =~= db_of(ts).insert(x.name@, x.table@));
    }
}

proof fn lemma_db_absent_after(ts: Seq<NamedTable>, i: int)
    requires
        distinct_names(ts),
        i == ts.len() - 1,
        0 <= i,
    ensures
        !db_of(ts.drop_last()).contains_key(ts[i].name@),
{
    lemma_db_absent(ts.drop_last(), ts[i].name@);
}

proof fn lemma_db_remove(ts: Seq<NamedTable>, i: int)
    requires
        distinct_names(ts),
        0 <= i < ts.len(),
    ensures
        distinct_names(ts.remove(i)),
        db_of(ts.remove(i)) == db_of(ts).remove(ts[i].name@),
    decreases ts.len(),
{
    let rs = ts.remove(i);
    let name = ts[i].name@;
    if i == ts.len() - 1 {
        assert(rs =~= ts.drop_last());
        lemma_db_absent_after(ts, i);
        assert(db_of(rs) =~= db_of(ts).remove(name));
    } else {
        lemma_db_remove(ts.drop_last(), i);
        assert(rs.drop_last() =~= ts.drop_last().remove(i));
        assert(rs.last() == ts.last());
        assert(ts.last().name@ != name);
        assert(db_of(rs) =~= db_of(ts).remove(name));
    }
}

proof fn lemma_db_push(ts: Seq<NamedTable>, x: NamedTable)
    requires
        distinct_names(ts),
        forall|i: int| 0 <= i < ts.len() ==> ts[i].name@ != x.name@,
    ensures
        distinct_names(ts.push(x)),
        db_of(ts.push(x)) == db_of(ts).insert(x.name@, x.table@),
{
    assert(ts.push(x).drop_last() =~= ts);
}

proof fn lemma_column_position(cols: Seq<ColumnModel>, name: Seq<char>, i: int)
    requires
        0 <= i <= cols.len(),
        forall|j: int| 0 <= j < i ==> cols[j].name != name,
    ensures
        i < cols.len() && cols[i].name == name ==> column_position(cols, name) == Some(i),
        i == cols.len() ==> column_position(cols, name) is None,
    decreases i,
{
    if i > 0 {
        lemma_column_position(cols.drop_first(), name, i - 1);
    }
}

pub(crate) proof fn lemma_column_position_range(cols: Seq<ColumnModel>, name: Seq<char>)
    ensures
        column_position(cols, name) matches Some(i) ==> 0 <= i < cols.len() && cols[i].name == name,
    decreases cols.len(),
{
    if cols.len() > 0 {
        lemma_column_position_range(cols.drop_first(), name);
    }
}

proof fn lemma_first_type_mismatch(row: Seq<ValueModel>, cols: Seq<ColumnModel>, i: int)
    requires
        row.len() == cols.len(),
        0 <= i <= row.len(),
        forall|j: int| 0 <= j < i ==> value_matches_type(row[j], cols[j].data_type),
    ensures
        i < row.len() && !value_matches_type(row[i], cols[i].data_type) ==> first_type_mismatch(row, cols) == Some(i),
        i == row.len() ==> first_type_mismatch(row, cols) is None,
    decreases i,
{
    if i > 0 {
        lemma_first_type_mismatch(row.drop_first(), cols.drop_first(), i - 1);
    }
}

/// The index of the first column named `name`.
pub(crate) fn find_column(cols: &Vec<ColumnDefinition>, name: &String) -> (r: Option<usize>)
    ensures
        match r {
            Some(i) => column_position(cols@.map_values(|c: ColumnDefinition| c@), name@) == Some(i as int),
            None => column_position(cols@.map_values(|c: ColumnDefinition| c@), name@) is None,
        },
{
    let ghost cm = cols@.map_values(|c: ColumnDefinition| c@);
    let mut i: usize = 0;
    while i < cols.len()
        invariant
            i <= cols@.len(),
            cm == cols@.map_values(|c: ColumnDefinition| c@),
            forall|j: int| 0 <= j < i ==> cm[j].name != name@,
        decreases cols@.len() - i,
    {
        if cols[i].name.eq(name) {
            proof {
                lemma_column_position(cm, name@, i as int);
            }
            return Some(i);
        }
        i = i + 1;
    }
    proof {
        lemma_column_position(cm, name@, i as int);
    }
    None
}

/// Whether a value fits a column type.
fn matches_type(v: &Value, t: DataType) -> (r: bool)
    ensures
        r == value_matches_type(v@, t),
{
    match v {
        Value::Int(_) => match t {
            DataType::Int(_) => true,
            _ => false,
        },
        Value::Varchar(_) => match t {
            DataType::Varchar(_) => true,
            _ => false,
        },
        Value::Null => true,
    }
}

fn does_not_exist(table_name: &str) -> (m: String)
    ensures
        m@ == does_not_exist_message(table_name@),
{
    let mut m = String::from_str("Error: Table '");
    m.append(table_name);
    m.append("' does not exist.");
    m
}

fn type_mismatch(v: &Value, t: DataType) -> (m: String)
    ensures
        m@ == type_mismatch_message(v@, t),
{
    let mut m = String::from_str("Error: Value '");
    match v {
        Value::Int(n) => {
            m.append("Int(");
            crate::text::push_i32(&mut m, *n);
            m.append(")");
        },
        Value::Varchar(s) => {
            m.append("Varchar(");
            let d = str_debug(s.as_str());
            m.append(d.as_str());
            m.append(")");
        },
        Value::Null => {
            m.append("Null");
        },
    }
    m.append("' does not match column type '");
    match t {
        DataType::Int(w) => {
            m.append("INT(");
            push_decimal(&mut m, w as u64);
            m.append(")");
        },
        DataType::Varchar(n) => {
            m.append("VARCHAR(");
            push_decimal(&mut m, n as u64);
            m.append(")");
        },
    }
    m.append("'.");
    proof {
        assert(m@ =~= type_mismatch_message(v@, t));
    }
    m
}

impl SimpleStorageEngine {
    spec fn inv(&self) -> bool {
        &&& distinct_names(self.tables@)
        &&& forall|i: int| 0 <= i < self.tables@.len() ==> #[trigger] rows_fit(self.tables@[i].table@)
    }

    /// The path of the file that the engine's tables are saved to.
    pub closed spec fn path(&self) -> Seq<char> {
        self.file_path@
    }

    /// Creates an engine without tables, saving to the given file.
    pub fn new(file_path: &str) -> (engine: Self)
        ensures
            engine.valid(),
            engine.db() == Map::<Seq<char>, TableModel>::empty(),
            engine.path() == file_path@,
    {
        let engine = SimpleStorageEngine { tables: Vec::new(), file_path: String::from_str(file_path) };
        assert(engine.db() =~= Map::<Seq<char>, TableModel>::empty());
        engine
    }

    /// The path of the file that the engine's tables are saved to.
    pub fn file_path(&self) -> (p: &str)
        ensures
            p@ == self.path(),
    {
        self.file_path.as_str()
    }

    /// Adds a table read back from the engine's file. It is refused, and
    /// the engine left as it was, when a table of that name exists already
    /// or a row does not have one value per column.
    pub fn restore_table(&mut self, name: String, table: Table) -> (added: bool)
        requires
            old(self).valid(),
        ensures
            final(self).valid(),
            final(self).path() == old(self).path(),
            added == (!old(self).db().contains_key(name@) && rows_fit(table@)),
            added ==> final(self).db() == old(self).db().insert(name@, table@),
            !added ==> final(self).db() == old(self).db(),
    {
        proof {
            self.lemma_contains_iff(name@);
        }
        if self.find_table(name.as_str()).is_some() {
            return false;
        }
        let mut j: usize = 0;
        while j < table.rows.len()
            invariant
                self.inv(),
                self.tables@ == old(self).tables@,
                self.file_path == old(self).file_path,
                j <= table.rows@.len(),
                forall|k: int| 0 <= k < j ==> #[trigger] table.rows@[k]@.len() == table.schema@.len(),
            decreases table.rows@.len() - j,
        {
            if table.rows[j].values.len() != table.schema.columns.len() {
                proof {
                    assert(table@.rows[j as int].len() != table@.schema.len());
                }
                return false;
            }
            j = j + 1;
        }
        let ghost old_ts = self.tables@;
        let entry = NamedTable { name, table };
        self.tables.push(entry);
        proof {
            lemma_db_push(old_ts, entry);
            assert(self.tables@ == old_ts.push(entry));
            assert forall|i: int| 0 <= i < self.tables@.len() implies #[trigger] rows_fit(self.tables@[i].table@) by {
                if i < old_ts.len() {
                    assert(self.tables@[i] == old_ts[i]);
                }
            }
        }
        true
    }

    /// The names of the tables, in the order in which `table_at` walks
    /// them.
    pub closed spec fn table_order(&self) -> Seq<Seq<char>> {
        self.tables@.map_values(|t: NamedTable| t.name@)
    }

    /// The order of `table_at` names every table once.
    pub proof fn lemma_table_order(&self)
        requires
            self.valid(),
        ensures
            self.table_order().len() == self.db().dom().len(),
            self.table_order().no_duplicates(),
            forall|name: Seq<char>| self.db().contains_key(name) == self.table_order().contains(name),
    {
        self.lemma_dom_len();
        assert forall|name: Seq<char>| self.db().contains_key(name) == self.table_order().contains(name) by {
            self.lemma_contains_iff(name);
            if self.db().contains_key(name) {
                let i = choose|i: int| 0 <= i < self.tables@.len() && self.tables@[i].name@ == name;
                assert(self.table_order()[i] == name);
            }
        }
    }

    /// The number of tables.
    pub fn table_count(&self) -> (n: usize)
        requires
            self.valid(),
        ensures
            n == self.db().dom().len(),
            n == self.table_order().len(),
    {
        proof {
            self.lemma_dom_len();
        }
        self.tables.len()
    }

    /// The `i`-th table of `table_order` and its name: `0 <= i <
    /// table_count()` walks every table once.
    pub fn table_at(&self, i: usize) -> (r: (&String, &Table))
        requires
            self.valid(),
            i < self.table_order().len(),
        ensures
            r.0@ == self.table_order()[i as int],
            self.db().contains_key(r.0@),
            self.db()[r.0@] == r.1@,
    {
        proof {
            self.lemma_dom_len();
            lemma_db_lookup(self.tables@, i as int);
        }
        let entry = &self.tables[i];
        (&entry.name, &entry.table)
    }

    proof fn lemma_dom_len(&self)
        ensures
            self.inv() ==> self.tables@.len() == self.db().dom().len(),
    {
        if self.inv() {
            lemma_db_dom_len(self.tables@);
        }
    }

    proof fn lemma_contains_iff(&self, name: Seq<char>)
        requires
            self.inv(),
        ensures
            self.db().contains_key(name) == exists|i: int| 0 <= i < self.tables@.len() && self.tables@[i].name@ == name,
    {
        if self.db().contains_key(name) {
            if forall|i: int| 0 <= i < self.tables@.len() ==> self.tables@[i].name@ != name {
                lemma_db_absent(self.tables@, name);
            }
        }
        if exists|i: int| 0 <= i < self.tables@.len() && self.tables@[i].name@ == name {
            let i = choose|i: int| 0 <= i < self.tables@.len() && self.tables@[i].name@ == name;
            lemma_db_lookup(self.tables@, i);
        }
    }

    /// The index of the table with the given name.
    fn find_table(&self, name: &str) -> (r: Option<usize>)
        requires
            self.inv(),
        ensures
            match r {
                Some(i) => i < self.tables@.len() && self.tables@[i as int].name@ == name@
                    && self.db().contains_key(name@) && self.db()[name@] == self.tables@[i as int].table@,
                None => !self.db().contains_key(name@),
            },
    {
        let mut i: usize = 0;
        while i < self.tables.len()
            invariant
                self.inv(),
                i <= self.tables@.len(),
                forall|j: int| 0 <= j < i ==> self.tables@[j].name@ != name@,
            decreases self.tables@.len() - i,
        {
            if str_equal(self.tables[i].name.as_str(), name) {
                proof {
                    lemma_db_lookup(self.tables@, i as int);
                }
                return Some(i);
            }
            i = i + 1;
        }
        proof {
            lemma_db_absent(self.tables@, name@);
        }
        None
    }
}

proof fn lemma_db_dom_len(ts: Seq<NamedTable>)
    requires
        distinct_names(ts),
    ensures
        db_of(ts).dom().finite(),
        db_of(ts).dom().len() == ts.len(),
    decreases ts.len(),
{
    if ts.len() > 0 {
        let us = ts.drop_last();
        assert(distinct_names(us));
        lemma_db_dom_len(us);
        lemma_db_absent(us, ts.last().name@);
    }
}

impl StorageEngine for SimpleStorageEngine {
    closed spec fn valid(&self) -> bool {
        self.inv()
    }

    closed spec fn db(&self) -> DbModel {
        db_of(self.tables@)
    }

    open spec fn create_table_model(db: DbModel, table_name: Seq<char>, schema: Seq<ColumnModel>) -> (DbModel, Result<(), Seq<char>>) {
        simple_create_table(db, table_name, schema)
    }

    open spec fn drop_table_model(db: DbModel, table_name: Seq<char>) -> (DbModel, Result<(), Seq<char>>) {
        simple_drop_table(db, table_name)
    }

    open spec fn insert_row_model(db: DbModel, table_name: Seq<char>, row: Seq<ValueModel>) -> (DbModel, Result<(), Seq<char>>) {
        simple_insert_row(db, table_name, row)
    }

    open spec fn update_rows_model(
        db: DbModel,
        table_name: Seq<char>,
        updates: Seq<(Seq<char>, ValueModel)>,
        condition: Option<ConditionModel>,
    ) -> (DbModel, Result<u64, Seq<char>>) {
        simple_update_rows(db, table_name, updates, condition)
    }

    open spec fn delete_rows_model(db: DbModel, table_name: Seq<char>, condition: Option<ConditionModel>) -> (DbModel, Result<u64, Seq<char>>) {
        simple_delete_rows(db, table_name, condition)
    }

    open spec fn select_rows_model(
        db: DbModel,
        table_name: Seq<char>,
        columns: Seq<Seq<char>>,
        condition: Option<ConditionModel>,
    ) -> Result<Seq<Seq<ValueModel>>, Seq<char>> {
        simple_select_rows(db, table_name, columns, condition)
    }

    open spec fn get_table_schema_model(db: DbModel, table_name: Seq<char>) -> Result<Seq<ColumnModel>, Seq<char>> {
        simple_get_table_schema(db, table_name)
    }

    fn create_table(&mut self, table_name: &str, schema: Schema) -> (r: Result<(), String>) {
        if self.find_table(table_name).is_some() {
            let mut m = String::from_str("Error: Table '");
            m.append(table_name);
            m.append("' already exists.");
            return Err(m);
        }
        let ghost old_ts = self.tables@;
        let entry = NamedTable { name: String::from_str(table_name), table: Table { schema, rows: Vec::new() } };
        self.tables.push(entry);
        proof {
            assert forall|i: int| 0 <= i < old_ts.len() implies old_ts[i].name@ != entry.name@ by {
                if old_ts[i].name@ == entry.name@ {
                    lemma_db_lookup(old_ts, i);
                }
            }
            lemma_db_push(old_ts, entry);
            assert(entry.table@.rows =~= Seq::<Seq<ValueModel>>::empty());
            assert forall|i: int| 0 <= i < self.tables@.len() implies #[trigger] rows_fit(self.tables@[i].table@) by {
                if i < old_ts.len() {
                    assert(self.tables@[i] == old_ts[i]);
                }
            }
        }
        Ok(())
    }

    fn drop_table(&mut self, table_name: &str) -> (r: Result<(), String>) {
        match self.find_table(table_name) {
            None => Err(does_not_exist(table_name)),
            Some(i) => {
                let ghost old_ts = self.tables@;
                let _removed = self.tables.remove(i);
                proof {
                    lemma_db_remove(old_ts, i as int);
                    assert forall|j: int| 0 <= j < self.tables@.len() implies #[trigger] rows_fit(self.tables@[j].table@) by {
                        if j < i {
                            assert(self.tables@[j] == old_ts[j]);
                        } else {
                            assert(self.tables@[j] == old_ts[j + 1]);
                        }
                    }
                }
                Ok(())
            },
        }
    }

    fn insert_row(&mut self, table_name: &str, row: Row) -> (r: Result<(), String>) {
        let i = match self.find_table(table_name) {
            None => { return Err(does_not_exist(table_name)); },
            Some(i) => i,
        };
        let ghost old_ts = self.tables@;
        let ghost t = old_ts[i as int].table@;
        if row.values.len() != self.tables[i].table.schema.columns.len() {
            return Err(String::from_str("Error: Row values do not match table schema."));
        }
        let mut j: usize = 0;
        while j < row.values.len()
            invariant
                self.tables@ == old_ts,
                self.inv(),
                old(self).db() == db_of(old_ts),
                db_of(old_ts).contains_key(table_name@),
                db_of(old_ts)[table_name@] == t,
                i < old_ts.len(),
                t == old_ts[i as int].table@,
                row.values@.len() == t.schema.len(),
                j <= row.values@.len(),
                forall|k: int| 0 <= k < j ==> value_matches_type(row@[k], t.schema[k].data_type),
            decreases row.values@.len() - j,
        {
            let column_type = self.tables[i].table.schema.columns[j].data_type;
            if !matches_type(&row.values[j], column_type) {
                proof {
                    lemma_first_type_mismatch(row@, t.schema, j as int);
                }
                return Err(type_mismatch(&row.values[j], column_type));
            }
            j = j + 1;
        }
        proof {
            lemma_first_type_mismatch(row@, t.schema, j as int);
        }
        self.tables[i].table.rows.push(row);
        proof {
            let x = self.tables@[i as int];
            assert(self.tables@ == old_ts.update(i as int, x));
            assert(x.table@.rows =~= t.rows.push(row@));
            lemma_db_update(old_ts, i as int, x);
            assert(x.table@ =~= TableModel { schema: t.schema, rows: t.rows.push(row@) });
            assert forall|k: int| 0 <= k < self.tables@.len() implies #[trigger] rows_fit(self.tables@[k].table@) by {
                if k != i {
                    assert(self.tables@[k] == old_ts[k]);
                } else {
                    assert(rows_fit(t));
                    assert forall|m: int| 0 <= m < x.table@.rows.len() implies #[trigger] x.table@.rows[m].len() == x.table@.schema.len() by {
                        if m < t.rows.len() {
                            assert(x.table@.rows[m] == t.rows[m]);
                        }
                    }
                }
            }
        }
        Ok(())
    }

    fn update_rows(&mut self, table_name: &str, updates: Vec<(String, Value)>, condition: Option<Condition>) -> (r: Result<u64, String>) {
        let i = match self.find_table(table_name) {
            None => { return Err(does_not_exist(table_name)); },
            Some(i) => i,
        };
        let ghost old_ts = self.tables@;
        let ghost t = old_ts[i as int].table@;
        let ghost cond = condition_view(condition);
        let ghost ups = updates_view(updates@);
        let ghost matches = |r: Seq<ValueModel>| simple_row_matches(t.schema, r, cond);
        let ghost upd = |r: Seq<ValueModel>| if matches(r) { apply_updates(t.schema, r, ups) } else { r };
        let mut entry = self.tables.remove(i);
        proof {
            assert(entry == old_ts[i as int]);
            assert(rows_fit(t));
        }
        let mut updated_count: u64 = 0;
        let mut j: usize = 0;
        while j < entry.table.rows.len()
            invariant
                cond == condition_view(condition),
                ups == updates_view(updates@),
                forall|r: Seq<ValueModel>| #[trigger] matches(r) == simple_row_matches(t.schema, r, cond),
                forall|r: Seq<ValueModel>| #[trigger] upd(r) == if matches(r) { apply_updates(t.schema, r, ups) } else { r },
                i < old_ts.len(),
                entry.name == old_ts[i as int].name,
                entry.table.schema@ == t.schema,
                entry.table.rows@.len() == t.rows.len(),
                rows_fit(t),
                j <= t.rows.len(),
                forall|k: int| 0 <= k < j ==> #[trigger] entry.table.rows@[k]@ == upd(t.rows[k]),
                forall|k: int| j <= k < t.rows.len() ==> #[trigger] entry.table.rows@[k]@ == t.rows[k],
                updated_count == t.rows.take(j as int).filter(matches).len(),
                updated_count <= j,
            decreases t.rows.len() - j,
        {
            proof {
                assert(entry.table.rows@[j as int]@ == t.rows[j as int]);
                assert(t.rows[j as int].len() == t.schema.len());
            }
            let hit = row_matches(&entry.table.schema, &entry.table.rows[j], &condition);
            let ghost jj = j as int;
            let ghost before = entry.table.rows@;
            if hit {
                let new_row = apply_updates_to_row(&entry.table.schema, &entry.table.rows[j], &updates);
                entry.table.rows.set(j, new_row);
                updated_count = updated_count + 1;
            }
            j = j + 1;
            proof {
                let tk = t.rows.take(j as int);
                assert(tk.drop_last() =~= t.rows.take(jj));
                assert(tk.last() == t.rows[jj]);
                reveal_with_fuel(Seq::filter, 1);
                assert(tk.filter(matches) == if matches(t.rows[jj]) { t.rows.take(jj).filter(matches).push(t.rows[jj]) } else { t.rows.take(jj).filter(matches) });
                assert(entry.table.rows@[jj]@ == upd(t.rows[jj]));
                assert forall|k: int| 0 <= k < j implies #[trigger] entry.table.rows@[k]@ == upd(t.rows[k]) by {
                    if k < jj {
                        assert(entry.table.rows@[k] == before[k]);
                    }
                }
                assert forall|k: int| j <= k < t.rows.len() implies #[trigger] entry.table.rows@[k]@ == t.rows[k] by {
                    assert(entry.table.rows@[k] == before[k]);
                }
            }
        }
        proof {
            assert(t.rows.take(j as int) =~= t.rows);
            assert(rows_view(entry.table.rows@) =~= t.rows.map_values(upd));
            let x = entry;
            assert(x.table@ =~= TableModel { schema: t.schema, rows: t.rows.map_values(upd) });
        }
        let ghost x = entry;
        self.tables.insert(i, entry);
        proof {
            assert(self.tables@ =~= old_ts.update(i as int, x));
            lemma_db_update(old_ts, i as int, x);
            assert forall|k: int| 0 <= k < self.tables@.len() implies #[trigger] rows_fit(self.tables@[k].table@) by {
                if k != i {
                    assert(self.tables@[k] == old_ts[k]);
                    assert(rows_fit(old_ts[k].table@));
                } else {
                    assert forall|m: int| 0 <= m < x.table@.rows.len() implies #[trigger] x.table@.rows[m].len() == x.table@.schema.len() by {
                        assert(x.table@.rows[m] == upd(t.rows[m]));
                        assert(t.rows[m].len() == t.schema.len());
                        lemma_apply_updates_len(t.schema, t.rows[m], ups);
                    }
                }
            }
        }
        Ok(updated_count)
    }

    fn delete_rows(&mut self, table_name: &str, condition: Option<Condition>) -> (r: Result<u64, String>) {
        let i = match self.find_table(table_name) {
            None => { return Err(does_not_exist(table_name)); },
            Some(i) => i,
        };
        let ghost old_ts = self.tables@;
        let ghost t = old_ts[i as int].table@;
        let ghost cond = condition_view(condition);
        let ghost keep = |r: Seq<ValueModel>| !simple_row_matches(t.schema, r, cond);
        let mut entry = self.tables.remove(i);
        proof {
            assert(entry == old_ts[i as int]);
            assert(rows_fit(t));
        }
        let length_before = entry.table.rows.len();
        let mut kept: Vec<Row> = Vec::new();
        let mut j: usize = 0;
        while j < entry.table.rows.len()
            invariant
                cond == condition_view(condition),
                forall|r: Seq<ValueModel>| #[trigger] keep(r) == !simple_row_matches(t.schema, r, cond),
                i < old_ts.len(),
                entry == old_ts[i as int],
                t == entry.table@,
                rows_fit(t),
                j <= t.rows.len(),
                rows_view(kept@) == t.rows.take(j as int).filter(keep),
            decreases t.rows.len() - j,
        {
            proof {
                assert(entry.table.rows@[j as int]@ == t.rows[j as int]);
                assert(t.rows[j as int].len() == t.schema.len());
            }
            let hit = row_matches(&entry.table.schema, &entry.table.rows[j], &condition);
            let ghost jj = j as int;
            let ghost before = rows_view(kept@);
            if !hit {
                let copy = entry.table.rows[j].clone();
                kept.push(copy);
                assert(rows_view(kept@) =~= before.push(t.rows[jj]));
            }
            j = j + 1;
            proof {
                let tk = t.rows.take(j as int);
                assert(tk.drop_last() =~= t.rows.take(jj));
                assert(tk.last() == t.rows[jj]);
                reveal_with_fuel(Seq::filter, 1);
                assert(tk.filter(keep) == if keep(t.rows[jj]) { t.rows.take(jj).filter(keep).push(t.rows[jj]) } else { t.rows.take(jj).filter(keep) });
            }
        }
        proof {
            assert(t.rows.take(j as int) =~= t.rows);
        }
        let deleted_count = length_before - kept.len();
        entry.table.rows = kept;
        let ghost x = entry;
        self.tables.insert(i, entry);
        proof {
            assert(self.tables@ =~= old_ts.update(i as int, x));
            lemma_db_update(old_ts, i as int, x);
            assert(x.table@ =~= TableModel { schema: t.schema, rows: t.rows.filter(keep) });
            assert forall|k: int| 0 <= k < self.tables@.len() implies #[trigger] rows_fit(self.tables@[k].table@) by {
                if k != i {
                    assert(self.tables@[k] == old_ts[k]);
                    assert(rows_fit(old_ts[k].table@));
                } else {
                    assert forall|m: int| 0 <= m < x.table@.rows.len() implies #[trigger] x.table@.rows[m].len() == x.table@.schema.len() by {
                        assert(t.rows.filter(keep).contains(x.table@.rows[m]));
                        t.rows.lemma_filter_contains_rev(keep, x.table@.rows[m]);
                        let w = choose|w: int| 0 <= w < t.rows.len() && t.rows[w] == x.table@.rows[m];
                        assert(t.rows[w].len() == t.schema.len());
                    }
                }
            }
        }
        Ok(deleted_count as u64)
    }

    fn select_rows(&self, table_name: &str, columns: Vec<String>, condition: Option<Condition>) -> (r: Result<Vec<Row>, String>) {
        let i = match self.find_table(table_name) {
            None => { return Err(does_not_exist(table_name)); },
            Some(i) => i,
        };
        let table = &self.tables[i].table;
        let ghost t = table@;
        let ghost cond = condition_view(condition);
        let ghost cols = names_view(columns@);
        let ghost f = |r: Seq<ValueModel>|
            if simple_row_matches(t.schema, r, cond) { Some(project_row(t.schema, r, cols)) } else { None };
        proof {
            assert(rows_fit(self.tables@[i as int].table@));
        }
        let all_columns = contains_star(&columns);
        let mut results: Vec<Row> = Vec::new();
        let mut j: usize = 0;
        while j < table.rows.len()
            invariant
                cond == condition_view(condition),
                forall|r: Seq<ValueModel>| #[trigger] f(r) == if simple_row_matches(t.schema, r, cond) {
                    Some(project_row(t.schema, r, cols))
                } else {
                    None::<Seq<ValueModel>>
                },
                t == table@,
                rows_fit(t),
                all_columns == cols.contains("*"@),
                cols == names_view(columns@),
                j <= t.rows.len(),
                rows_view(results@) == t.rows.take(j as int).filter_map(f),
            decreases t.rows.len() - j,
        {
            proof {
                assert(table.rows@[j as int]@ == t.rows[j as int]);
                assert(t.rows[j as int].len() == t.schema.len());
            }
            let hit = row_matches(&table.schema, &table.rows[j], &condition);
            let ghost jj = j as int;
            let ghost before = rows_view(results@);
            if hit {
                let selected_values = if all_columns {
                    clone_values(&table.rows[j].values)
                } else {
                    project_values(&table.schema, &table.rows[j], &columns)
                };
                results.push(Row { values: selected_values });
                assert(rows_view(results@) =~= before + seq![project_row(t.schema, t.rows[jj], cols)]);
            }
            j = j + 1;
            proof {
                let tk = t.rows.take(j as int);
                assert(tk.drop_last() =~= t.rows.take(jj));
                assert(tk.last() == t.rows[jj]);
            }
        }
        proof {
            assert(t.rows.take(j as int) =~= t.rows);
        }
        Ok(results)
    }

    fn get_table_schema(&self, table_name: &str) -> (r: Result<Schema, String>) {
        match self.find_table(table_name) {
            None => Err(does_not_exist(table_name)),
            Some(i) => Ok(self.tables[i].table.schema.clone()),
        }
    }
}

proof fn lemma_apply_updates_len(cols: Seq<ColumnModel>, row: Seq<ValueModel>, updates: Seq<(Seq<char>, ValueModel)>)
    requires
        row.len() == cols.len(),
    ensures
        apply_updates(cols, row, updates).len() == row.len(),
    decreases updates.len(),
{
    if updates.len() > 0 {
        lemma_apply_updates_len(cols, row, updates.drop_last());
        lemma_column_position_range(cols, updates.last().0);
    }
}

/// Whether a row satisfies the condition, as this engine filters.
fn row_matches(schema: &Schema, row: &Row, condition: &Option<Condition>) -> (r: bool)
    requires
        row@.len() == schema@.len(),
    ensures
        r == simple_row_matches(schema@, row@, condition_view(*condition)),
{
    let c = match condition {
        None => { return true; },
        Some(c) => c,
    };
    let column_name = match c {
        Condition::Equals(n, _) => n,
        Condition::GreaterThan(n, _) => n,
        Condition::LessThan(n, _) => n,
        Condition::IsNull(n) => n,
        Condition::IsNotNull(n) => n,
    };
    let k = match find_column(&schema.columns, column_name) {
        None => { return false; },
        Some(k) => k,
    };
    proof {
        lemma_column_position_range(schema@, column_name@);
    }
    let v = &row.values[k];
    match c {
        Condition::Equals(_, e) => v.equals(e),
        Condition::GreaterThan(_, e) => match (v, e) {
            (Value::Int(a), Value::Int(b)) => *a > *b,
            (Value::Varchar(a), Value::Varchar(b)) => str_less(b.as_str(), a.as_str()),
            _ => false,
        },
        Condition::LessThan(_, e) => match (v, e) {
            (Value::Int(a), Value::Int(b)) => *a < *b,
            (Value::Varchar(a), Value::Varchar(b)) => str_less(a.as_str(), b.as_str()),
            _ => false,
        },
        Condition::IsNull(_) => match v {
            Value::Null => true,
            _ => false,
        },
        Condition::IsNotNull(_) => match v {
            Value::Null => false,
            _ => true,
        },
    }
}

/// A copy of the row with the updates applied in order.
fn apply_updates_to_row(schema: &Schema, row: &Row, updates: &Vec<(String, Value)>) -> (r: Row)
    requires
        row@.len() == schema@.len(),
    ensures
        r@ == apply_updates(schema@, row@, updates_view(updates@)),
{
    let mut values = clone_values(&row.values);
    let ghost ups = updates_view(updates@);
    let mut k: usize = 0;
    while k < updates.len()
        invariant
            k <= updates@.len(),
            ups == updates_view(updates@),
            values@.map_values(|v: Value| v@) == apply_updates(schema@, row@, ups.take(k as int)),
            values@.len() == schema@.len(),
            row@.len() == schema@.len(),
        decreases updates@.len() - k,
    {
        proof {
            assert(ups.take(k + 1).drop_last() =~= ups.take(k as int));
            assert(ups.take(k + 1).last() == ups[k as int]);
            lemma_apply_updates_len(schema@, row@, ups.take(k as int));
        }
        match find_column(&schema.columns, &updates[k].0) {
            Some(c) => {
                proof {
                    lemma_column_position_range(schema@, updates@[k as int].0@);
                }
                let v = updates[k].1.clone();
                values.set(c, v);
                assert(values@.map_values(|v: Value| v@) =~= apply_updates(schema@, row@, ups.take(k as int)).update(c as int, ups[k as int].1));
            },
            None => {},
        }
        k = k + 1;
    }
    assert(ups.take(k as int) =~= ups);
    Row { values }
}

/// The values of the named columns that exist, in the order named.
fn project_values(schema: &Schema, row: &Row, columns: &Vec<String>) -> (r: Vec<Value>)
    requires
        row@.len() == schema@.len(),
    ensures
        r@.map_values(|v: Value| v@) == project_named(schema@, row@, names_view(columns@)),
{
    let ghost names = names_view(columns@);
    let mut selected: Vec<Value> = Vec::new();
    let mut k: usize = 0;
    while k < columns.len()
        invariant
            k <= columns@.len(),
            names == names_view(columns@),
            row@.len() == schema@.len(),
            selected@.map_values(|v: Value| v@) == project_named(schema@, row@, names.take(k as int)),
        decreases columns@.len() - k,
    {
        proof {
            assert(names.take(k + 1).drop_last() =~= names.take(k as int));
            assert(names.take(k + 1).last() == names[k as int]);
        }
        match find_column(&schema.columns, &columns[k]) {
            Some(c) => {
                proof {
                    lemma_column_position_range(schema@, columns@[k as int]@);
                }
                selected.push(row.values[c].clone());
                assert(selected@.map_values(|v: Value| v@) =~= project_named(schema@, row@, names.take(k as int)).push(row@[c as int]));
            },
            None => {},
        }
        k = k + 1;
    }
    assert(names.take(k as int) =~= names);
    selected
}

/// Whether `*` is among the column names.
fn contains_star(columns: &Vec<String>) -> (r: bool)
    ensures
        r == names_view(columns@).contains("*"@),
{
    let ghost names = names_view(columns@);
    let mut k: usize = 0;
    while k < columns.len()
        invariant
            k <= columns@.len(),
            names == names_view(columns@),
            forall|j: int| 0 <= j < k ==> names[j] != "*"@,
        decreases columns@.len() - k,
    {
        if str_equal(columns[k].as_str(), "*") {
            assert(names[k as int] == "*"@);
            return true;
        }
        k = k + 1;
    }
    false
}

// ---------------------------------------------------------------------
// Laws of the engine
// ---------------------------------------------------------------------

proof fn lemma_filter_map_all(s: Seq<Seq<ValueModel>>, f: spec_fn(Seq<ValueModel>) -> Option<Seq<ValueModel>>)
    requires
        forall|x: Seq<ValueModel>| #[trigger] f(x) == Some(x),
    ensures
        s.filter_map(f) == s,
    decreases s.len(),
{
    if s.len() > 0 {
        lemma_filter_map_all(s.drop_last(), f);
        assert(s =~= s.drop_last() + seq![s.last()]);
    }
}

proof fn lemma_filter_none(s: Seq<Seq<ValueModel>>, p: spec_fn(Seq<ValueModel>) -> bool)
    requires
        forall|x: Seq<ValueModel>| !#[trigger] p(x),
    ensures
        s.filter(p) == Seq::<Seq<ValueModel>>::empty(),
    decreases s.len(),
{
    reveal(Seq::filter);
    if s.len() > 0 {
        lemma_filter_none(s.drop_last(), p);
    }
}

/// The names `*`, which select every column.
pub open spec fn all_columns() -> Seq<Seq<char>> {
    seq!["*"@]
}

/// A table that was created has the schema it was created with, and no
/// rows.
pub proof fn law_create_then_read(db: DbModel, name: Seq<char>, schema: Seq<ColumnModel>)
    requires
        !db.contains_key(name),
    ensures
        simple_create_table(db, name, schema).1 is Ok,
        simple_get_table_schema(simple_create_table(db, name, schema).0, name) == Ok::<Seq<ColumnModel>, Seq<char>>(schema),
        simple_select_rows(simple_create_table(db, name, schema).0, name, all_columns(), None)
            == Ok::<Seq<Seq<ValueModel>>, Seq<char>>(Seq::empty()),
{
}

/// Creating a table under a name that is taken is refused with
/// `Error: Table '<name>' already exists.` and changes nothing.
pub proof fn law_create_existing_refused(db: DbModel, name: Seq<char>, schema: Seq<ColumnModel>)
    requires
        db.contains_key(name),
    ensures
        simple_create_table(db, name, schema) == (db, Err::<(), Seq<char>>(already_exists_message(name))),
{
}

/// A dropped table is gone: reading its schema, or dropping it again, is
/// refused with `Error: Table '<name>' does not exist.`
pub proof fn law_drop_then_missing(db: DbModel, name: Seq<char>)
    requires
        db.contains_key(name),
    ensures
        simple_drop_table(db, name).1 is Ok,
        simple_get_table_schema(simple_drop_table(db, name).0, name)
            == Err::<Seq<ColumnModel>, Seq<char>>(does_not_exist_message(name)),
        simple_drop_table(simple_drop_table(db, name).0, name).1 == Err::<(), Seq<char>>(does_not_exist_message(name)),
{
}

/// Dropping a table that was just created gives back the tables as they
/// were before it was created.
pub proof fn law_drop_undoes_create(db: DbModel, name: Seq<char>, schema: Seq<ColumnModel>)
    requires
        !db.contains_key(name),
    ensures
        simple_drop_table(simple_create_table(db, name, schema).0, name) == (db, Ok::<(), Seq<char>>(())),
{
    assert(db.insert(name, TableModel { schema, rows: Seq::empty() }).remove(name) =~= db);
}

/// A row that was inserted is selected by `SELECT *` without a condition,
/// after the rows that were there before.
pub proof fn law_insert_then_select_all(db: DbModel, name: Seq<char>, row: Seq<ValueModel>)
    requires
        simple_insert_row(db, name, row).1 is Ok,
    ensures
        simple_select_rows(db, name, all_columns(), None) == Ok::<Seq<Seq<ValueModel>>, Seq<char>>(db[name].rows),
        simple_select_rows(simple_insert_row(db, name, row).0, name, all_columns(), None)
            == Ok::<Seq<Seq<ValueModel>>, Seq<char>>(db[name].rows.push(row)),
{
    let t = db[name];
    let cols = all_columns();
    assert(cols[0] == "*"@);
    assert(cols.contains("*"@));
    let f = |r: Seq<ValueModel>|
        if simple_row_matches(t.schema, r, None) { Some(project_row(t.schema, r, cols)) } else { None };
    lemma_filter_map_all(t.rows, f);
    lemma_filter_map_all(t.rows.push(row), f);
}

/// Deleting without a condition removes every row of the table and
/// answers how many there were.
pub proof fn law_delete_all(db: DbModel, name: Seq<char>)
    requires
        db.contains_key(name),
    ensures
        simple_delete_rows(db, name, None) == (
            db.insert(name, TableModel { schema: db[name].schema, rows: Seq::empty() }),
            Ok::<u64, Seq<char>>(db[name].rows.len() as u64),
        ),
{
    let t = db[name];
    lemma_filter_none(t.rows, |r: Seq<ValueModel>| !simple_row_matches(t.schema, r, None));
}

/// An operation on one table leaves every other table as it was.
pub proof fn law_other_tables_unchanged(
    db: DbModel,
    name: Seq<char>,
    other: Seq<char>,
    schema: Seq<ColumnModel>,
    row: Seq<ValueModel>,
    updates: Seq<(Seq<char>, ValueModel)>,
    condition: Option<ConditionModel>,
)
    requires
        other != name,
    ensures
        simple_create_table(db, name, schema).0.contains_key(other) == db.contains_key(other),
        simple_drop_table(db, name).0.contains_key(other) == db.contains_key(other),
        simple_insert_row(db, name, row).0.contains_key(other) == db.contains_key(other),
        simple_update_rows(db, name, updates, condition).0.contains_key(other) == db.contains_key(other),
        simple_delete_rows(db, name, condition).0.contains_key(other) == db.contains_key(other),
        db.contains_key(other) ==> {
            &&& simple_create_table(db, name, schema).0[other] == db[other]
            &&& simple_drop_table(db, name).0[other] == db[other]
            &&& simple_insert_row(db, name, row).0[other] == db[other]
            &&& simple_update_rows(db, name, updates, condition).0[other] == db[other]
            &&& simple_delete_rows(db, name, condition).0[other] == db[other]
        },
{
}

/// Position `i` holds the column that `name` denotes: the first column
/// with that name.
pub open spec fn names_column(cols: Seq<ColumnModel>, name: Seq<char>, i: int) -> bool {
    &&& 0 <= i < cols.len()
    &&& cols[i].name == name
    &&& forall|j: int| 0 <= j < i ==> cols[j].name != name
}

proof fn lemma_column_position_names(cols: Seq<ColumnModel>, name: Seq<char>, i: int)
    requires
        0 <= i < cols.len(),
    ensures
        (column_position(cols, name) == Some(i)) == names_column(cols, name, i),
    decreases cols.len(),
{
    if cols[0].name != name && i > 0 {
        lemma_column_position_names(cols.drop_first(), name, i - 1);
        assert(names_column(cols, name, i) == names_column(cols.drop_first(), name, i - 1)) by {
            if names_column(cols.drop_first(), name, i - 1) {
                assert forall|j: int| 0 <= j < i implies cols[j].name != name by {
                    if j > 0 {
                        assert(cols[j] == cols.drop_first()[j - 1]);
                    }
                }
            }
            if names_column(cols, name, i) {
                assert forall|j: int| 0 <= j < i - 1 implies cols.drop_first()[j].name != name by {
                    assert(cols[j + 1] == cols.drop_first()[j]);
                }
            }
        }
    }
    if cols[0].name != name && i == 0 {
        lemma_column_position_range(cols, name);
    }
}

/// Updating a row sets each column to the value of the last update that
/// names it, and leaves a column that no update names as it was; the row
/// keeps its length.
pub proof fn law_update_takes_last_value(
    cols: Seq<ColumnModel>,
    row: Seq<ValueModel>,
    updates: Seq<(Seq<char>, ValueModel)>,
    i: int,
)
    requires
        row.len() == cols.len(),
        0 <= i < row.len(),
    ensures
        apply_updates(cols, row, updates).len() == row.len(),
        (forall|k: int| 0 <= k < updates.len() ==> !names_column(cols, #[trigger] updates[k].0, i))
            ==> apply_updates(cols, row, updates)[i] == row[i],
        forall|k: int|
            0 <= k < updates.len() && names_column(cols, #[trigger] updates[k].0, i) && (forall|m: int|
                k < m < updates.len() ==> !names_column(cols, #[trigger] updates[m].0, i))
                ==> apply_updates(cols, row, updates)[i] == updates[k].1,
    decreases updates.len(),
{
    lemma_apply_updates_len(cols, row, updates);
    if updates.len() > 0 {
        let u = updates.drop_last();
        let last = updates.last();
        let n = updates.len() - 1;
        law_update_takes_last_value(cols, row, u, i);
        lemma_column_position_range(cols, last.0);
        lemma_column_position_names(cols, last.0, i);
        let r = apply_updates(cols, row, u);
        assert(updates[n] == last);
        if names_column(cols, last.0, i) {
            assert(apply_updates(cols, row, updates)[i] == last.1);
            assert forall|k: int|
                0 <= k < updates.len() && names_column(cols, #[trigger] updates[k].0, i) && (forall|m: int|
                    k < m < updates.len() ==> !names_column(cols, #[trigger] updates[m].0, i))
                    implies apply_updates(cols, row, updates)[i] == updates[k].1 by {
                if k < n {
                    assert(!names_column(cols, updates[n].0, i));
                }
            }
        } else {
            assert(apply_updates(cols, row, updates)[i] == r[i]);
            assert forall|k: int|
                0 <= k < updates.len() && names_column(cols, #[trigger] updates[k].0, i) && (forall|m: int|
                    k < m < updates.len() ==> !names_column(cols, #[trigger] updates[m].0, i))
                    implies apply_updates(cols, row, updates)[i] == updates[k].1 by {
                assert(k < n);
                assert(u[k] == updates[k]);
                assert forall|m: int| k < m < u.len() implies !names_column(cols, #[trigger] u[m].0, i) by {
                    assert(u[m] == updates[m]);
                }
            }
            if forall|k: int| 0 <= k < updates.len() ==> !names_column(cols, #[trigger] updates[k].0, i) {
                assert forall|k: int| 0 <= k < u.len() implies !names_column(cols, #[trigger] u[k].0, i) by {
                    assert(u[k] == updates[k]);
                }
            }
        }
    }
}

/// `UPDATE` changes exactly the rows its condition picks, each as
/// `apply_updates` sets it (every named column to the value of the last
/// update naming it); the other rows, the schema and the other tables stay
/// as they were.
pub proof fn law_update_changes_matching_rows(
    db: DbModel,
    name: Seq<char>,
    updates: Seq<(Seq<char>, ValueModel)>,
    condition: Option<ConditionModel>,
)
    requires
        db.contains_key(name),
    ensures
        ({
            let t = db[name];
            let after = simple_update_rows(db, name, updates, condition).0;
            &&& after.contains_key(name)
            &&& after[name].schema == t.schema
            &&& after[name].rows.len() == t.rows.len()
            &&& forall|j: int| 0 <= j < t.rows.len() ==> #[trigger] after[name].rows[j] == if simple_row_matches(
                t.schema,
                t.rows[j],
                condition,
            ) {
                apply_updates(t.schema, t.rows[j], updates)
            } else {
                t.rows[j]
            }
            &&& forall|n: Seq<char>| n != name ==> #[trigger] after.contains_key(n) == db.contains_key(n)
                && (db.contains_key(n) ==> after[n] == db[n])
        }),
{
}

/// Every table of the model holds rows with one value per column.
pub open spec fn all_rows_fit(db: DbModel) -> bool {
    forall|name: Seq<char>| db.contains_key(name) ==> rows_fit(#[trigger] db[name])
}

impl SimpleStorageEngine {
    /// In every state the engine reaches, each row of each table holds one
    /// value per column of its table's schema.
    pub proof fn law_rows_fit_schema(&self)
        requires
            self.valid(),
        ensures
            all_rows_fit(self.db()),
    {
        assert forall|name: Seq<char>| self.db().contains_key(name) implies rows_fit(#[trigger] self.db()[name]) by {
            self.lemma_contains_iff(name);
            let i = choose|i: int| 0 <= i < self.tables@.len() && self.tables@[i].name@ == name;
            lemma_db_lookup(self.tables@, i);
        }
    }
}

/// Creating, dropping, inserting into, updating and deleting from tables
/// keep every row fitting its table's schema, whatever they answer.
pub proof fn law_operations_keep_rows_fitting(
    db: DbModel,
    name: Seq<char>,
    schema: Seq<ColumnModel>,
    row: Seq<ValueModel>,
    updates: Seq<(Seq<char>, ValueModel)>,
    condition: Option<ConditionModel>,
)
    requires
        all_rows_fit(db),
    ensures
        all_rows_fit(simple_create_table(db, name, schema).0),
        all_rows_fit(simple_drop_table(db, name).0),
        all_rows_fit(simple_insert_row(db, name, row).0),
        all_rows_fit(simple_update_rows(db, name, updates, condition).0),
        all_rows_fit(simple_delete_rows(db, name, condition).0),
{
    broadcast use vstd::seq_lib::group_filter_ensures;
    if db.contains_key(name) {
        let t = db[name];
        assert(rows_fit(t));
        let after_update = simple_update_rows(db, name, updates, condition).0;
        assert(rows_fit(after_update[name])) by {
            let matches = |r: Seq<ValueModel>| simple_row_matches(t.schema, r, condition);
            assert forall|i: int| 0 <= i < after_update[name].rows.len() implies
                #[trigger] after_update[name].rows[i].len() == after_update[name].schema.len() by {
                assert(t.rows[i].len() == t.schema.len());
                lemma_apply_updates_len(t.schema, t.rows[i], updates);
            }
        }
        let after_delete = simple_delete_rows(db, name, condition).0;
        assert(rows_fit(after_delete[name])) by {
            let keep = |r: Seq<ValueModel>| !simple_row_matches(t.schema, r, condition);
            assert forall|i: int| 0 <= i < after_delete[name].rows.len() implies
                #[trigger] after_delete[name].rows[i].len() == after_delete[name].schema.len() by {
                let r = t.rows.filter(keep)[i];
                assert(t.rows.filter(keep).contains(r));
                t.rows.lemma_filter_contains_rev(keep, r);
                let j = choose|j: int| 0 <= j < t.rows.len() && t.rows[j] == r;
                assert(t.rows[j].len() == t.schema.len());
            }
        }
        assert(all_rows_fit(after_update)) by {
            assert forall|n: Seq<char>| after_update.contains_key(n) implies rows_fit(#[trigger] after_update[n]) by {
                if n != name {
                    assert(rows_fit(db[n]));
                }
            }
        }
        assert(all_rows_fit(after_delete)) by {
            assert forall|n: Seq<char>| after_delete.contains_key(n) implies rows_fit(#[trigger] after_delete[n]) by {
                if n != name {
                    assert(rows_fit(db[n]));
                }
            }
        }
        let after_insert = simple_insert_row(db, name, row).0;
        assert(all_rows_fit(after_insert)) by {
            assert forall|n: Seq<char>| after_insert.contains_key(n) implies rows_fit(#[trigger] after_insert[n]) by {
                assert(rows_fit(db[n]));
                if n == name && row.len() == t.schema.len() {
                    assert forall|i: int| 0 <= i < after_insert[n].rows.len() implies
                        #[trigger] after_insert[n].rows[i].len() == after_insert[n].schema.len() by {
                        if i < t.rows.len() {
                            assert(t.rows[i].len() == t.schema.len());
                        }
                    }
                }
            }
        }
    }
    let after_create = simple_create_table(db, name, schema).0;
    assert(all_rows_fit(after_create)) by {
        assert forall|n: Seq<char>| after_create.contains_key(n) implies rows_fit(#[trigger] after_create[n]) by {
            if n != name || db.contains_key(name) {
                assert(rows_fit(db[n]));
            }
        }
    }
    let after_drop = simple_drop_table(db, name).0;
    assert(all_rows_fit(after_drop)) by {
        assert forall|n: Seq<char>| after_drop.contains_key(n) implies rows_fit(#[trigger] after_drop[n]) by {
            assert(rows_fit(db[n]));
        }
    }
}

} // verus!
