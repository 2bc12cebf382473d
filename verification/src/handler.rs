//! Statement execution: each statement is checked and turned into
//! calls of the storage engine, and the results of queries are formatted
//! as tables.
use vstd::prelude::*;
use crate::error::{ErrorModel, ExecutionError};
use crate::formatter::{cells_view, default_names, format_table, table_text};
use crate::sql_ast::{
    SqlAssignment, SqlBinaryOperator, SqlColumnDef, SqlColumnOption, SqlDataType, SqlExpr, SqlIdent, SqlObjectType,
    SqlQuery, SqlSelect, SqlSelectItem, SqlSetExpr, SqlStatement, SqlTableFactor, SqlValue,
};
use crate::storage_engine_interface::{
    clone_values, rows_view, ColumnDefinition, ColumnModel, Condition, ConditionModel, Constraint, DataType, DbModel, Row,
    Schema, StorageEngine, Value, ValueModel,
};
use crate::text::{int_decimal, nat_decimal, parse_i32, parse_i32_spec, push_decimal};
use crate::storage::{column_position, condition_column, SimpleStorageEngine, find_column, lemma_column_position_range, value_satisfies};
use crate::text::text_less;

verus! {

/// What executing a statement produced.
#[derive(Debug)]
pub enum QueryResult {
    /// The rows a query selected.
    Data(Vec<Row>),
    /// The number of rows an update changed.
    RowsAffected(u64),
    /// A statement without a result succeeded.
    Success,
}

/// The view of a `QueryResult`.
pub enum QueryResultModel {
    Data(Seq<Seq<ValueModel>>),
    RowsAffected(u64),
    Success,
}

impl View for QueryResult {
    type V = QueryResultModel;

    open spec fn view(&self) -> QueryResultModel {
        match self {
            QueryResult::Data(rows) => QueryResultModel::Data(rows_view(rows@)),
            QueryResult::RowsAffected(n) => QueryResultModel::RowsAffected(*n),
            QueryResult::Success => QueryResultModel::Success,
        }
    }
}

/// The view of optional column names.
pub open spec fn names_option_view(names: Option<&[String]>) -> Option<Seq<Seq<char>>> {
    match names {
        Some(h) => Some(cells_view(h@)),
        None => None,
    }
}

/// The text of a result: the table of a query's rows, and nothing for the
/// other results.
pub open spec fn result_text(r: QueryResultModel, names: Option<Seq<Seq<char>>>) -> Seq<char> {
    match r {
        QueryResultModel::Data(rows) => table_text(rows, names),
        _ => Seq::empty(),
    }
}

impl QueryResult {
    /// The result as text: for rows, a table under the given column names
    /// (or `col1`, `col2`, ... when none are given), `No rows returned.`
    /// when there are none; an empty string for the other results.
    pub fn format_as_string(&self, column_names: Option<&[String]>) -> (s: String)
        ensures
            s@ == result_text(self@, names_option_view(column_names)),
    {
        match self {
            QueryResult::Data(rows) => {
                if rows.len() == 0 {
                    return String::from_str("No rows returned.");
                }
                match column_names {
                    Some(headers) => format_table(rows, headers),
                    None => {
                        let num_cols = rows[0].values.len();
                        let defaults = default_names(num_cols);
                        proof {
                            assert(rows_view(rows@)[0].len() == num_cols);
                        }
                        format_table(rows, defaults.as_slice())
                    },
                }
            },
            _ => String::new(),
        }
    }
}

// ---------------------------------------------------------------------
// Literals and conditions
// ---------------------------------------------------------------------

/// `true` or `false`, as `bool::to_string` writes them.
pub open spec fn bool_text(b: bool) -> Seq<char> {
    if b { "true"@ } else { "false"@ }
}

fn bool_string(b: bool) -> (s: String)
    ensures
        s@ == bool_text(b),
{
    if b { String::from_str("true") } else { String::from_str("false") }
}

/// A numeric literal read as an `i32`; a literal that does not read is a
/// syntax error.
pub open spec fn number_value(s: Seq<char>) -> Result<ValueModel, ErrorModel> {
    match parse_i32_spec(s) {
        Some(n) => Ok(ValueModel::Int(n)),
        None => Err(ErrorModel::SyntaxError),
    }
}

fn number(s: &String) -> (r: Result<Value, ExecutionError>)
    ensures
        value_result(r) == number_value(s@),
{
    match parse_i32(s.as_str()) {
        Some(n) => Ok(Value::Int(n)),
        None => Err(ExecutionError::SyntaxError),
    }
}

/// The view of a result holding a value.
pub open spec fn value_result(r: Result<Value, ExecutionError>) -> Result<ValueModel, ErrorModel> {
    match r {
        Ok(v) => Ok(v@),
        Err(e) => Err(e@),
    }
}

/// The value assigned by `SET column = <expr>`: a number, a string or
/// `NULL`.
pub open spec fn assignment_value(e: SqlExpr) -> Result<ValueModel, ErrorModel> {
    match e {
        SqlExpr::Value(SqlValue::Number(s)) => number_value(s@),
        SqlExpr::Value(SqlValue::SingleQuotedString(s)) => Ok(ValueModel::Varchar(s@)),
        SqlExpr::Value(SqlValue::DoubleQuotedString(s)) => Ok(ValueModel::Varchar(s@)),
        SqlExpr::Value(SqlValue::Null) => Ok(ValueModel::Null),
        _ => Err(ErrorModel::UnsupportedStatement),
    }
}

fn read_assignment_value(e: &SqlExpr) -> (r: Result<Value, ExecutionError>)
    ensures
        value_result(r) == assignment_value(*e),
{
    match e {
        SqlExpr::Value(SqlValue::Number(s)) => number(s),
        SqlExpr::Value(SqlValue::SingleQuotedString(s)) => Ok(Value::Varchar(s.clone())),
        SqlExpr::Value(SqlValue::DoubleQuotedString(s)) => Ok(Value::Varchar(s.clone())),
        SqlExpr::Value(SqlValue::Null) => Ok(Value::Null),
        _ => Err(ExecutionError::UnsupportedStatement),
    }
}

/// The value compared against in the `WHERE` clause of `UPDATE`: a number,
/// a string, or a boolean kept as the string `true` or `false`.
pub open spec fn update_literal(v: SqlValue) -> Result<ValueModel, ErrorModel> {
    match v {
        SqlValue::Number(s) => number_value(s@),
        SqlValue::SingleQuotedString(s) => Ok(ValueModel::Varchar(s@)),
        SqlValue::DoubleQuotedString(s) => Ok(ValueModel::Varchar(s@)),
        SqlValue::Boolean(b) => Ok(ValueModel::Varchar(bool_text(b))),
        _ => Err(ErrorModel::UnsupportedStatement),
    }
}

/// The value compared against in the `WHERE` clause of `SELECT`: a number,
/// a single-quoted string, or a boolean kept as the string `true` or
/// `false`.
pub open spec fn select_literal(v: SqlValue) -> Result<ValueModel, ErrorModel> {
    match v {
        SqlValue::Number(s) => number_value(s@),
        SqlValue::SingleQuotedString(s) => Ok(ValueModel::Varchar(s@)),
        SqlValue::Boolean(b) => Ok(ValueModel::Varchar(bool_text(b))),
        _ => Err(ErrorModel::UnsupportedStatement),
    }
}

fn read_literal(v: &SqlValue, double_quoted: bool) -> (r: Result<Value, ExecutionError>)
    ensures
        value_result(r) == if double_quoted { update_literal(*v) } else { select_literal(*v) },
{
    match v {
        SqlValue::Number(s) => number(s),
        SqlValue::SingleQuotedString(s) => Ok(Value::Varchar(s.clone())),
        SqlValue::DoubleQuotedString(s) => {
            if double_quoted {
                Ok(Value::Varchar(s.clone()))
            } else {
                Err(ExecutionError::UnsupportedStatement)
            }
        },
        SqlValue::Boolean(b) => Ok(Value::Varchar(bool_string(*b))),
        _ => Err(ExecutionError::UnsupportedStatement),
    }
}

/// The condition of a comparison `column <op> literal`, for `=`, `>` and
/// `<`.
pub open spec fn comparison_condition(
    left: SqlExpr,
    op: SqlBinaryOperator,
    right: SqlExpr,
    of_update: bool,
) -> Result<Option<ConditionModel>, ErrorModel> {
    match left {
        SqlExpr::Identifier(id) => match right {
            SqlExpr::Value(v) => match (if of_update { update_literal(v) } else { select_literal(v) }) {
                Err(e) => Err(e),
                Ok(val) => match op {
                    SqlBinaryOperator::Eq => Ok(Some(ConditionModel::Equals(id.value@, val))),
                    SqlBinaryOperator::Gt => Ok(Some(ConditionModel::GreaterThan(id.value@, val))),
                    SqlBinaryOperator::Lt => Ok(Some(ConditionModel::LessThan(id.value@, val))),
                    _ => Err(ErrorModel::UnsupportedStatement),
                },
            },
            _ => Err(ErrorModel::UnsupportedStatement),
        },
        _ => Err(ErrorModel::UnsupportedStatement),
    }
}

/// The condition of the `WHERE` clause of `SELECT`: a comparison, or none
/// for a missing clause or one of another form.
pub open spec fn select_condition(selection: Option<SqlExpr>) -> Result<Option<ConditionModel>, ErrorModel> {
    match selection {
        None => Ok(None),
        Some(SqlExpr::BinaryOp { left, op, right }) => comparison_condition(*left, op, *right, false),
        Some(_) => Ok(None),
    }
}

/// The condition of the `WHERE` clause of `UPDATE` and `DELETE`: a
/// comparison, or none for a missing clause; a clause of another form is
/// not supported.
pub open spec fn update_condition(selection: Option<SqlExpr>) -> Result<Option<ConditionModel>, ErrorModel> {
    match selection {
        None => Ok(None),
        Some(SqlExpr::BinaryOp { left, op, right }) => comparison_condition(*left, op, *right, true),
        Some(_) => Err(ErrorModel::UnsupportedStatement),
    }
}

/// The view of a result holding an optional condition.
pub open spec fn condition_result(r: Result<Option<Condition>, ExecutionError>) -> Result<Option<ConditionModel>, ErrorModel> {
    match r {
        Ok(Some(c)) => Ok(Some(c@)),
        Ok(None) => Ok(None),
        Err(e) => Err(e@),
    }
}

fn read_comparison(left: &SqlExpr, op: SqlBinaryOperator, right: &SqlExpr, of_update: bool) -> (r: Result<Option<Condition>, ExecutionError>)
    ensures
        condition_result(r) == comparison_condition(*left, op, *right, of_update),
{
    let left_col = match left {
        SqlExpr::Identifier(ident) => ident.value.clone(),
        _ => { return Err(ExecutionError::UnsupportedStatement); },
    };
    let value_expr = match right {
        SqlExpr::Value(v) => v,
        _ => { return Err(ExecutionError::UnsupportedStatement); },
    };
    let parsed_value = match read_literal(value_expr, of_update) {
        Ok(v) => v,
        Err(e) => { return Err(e); },
    };
    match op {
        SqlBinaryOperator::Eq => Ok(Some(Condition::Equals(left_col, parsed_value))),
        SqlBinaryOperator::Gt => Ok(Some(Condition::GreaterThan(left_col, parsed_value))),
        SqlBinaryOperator::Lt => Ok(Some(Condition::LessThan(left_col, parsed_value))),
        _ => Err(ExecutionError::UnsupportedStatement),
    }
}

// ---------------------------------------------------------------------
// Values of INSERT
// ---------------------------------------------------------------------

/// A value of an `INSERT ... VALUES` list: a number, a string, a boolean
/// kept as the string `true` or `false`, `NULL`, or a double-quoted
/// identifier kept as the string it quotes.
pub open spec fn insert_value(e: SqlExpr) -> Result<ValueModel, ErrorModel> {
    match e {
        SqlExpr::Value(SqlValue::Number(s)) => number_value(s@),
        SqlExpr::Value(SqlValue::SingleQuotedString(s)) => Ok(ValueModel::Varchar(s@)),
        SqlExpr::Value(SqlValue::DoubleQuotedString(s)) => Ok(ValueModel::Varchar(s@)),
        SqlExpr::Value(SqlValue::Boolean(b)) => Ok(ValueModel::Varchar(bool_text(b))),
        SqlExpr::Value(SqlValue::Null) => Ok(ValueModel::Null),
        SqlExpr::Identifier(id) => if id.quoted {
            Ok(ValueModel::Varchar(id.value@))
        } else {
            Err(ErrorModel::UnsupportedStatement)
        },
        _ => Err(ErrorModel::UnsupportedStatement),
    }
}

/// The values of one row of a `VALUES` list; the first value that cannot
/// be read gives the error.
pub open spec fn row_values(exprs: Seq<SqlExpr>) -> Result<Seq<ValueModel>, ErrorModel>
    decreases exprs.len(),
{
    if exprs.len() == 0 {
        Ok(Seq::empty())
    } else {
        match row_values(exprs.drop_last()) {
            Err(e) => Err(e),
            Ok(vs) => match insert_value(exprs.last()) {
                Err(e) => Err(e),
                Ok(v) => Ok(vs.push(v)),
            },
        }
    }
}

/// The rows of a `VALUES` list, read row by row.
pub open spec fn values_rows(rows: Seq<Vec<SqlExpr>>) -> Result<Seq<Seq<ValueModel>>, ErrorModel>
    decreases rows.len(),
{
    if rows.len() == 0 {
        Ok(Seq::empty())
    } else {
        match values_rows(rows.drop_last()) {
            Err(e) => Err(e),
            Ok(rs) => match row_values(rows.last()@) {
                Err(e) => Err(e),
                Ok(r) => Ok(rs.push(r)),
            },
        }
    }
}

/// The rows of the source of an `INSERT`: a `VALUES` list.
pub open spec fn insert_source_rows(body: SqlSetExpr) -> Result<Seq<Seq<ValueModel>>, ErrorModel> {
    match body {
        SqlSetExpr::Values(rows) => values_rows(rows@),
        _ => Err(ErrorModel::UnsupportedStatement),
    }
}

/// The view of a result holding rows.
pub open spec fn rows_result_view(r: Result<Vec<Row>, ExecutionError>) -> Result<Seq<Seq<ValueModel>>, ErrorModel> {
    match r {
        Ok(rows) => Ok(rows_view(rows@)),
        Err(e) => Err(e@),
    }
}

fn read_insert_value(e: &SqlExpr) -> (r: Result<Value, ExecutionError>)
    ensures
        value_result(r) == insert_value(*e),
{
    match e {
        SqlExpr::Value(SqlValue::Number(s)) => number(s),
        SqlExpr::Value(SqlValue::SingleQuotedString(s)) => Ok(Value::Varchar(s.clone())),
        SqlExpr::Value(SqlValue::DoubleQuotedString(s)) => Ok(Value::Varchar(s.clone())),
        SqlExpr::Value(SqlValue::Boolean(b)) => Ok(Value::Varchar(bool_string(*b))),
        SqlExpr::Value(SqlValue::Null) => Ok(Value::Null),
        SqlExpr::Identifier(ident) => {
            if ident.quoted {
                Ok(Value::Varchar(ident.value.clone()))
            } else {
                Err(ExecutionError::UnsupportedStatement)
            }
        },
        _ => Err(ExecutionError::UnsupportedStatement),
    }
}

/// Reads the rows of the `VALUES` list of an `INSERT`.
fn extract_insert_values(source_body: &SqlSetExpr) -> (r: Result<Vec<Row>, ExecutionError>)
    ensures
        rows_result_view(r) == insert_source_rows(*source_body),
{
    let values_list = match source_body {
        SqlSetExpr::Values(v) => v,
        _ => { return Err(ExecutionError::UnsupportedStatement); },
    };
    let mut rows: Vec<Row> = Vec::new();
    let mut i: usize = 0;
    proof {
        assert(rows_view(rows@) =~= Seq::<Seq<ValueModel>>::empty());
        assert(values_list@.take(0) =~= Seq::<Vec<SqlExpr>>::empty());
    }
    while i < values_list.len()
        invariant
            i <= values_list@.len(),
            insert_source_rows(*source_body) == values_rows(values_list@),
            rows@.len() == i,
            values_rows(values_list@.take(i as int)) == Ok::<Seq<Seq<ValueModel>>, ErrorModel>(rows_view(rows@)),
        decreases values_list@.len() - i,
    {
        let row_exprs = &values_list[i];
        let mut values: Vec<Value> = Vec::new();
        let mut j: usize = 0;
        proof {
            assert(values@.map_values(|v: Value| v@) =~= Seq::<ValueModel>::empty());
            assert(row_exprs@.take(0) =~= Seq::<SqlExpr>::empty());
        }
        while j < row_exprs.len()
            invariant
                i < values_list@.len(),
                row_exprs == values_list@[i as int],
                values_rows(values_list@.take(i as int)) == Ok::<Seq<Seq<ValueModel>>, ErrorModel>(rows_view(rows@)),
                j <= row_exprs@.len(),
                insert_source_rows(*source_body) == values_rows(values_list@),
                rows@.len() == i,
                values@.len() == j,
                row_values(row_exprs@.take(j as int)) == Ok::<Seq<ValueModel>, ErrorModel>(values@.map_values(|v: Value| v@)),
            decreases row_exprs@.len() - j,
        {
            proof {
                assert(row_exprs@.take(j + 1).drop_last() =~= row_exprs@.take(j as int));
                assert(row_exprs@.take(j + 1).last() == row_exprs@[j as int]);
            }
            let ghost prev = values@.map_values(|v: Value| v@);
            match read_insert_value(&row_exprs[j]) {
                Ok(v) => {
                    values.push(v);
                    assert(values@.map_values(|v: Value| v@) =~= prev.push(values@[j as int]@));
                },
                Err(e) => {
                    proof {
                        lemma_row_values_prefix_error(row_exprs@, j as int + 1);
                        lemma_values_rows_prefix(values_list@, i as int);
                    }
                    return Err(e);
                },
            }
            j = j + 1;
        }
        proof {
            assert(row_exprs@.take(j as int) =~= row_exprs@);
            assert(values_list@.take(i + 1).drop_last() =~= values_list@.take(i as int));
            assert(values_list@.take(i + 1).last() == values_list@[i as int]);
        }
        let ghost prev_rows = rows_view(rows@);
        rows.push(Row { values });
        proof {
            assert(rows_view(rows@) =~= prev_rows.push(rows@[i as int]@));
        }
        i = i + 1;
    }
    proof {
        assert(values_list@.take(i as int) =~= values_list@);
    }
    Ok(rows)
}

/// An error in a prefix of a row is the row's error.
proof fn lemma_row_values_prefix_error(exprs: Seq<SqlExpr>, k: int)
    requires
        0 <= k <= exprs.len(),
        row_values(exprs.take(k)) is Err,
    ensures
        row_values(exprs) == row_values(exprs.take(k)),
    decreases exprs.len() - k,
{
    if k < exprs.len() {
        assert(exprs.take(k + 1).drop_last() =~= exprs.take(k));
        lemma_row_values_prefix_error(exprs, k + 1);
    } else {
        assert(exprs.take(k) =~= exprs);
    }
}

/// An error in a row after error-free rows is the list's error.
proof fn lemma_values_rows_prefix(rows: Seq<Vec<SqlExpr>>, k: int)
    requires
        0 <= k < rows.len(),
        values_rows(rows.take(k)) is Ok,
        row_values(rows[k]@) is Err,
    ensures
        match row_values(rows[k]@) {
            Err(e) => values_rows(rows) == Err::<Seq<Seq<ValueModel>>, ErrorModel>(e),
            Ok(_) => true,
        },
{
    assert(rows.take(k + 1).drop_last() =~= rows.take(k));
    assert(rows.take(k + 1).last() == rows[k]);
    lemma_values_rows_error_stays(rows, k + 1);
}

proof fn lemma_values_rows_error_stays(rows: Seq<Vec<SqlExpr>>, k: int)
    requires
        0 <= k <= rows.len(),
        values_rows(rows.take(k)) is Err,
    ensures
        values_rows(rows) == values_rows(rows.take(k)),
    decreases rows.len() - k,
{
    if k < rows.len() {
        assert(rows.take(k + 1).drop_last() =~= rows.take(k));
        lemma_values_rows_error_stays(rows, k + 1);
    } else {
        assert(rows.take(k) =~= rows);
    }
}

// ---------------------------------------------------------------------
// SELECT without FROM: expressions
// ---------------------------------------------------------------------

/// The outcome of evaluating an expression: a value, an error, or an
/// integer result out of the range of `i32`, which has no value.
pub enum Eval {
    Val(ValueModel),
    Fail(ErrorModel),
    Overflow,
}

/// `x / y` rounded toward zero, as integer division does.
pub open spec fn trunc_div(x: int, y: int) -> int {
    if (x >= 0) == (y > 0) {
        abs_int(x) / abs_int(y)
    } else {
        -(abs_int(x) / abs_int(y))
    }
}

pub open spec fn abs_int(x: int) -> int {
    if x < 0 { -x } else { x }
}

/// An integer result: a value when it fits in `i32`, else an overflow.
pub open spec fn int_result(v: int) -> Eval {
    if i32::MIN <= v <= i32::MAX { Eval::Val(ValueModel::Int(v as i32)) } else { Eval::Overflow }
}

/// `+`, `-`, `*` and `/` on two integers; division by zero is a syntax
/// error, any other operator is not supported.
pub open spec fn arithmetic(op: SqlBinaryOperator, a: i32, b: i32) -> Eval {
    match op {
        SqlBinaryOperator::Plus => int_result(a + b),
        SqlBinaryOperator::Minus => int_result(a - b),
        SqlBinaryOperator::Multiply => int_result(a * b),
        SqlBinaryOperator::Divide => if b == 0 {
            Eval::Fail(ErrorModel::SyntaxError)
        } else {
            int_result(trunc_div(a as int, b as int))
        },
        _ => Eval::Fail(ErrorModel::UnsupportedStatement),
    }
}

/// The value of an expression of a `SELECT` without `FROM`: numbers,
/// strings, and arithmetic on integers, evaluated left operand first.
pub open spec fn eval_expr(e: SqlExpr) -> Eval
    decreases e,
{
    match e {
        SqlExpr::Value(SqlValue::Number(s)) => match number_value(s@) {
            Ok(v) => Eval::Val(v),
            Err(x) => Eval::Fail(x),
        },
        SqlExpr::Value(SqlValue::SingleQuotedString(s)) => Eval::Val(ValueModel::Varchar(s@)),
        SqlExpr::Value(SqlValue::DoubleQuotedString(s)) => Eval::Val(ValueModel::Varchar(s@)),
        SqlExpr::BinaryOp { left, op, right } => match eval_expr(*left) {
            Eval::Val(a) => match eval_expr(*right) {
                Eval::Val(b) => match (a, b) {
                    (ValueModel::Int(x), ValueModel::Int(y)) => arithmetic(op, x, y),
                    _ => Eval::Fail(ErrorModel::UnsupportedStatement),
                },
                other => other,
            },
            other => other,
        },
        _ => Eval::Fail(ErrorModel::UnsupportedStatement),
    }
}

/// The view of an evaluation's result.
pub open spec fn eval_view(r: Result<Value, ExecutionError>) -> Eval {
    match r {
        Ok(v) => Eval::Val(v@),
        Err(e) => Eval::Fail(e@),
    }
}

/// `+`, `-`, `*` or `/` on two integers, or `None` where the result is out
/// of the range of `i32`.
fn arithmetic_checked(op: SqlBinaryOperator, a: i32, b: i32) -> (r: Option<Result<Value, ExecutionError>>)
    ensures
        match r {
            None => arithmetic(op, a, b) is Overflow,
            Some(x) => eval_view(x) == arithmetic(op, a, b),
        },
{
    let x = a as i64;
    let y = b as i64;
    let v: i64 = match op {
        SqlBinaryOperator::Plus => x + y,
        SqlBinaryOperator::Minus => x - y,
        SqlBinaryOperator::Multiply => {
            assert(-0x4000_0000_0000_0000 <= x * y <= 0x4000_0000_0000_0000) by (nonlinear_arith)
                requires
                    -0x8000_0000 <= x <= 0x7fff_ffff,
                    -0x8000_0000 <= y <= 0x7fff_ffff,
            ;
            x * y
        },
        SqlBinaryOperator::Divide => {
            if b == 0 {
                return Some(Err(ExecutionError::SyntaxError));
            }
            let ax: i64 = if x < 0 { -x } else { x };
            let ay: i64 = if y < 0 { -y } else { y };
            let q: i64 = ax / ay;
            if (x >= 0) == (y > 0) { q } else { -q }
        },
        _ => { return Some(Err(ExecutionError::UnsupportedStatement)); },
    };
    if -0x8000_0000 <= v && v <= 0x7fff_ffff {
        Some(Ok(Value::Int(v as i32)))
    } else {
        None
    }
}

fn evaluate_arithmetic(op: SqlBinaryOperator, a: i32, b: i32) -> (r: Result<Value, ExecutionError>)
    requires
        !(arithmetic(op, a, b) is Overflow),
    ensures
        eval_view(r) == arithmetic(op, a, b),
{
    match arithmetic_checked(op, a, b) {
        Some(r) => r,
        None => {
            proof {
                assert(false);
            }
            Err(ExecutionError::SyntaxError)
        },
    }
}

/// Evaluates an expression, or answers `None` where an integer result is
/// out of the range of `i32`.
fn eval_checked(expr: &SqlExpr) -> (r: Option<Result<Value, ExecutionError>>)
    ensures
        match r {
            None => eval_expr(*expr) is Overflow,
            Some(x) => eval_view(x) == eval_expr(*expr),
        },
    decreases expr,
{
    match expr {
        SqlExpr::Value(SqlValue::Number(s)) => Some(number(s)),
        SqlExpr::Value(SqlValue::SingleQuotedString(s)) => Some(Ok(Value::Varchar(s.clone()))),
        SqlExpr::Value(SqlValue::DoubleQuotedString(s)) => Some(Ok(Value::Varchar(s.clone()))),
        SqlExpr::BinaryOp { left, op, right } => {
            let left_val = match eval_checked(left) {
                None => { return None; },
                Some(Err(e)) => { return Some(Err(e)); },
                Some(Ok(v)) => v,
            };
            let right_val = match eval_checked(right) {
                None => { return None; },
                Some(Err(e)) => { return Some(Err(e)); },
                Some(Ok(v)) => v,
            };
            match (left_val, right_val) {
                (Value::Int(a), Value::Int(b)) => arithmetic_checked(*op, a, b),
                _ => Some(Err(ExecutionError::UnsupportedStatement)),
            }
        },
        _ => Some(Err(ExecutionError::UnsupportedStatement)),
    }
}

/// Evaluates an expression of a `SELECT` without `FROM`.
fn evaluate_expression(expr: &SqlExpr) -> (r: Result<Value, ExecutionError>)
    requires
        !(eval_expr(*expr) is Overflow),
    ensures
        eval_view(r) == eval_expr(*expr),
    decreases expr,
{
    match expr {
        SqlExpr::Value(SqlValue::Number(s)) => number(s),
        SqlExpr::Value(SqlValue::SingleQuotedString(s)) => Ok(Value::Varchar(s.clone())),
        SqlExpr::Value(SqlValue::DoubleQuotedString(s)) => Ok(Value::Varchar(s.clone())),
        SqlExpr::BinaryOp { left, op, right } => {
            let left_val = evaluate_expression(left)?;
            let right_val = evaluate_expression(right)?;
            match (left_val, right_val) {
                (Value::Int(a), Value::Int(b)) => evaluate_arithmetic(*op, a, b),
                _ => Err(ExecutionError::UnsupportedStatement),
            }
        },
        _ => Err(ExecutionError::UnsupportedStatement),
    }
}

/// The outcome of evaluating the items of a `SELECT` list in order.
pub enum ItemsEval {
    Vals(Seq<ValueModel>),
    Fail(ErrorModel),
    Overflow,
}

/// Evaluates the items of a `SELECT` list in order; an item with an alias
/// or a `*` is not supported.
pub open spec fn eval_items(items: Seq<SqlSelectItem>) -> ItemsEval
    decreases items.len(),
{
    if items.len() == 0 {
        ItemsEval::Vals(Seq::empty())
    } else {
        match eval_items(items.drop_last()) {
            ItemsEval::Vals(vs) => match items.last() {
                SqlSelectItem::UnnamedExpr(e) => match eval_expr(e) {
                    Eval::Val(v) => ItemsEval::Vals(vs.push(v)),
                    Eval::Fail(x) => ItemsEval::Fail(x),
                    Eval::Overflow => ItemsEval::Overflow,
                },
                _ => ItemsEval::Fail(ErrorModel::UnsupportedStatement),
            },
            other => other,
        }
    }
}

/// The single row of a `SELECT` without `FROM`.
pub open spec fn expression_rows(items: Seq<SqlSelectItem>) -> Result<Seq<Seq<ValueModel>>, ErrorModel> {
    match eval_items(items) {
        ItemsEval::Vals(vs) => Ok(seq![vs]),
        ItemsEval::Fail(x) => Err(x),
        ItemsEval::Overflow => Err(ErrorModel::SyntaxError),
    }
}

proof fn lemma_eval_items_stops(items: Seq<SqlSelectItem>, k: int)
    requires
        0 <= k <= items.len(),
        !(eval_items(items.take(k)) is Vals),
    ensures
        eval_items(items) == eval_items(items.take(k)),
    decreases items.len() - k,
{
    if k < items.len() {
        assert(items.take(k + 1).drop_last() =~= items.take(k));
        lemma_eval_items_stops(items, k + 1);
    } else {
        assert(items.take(k) =~= items);
    }
}

/// Evaluates a `SELECT` without `FROM` into its single row.
fn handle_expression_query(select_expr: &SqlSelect) -> (r: Result<Vec<Row>, ExecutionError>)
    requires
        !(eval_items(select_expr.projection@) is Overflow),
    ensures
        rows_result_view(r) == expression_rows(select_expr.projection@),
{
    let items = &select_expr.projection;
    let mut row_values: Vec<Value> = Vec::new();
    let mut i: usize = 0;
    proof {
        assert(items@.take(0) =~= Seq::<SqlSelectItem>::empty());
        assert(row_values@.map_values(|v: Value| v@) =~= Seq::<ValueModel>::empty());
    }
    while i < items.len()
        invariant
            i <= items@.len(),
            items@ == select_expr.projection@,
            !(eval_items(items@) is Overflow),
            row_values@.len() == i,
            eval_items(items@.take(i as int)) == ItemsEval::Vals(row_values@.map_values(|v: Value| v@)),
        decreases items@.len() - i,
    {
        proof {
            assert(items@.take(i + 1).drop_last() =~= items@.take(i as int));
            assert(items@.take(i + 1).last() == items@[i as int]);
        }
        match &items[i] {
            SqlSelectItem::UnnamedExpr(expr) => {
                proof {
                    if eval_expr(*expr) is Overflow {
                        lemma_eval_items_stops(items@, i + 1);
                    }
                }
                match evaluate_expression(expr) {
                    Ok(value) => {
                        let ghost prev = row_values@.map_values(|v: Value| v@);
                        row_values.push(value);
                        assert(row_values@.map_values(|v: Value| v@) =~= prev.push(row_values@[i as int]@));
                    },
                    Err(e) => {
                        proof {
                            lemma_eval_items_stops(items@, i + 1);
                        }
                        return Err(e);
                    },
                }
            },
            _ => {
                proof {
                    lemma_eval_items_stops(items@, i + 1);
                }
                return Err(ExecutionError::UnsupportedStatement);
            },
        }
        i = i + 1;
    }
    proof {
        assert(items@.take(i as int) =~= items@);
    }
    let mut rows: Vec<Row> = Vec::new();
    rows.push(Row { values: row_values });
    proof {
        assert(rows_view(rows@) =~= seq![rows@[0]@]);
    }
    Ok(rows)
}

// ---------------------------------------------------------------------
// Reading a SELECT
// ---------------------------------------------------------------------

/// The first part of a name, which is the table's name.
pub open spec fn first_name(name: Seq<SqlIdent>) -> Result<Seq<char>, ErrorModel> {
    if name.len() > 0 { Ok(name[0].value@) } else { Err(ErrorModel::SyntaxError) }
}

/// The view of a result holding a string.
pub open spec fn string_result(r: Result<String, ExecutionError>) -> Result<Seq<char>, ErrorModel> {
    match r {
        Ok(s) => Ok(s@),
        Err(e) => Err(e@),
    }
}

fn read_first_name(name: &Vec<SqlIdent>) -> (r: Result<String, ExecutionError>)
    ensures
        string_result(r) == first_name(name@),
{
    if name.len() > 0 {
        Ok(name[0].value.clone())
    } else {
        Err(ExecutionError::SyntaxError)
    }
}

/// The table a `SELECT` reads: the first relation of its `FROM` clause.
pub open spec fn select_table_name(body: SqlSetExpr) -> Result<Seq<char>, ErrorModel> {
    match body {
        SqlSetExpr::Select(s) => if s.from@.len() > 0 {
            match s.from@[0] {
                SqlTableFactor::Table { name } => first_name(name@),
                SqlTableFactor::Other => Err(ErrorModel::UnsupportedStatement),
            }
        } else {
            Err(ErrorModel::SyntaxError)
        },
        _ => Err(ErrorModel::UnsupportedStatement),
    }
}

fn extract_table_name(query_body: &SqlSetExpr) -> (r: Result<String, ExecutionError>)
    ensures
        string_result(r) == select_table_name(*query_body),
{
    match query_body {
        SqlSetExpr::Select(select_expr) => {
            if select_expr.from.len() > 0 {
                match &select_expr.from[0] {
                    SqlTableFactor::Table { name } => read_first_name(name),
                    SqlTableFactor::Other => Err(ExecutionError::UnsupportedStatement),
                }
            } else {
                Err(ExecutionError::SyntaxError)
            }
        },
        _ => Err(ExecutionError::UnsupportedStatement),
    }
}

/// The symbol of an arithmetic operator; `?` for the others.
pub open spec fn operator_text(op: SqlBinaryOperator) -> Seq<char> {
    match op {
        SqlBinaryOperator::Plus => "+"@,
        SqlBinaryOperator::Minus => "-"@,
        SqlBinaryOperator::Multiply => "*"@,
        SqlBinaryOperator::Divide => "/"@,
        _ => "?"@,
    }
}

/// The column name shown for an expression: literals as written,
/// identifiers by name, `<left> <op> <right>` for an operation, `expr` for
/// anything else.
pub open spec fn expression_column_name(e: SqlExpr) -> Seq<char>
    decreases e,
{
    match e {
        SqlExpr::Value(SqlValue::Number(s)) => s@,
        SqlExpr::Value(SqlValue::SingleQuotedString(s)) => s@,
        SqlExpr::Value(SqlValue::DoubleQuotedString(s)) => s@,
        SqlExpr::BinaryOp { left, op, right } => expression_column_name(*left) + seq![' '] + operator_text(op)
            + seq![' '] + expression_column_name(*right),
        SqlExpr::Identifier(id) => id.value@,
        _ => "expr"@,
    }
}

fn format_expression_as_column_name(expr: &SqlExpr) -> (s: String)
    ensures
        s@ == expression_column_name(*expr),
    decreases expr,
{
    match expr {
        SqlExpr::Value(SqlValue::Number(s)) => s.clone(),
        SqlExpr::Value(SqlValue::SingleQuotedString(s)) => s.clone(),
        SqlExpr::Value(SqlValue::DoubleQuotedString(s)) => s.clone(),
        SqlExpr::BinaryOp { left, op, right } => {
            let mut text = format_expression_as_column_name(left);
            let right_text = format_expression_as_column_name(right);
            let op_str = match op {
                SqlBinaryOperator::Plus => "+",
                SqlBinaryOperator::Minus => "-",
                SqlBinaryOperator::Multiply => "*",
                SqlBinaryOperator::Divide => "/",
                _ => "?",
            };
            text.append(" ");
            text.append(op_str);
            text.append(" ");
            text.append(right_text.as_str());
            proof {
                reveal_strlit(" ");
                assert(text@ =~= expression_column_name(*expr));
            }
            text
        },
        SqlExpr::Identifier(ident) => ident.value.clone(),
        _ => String::from_str("expr"),
    }
}

/// The column name of an item of a `SELECT` list: an expression's name,
/// or `*`.
pub open spec fn item_column_name(item: SqlSelectItem) -> Seq<char> {
    match item {
        SqlSelectItem::UnnamedExpr(SqlExpr::Identifier(id)) => id.value@,
        SqlSelectItem::UnnamedExpr(e) => expression_column_name(e),
        SqlSelectItem::Wildcard => "*"@,
        SqlSelectItem::Other => Seq::empty(),
    }
}

/// A `SELECT` list item that is neither an expression without alias nor
/// a bare `*`; such an item has no column name.
pub open spec fn unsupported_item(item: SqlSelectItem) -> bool {
    item is Other
}

/// The column names of this body cannot be read: it is a `SELECT` with an
/// item of a form that has no column name here.
pub open spec fn column_names_unreadable(body: SqlSetExpr) -> bool {
    match body {
        SqlSetExpr::Select(s) => exists|i: int| 0 <= i < s.projection@.len() && #[trigger] unsupported_item(s.projection@[i]),
        _ => false,
    }
}

/// The column names of a `SELECT` list, in order.
pub open spec fn select_column_names(body: SqlSetExpr) -> Result<Seq<Seq<char>>, ErrorModel> {
    match body {
        SqlSetExpr::Select(s) => Ok(s.projection@.map_values(|item: SqlSelectItem| item_column_name(item))),
        _ => Err(ErrorModel::UnsupportedStatement),
    }
}

/// The view of a result holding names.
pub open spec fn names_result(r: Result<Vec<String>, ExecutionError>) -> Result<Seq<Seq<char>>, ErrorModel> {
    match r {
        Ok(v) => Ok(cells_view(v@)),
        Err(e) => Err(e@),
    }
}

fn extract_columns_from_select(query_body: &SqlSetExpr) -> (r: Result<Vec<String>, ExecutionError>)
    requires
        !column_names_unreadable(*query_body),
    ensures
        names_result(r) == select_column_names(*query_body),
{
    match query_body {
        SqlSetExpr::Select(select_expr) => {
            let mut names: Vec<String> = Vec::new();
            let mut i: usize = 0;
            while i < select_expr.projection.len()
                invariant
                    i <= select_expr.projection@.len(),
                    !column_names_unreadable(*query_body),
                    *query_body == SqlSetExpr::Select(*select_expr),
                    names@.len() == i,
                    forall|j: int| 0 <= j < i ==> #[trigger] names@[j]@ == item_column_name(select_expr.projection@[j]),
                decreases select_expr.projection@.len() - i,
            {
                let name = match &select_expr.projection[i] {
                    SqlSelectItem::UnnamedExpr(SqlExpr::Identifier(ident)) => ident.value.clone(),
                    SqlSelectItem::UnnamedExpr(expr) => format_expression_as_column_name(expr),
                    SqlSelectItem::Wildcard => String::from_str("*"),
                    SqlSelectItem::Other => {
                        proof {
                            assert(unsupported_item(select_expr.projection@[i as int]));
                        }
                        String::new()
                    },
                };
                names.push(name);
                i = i + 1;
            }
            proof {
                assert(cells_view(names@) =~= select_expr.projection@.map_values(|item: SqlSelectItem| item_column_name(item)));
            }
            Ok(names)
        },
        _ => Err(ExecutionError::UnsupportedStatement),
    }
}

/// The condition of a `SELECT`'s `WHERE` clause.
pub open spec fn select_body_condition(body: SqlSetExpr) -> Result<Option<ConditionModel>, ErrorModel> {
    match body {
        SqlSetExpr::Select(s) => select_condition(s.selection),
        _ => Err(ErrorModel::UnsupportedStatement),
    }
}

/// Reads the condition of a `SELECT`'s `WHERE` clause.
pub fn extract_condition_from_select(query_body: &SqlSetExpr) -> (r: Result<Option<Condition>, ExecutionError>)
    ensures
        condition_result(r) == select_body_condition(*query_body),
{
    match query_body {
        SqlSetExpr::Select(select_expr) => {
            match &select_expr.selection {
                Some(SqlExpr::BinaryOp { left, op, right }) => read_comparison(left, *op, right, false),
                Some(_) => Ok(None),
                None => Ok(None),
            }
        },
        _ => Err(ExecutionError::UnsupportedStatement),
    }
}

// ---------------------------------------------------------------------
// Queries
// ---------------------------------------------------------------------

/// A `SELECT` without `FROM`, which evaluates its expressions.
pub open spec fn is_expression_select(body: SqlSetExpr) -> bool {
    body matches SqlSetExpr::Select(s) && s.from@.len() == 0
}

/// The query cannot be executed: an expression's integer result is out of
/// range, or the table query's list has an item without a column name.
pub open spec fn query_unrunnable(q: SqlQuery) -> bool {
    match q.body {
        SqlSetExpr::Select(s) => if s.from@.len() == 0 {
            eval_items(s.projection@) is Overflow
        } else {
            select_table_name(q.body) is Ok && column_names_unreadable(q.body)
        },
        _ => false,
    }
}

/// The rows a query answers: the evaluated expressions of a `SELECT`
/// without `FROM`, or the rows that the engine selects from the table with
/// the named columns and the condition of the `WHERE` clause.
pub open spec fn query_rows<T: StorageEngine>(db: DbModel, q: SqlQuery) -> Result<Seq<Seq<ValueModel>>, ErrorModel> {
    if is_expression_select(q.body) {
        expression_rows(q.body->Select_0.projection@)
    } else {
        match select_table_name(q.body) {
            Err(e) => Err(e),
            Ok(t) => match select_column_names(q.body) {
                Err(e) => Err(e),
                Ok(cols) => match select_body_condition(q.body) {
                    Err(e) => Err(e),
                    Ok(c) => match T::select_rows_model(db, t, cols, c) {
                        Ok(rows) => Ok(rows),
                        Err(m) => Err(ErrorModel::StorageError(m)),
                    },
                },
            },
        }
    }
}

/// The names shown over a query's rows: the names of its `SELECT` list,
/// where a lone `*` stands for the table's columns; `col1` when no row was
/// found and the list has no names.
pub open spec fn query_columns<T: StorageEngine>(db: DbModel, q: SqlQuery, rows: Seq<Seq<ValueModel>>) -> Seq<Seq<char>> {
    if rows.len() == 0 {
        match select_column_names(q.body) {
            Ok(c) => c,
            Err(_) => seq!["col1"@],
        }
    } else {
        match select_column_names(q.body) {
            Ok(c) => if c.len() == 1 && c[0] == "*"@ {
                match select_table_name(q.body) {
                    Ok(t) => match T::get_table_schema_model(db, t) {
                        Ok(schema) => schema.map_values(|col: ColumnModel| col.name),
                        Err(_) => c,
                    },
                    Err(_) => c,
                }
            } else {
                c
            },
            Err(_) => default_column_names_spec(rows[0].len()),
        }
    }
}

pub open spec fn default_column_names_spec(n: nat) -> Seq<Seq<char>> {
    crate::formatter::default_column_names(n)
}

proof fn lemma_eval_items_exprs(items: Seq<SqlSelectItem>)
    requires
        eval_items(items) is Vals,
    ensures
        forall|i: int| 0 <= i < items.len() ==> !#[trigger] unsupported_item(items[i]),
    decreases items.len(),
{
    if items.len() > 0 {
        lemma_eval_items_exprs(items.drop_last());
        assert forall|i: int| 0 <= i < items.len() implies !#[trigger] unsupported_item(items[i]) by {
            if i < items.len() - 1 {
                assert(items.drop_last()[i] == items[i]);
            }
        }
    }
}

/// Runs a query.
fn handle_query<T: StorageEngine>(query: &SqlQuery, storage_engine: &T) -> (r: Result<Vec<Row>, ExecutionError>)
    requires
        storage_engine.valid(),
        !query_unrunnable(*query),
    ensures
        rows_result_view(r) == query_rows::<T>(storage_engine.db(), *query),
{
    if let SqlSetExpr::Select(select_expr) = &query.body {
        if select_expr.from.len() == 0 {
            return handle_expression_query(select_expr);
        }
    }
    let table_name = extract_table_name(&query.body)?;
    let columns = extract_columns_from_select(&query.body)?;
    let condition = extract_condition_from_select(&query.body)?;
    match storage_engine.select_rows(table_name.as_str(), columns, condition) {
        Ok(rows) => Ok(rows),
        Err(e) => Err(ExecutionError::StorageError(e)),
    }
}

/// The view of a result holding rows and column names.
pub open spec fn rows_names_ok(r: Result<(Vec<Row>, Vec<String>), ExecutionError>, rows: Seq<Seq<ValueModel>>, names: Seq<Seq<char>>) -> bool {
    match r {
        Ok((rs, ns)) => rows_view(rs@) == rows && cells_view(ns@) == names,
        Err(_) => false,
    }
}

/// Runs a query and works out the names of its result's columns.
pub(crate) fn execute_query_with_columns<T: StorageEngine>(query: &SqlQuery, storage_engine: &T) -> (r: Result<(Vec<Row>, Vec<String>), ExecutionError>)
    requires
        storage_engine.valid(),
        !query_unrunnable(*query),
    ensures
        match query_rows::<T>(storage_engine.db(), *query) {
            Ok(rows) => rows_names_ok(r, rows, query_columns::<T>(storage_engine.db(), *query, rows)),
            Err(e) => r matches Err(x) && x@ == e,
        },
{
    let rows = handle_query(query, storage_engine)?;
    proof {
        if is_expression_select(query.body) {
            lemma_eval_items_exprs(query.body->Select_0.projection@);
        }
    }
    if rows.len() == 0 {
        let default_columns = match extract_columns_from_select(&query.body) {
            Ok(c) => c,
            Err(_) => {
                let mut v: Vec<String> = Vec::new();
                v.push(String::from_str("col1"));
                proof {
                    assert(cells_view(v@) =~= seq!["col1"@]);
                }
                v
            },
        };
        return Ok((rows, default_columns));
    }
    let column_names = match extract_columns_from_select(&query.body) {
        Ok(names) => {
            let mut names = names;
            if names.len() == 1 && str_is_star(&names[0]) {
                if let Ok(table_name) = extract_table_name(&query.body) {
                    if let Ok(schema) = storage_engine.get_table_schema(table_name.as_str()) {
                        names = schema_column_names(&schema);
                    }
                }
            }
            names
        },
        Err(_) => {
            proof {
                assert(rows_view(rows@)[0].len() == rows@[0].values@.len());
            }
            default_names(rows[0].values.len())
        },
    };
    Ok((rows, column_names))
}

fn str_is_star(s: &String) -> (r: bool)
    ensures
        r == (s@ == "*"@),
{
    crate::text::str_equal(s.as_str(), "*")
}

/// The names of a schema's columns.
fn schema_column_names(schema: &Schema) -> (names: Vec<String>)
    ensures
        cells_view(names@) == schema@.map_values(|col: ColumnModel| col.name),
{
    let mut names: Vec<String> = Vec::new();
    let mut i: usize = 0;
    while i < schema.columns.len()
        invariant
            i <= schema.columns@.len(),
            names@.len() == i,
            forall|j: int| 0 <= j < i ==> #[trigger] names@[j]@ == schema.columns@[j].name@,
        decreases schema.columns@.len() - i,
    {
        names.push(schema.columns[i].name.clone());
        i = i + 1;
    }
    assert(cells_view(names@) =~= schema@.map_values(|col: ColumnModel| col.name));
    names
}

// ---------------------------------------------------------------------
// CREATE TABLE, DROP TABLE, UPDATE
// ---------------------------------------------------------------------

/// The outcome of a statement: the tables it leaves and what it answers.
pub type Outcome = (DbModel, Result<QueryResultModel, ErrorModel>);

/// A storage error, as the executor reports it.
pub open spec fn storage_failure<A>(r: Result<A, Seq<char>>, ok: QueryResultModel) -> Result<QueryResultModel, ErrorModel> {
    match r {
        Ok(_) => Ok(ok),
        Err(m) => Err(ErrorModel::StorageError(m)),
    }
}

/// The column type of a column definition: `INT` is 32 bits wide unless a
/// width is given, `VARCHAR` holds 255 characters unless a length is given
/// (given sizes are truncated to 32 bits).
pub open spec fn column_data_type(t: SqlDataType) -> DataType {
    match t {
        SqlDataType::Int(Some(n)) => DataType::Int(n as u32),
        SqlDataType::Int(None) => DataType::Int(32),
        SqlDataType::Varchar(Some(n)) => DataType::Varchar(n as u32),
        SqlDataType::Varchar(None) => DataType::Varchar(255),
        SqlDataType::Other => DataType::Int(0),
    }
}

/// The constraints that a column's options declare: `NOT NULL` and
/// `PRIMARY KEY`, in order; other options are ignored.
pub open spec fn column_constraints(options: Seq<SqlColumnOption>) -> Seq<Constraint> {
    options.filter_map(|o: SqlColumnOption| match o {
        SqlColumnOption::NotNull => Some(Constraint::NotNull),
        SqlColumnOption::Unique { is_primary } => if is_primary { Some(Constraint::PrimaryKey) } else { None },
        SqlColumnOption::Other => None,
    })
}

/// The schema column of a column definition.
pub open spec fn column_model(c: SqlColumnDef) -> ColumnModel {
    ColumnModel { name: c.name.value@, data_type: column_data_type(c.data_type), constraints: column_constraints(c.options@) }
}

/// The schema of `CREATE TABLE`, when every column has type `INT` or
/// `VARCHAR`.
pub open spec fn create_schema(cols: Seq<SqlColumnDef>) -> Option<Seq<ColumnModel>> {
    if forall|i: int| 0 <= i < cols.len() ==> !(#[trigger] cols[i].data_type is Other) {
        Some(cols.map_values(|c: SqlColumnDef| column_model(c)))
    } else {
        None
    }
}

/// What `CREATE TABLE` does.
pub open spec fn create_table_outcome<T: StorageEngine>(db: DbModel, name: Seq<SqlIdent>, cols: Seq<SqlColumnDef>) -> Outcome {
    match first_name(name) {
        Err(e) => (db, Err(e)),
        Ok(t) => match create_schema(cols) {
            None => (db, Err(ErrorModel::UnsupportedStatement)),
            Some(schema) => {
                let (db2, r) = T::create_table_model(db, t, schema);
                (db2, storage_failure(r, QueryResultModel::Success))
            },
        },
    }
}

/// The view of a statement's result.
pub open spec fn result_view(r: Result<QueryResult, ExecutionError>) -> Result<QueryResultModel, ErrorModel> {
    match r {
        Ok(q) => Ok(q@),
        Err(e) => Err(e@),
    }
}

fn column_constraints_of(options: &Vec<SqlColumnOption>) -> (cs: Vec<Constraint>)
    ensures
        cs@ == column_constraints(options@),
{
    let ghost f = |o: SqlColumnOption| match o {
        SqlColumnOption::NotNull => Some(Constraint::NotNull),
        SqlColumnOption::Unique { is_primary } => if is_primary { Some(Constraint::PrimaryKey) } else { None },
        SqlColumnOption::Other => None,
    };
    let mut cs: Vec<Constraint> = Vec::new();
    let mut i: usize = 0;
    while i < options.len()
        invariant
            i <= options@.len(),
            forall|o: SqlColumnOption| #[trigger] f(o) == match o {
                SqlColumnOption::NotNull => Some(Constraint::NotNull),
                SqlColumnOption::Unique { is_primary } => if is_primary { Some(Constraint::PrimaryKey) } else { None },
                SqlColumnOption::Other => None,
            },
            cs@ == options@.take(i as int).filter_map(f),
        decreases options@.len() - i,
    {
        proof {
            assert(options@.take(i + 1).drop_last() =~= options@.take(i as int));
            assert(options@.take(i + 1).last() == options@[i as int]);
        }
        match options[i] {
            SqlColumnOption::NotNull => cs.push(Constraint::NotNull),
            SqlColumnOption::Unique { is_primary } => {
                if is_primary {
                    cs.push(Constraint::PrimaryKey);
                }
            },
            SqlColumnOption::Other => {},
        }
        i = i + 1;
    }
    proof {
        assert(options@.take(i as int) =~= options@);
    }
    cs
}

/// Creates a table.
fn handle_create_table_stmt<T: StorageEngine>(
    name: &Vec<SqlIdent>,
    ast_columns: &Vec<SqlColumnDef>,
    storage_engine: &mut T,
) -> (r: Result<QueryResult, ExecutionError>)
    requires
        old(storage_engine).valid(),
    ensures
        final(storage_engine).valid(),
        (final(storage_engine).db(), result_view(r)) == create_table_outcome::<T>(old(storage_engine).db(), name@, ast_columns@),
{
    let table_name_str = read_first_name(name)?;
    let mut schema_columns: Vec<ColumnDefinition> = Vec::new();
    let mut i: usize = 0;
    while i < ast_columns.len()
        invariant
            i <= ast_columns@.len(),
            schema_columns@.len() == i,
            storage_engine.valid(),
            storage_engine.db() == old(storage_engine).db(),
            first_name(name@) == Ok::<Seq<char>, ErrorModel>(table_name_str@),
            forall|j: int| 0 <= j < i ==> !(#[trigger] ast_columns@[j].data_type is Other),
            forall|j: int| 0 <= j < i ==> #[trigger] schema_columns@[j]@ == column_model(ast_columns@[j]),
        decreases ast_columns@.len() - i,
    {
        let col_def = &ast_columns[i];
        let data_type = match col_def.data_type {
            SqlDataType::Int(opt_len) => DataType::Int(match opt_len { Some(n) => #[verifier::truncate] (n as u32), None => 32 }),
            SqlDataType::Varchar(opt_len) => DataType::Varchar(match opt_len { Some(n) => #[verifier::truncate] (n as u32), None => 255 }),
            SqlDataType::Other => {
                proof {
                    assert(ast_columns@[i as int].data_type is Other);
                }
                return Err(ExecutionError::UnsupportedStatement);
            },
        };
        let constraints = column_constraints_of(&col_def.options);
        schema_columns.push(ColumnDefinition { name: col_def.name.value.clone(), data_type, constraints });
        i = i + 1;
    }
    let schema = Schema { columns: schema_columns };
    proof {
        assert(schema@ =~= ast_columns@.map_values(|c: SqlColumnDef| column_model(c)));
    }
    match storage_engine.create_table(table_name_str.as_str(), schema) {
        Ok(()) => Ok(QueryResult::Success),
        Err(e) => Err(ExecutionError::StorageError(e)),
    }
}

/// What `DROP TABLE` does to the names from the `k`-th on: drops them in
/// order, stopping at the first that fails.
pub open spec fn drop_names<T: StorageEngine>(db: DbModel, names: Seq<Vec<SqlIdent>>, k: int) -> Outcome
    decreases names.len() - k,
{
    if k < 0 || k >= names.len() {
        (db, Ok(QueryResultModel::Success))
    } else {
        match first_name(names[k]@) {
            Err(e) => (db, Err(e)),
            Ok(t) => {
                let (db2, r) = T::drop_table_model(db, t);
                match r {
                    Err(m) => (db2, Err(ErrorModel::StorageError(m))),
                    Ok(_) => drop_names::<T>(db2, names, k + 1),
                }
            },
        }
    }
}

/// What `DROP` does: drops the named tables; other objects are not
/// supported.
pub open spec fn drop_outcome<T: StorageEngine>(db: DbModel, object_type: SqlObjectType, names: Seq<Vec<SqlIdent>>) -> Outcome {
    if object_type is Table {
        drop_names::<T>(db, names, 0)
    } else {
        (db, Err(ErrorModel::UnsupportedStatement))
    }
}

/// Drops tables.
fn handle_drop_table_stmt<T: StorageEngine>(
    object_type: SqlObjectType,
    _if_exists: bool,
    names: &Vec<Vec<SqlIdent>>,
    storage_engine: &mut T,
) -> (r: Result<QueryResult, ExecutionError>)
    requires
        old(storage_engine).valid(),
    ensures
        final(storage_engine).valid(),
        (final(storage_engine).db(), result_view(r)) == drop_outcome::<T>(old(storage_engine).db(), object_type, names@),
{
    match object_type {
        SqlObjectType::Table => {},
        SqlObjectType::Other => { return Err(ExecutionError::UnsupportedStatement); },
    }
    let mut i: usize = 0;
    while i < names.len()
        invariant
            i <= names@.len(),
            storage_engine.valid(),
            drop_names::<T>(storage_engine.db(), names@, i as int) == drop_outcome::<T>(old(storage_engine).db(), object_type, names@),
        decreases names@.len() - i,
    {
        let table_name = read_first_name(&names[i])?;
        match storage_engine.drop_table(table_name.as_str()) {
            Ok(()) => {},
            Err(e) => { return Err(ExecutionError::StorageError(e)); },
        }
        i = i + 1;
    }
    Ok(QueryResult::Success)
}

/// The updates of the `SET` list, in order; the first assignment without
/// a column or with a value that cannot be read gives the error.
pub open spec fn assignment_updates(asg: Seq<SqlAssignment>) -> Result<Seq<(Seq<char>, ValueModel)>, ErrorModel>
    decreases asg.len(),
{
    if asg.len() == 0 {
        Ok(Seq::empty())
    } else {
        match assignment_updates(asg.drop_last()) {
            Err(e) => Err(e),
            Ok(us) => {
                let a = asg.last();
                if a.id@.len() == 0 {
                    Err(ErrorModel::SyntaxError)
                } else {
                    match assignment_value(a.value) {
                        Err(e) => Err(e),
                        Ok(v) => Ok(us.push((a.id@[0].value@, v))),
                    }
                }
            },
        }
    }
}

/// The table an `UPDATE` changes.
pub open spec fn update_table_name(table: SqlTableFactor) -> Result<Seq<char>, ErrorModel> {
    match table {
        SqlTableFactor::Table { name } => first_name(name@),
        SqlTableFactor::Other => Err(ErrorModel::UnsupportedStatement),
    }
}

/// What `UPDATE` does.
pub open spec fn update_outcome<T: StorageEngine>(
    db: DbModel,
    table: SqlTableFactor,
    asg: Seq<SqlAssignment>,
    selection: Option<SqlExpr>,
) -> Outcome {
    match update_table_name(table) {
        Err(e) => (db, Err(e)),
        Ok(t) => match assignment_updates(asg) {
            Err(e) => (db, Err(e)),
            Ok(updates) => match update_condition(selection) {
                Err(e) => (db, Err(e)),
                Ok(c) => {
                    let (db2, r) = T::update_rows_model(db, t, updates, c);
                    (db2, match r {
                        Ok(n) => Ok(QueryResultModel::RowsAffected(n)),
                        Err(m) => Err(ErrorModel::StorageError(m)),
                    })
                },
            },
        },
    }
}

proof fn lemma_assignment_updates_stops(asg: Seq<SqlAssignment>, k: int)
    requires
        0 <= k <= asg.len(),
        assignment_updates(asg.take(k)) is Err,
    ensures
        assignment_updates(asg) == assignment_updates(asg.take(k)),
    decreases asg.len() - k,
{
    if k < asg.len() {
        assert(asg.take(k + 1).drop_last() =~= asg.take(k));
        lemma_assignment_updates_stops(asg, k + 1);
    } else {
        assert(asg.take(k) =~= asg);
    }
}

/// Updates rows.
fn handle_update_stmt<T: StorageEngine>(
    table: &SqlTableFactor,
    assignments: &Vec<SqlAssignment>,
    selection: Option<&SqlExpr>,
    storage_engine: &mut T,
) -> (r: Result<QueryResult, ExecutionError>)
    requires
        old(storage_engine).valid(),
    ensures
        final(storage_engine).valid(),
        (final(storage_engine).db(), result_view(r)) == update_outcome::<T>(
            old(storage_engine).db(),
            *table,
            assignments@,
            match selection { Some(e) => Some(*e), None => None },
        ),
{
    let table_name = match table {
        SqlTableFactor::Table { name } => read_first_name(name)?,
        SqlTableFactor::Other => { return Err(ExecutionError::UnsupportedStatement); },
    };
    let mut updates: Vec<(String, Value)> = Vec::new();
    let mut i: usize = 0;
    proof {
        assert(assignments@.take(0) =~= Seq::<SqlAssignment>::empty());
        assert(crate::storage_engine_interface::updates_view(updates@) =~= Seq::<(Seq<char>, ValueModel)>::empty());
    }
    while i < assignments.len()
        invariant
            i <= assignments@.len(),
            updates@.len() == i,
            storage_engine.valid(),
            storage_engine.db() == old(storage_engine).db(),
            update_table_name(*table) == Ok::<Seq<char>, ErrorModel>(table_name@),
            assignment_updates(assignments@.take(i as int)) == Ok::<Seq<(Seq<char>, ValueModel)>, ErrorModel>(
                crate::storage_engine_interface::updates_view(updates@),
            ),
        decreases assignments@.len() - i,
    {
        proof {
            assert(assignments@.take(i + 1).drop_last() =~= assignments@.take(i as int));
            assert(assignments@.take(i + 1).last() == assignments@[i as int]);
        }
        let assignment = &assignments[i];
        if assignment.id.len() == 0 {
            proof {
                lemma_assignment_updates_stops(assignments@, i + 1);
            }
            return Err(ExecutionError::SyntaxError);
        }
        let column_name = assignment.id[0].value.clone();
        let new_value = match read_assignment_value(&assignment.value) {
            Ok(v) => v,
            Err(e) => {
                proof {
                    lemma_assignment_updates_stops(assignments@, i + 1);
                }
                return Err(e);
            },
        };
        let ghost prev = crate::storage_engine_interface::updates_view(updates@);
        updates.push((column_name, new_value));
        proof {
            assert(crate::storage_engine_interface::updates_view(updates@) =~= prev.push((updates@[i as int].0@, updates@[i as int].1@)));
        }
        i = i + 1;
    }
    proof {
        assert(assignments@.take(i as int) =~= assignments@);
    }
    let condition = match selection {
        Some(SqlExpr::BinaryOp { left, op, right }) => read_comparison(left, *op, right, true)?,
        Some(_) => { return Err(ExecutionError::UnsupportedStatement); },
        None => None,
    };
    match storage_engine.update_rows(table_name.as_str(), updates, condition) {
        Ok(n) => Ok(QueryResult::RowsAffected(n)),
        Err(e) => Err(ExecutionError::StorageError(e)),
    }
}

// ---------------------------------------------------------------------
// INSERT
// ---------------------------------------------------------------------

/// The message for a row whose number of values is not the number of the
/// table's columns, or of the listed columns when `specified`.
pub open spec fn count_mismatch_message(values: nat, columns: nat, specified: bool) -> Seq<char> {
    "Error: Number of values ("@ + nat_decimal(values) + (if specified {
        ") doesn't match number of specified columns ("@
    } else {
        ") doesn't match number of table columns ("@
    }) + nat_decimal(columns) + ")"@
}

/// The message for a listed column that the table lacks.
pub open spec fn unknown_column_message(column: Seq<char>, table: Seq<char>) -> Seq<char> {
    "Error: Column '"@ + column + "' does not exist in table '"@ + table + "'"@
}

/// The message for a `NULL` in a column declared `NOT NULL`.
pub open spec fn not_null_message(column: Seq<char>) -> Seq<char> {
    "NOT NULL constraint violation: column '"@ + column + "' cannot be NULL. You must provide a value for this column."@
}

/// The view of a list of values.
pub open spec fn values_view(values: Seq<Value>) -> Seq<ValueModel> {
    values.map_values(|v: Value| v@)
}

/// A row as wide as the table holding the values in the listed columns
/// (the last value wins for a column listed twice) and `NULL` elsewhere;
/// the first listed column that the table lacks gives the error.
pub open spec fn placed_values(
    schema: Seq<ColumnModel>,
    columns: Seq<Seq<char>>,
    values: Seq<ValueModel>,
    table: Seq<char>,
) -> Result<Seq<ValueModel>, Seq<char>>
    decreases columns.len(),
{
    if columns.len() == 0 {
        Ok(Seq::new(schema.len(), |i: int| ValueModel::Null))
    } else {
        match placed_values(schema, columns.drop_last(), values, table) {
            Err(m) => Err(m),
            Ok(row) => match column_position(schema, columns.last()) {
                None => Err(unknown_column_message(columns.last(), table)),
                Some(p) => Ok(row.update(p, values[columns.len() - 1])),
            },
        }
    }
}

/// The full row that `INSERT` stores for one row of its `VALUES` list:
/// the values in table order when no columns are listed, else the values
/// placed in the listed columns. A row whose number of values does not fit
/// is an error.
pub open spec fn complete_row(
    schema: Seq<ColumnModel>,
    columns: Seq<Seq<char>>,
    values: Seq<ValueModel>,
    table: Seq<char>,
) -> Result<Seq<ValueModel>, Seq<char>> {
    if columns.len() == 0 {
        if values.len() != schema.len() {
            Err(count_mismatch_message(values.len(), schema.len(), false))
        } else {
            Ok(values)
        }
    } else if values.len() != columns.len() {
        Err(count_mismatch_message(values.len(), columns.len(), true))
    } else {
        placed_values(schema, columns, values, table)
    }
}

/// The first column, from the `k`-th on, that is declared `NOT NULL` and
/// holds `NULL` in the row.
pub open spec fn null_violation(schema: Seq<ColumnModel>, row: Seq<ValueModel>, k: int) -> Option<Seq<char>>
    decreases schema.len() - k,
{
    if k < 0 || k >= schema.len() {
        None
    } else if schema[k].constraints.contains(Constraint::NotNull) && row[k] is Null {
        Some(schema[k].name)
    } else {
        null_violation(schema, row, k + 1)
    }
}

/// What `INSERT` does with the rows of its `VALUES` list from the `k`-th
/// on: completes each row, checks its `NOT NULL` columns and inserts it,
/// stopping at the first row that fails.
pub open spec fn insert_rows_from<T: StorageEngine>(
    db: DbModel,
    table: Seq<char>,
    schema: Seq<ColumnModel>,
    columns: Seq<Seq<char>>,
    rows: Seq<Seq<ValueModel>>,
    k: int,
) -> Outcome
    decreases rows.len() - k,
{
    if k < 0 || k >= rows.len() {
        (db, Ok(QueryResultModel::Success))
    } else {
        match complete_row(schema, columns, rows[k], table) {
            Err(m) => (db, Err(ErrorModel::StorageError(m))),
            Ok(row) => match null_violation(schema, row, 0) {
                Some(c) => (db, Err(ErrorModel::StorageError(not_null_message(c)))),
                None => {
                    let (db2, r) = T::insert_row_model(db, table, row);
                    match r {
                        Err(m) => (db2, Err(ErrorModel::StorageError(m))),
                        Ok(_) => insert_rows_from::<T>(db2, table, schema, columns, rows, k + 1),
                    }
                },
            },
        }
    }
}

/// The names of a list of identifiers.
pub open spec fn ident_names(ids: Seq<SqlIdent>) -> Seq<Seq<char>> {
    ids.map_values(|id: SqlIdent| id.value@)
}

/// What `INSERT INTO table [(columns)] VALUES ...` does: reads the table's
/// schema and the rows, then inserts the rows in order.
pub open spec fn insert_outcome<T: StorageEngine>(
    db: DbModel,
    table_name: Seq<SqlIdent>,
    columns: Seq<SqlIdent>,
    source: SqlQuery,
) -> Outcome {
    match first_name(table_name) {
        Err(e) => (db, Err(e)),
        Ok(t) => match T::get_table_schema_model(db, t) {
            Err(m) => (db, Err(ErrorModel::StorageError(m))),
            Ok(schema) => match insert_source_rows(source.body) {
                Err(e) => (db, Err(e)),
                Ok(rows) => insert_rows_from::<T>(db, t, schema, ident_names(columns), rows, 0),
            },
        },
    }
}

fn count_message(values: usize, columns: usize, specified: bool) -> (m: String)
    ensures
        m@ == count_mismatch_message(values as nat, columns as nat, specified),
{
    let mut m = String::from_str("Error: Number of values (");
    push_decimal(&mut m, values as u64);
    if specified {
        m.append(") doesn't match number of specified columns (");
    } else {
        m.append(") doesn't match number of table columns (");
    }
    push_decimal(&mut m, columns as u64);
    m.append(")");
    assert(m@ =~= count_mismatch_message(values as nat, columns as nat, specified));
    m
}

fn unknown_column(column: &String, table: &String) -> (m: String)
    ensures
        m@ == unknown_column_message(column@, table@),
{
    let mut m = String::from_str("Error: Column '");
    m.append(column.as_str());
    m.append("' does not exist in table '");
    m.append(table.as_str());
    m.append("'");
    assert(m@ =~= unknown_column_message(column@, table@));
    m
}

fn not_null(column: &String) -> (m: String)
    ensures
        m@ == not_null_message(column@),
{
    let mut m = String::from_str("NOT NULL constraint violation: column '");
    m.append(column.as_str());
    m.append("' cannot be NULL. You must provide a value for this column.");
    assert(m@ =~= not_null_message(column@));
    m
}

fn has_not_null(cs: &Vec<Constraint>) -> (r: bool)
    ensures
        r == cs@.contains(Constraint::NotNull),
{
    let mut i: usize = 0;
    while i < cs.len()
        invariant
            i <= cs@.len(),
            forall|j: int| 0 <= j < i ==> cs@[j] != Constraint::NotNull,
        decreases cs@.len() - i,
    {
        if cs[i] == Constraint::NotNull {
            assert(cs@[i as int] == Constraint::NotNull);
            return true;
        }
        i = i + 1;
    }
    false
}

proof fn lemma_placed_values_stops(
    schema: Seq<ColumnModel>,
    columns: Seq<Seq<char>>,
    values: Seq<ValueModel>,
    table: Seq<char>,
    k: int,
)
    requires
        0 <= k <= columns.len(),
        placed_values(schema, columns.take(k), values, table) is Err,
    ensures
        placed_values(schema, columns, values, table) == placed_values(schema, columns.take(k), values, table),
    decreases columns.len() - k,
{
    if k < columns.len() {
        assert(columns.take(k + 1).drop_last() =~= columns.take(k));
        lemma_placed_values_stops(schema, columns, values, table, k + 1);
    } else {
        assert(columns.take(k) =~= columns);
    }
}

/// Places the values of a row in the listed columns.
fn fill_row(schema: &Schema, columns: &Vec<String>, values: &Vec<Value>, table: &String) -> (r: Result<Vec<Value>, String>)
    requires
        values@.len() == columns@.len(),
    ensures
        match r {
            Ok(v) => placed_values(schema@, cells_view(columns@), values_view(values@), table@) == Ok::<Seq<ValueModel>, Seq<char>>(values_view(v@)),
            Err(m) => placed_values(schema@, cells_view(columns@), values_view(values@), table@) == Err::<Seq<ValueModel>, Seq<char>>(m@),
        },
{
    let ghost cols = cells_view(columns@);
    let ghost vals = values_view(values@);
    let mut complete: Vec<Value> = Vec::new();
    let mut k: usize = 0;
    while k < schema.columns.len()
        invariant
            k <= schema.columns@.len(),
            complete@.len() == k,
            forall|j: int| 0 <= j < k ==> #[trigger] complete@[j]@ == ValueModel::Null,
        decreases schema.columns@.len() - k,
    {
        complete.push(Value::Null);
        k = k + 1;
    }
    proof {
        assert(values_view(complete@) =~= Seq::new(schema@.len(), |i: int| ValueModel::Null));
        assert(cols.take(0) =~= Seq::<Seq<char>>::empty());
    }
    let mut i: usize = 0;
    while i < columns.len()
        invariant
            i <= columns@.len(),
            values@.len() == columns@.len(),
            cols == cells_view(columns@),
            vals == values_view(values@),
            complete@.len() == schema@.len(),
            placed_values(schema@, cols.take(i as int), vals, table@) == Ok::<Seq<ValueModel>, Seq<char>>(values_view(complete@)),
        decreases columns@.len() - i,
    {
        proof {
            assert(cols.take(i + 1).drop_last() =~= cols.take(i as int));
            assert(cols.take(i + 1).last() == columns@[i as int]@);
        }
        match find_column(&schema.columns, &columns[i]) {
            None => {
                proof {
                    lemma_placed_values_stops(schema@, cols, vals, table@, i + 1);
                }
                return Err(unknown_column(&columns[i], table));
            },
            Some(p) => {
                proof {
                    lemma_column_position_range(schema@, columns@[i as int]@);
                }
                let ghost prev = values_view(complete@);
                complete.set(p, values[i].clone());
                proof {
                    assert(values_view(complete@) =~= prev.update(p as int, vals[i as int]));
                }
            },
        }
        i = i + 1;
    }
    proof {
        assert(cols.take(i as int) =~= cols);
    }
    Ok(complete)
}

/// The first column declared `NOT NULL` that holds `NULL` in the row.
fn find_null_violation(schema: &Schema, row: &Vec<Value>) -> (r: Option<usize>)
    requires
        row@.len() == schema@.len(),
    ensures
        match r {
            Some(j) => j < schema@.len() && null_violation(schema@, values_view(row@), 0) == Some(schema@[j as int].name),
            None => null_violation(schema@, values_view(row@), 0) is None,
        },
{
    let ghost rv = values_view(row@);
    let mut i: usize = 0;
    while i < schema.columns.len()
        invariant
            i <= schema@.len(),
            row@.len() == schema@.len(),
            rv == values_view(row@),
            null_violation(schema@, rv, 0) == null_violation(schema@, rv, i as int),
        decreases schema@.len() - i,
    {
        let column = &schema.columns[i];
        if has_not_null(&column.constraints) {
            if let Value::Null = &row[i] {
                return Some(i);
            }
        }
        i = i + 1;
    }
    None
}

/// The view of a result without a value.
pub open spec fn unit_result(r: Result<(), ExecutionError>) -> Result<QueryResultModel, ErrorModel> {
    match r {
        Ok(()) => Ok(QueryResultModel::Success),
        Err(e) => Err(e@),
    }
}

/// Inserts the rows of an `INSERT` statement.
fn handle_insert<T: StorageEngine>(
    table_name_obj: &Vec<SqlIdent>,
    columns_idents: &Vec<SqlIdent>,
    source_query: &SqlQuery,
    storage_engine: &mut T,
) -> (r: Result<(), ExecutionError>)
    requires
        old(storage_engine).valid(),
    ensures
        final(storage_engine).valid(),
        (final(storage_engine).db(), unit_result(r)) == insert_outcome::<T>(
            old(storage_engine).db(),
            table_name_obj@,
            columns_idents@,
            *source_query,
        ),
{
    let table_name_str = read_first_name(table_name_obj)?;
    let table_schema = match storage_engine.get_table_schema(table_name_str.as_str()) {
        Ok(s) => s,
        Err(e) => { return Err(ExecutionError::StorageError(e)); },
    };
    let mut specified_columns: Vec<String> = Vec::new();
    let mut k: usize = 0;
    while k < columns_idents.len()
        invariant
            k <= columns_idents@.len(),
            specified_columns@.len() == k,
            forall|j: int| 0 <= j < k ==> #[trigger] specified_columns@[j]@ == columns_idents@[j].value@,
        decreases columns_idents@.len() - k,
    {
        specified_columns.push(columns_idents[k].value.clone());
        k = k + 1;
    }
    proof {
        assert(cells_view(specified_columns@) =~= ident_names(columns_idents@));
    }
    let partial_rows = extract_insert_values(&source_query.body)?;
    let ghost schema_view = table_schema@;
    let ghost cols = cells_view(specified_columns@);
    let ghost rows = rows_view(partial_rows@);
    let mut i: usize = 0;
    while i < partial_rows.len()
        invariant
            i <= partial_rows@.len(),
            storage_engine.valid(),
            schema_view == table_schema@,
            cols == cells_view(specified_columns@),
            rows == rows_view(partial_rows@),
            insert_rows_from::<T>(storage_engine.db(), table_name_str@, schema_view, cols, rows, i as int)
                == insert_outcome::<T>(old(storage_engine).db(), table_name_obj@, columns_idents@, *source_query),
        decreases partial_rows@.len() - i,
    {
        let partial_row = &partial_rows[i];
        proof {
            assert(rows[i as int] == values_view(partial_row.values@));
        }
        let complete_values = if specified_columns.len() == 0 {
            if partial_row.values.len() != table_schema.columns.len() {
                return Err(ExecutionError::StorageError(count_message(partial_row.values.len(), table_schema.columns.len(), false)));
            }
            clone_values(&partial_row.values)
        } else {
            if partial_row.values.len() != specified_columns.len() {
                return Err(ExecutionError::StorageError(count_message(partial_row.values.len(), specified_columns.len(), true)));
            }
            match fill_row(&table_schema, &specified_columns, &partial_row.values, &table_name_str) {
                Ok(v) => v,
                Err(m) => { return Err(ExecutionError::StorageError(m)); },
            }
        };
        proof {
            assert(complete_row(schema_view, cols, rows[i as int], table_name_str@) == Ok::<Seq<ValueModel>, Seq<char>>(values_view(complete_values@)));
            lemma_placed_values_len(schema_view, cols, rows[i as int], table_name_str@);
        }
        match find_null_violation(&table_schema, &complete_values) {
            Some(j) => { return Err(ExecutionError::StorageError(not_null(&table_schema.columns[j].name))); },
            None => {},
        }
        let complete_row = Row { values: complete_values };
        match storage_engine.insert_row(table_name_str.as_str(), complete_row) {
            Ok(()) => {},
            Err(e) => { return Err(ExecutionError::StorageError(e)); },
        }
        i = i + 1;
    }
    Ok(())
}

/// A row that `placed_values` makes is as wide as the table.
proof fn lemma_placed_values_len(schema: Seq<ColumnModel>, columns: Seq<Seq<char>>, values: Seq<ValueModel>, table: Seq<char>)
    ensures
        placed_values(schema, columns, values, table) matches Ok(row) ==> row.len() == schema.len(),
    decreases columns.len(),
{
    if columns.len() > 0 {
        lemma_placed_values_len(schema, columns.drop_last(), values, table);
        lemma_column_position_range(schema, columns.last());
    }
}

fn handle_insert_stmt<T: StorageEngine>(
    table_name: &Vec<SqlIdent>,
    columns: &Vec<SqlIdent>,
    source: &SqlQuery,
    storage_engine: &mut T,
) -> (r: Result<QueryResult, ExecutionError>)
    requires
        old(storage_engine).valid(),
    ensures
        final(storage_engine).valid(),
        (final(storage_engine).db(), result_view(r)) == insert_outcome::<T>(old(storage_engine).db(), table_name@, columns@, *source),
{
    handle_insert(table_name, columns, source, storage_engine)?;
    Ok(QueryResult::Success)
}

// ---------------------------------------------------------------------
// DELETE
// ---------------------------------------------------------------------

/// What `DELETE FROM table [WHERE ...]` does: deletes the rows that the
/// condition picks (all rows without a condition) and answers how many.
pub open spec fn delete_outcome<T: StorageEngine>(db: DbModel, table: SqlTableFactor, selection: Option<SqlExpr>) -> Outcome {
    match update_table_name(table) {
        Err(e) => (db, Err(e)),
        Ok(t) => match update_condition(selection) {
            Err(e) => (db, Err(e)),
            Ok(c) => {
                let (db2, r) = T::delete_rows_model(db, t, c);
                (db2, match r {
                    Ok(n) => Ok(QueryResultModel::RowsAffected(n)),
                    Err(m) => Err(ErrorModel::StorageError(m)),
                })
            },
        },
    }
}

/// Deletes rows.
fn handle_delete_stmt<T: StorageEngine>(
    table: &SqlTableFactor,
    selection: Option<&SqlExpr>,
    storage_engine: &mut T,
) -> (r: Result<QueryResult, ExecutionError>)
    requires
        old(storage_engine).valid(),
    ensures
        final(storage_engine).valid(),
        (final(storage_engine).db(), result_view(r)) == delete_outcome::<T>(
            old(storage_engine).db(),
            *table,
            match selection { Some(e) => Some(*e), None => None },
        ),
{
    let table_name = match table {
        SqlTableFactor::Table { name } => read_first_name(name)?,
        SqlTableFactor::Other => { return Err(ExecutionError::UnsupportedStatement); },
    };
    let condition = match selection {
        Some(SqlExpr::BinaryOp { left, op, right }) => read_comparison(left, *op, right, true)?,
        Some(_) => { return Err(ExecutionError::UnsupportedStatement); },
        None => None,
    };
    match storage_engine.delete_rows(table_name.as_str(), condition) {
        Ok(n) => Ok(QueryResult::RowsAffected(n)),
        Err(e) => Err(ExecutionError::StorageError(e)),
    }
}

// ---------------------------------------------------------------------
// Statements
// ---------------------------------------------------------------------

/// The statement cannot be executed: it is a query that cannot.
pub open spec fn stmt_unrunnable(s: SqlStatement) -> bool {
    s matches SqlStatement::Query(q) && query_unrunnable(q)
}

/// What executing a statement does: the tables it leaves and what it
/// answers.
pub open spec fn stmt_outcome<T: StorageEngine>(db: DbModel, s: SqlStatement) -> Outcome {
    match s {
        SqlStatement::Query(q) => (db, match query_rows::<T>(db, q) {
            Ok(rows) => Ok(QueryResultModel::Data(rows)),
            Err(e) => Err(e),
        }),
        SqlStatement::Insert { table_name, columns, source } => insert_outcome::<T>(db, table_name@, columns@, source),
        SqlStatement::CreateTable { name, columns } => create_table_outcome::<T>(db, name@, columns@),
        SqlStatement::Drop { object_type, if_exists, names } => drop_outcome::<T>(db, object_type, names@),
        SqlStatement::Update { table, assignments, selection } => update_outcome::<T>(db, table, assignments@, selection),
        SqlStatement::Delete { table, selection } => delete_outcome::<T>(db, table, selection),
        SqlStatement::Other => (db, Err(ErrorModel::UnsupportedStatement)),
    }
}

/// A comparison `column <op> literal` of a `WHERE` clause (of any
/// statement) reads as a condition on that column that a value satisfies
/// exactly when it stands in that relation to the literal: `=` by
/// equality, `>` and `<` by the order of integers and of texts.
pub proof fn law_comparison_condition_meaning(id: SqlIdent, op: SqlBinaryOperator, v: SqlValue, of_update: bool, val: ValueModel)
    requires
        (if of_update { update_literal(v) } else { select_literal(v) }) == Ok::<ValueModel, ErrorModel>(val),
        op is Eq || op is Gt || op is Lt,
    ensures
        comparison_condition(SqlExpr::Identifier(id), op, SqlExpr::Value(v), of_update) matches Ok(Some(c)) && {
            &&& condition_column(c) == id.value@
            &&& op is Eq ==> forall|x: ValueModel| #[trigger] value_satisfies(x, c) == (x == val)
            &&& op is Gt ==> (val matches ValueModel::Int(b) ==> forall|a: i32|
                #[trigger] value_satisfies(ValueModel::Int(a), c) == (a > b))
            &&& op is Lt ==> (val matches ValueModel::Int(b) ==> forall|a: i32|
                #[trigger] value_satisfies(ValueModel::Int(a), c) == (a < b))
            &&& op is Gt ==> (val matches ValueModel::Varchar(b) ==> forall|a: Seq<char>|
                #[trigger] value_satisfies(ValueModel::Varchar(a), c) == text_less(b, a))
            &&& op is Lt ==> (val matches ValueModel::Varchar(b) ==> forall|a: Seq<char>|
                #[trigger] value_satisfies(ValueModel::Varchar(a), c) == text_less(a, b))
        },
{
}

/// `+`, `-` and `*` give the sum, the difference (left operand minus
/// right) and the product of their operands, and `/` their quotient
/// rounded toward zero (`q * b + r == a` with `|r| < |b|` and `r` of the
/// sign of `a`); a result that does not fit in `i32` is an overflow, and a
/// division by zero a syntax error.
pub proof fn law_arithmetic_values(a: i32, b: i32)
    ensures
        arithmetic(SqlBinaryOperator::Plus, a, b) matches Eval::Val(ValueModel::Int(c)) ==> c == a + b,
        arithmetic(SqlBinaryOperator::Minus, a, b) matches Eval::Val(ValueModel::Int(c)) ==> c == a - b,
        arithmetic(SqlBinaryOperator::Multiply, a, b) matches Eval::Val(ValueModel::Int(c)) ==> c == a * b,
        arithmetic(SqlBinaryOperator::Divide, a, b) matches Eval::Val(ValueModel::Int(q)) ==> b != 0 && {
            let r = a - q * b;
            &&& -abs_int(b as int) < r < abs_int(b as int)
            &&& (r == 0 || (r > 0) == (a > 0))
        },
        (arithmetic(SqlBinaryOperator::Plus, a, b) is Overflow) == !(i32::MIN <= a + b <= i32::MAX),
        (arithmetic(SqlBinaryOperator::Minus, a, b) is Overflow) == !(i32::MIN <= a - b <= i32::MAX),
        (arithmetic(SqlBinaryOperator::Multiply, a, b) is Overflow) == !(i32::MIN <= a * b <= i32::MAX),
        (i32::MIN <= a + b <= i32::MAX) ==> arithmetic(SqlBinaryOperator::Plus, a, b) is Val,
        (i32::MIN <= a - b <= i32::MAX) ==> arithmetic(SqlBinaryOperator::Minus, a, b) is Val,
        (i32::MIN <= a * b <= i32::MAX) ==> arithmetic(SqlBinaryOperator::Multiply, a, b) is Val,
        b == 0 ==> arithmetic(SqlBinaryOperator::Divide, a, b) == Eval::Fail(ErrorModel::SyntaxError),
        b != 0 ==> arithmetic(SqlBinaryOperator::Divide, a, b) is Val || arithmetic(SqlBinaryOperator::Divide, a, b) is Overflow,
{
    if b != 0 {
        lemma_trunc_div(a as int, b as int);
    }
}

/// Division rounded toward zero leaves a remainder smaller than the
/// divisor and of the sign of the dividend.
proof fn lemma_trunc_div(x: int, y: int)
    requires
        y != 0,
    ensures
        ({
            let r = x - trunc_div(x, y) * y;
            &&& -abs_int(y) < r < abs_int(y)
            &&& (r == 0 || (r > 0) == (x > 0))
        }),
{
    let ax = abs_int(x);
    let ay = abs_int(y);
    let d = ax / ay;
    let m = ax % ay;
    assert(ax == d * ay + m && 0 <= m < ay) by (nonlinear_arith)
        requires
            ax >= 0,
            ay > 0,
            d == ax / ay,
            m == ax % ay,
    ;
    if y > 0 {
        assert(d * y == d * ay);
    } else {
        assert(d * y == -(d * ay)) by (nonlinear_arith)
            requires
                y == -ay,
        ;
    }
    let q = trunc_div(x, y);
    if (x >= 0) == (y > 0) {
        assert(q == d);
    } else {
        assert(q == -d);
        assert(q * y == -(d * y)) by (nonlinear_arith)
            requires
                q == -d,
        ;
    }
    let r = x - q * y;
    if x >= 0 {
        assert(r == m);
    } else {
        assert(r == -m);
    }
}

/// Where an expression evaluates both operands to integers, `a - b`
/// evaluates to the left value minus the right one, `a + b` to their sum
/// and `a * b` to their product, whenever the result fits in `i32`.
pub proof fn law_eval_arithmetic(left: SqlExpr, op: SqlBinaryOperator, right: SqlExpr, a: i32, b: i32)
    requires
        eval_expr(left) == Eval::Val(ValueModel::Int(a)),
        eval_expr(right) == Eval::Val(ValueModel::Int(b)),
    ensures
        op is Minus && i32::MIN <= a - b <= i32::MAX ==> eval_expr(SqlExpr::BinaryOp { left: Box::new(left), op, right: Box::new(right) })
            == Eval::Val(ValueModel::Int((a - b) as i32)),
        op is Plus && i32::MIN <= a + b <= i32::MAX ==> eval_expr(SqlExpr::BinaryOp { left: Box::new(left), op, right: Box::new(right) })
            == Eval::Val(ValueModel::Int((a + b) as i32)),
        op is Multiply && i32::MIN <= a * b <= i32::MAX ==> eval_expr(SqlExpr::BinaryOp { left: Box::new(left), op, right: Box::new(right) })
            == Eval::Val(ValueModel::Int((a * b) as i32)),
{
    law_arithmetic_values(a, b);
}

/// A successful drop removes the named table and nothing else.
pub open spec fn drop_removes_only_named<T: StorageEngine>() -> bool {
    forall|d: DbModel, n: Seq<char>| (#[trigger] T::drop_table_model(d, n)).1 is Ok
        ==> T::drop_table_model(d, n).0 == d.remove(n)
}

/// One of the names of a `DROP TABLE` names the table `n`.
pub open spec fn names_table(names: Seq<Vec<SqlIdent>>, n: Seq<char>) -> bool {
    exists|i: int| 0 <= i < names.len() && first_name(#[trigger] names[i]@) == Ok::<Seq<char>, ErrorModel>(n)
}

/// Dropping tables, given an engine whose successful drop removes the
/// named table and nothing else: after a `DROP TABLE` that succeeds, every
/// named table is gone and every other table is as it was.
pub proof fn law_drop_removes_every_named_table<T: StorageEngine>(db: DbModel, names: Seq<Vec<SqlIdent>>)
    requires
        drop_removes_only_named::<T>(),
    ensures
        drop_names::<T>(db, names, 0).1 is Ok ==> {
            let after = drop_names::<T>(db, names, 0).0;
            &&& forall|i: int| 0 <= i < names.len() ==> #[trigger] first_name(names[i]@) is Ok
                && !after.contains_key(first_name(names[i]@)->Ok_0)
            &&& forall|n: Seq<char>| !#[trigger] names_table(names, n)
                ==> (after.contains_key(n) == db.contains_key(n) && (db.contains_key(n) ==> after[n] == db[n]))
        },
{
    if drop_names::<T>(db, names, 0).1 is Ok {
        let after = drop_names::<T>(db, names, 0).0;
        assert forall|i: int| 0 <= i < names.len() implies #[trigger] first_name(names[i]@) is Ok
            && !after.contains_key(first_name(names[i]@)->Ok_0) by {
            lemma_drop_gone::<T>(db, names, 0, i);
        }
        assert forall|n: Seq<char>| !#[trigger] names_table(names, n)
            implies (after.contains_key(n) == db.contains_key(n) && (db.contains_key(n) ==> after[n] == db[n])) by {
            assert forall|i: int| 0 <= i < names.len() implies first_name(#[trigger] names[i]@) != Ok::<Seq<char>, ErrorModel>(n) by {
                if first_name(names[i]@) == Ok::<Seq<char>, ErrorModel>(n) {
                    assert(names_table(names, n));
                }
            }
            lemma_drop_keeps::<T>(db, names, 0, n);
        }
    }
}

proof fn lemma_drop_keeps<T: StorageEngine>(db: DbModel, names: Seq<Vec<SqlIdent>>, k: int, n: Seq<char>)
    requires
        0 <= k <= names.len(),
        drop_removes_only_named::<T>(),
        forall|i: int| k <= i < names.len() ==> first_name(#[trigger] names[i]@) != Ok::<Seq<char>, ErrorModel>(n),
        drop_names::<T>(db, names, k).1 is Ok,
    ensures
        drop_names::<T>(db, names, k).0.contains_key(n) == db.contains_key(n),
        db.contains_key(n) ==> drop_names::<T>(db, names, k).0[n] == db[n],
    decreases names.len() - k,
{
    if k < names.len() {
        let t = first_name(names[k]@)->Ok_0;
        let db2 = T::drop_table_model(db, t).0;
        assert(T::drop_table_model(db, t).1 is Ok);
        assert(db2 == db.remove(t));
        assert(n != t);
        lemma_drop_keeps::<T>(db2, names, k + 1, n);
    }
}

proof fn lemma_drop_absent<T: StorageEngine>(db: DbModel, names: Seq<Vec<SqlIdent>>, k: int, n: Seq<char>)
    requires
        0 <= k <= names.len(),
        drop_removes_only_named::<T>(),
        !db.contains_key(n),
        drop_names::<T>(db, names, k).1 is Ok,
    ensures
        !drop_names::<T>(db, names, k).0.contains_key(n),
    decreases names.len() - k,
{
    if k < names.len() {
        let t = first_name(names[k]@)->Ok_0;
        let db2 = T::drop_table_model(db, t).0;
        assert(T::drop_table_model(db, t).1 is Ok);
        assert(db2 == db.remove(t));
        lemma_drop_absent::<T>(db2, names, k + 1, n);
    }
}

proof fn lemma_drop_gone<T: StorageEngine>(db: DbModel, names: Seq<Vec<SqlIdent>>, k: int, i: int)
    requires
        0 <= k <= i < names.len(),
        drop_removes_only_named::<T>(),
        drop_names::<T>(db, names, k).1 is Ok,
    ensures
        first_name(names[i]@) is Ok,
        !drop_names::<T>(db, names, k).0.contains_key(first_name(names[i]@)->Ok_0),
    decreases names.len() - k,
{
    let t = first_name(names[k]@)->Ok_0;
    let db2 = T::drop_table_model(db, t).0;
    assert(T::drop_table_model(db, t).1 is Ok);
    assert(db2 == db.remove(t));
    if i == k {
        lemma_drop_absent::<T>(db2, names, k + 1, t);
    } else {
        lemma_drop_gone::<T>(db2, names, k + 1, i);
    }
}

/// The in-memory engine's successful drop removes the named table and
/// nothing else, so `law_drop_removes_every_named_table` holds of it.
pub proof fn law_simple_drop_removes_only_named()
    ensures
        drop_removes_only_named::<SimpleStorageEngine>(),
{
}

/// A query never changes the tables, and a statement of a kind that the
/// executor does not support is refused with `UnsupportedStatement` and
/// changes nothing.
pub proof fn law_queries_and_unsupported_leave_tables<T: StorageEngine>(db: DbModel, q: SqlQuery)
    ensures
        stmt_outcome::<T>(db, SqlStatement::Query(q)).0 == db,
        stmt_outcome::<T>(db, SqlStatement::Other) == (db, Err::<QueryResultModel, ErrorModel>(ErrorModel::UnsupportedStatement)),
{
}

fn handle_query_stmt<T: StorageEngine>(query: &SqlQuery, storage_engine: &T) -> (r: Result<QueryResult, ExecutionError>)
    requires
        storage_engine.valid(),
        !query_unrunnable(*query),
    ensures
        result_view(r) == match query_rows::<T>(storage_engine.db(), *query) {
            Ok(rows) => Ok(QueryResultModel::Data(rows)),
            Err(e) => Err(e),
        },
{
    let (rows, _column_names) = execute_query_with_columns(query, storage_engine)?;
    Ok(QueryResult::Data(rows))
}

/// Executes one statement against the storage engine.
pub fn execute_stmt<T: StorageEngine>(statement: SqlStatement, storage_engine: &mut T) -> (r: Result<QueryResult, ExecutionError>)
    requires
        old(storage_engine).valid(),
        !stmt_unrunnable(statement),
    ensures
        final(storage_engine).valid(),
        (final(storage_engine).db(), result_view(r)) == stmt_outcome::<T>(old(storage_engine).db(), statement),
{
    match statement {
        SqlStatement::Query(query) => handle_query_stmt(&query, storage_engine),
        SqlStatement::Insert { table_name, columns, source } => handle_insert_stmt(&table_name, &columns, &source, storage_engine),
        SqlStatement::CreateTable { name, columns } => handle_create_table_stmt(&name, &columns, storage_engine),
        SqlStatement::Drop { object_type, if_exists, names } => handle_drop_table_stmt(object_type, if_exists, &names, storage_engine),
        SqlStatement::Update { table, assignments, selection } => handle_update_stmt(&table, &assignments, selection.as_ref(), storage_engine),
        SqlStatement::Delete { table, selection } => handle_delete_stmt(&table, selection.as_ref(), storage_engine),
        SqlStatement::Other => Err(ExecutionError::UnsupportedStatement),
    }
}

/// Whether evaluating the items of a `SELECT` list reaches an integer
/// result out of range.
fn items_overflow(items: &Vec<SqlSelectItem>) -> (r: bool)
    ensures
        r == (eval_items(items@) is Overflow),
{
    let mut i: usize = 0;
    proof {
        assert(items@.take(0) =~= Seq::<SqlSelectItem>::empty());
    }
    while i < items.len()
        invariant
            i <= items@.len(),
            eval_items(items@.take(i as int)) is Vals,
        decreases items@.len() - i,
    {
        proof {
            assert(items@.take(i + 1).drop_last() =~= items@.take(i as int));
            assert(items@.take(i + 1).last() == items@[i as int]);
        }
        match &items[i] {
            SqlSelectItem::UnnamedExpr(expr) => match eval_checked(expr) {
                None => {
                    proof {
                        lemma_eval_items_stops(items@, i + 1);
                    }
                    return true;
                },
                Some(Ok(_)) => {},
                Some(Err(_)) => {
                    proof {
                        lemma_eval_items_stops(items@, i + 1);
                    }
                    return false;
                },
            },
            _ => {
                proof {
                    lemma_eval_items_stops(items@, i + 1);
                }
                return false;
            },
        }
        i = i + 1;
    }
    proof {
        assert(items@.take(i as int) =~= items@);
    }
    false
}

/// Whether a `SELECT` list has an item without a column name.
fn has_unsupported_item(items: &Vec<SqlSelectItem>) -> (r: bool)
    ensures
        r == exists|i: int| 0 <= i < items@.len() && #[trigger] unsupported_item(items@[i]),
{
    let mut i: usize = 0;
    while i < items.len()
        invariant
            i <= items@.len(),
            forall|j: int| 0 <= j < i ==> !#[trigger] unsupported_item(items@[j]),
        decreases items@.len() - i,
    {
        if let SqlSelectItem::Other = &items[i] {
            assert(unsupported_item(items@[i as int]));
            return true;
        }
        i = i + 1;
    }
    false
}

/// Whether the query cannot be executed (`query_unrunnable`).
pub fn query_cannot_run(query: &SqlQuery) -> (r: bool)
    ensures
        r == query_unrunnable(*query),
{
    match &query.body {
        SqlSetExpr::Select(select_expr) => {
            if select_expr.from.len() == 0 {
                items_overflow(&select_expr.projection)
            } else {
                match extract_table_name(&query.body) {
                    Ok(_) => has_unsupported_item(&select_expr.projection),
                    Err(_) => false,
                }
            }
        },
        _ => false,
    }
}

} // verus!
