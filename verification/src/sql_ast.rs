//! The part of a parsed SQL statement that the executor reads.
//!
//! Each type keeps the variants and fields that execution looks at; every
//! other form of statement, expression or clause is kept as `Other`.
use vstd::prelude::*;

verus! {

/// An identifier: its text without quotes, and whether it was quoted.
#[derive(Debug)]
pub struct SqlIdent {
    pub value: String,
    pub quoted: bool,
}

/// A literal value.
#[derive(Debug)]
pub enum SqlValue {
    /// A numeric literal, as written.
    Number(String),
    SingleQuotedString(String),
    DoubleQuotedString(String),
    Boolean(bool),
    Null,
    Other,
}

/// A binary operator.
#[derive(Debug, Clone, Copy, PartialEq, Eq, Structural)]
pub enum SqlBinaryOperator {
    Plus,
    Minus,
    Multiply,
    Divide,
    Eq,
    Gt,
    Lt,
    Other,
}

/// An expression.
#[derive(Debug)]
pub enum SqlExpr {
    Identifier(SqlIdent),
    Value(SqlValue),
    BinaryOp { left: Box<SqlExpr>, op: SqlBinaryOperator, right: Box<SqlExpr> },
    Other,
}

/// An item of a `SELECT` list.
#[derive(Debug)]
pub enum SqlSelectItem {
    /// An expression without an alias.
    UnnamedExpr(SqlExpr),
    /// An unqualified `*`.
    Wildcard,
    Other,
}

/// A relation of a `FROM` clause.
#[derive(Debug)]
pub enum SqlTableFactor {
    /// A table given by its (possibly qualified) name.
    Table { name: Vec<SqlIdent> },
    Other,
}

/// A `SELECT` clause.
#[derive(Debug)]
pub struct SqlSelect {
    pub projection: Vec<SqlSelectItem>,
    /// The relation of each item of the `FROM` clause.
    pub from: Vec<SqlTableFactor>,
    /// The `WHERE` clause.
    pub selection: Option<SqlExpr>,
}

/// The body of a query.
#[derive(Debug)]
pub enum SqlSetExpr {
    Select(SqlSelect),
    /// A `VALUES` list: one list of expressions per row.
    Values(Vec<Vec<SqlExpr>>),
    Other,
}

/// A query.
#[derive(Debug)]
pub struct SqlQuery {
    pub body: SqlSetExpr,
}

/// A column type as written in `CREATE TABLE`.
#[derive(Debug, Clone, Copy, PartialEq, Eq, Structural)]
pub enum SqlDataType {
    /// `INT` with its optional display width.
    Int(Option<u64>),
    /// `VARCHAR` with its optional length.
    Varchar(Option<u64>),
    Other,
}

/// A column option as written in `CREATE TABLE`.
#[derive(Debug, Clone, Copy, PartialEq, Eq, Structural)]
pub enum SqlColumnOption {
    NotNull,
    /// `PRIMARY KEY` (`is_primary`) or `UNIQUE`.
    Unique { is_primary: bool },
    Other,
}

/// A column definition of `CREATE TABLE`.
#[derive(Debug)]
pub struct SqlColumnDef {
    pub name: SqlIdent,
    pub data_type: SqlDataType,
    pub options: Vec<SqlColumnOption>,
}

/// An assignment `column = value` of `UPDATE`.
#[derive(Debug)]
pub struct SqlAssignment {
    pub id: Vec<SqlIdent>,
    pub value: SqlExpr,
}

/// The kind of object a `DROP` names.
#[derive(Debug, Clone, Copy, PartialEq, Eq, Structural)]
pub enum SqlObjectType {
    Table,
    Other,
}

/// A statement.
#[derive(Debug)]
#[allow(inconsistent_fields)]
pub enum SqlStatement {
    Query(SqlQuery),
    Insert { table_name: Vec<SqlIdent>, columns: Vec<SqlIdent>, source: SqlQuery },
    CreateTable { name: Vec<SqlIdent>, columns: Vec<SqlColumnDef> },
    Drop { object_type: SqlObjectType, if_exists: bool, names: Vec<Vec<SqlIdent>> },
    Update { table: SqlTableFactor, assignments: Vec<SqlAssignment>, selection: Option<SqlExpr> },
    Delete { table: SqlTableFactor, selection: Option<SqlExpr> },
    Other,
}

} // verus!
