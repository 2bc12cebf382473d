//! Parsing SQL text with `sqlparser` (generic dialect), and reading the
//! parser's syntax tree into the executor's `SqlStatement`.
use vstd::prelude::*;
use sqlparser::ast;
use sqlparser::dialect::GenericDialect;
use sqlparser::parser::Parser;
use crate::sql_ast::{
    SqlAssignment, SqlBinaryOperator, SqlColumnDef, SqlColumnOption, SqlDataType, SqlExpr, SqlIdent, SqlObjectType,
    SqlQuery, SqlSelect, SqlSelectItem, SqlSetExpr, SqlStatement, SqlTableFactor, SqlValue,
};

verus! {

#[verifier::external_type_specification]
#[verifier::external_body]
pub struct ExSqlStatement(ast::Statement);

#[verifier::external_type_specification]
#[verifier::external_body]
pub struct ExSqlQuery(ast::Query);

#[verifier::external_type_specification]
#[verifier::external_body]
pub struct ExSqlSetExpr(ast::SetExpr);

#[verifier::external_type_specification]
#[verifier::external_body]
pub struct ExSqlSelect(ast::Select);

#[verifier::external_type_specification]
#[verifier::external_body]
pub struct ExSqlSelectItem(ast::SelectItem);

#[verifier::external_type_specification]
#[verifier::external_body]
pub struct ExSqlExpr(ast::Expr);

#[verifier::external_type_specification]
#[verifier::external_body]
pub struct ExSqlBinaryOperator(ast::BinaryOperator);

#[verifier::external_type_specification]
#[verifier::external_body]
pub struct ExSqlTableFactor(ast::TableFactor);

#[verifier::external_type_specification]
#[verifier::external_body]
pub struct ExSqlIdent(ast::Ident);

#[verifier::external_type_specification]
#[verifier::external_body]
pub struct ExSqlObjectName(ast::ObjectName);

#[verifier::external_type_specification]
#[verifier::external_body]
pub struct ExSqlColumnDef(ast::ColumnDef);

#[verifier::external_type_specification]
#[verifier::external_body]
pub struct ExSqlColumnOption(ast::ColumnOption);

#[verifier::external_type_specification]
#[verifier::external_body]
pub struct ExSqlAssignment(ast::Assignment);

#[verifier::external_type_specification]
#[verifier::external_body]
pub struct ExSqlObjectType(ast::ObjectType);

/// What `sqlparser`'s `Parser::parse_sql` makes of a text under the generic
/// dialect: the statements it holds, or the parser's error message.
pub uninterp spec fn sql_parse_result(sql: Seq<char>) -> Result<Seq<SqlStatement>, Seq<char>>;

/// The view of what `parse_sql` answers.
pub open spec fn parsed_view(r: Result<Vec<SqlStatement>, String>) -> Result<Seq<SqlStatement>, Seq<char>> {
    match r {
        Ok(v) => Ok(v@),
        Err(e) => Err(e@),
    }
}

/// The character is the lowercase ASCII letter `p`, in either case.
pub open spec fn same_letter(c: char, p: char) -> bool {
    c == p || ('A' <= c && c <= 'Z' && c as u32 + 32 == p as u32)
}

/// A character that can continue a word: an ASCII letter or digit, or `_`.
pub open spec fn is_word_char(c: char) -> bool {
    ('a' <= c && c <= 'z') || ('A' <= c && c <= 'Z') || ('0' <= c && c <= '9') || c == '_'
}

/// The word `w` (lowercase) stands, in any case, at position `i` of `s`,
/// as a whole word: no word character touches it on either side.
pub open spec fn word_at(s: Seq<char>, i: int, w: Seq<char>) -> bool {
    &&& 0 <= i && i + w.len() <= s.len()
    &&& forall|j: int| 0 <= j < w.len() ==> #[trigger] same_letter(s[i + j], w[j])
    &&& (i == 0 || !is_word_char(s[i - 1]))
    &&& (i + w.len() == s.len() || !is_word_char(s[i + w.len()]))
}

/// A word starts at position `i` of `s`: a word character that no word
/// character precedes.
pub open spec fn word_starts_at(s: Seq<char>, i: int) -> bool {
    is_word_char(s[i]) && (i == 0 || !is_word_char(s[i - 1]))
}

/// What a word starting at position `i` adds to the nesting budget. A
/// word that makes the parser read a whole statement (`explain`,
/// `describe`, `prepare`) weighs 28; one that opens an expression with no
/// bracket after it (`case`, `interval`) 8; `select`, which opens a query,
/// 7; `not` 5; any other word 2.
pub open spec fn word_weight(s: Seq<char>, i: int) -> nat {
    if word_at(s, i, "explain"@) || word_at(s, i, "describe"@) || word_at(s, i, "prepare"@) {
        28
    } else if word_at(s, i, "case"@) || word_at(s, i, "interval"@) {
        8
    } else if word_at(s, i, "select"@) {
        7
    } else if word_at(s, i, "not"@) {
        5
    } else {
        2
    }
}

/// The opening bracket at position `i` may open a query: the next
/// printable ASCII character after it is another opening bracket, may
/// start a comment, or starts `select`, `with` or `values`.
pub open spec fn bracket_may_open_query(s: Seq<char>, i: int) -> bool {
    let j = skip_blanks(s, i + 1);
    &&& j < s.len()
    &&& s[j] == '(' || s[j] == '-' || s[j] == '/' || word_at(s, j, "select"@) || word_at(s, j, "with"@)
        || word_at(s, j, "values"@)
}

/// What the character at position `i` adds to the nesting budget of a
/// text. Each level of the parser's recursion, and of the syntax tree it
/// builds, is opened by a token that holds an ASCII character of weight:
/// a `[` (12), a `(` (12 where it may open a whole query, else 4), a sign
/// `-` or `+` (5), an operator or other ASCII punctuation (2), or a word
/// (see `word_weight`). Closing brackets, commas, semicolons and quotes
/// only end or separate what others opened and weigh nothing, as do white
/// space and non-ASCII characters (letters of identifiers, text of
/// comments and strings).
pub open spec fn nesting_weight(s: Seq<char>, i: int) -> nat {
    let c = s[i];
    if c == '(' {
        if bracket_may_open_query(s, i) {
            12
        } else {
            4
        }
    } else if c == '[' {
        12
    } else if c == ')' || c == ']' || c == ',' || c == ';' || c == '\'' || c == '"' || c == '`' {
        0
    } else if c == '-' || c == '+' {
        5
    } else if is_word_char(c) {
        if word_starts_at(s, i) {
            word_weight(s, i)
        } else {
            0
        }
    } else if '!' <= c && c <= '~' {
        2
    } else {
        0
    }
}

/// The nesting budget used by the first `n` characters of a text.
pub open spec fn nesting_total(s: Seq<char>, n: int) -> nat
    decreases n,
{
    if n <= 0 {
        0
    } else {
        nesting_total(s, n - 1) + nesting_weight(s, n - 1)
    }
}

/// The largest nesting budget of a text handed to the parser. With the
/// parser built without optimisation, one unit of budget stands for at
/// most about 4 KB of stack (a bracket that opens a query takes about
/// 45 KB, `explain` about 70 KB, `not` about 17 KB, a sign about 9 KB), so
/// a text within the budget needs about 1 MB: half of the 2 MB that a
/// spawned thread gets.
pub open spec fn nesting_budget() -> nat {
    256
}

/// A character that is not printable ASCII: white space, a control
/// character, or a non-ASCII one. Any white space that may stand between
/// two keywords is among them.
pub open spec fn is_blank(c: char) -> bool {
    !('!' <= c && c <= '~')
}

/// The first position at or after `j` that holds printable ASCII.
pub open spec fn skip_blanks(s: Seq<char>, j: int) -> int
    decreases s.len() - j,
{
    if 0 <= j < s.len() && is_blank(s[j]) {
        skip_blanks(s, j + 1)
    } else {
        j
    }
}

/// The keywords `GRANTED BY` may start at position `i`: the word
/// `granted` stands there, and the next printable ASCII character after
/// it starts `by` or a comment.
pub open spec fn granted_by_at(s: Seq<char>, i: int) -> bool {
    word_at(s, i, "granted"@) && {
        let j = skip_blanks(s, i + 7);
        j < s.len() && (s[j] == 'b' || s[j] == 'B' || s[j] == '-' || s[j] == '/')
    }
}

/// `GRANTED BY` may start at one of the first `n` positions of `s`.
pub open spec fn granted_by_before(s: Seq<char>, n: int) -> bool
    decreases n,
{
    n > 0 && (granted_by_before(s, n - 1) || granted_by_at(s, n - 1))
}

/// A text that the parser is handed: its nesting stays within the budget
/// (the parser recurses without a limit of its own), and it does not hold
/// the keywords `GRANTED BY` (after them the parser unwraps an identifier
/// and panics when none follows).
pub open spec fn parse_admissible(s: Seq<char>) -> bool {
    &&& nesting_total(s, s.len() as int) <= nesting_budget()
    &&& !granted_by_before(s, s.len() as int)
}

/// Parses SQL text with `sqlparser::parser::Parser::parse_sql` under
/// `GenericDialect`; the parser's error is answered as its `Display` text.
/// The text must be one the parser is known to return on.
#[verifier::external_body]
pub(crate) fn parse_sql(sql: &str) -> (r: Result<Vec<SqlStatement>, String>)
    requires
        parse_admissible(sql@),
    ensures
        parsed_view(r) == sql_parse_result(sql@),
{
    match Parser::parse_sql(&GenericDialect {}, sql) {
        Ok(statements) => Ok(statements.iter().map(read_statement).collect()),
        Err(e) => Err(e.to_string()),
    }
}

#[verifier::external_body]
fn read_ident(i: &ast::Ident) -> SqlIdent {
    SqlIdent { value: i.value.clone(), quoted: i.quote_style.is_some() }
}

#[verifier::external_body]
fn read_name(n: &ast::ObjectName) -> Vec<SqlIdent> {
    n.0.iter().map(read_ident).collect()
}

#[verifier::external_body]
fn read_literal(e: &ast::Expr) -> SqlValue {
    match e {
        ast::Expr::Value(sqlparser::ast::Value::Number(s, _)) => SqlValue::Number(s.clone()),
        ast::Expr::Value(sqlparser::ast::Value::SingleQuotedString(s)) => SqlValue::SingleQuotedString(s.clone()),
        ast::Expr::Value(sqlparser::ast::Value::DoubleQuotedString(s)) => SqlValue::DoubleQuotedString(s.clone()),
        ast::Expr::Value(sqlparser::ast::Value::Boolean(b)) => SqlValue::Boolean(*b),
        ast::Expr::Value(sqlparser::ast::Value::Null) => SqlValue::Null,
        _ => SqlValue::Other,
    }
}

#[verifier::external_body]
fn read_operator(op: &ast::BinaryOperator) -> SqlBinaryOperator {
    match op {
        ast::BinaryOperator::Plus => SqlBinaryOperator::Plus,
        ast::BinaryOperator::Minus => SqlBinaryOperator::Minus,
        ast::BinaryOperator::Multiply => SqlBinaryOperator::Multiply,
        ast::BinaryOperator::Divide => SqlBinaryOperator::Divide,
        ast::BinaryOperator::Eq => SqlBinaryOperator::Eq,
        ast::BinaryOperator::Gt => SqlBinaryOperator::Gt,
        ast::BinaryOperator::Lt => SqlBinaryOperator::Lt,
        _ => SqlBinaryOperator::Other,
    }
}

#[verifier::external_body]
fn read_expr(e: &ast::Expr) -> SqlExpr {
    match e {
        ast::Expr::Identifier(i) => SqlExpr::Identifier(read_ident(i)),
        ast::Expr::Value(_) => SqlExpr::Value(read_literal(e)),
        ast::Expr::BinaryOp { left, op, right } => SqlExpr::BinaryOp {
            left: Box::new(read_expr(left)),
            op: read_operator(op),
            right: Box::new(read_expr(right)),
        },
        _ => SqlExpr::Other,
    }
}

#[verifier::external_body]
fn read_select_item(item: &ast::SelectItem) -> SqlSelectItem {
    match item {
        ast::SelectItem::UnnamedExpr(e) => SqlSelectItem::UnnamedExpr(read_expr(e)),
        ast::SelectItem::Wildcard => SqlSelectItem::Wildcard,
        _ => SqlSelectItem::Other,
    }
}

#[verifier::external_body]
fn read_table_factor(t: &ast::TableFactor) -> SqlTableFactor {
    match t {
        ast::TableFactor::Table { name, .. } => SqlTableFactor::Table { name: read_name(name) },
        _ => SqlTableFactor::Other,
    }
}

#[verifier::external_body]
fn read_select(s: &ast::Select) -> SqlSelect {
    SqlSelect {
        projection: s.projection.iter().map(read_select_item).collect(),
        from: s.from.iter().map(|t| read_table_factor(&t.relation)).collect(),
        selection: s.selection.as_ref().map(read_expr),
    }
}

#[verifier::external_body]
fn read_set_expr(body: &ast::SetExpr) -> SqlSetExpr {
    match body {
        ast::SetExpr::Select(s) => SqlSetExpr::Select(read_select(s)),
        ast::SetExpr::Values(v) => SqlSetExpr::Values(v.0.iter().map(|row| row.iter().map(read_expr).collect()).collect()),
        _ => SqlSetExpr::Other,
    }
}

#[verifier::external_body]
fn read_query(q: &ast::Query) -> SqlQuery {
    SqlQuery { body: read_set_expr(&q.body) }
}

#[verifier::external_body]
fn read_data_type(c: &ast::ColumnDef) -> SqlDataType {
    match c.data_type {
        sqlparser::ast::DataType::Int(n) => SqlDataType::Int(n),
        sqlparser::ast::DataType::Varchar(n) => SqlDataType::Varchar(n),
        _ => SqlDataType::Other,
    }
}

#[verifier::external_body]
fn read_column_option(o: &ast::ColumnOption) -> SqlColumnOption {
    match o {
        ast::ColumnOption::NotNull => SqlColumnOption::NotNull,
        ast::ColumnOption::Unique { is_primary } => SqlColumnOption::Unique { is_primary: *is_primary },
        _ => SqlColumnOption::Other,
    }
}

#[verifier::external_body]
fn read_column_def(c: &ast::ColumnDef) -> SqlColumnDef {
    SqlColumnDef {
        name: read_ident(&c.name),
        data_type: read_data_type(c),
        options: c.options.iter().map(|o| read_column_option(&o.option)).collect(),
    }
}

#[verifier::external_body]
fn read_assignment(a: &ast::Assignment) -> SqlAssignment {
    SqlAssignment { id: a.id.iter().map(read_ident).collect(), value: read_expr(&a.value) }
}

#[verifier::external_body]
fn read_object_type(t: &ast::ObjectType) -> SqlObjectType {
    match t {
        ast::ObjectType::Table => SqlObjectType::Table,
        _ => SqlObjectType::Other,
    }
}

#[verifier::external_body]
fn read_insert(table_name: &ast::ObjectName, columns: &Vec<ast::Ident>, source: &ast::Query) -> SqlStatement {
    SqlStatement::Insert {
        table_name: read_name(table_name),
        columns: columns.iter().map(read_ident).collect(),
        source: read_query(source),
    }
}

#[verifier::external_body]
fn read_create_table(name: &ast::ObjectName, columns: &Vec<ast::ColumnDef>) -> SqlStatement {
    SqlStatement::CreateTable { name: read_name(name), columns: columns.iter().map(read_column_def).collect() }
}

#[verifier::external_body]
fn read_drop(object_type: &ast::ObjectType, if_exists: bool, names: &Vec<ast::ObjectName>) -> SqlStatement {
    SqlStatement::Drop {
        object_type: read_object_type(object_type),
        if_exists,
        names: names.iter().map(read_name).collect(),
    }
}

#[verifier::external_body]
fn read_update(table: &ast::TableFactor, assignments: &Vec<ast::Assignment>, selection: &Option<ast::Expr>) -> SqlStatement {
    SqlStatement::Update {
        table: read_table_factor(table),
        assignments: assignments.iter().map(read_assignment).collect(),
        selection: selection.as_ref().map(read_expr),
    }
}

#[verifier::external_body]
fn read_delete(table: &ast::TableFactor, selection: &Option<ast::Expr>) -> SqlStatement {
    SqlStatement::Delete { table: read_table_factor(table), selection: selection.as_ref().map(read_expr) }
}

#[verifier::external_body]
fn read_statement(s: &ast::Statement) -> SqlStatement {
    match s {
        ast::Statement::Query(q) => SqlStatement::Query(read_query(q)),
        ast::Statement::Insert { table_name, columns, source, .. } => read_insert(table_name, columns, source),
        ast::Statement::CreateTable { name, columns, .. } => read_create_table(name, columns),
        ast::Statement::Drop { object_type, if_exists, names, .. } => read_drop(object_type, *if_exists, names),
        ast::Statement::Update { table, assignments, selection, .. } => read_update(&table.relation, assignments, selection),
        ast::Statement::Delete { table_name, selection, .. } => read_delete(table_name, selection),
        _ => SqlStatement::Other,
    }
}

} // verus!
