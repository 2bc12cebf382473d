//! The text of a result table: a header line, a separator line and a line
//! per row, each cell padded on the right to its column's width.
//!
//! A column is as wide as the longest of its header and its cells,
//! measured in UTF-8 bytes, and at least 3 wide where it has a header;
//! cells are padded with spaces up to that width counted in characters.
use vstd::prelude::*;
use vstd::utf8::encode_utf8;
use crate::storage_engine_interface::{Value, ValueModel};
use crate::text::{int_decimal, push_char, i32_to_string};

verus! {

/// The length of a string in UTF-8 bytes, as `str::len` answers it.
pub open spec fn utf8_len(s: Seq<char>) -> nat {
    (encode_utf8(s).len() as usize) as nat
}

/// How a value is shown in a cell: integers in decimal, strings as they
/// are, `NULL` for null.
pub open spec fn cell_text(v: ValueModel) -> Seq<char> {
    match v {
        ValueModel::Int(n) => int_decimal(n as int),
        ValueModel::Varchar(s) => s,
        ValueModel::Null => "NULL"@,
    }
}

/// The column names used when none are given: `col1`, `col2`, ...
pub open spec fn default_column_names(n: nat) -> Seq<Seq<char>> {
    Seq::new(n, |i: int| "col"@ + int_decimal(i + 1))
}

pub open spec fn max_nat(a: nat, b: nat) -> nat {
    if a >= b { a } else { b }
}

/// The width that column `i` starts from: its header's, but at least 3;
/// 0 for a column without a header.
pub open spec fn header_width(headers: Seq<Seq<char>>, i: int) -> nat {
    if i < headers.len() { max_nat(utf8_len(headers[i]), 3) } else { 0 }
}

/// The width of column `i` once the first `k` rows are taken into account.
pub open spec fn width_after(rows: Seq<Seq<ValueModel>>, headers: Seq<Seq<char>>, i: int, k: int) -> nat
    decreases k,
{
    if k <= 0 {
        header_width(headers, i)
    } else {
        let w = width_after(rows, headers, i, k - 1);
        let r = rows[k - 1];
        if i < r.len() { max_nat(w, utf8_len(cell_text(r[i]))) } else { w }
    }
}

/// The widths of the first `n` columns.
pub open spec fn column_widths(rows: Seq<Seq<ValueModel>>, headers: Seq<Seq<char>>, n: nat) -> Seq<nat> {
    Seq::new(n, |i: int| width_after(rows, headers, i, rows.len() as int))
}

/// The widest of a column's header (at least 3 wide) and its cells in
/// the first `k` rows, as `width_after` computes it, bounds each of them
/// and is one of them.
proof fn lemma_width_after(rows: Seq<Seq<ValueModel>>, headers: Seq<Seq<char>>, i: int, k: int)
    requires
        0 <= i,
        0 <= k <= rows.len(),
    ensures
        i < headers.len() ==> width_after(rows, headers, i, k) >= utf8_len(headers[i]) && width_after(rows, headers, i, k) >= 3,
        forall|r: int| 0 <= r < k && i < rows[r].len() ==> width_after(rows, headers, i, k) >= utf8_len(cell_text(#[trigger] rows[r][i])),
        ({
            let w = width_after(rows, headers, i, k);
            ||| (i >= headers.len() && w == 0)
            ||| (i < headers.len() && (w == utf8_len(headers[i]) || w == 3))
            ||| exists|r: int| 0 <= r < k && i < rows[r].len() && w == utf8_len(cell_text(#[trigger] rows[r][i]))
        }),
    decreases k,
{
    if k > 0 {
        lemma_width_after(rows, headers, i, k - 1);
        let w = width_after(rows, headers, i, k - 1);
        let r = rows[k - 1];
        if i < r.len() && utf8_len(cell_text(r[i])) > w {
            assert(width_after(rows, headers, i, k) == utf8_len(cell_text(rows[k - 1][i])));
        } else {
            if exists|x: int| 0 <= x < k - 1 && i < rows[x].len() && w == utf8_len(cell_text(#[trigger] rows[x][i])) {
                let x = choose|x: int| 0 <= x < k - 1 && i < rows[x].len() && w == utf8_len(cell_text(#[trigger] rows[x][i]));
                assert(0 <= x < k && i < rows[x].len() && width_after(rows, headers, i, k) == utf8_len(cell_text(rows[x][i])));
            }
        }
    }
}

/// Each column of a table is exactly as wide as the widest of its header
/// (counted as at least 3) and the cells of that column in every row: no
/// narrower than any of them, and as wide as one of them.
pub proof fn law_column_widths(rows: Seq<Seq<ValueModel>>, headers: Seq<Seq<char>>, n: nat, i: int)
    requires
        0 <= i < n,
    ensures
        column_widths(rows, headers, n).len() == n,
        i < headers.len() ==> column_widths(rows, headers, n)[i] >= utf8_len(headers[i])
            && column_widths(rows, headers, n)[i] >= 3,
        forall|r: int| 0 <= r < rows.len() && i < rows[r].len()
            ==> column_widths(rows, headers, n)[i] >= utf8_len(cell_text(#[trigger] rows[r][i])),
        ({
            let w = column_widths(rows, headers, n)[i];
            ||| (i >= headers.len() && w == 0)
            ||| (i < headers.len() && (w == utf8_len(headers[i]) || w == 3))
            ||| exists|r: int| 0 <= r < rows.len() && i < rows[r].len() && w == utf8_len(cell_text(#[trigger] rows[r][i]))
        }),
{
    lemma_width_after(rows, headers, i, rows.len() as int);
}

/// A string padded with spaces on the right to `w` characters.
pub open spec fn padded(s: Seq<char>, w: nat) -> Seq<char> {
    if s.len() < w { s + Seq::new((w - s.len()) as nat, |i: int| ' ') } else { s }
}

/// The first `k` cells of a line, each as ` <cell> |`.
pub open spec fn cells_text(cells: Seq<Seq<char>>, widths: Seq<nat>, k: int) -> Seq<char>
    decreases k,
{
    if k <= 0 {
        Seq::empty()
    } else {
        cells_text(cells, widths, k - 1) + seq![' '] + padded(cells[k - 1], widths[k - 1]) + seq![' ', '|']
    }
}

pub open spec fn min_int(a: int, b: int) -> int {
    if a <= b { a } else { b }
}

/// One line of the table: `|`, the cells that have a column, a newline.
pub open spec fn line_text(cells: Seq<Seq<char>>, widths: Seq<nat>) -> Seq<char> {
    seq!['|'] + cells_text(cells, widths, min_int(cells.len() as int, widths.len() as int)) + seq!['\n']
}

/// The separator cells: dashes as wide as each column.
pub open spec fn dash_cells(widths: Seq<nat>) -> Seq<Seq<char>> {
    Seq::new(widths.len(), |i: int| Seq::new(widths[i], |j: int| '-'))
}

/// The lines of the first `k` rows.
pub open spec fn rows_text(rows: Seq<Seq<ValueModel>>, widths: Seq<nat>, k: int) -> Seq<char>
    decreases k,
{
    if k <= 0 {
        Seq::empty()
    } else {
        rows_text(rows, widths, k - 1) + line_text(rows[k - 1].map_values(|v: ValueModel| cell_text(v)), widths)
    }
}

/// The whole table for the given rows and column names; the number of
/// columns is the number of values in the first row.
pub open spec fn table_text(rows: Seq<Seq<ValueModel>>, names: Option<Seq<Seq<char>>>) -> Seq<char> {
    if rows.len() == 0 {
        "No rows returned."@
    } else {
        let n = rows[0].len();
        let headers = match names {
            Some(h) => h,
            None => default_column_names(n),
        };
        let widths = column_widths(rows, headers, n);
        line_text(headers, widths) + line_text(dash_cells(widths), widths) + rows_text(rows, widths, rows.len() as int)
    }
}

/// How a value is shown in a cell.
pub fn cell_string(v: &Value) -> (s: String)
    ensures
        s@ == cell_text(v@),
{
    match v {
        Value::Int(n) => i32_to_string(*n),
        Value::Varchar(s) => s.clone(),
        Value::Null => String::from_str("NULL"),
    }
}

/// Appends a string padded with spaces to `w` characters.
fn push_padded(out: &mut String, s: &str, w: usize)
    ensures
        final(out)@ == old(out)@ + padded(s@, w as nat),
{
    out.append(s);
    let len = s.unicode_len();
    let mut k = len;
    while k < w
        invariant
            len == s@.len(),
            len <= k <= w || (k == len && len >= w),
            out@ == old(out)@ + s@ + Seq::new((k - len) as nat, |i: int| ' '),
        decreases w - k,
    {
        push_char(out, ' ');
        k = k + 1;
        assert(out@ =~= old(out)@ + s@ + Seq::new((k - len) as nat, |i: int| ' '));
    }
    assert(out@ =~= old(out)@ + padded(s@, w as nat));
}

/// The view of a list of widths.
pub open spec fn widths_view(widths: Seq<usize>) -> Seq<nat> {
    widths.map_values(|w: usize| w as nat)
}

/// The view of a list of cells.
pub open spec fn cells_view(cells: Seq<String>) -> Seq<Seq<char>> {
    cells.map_values(|c: String| c@)
}

/// Appends one line of the table.
fn push_line(out: &mut String, cells: &[String], widths: &Vec<usize>)
    ensures
        final(out)@ == old(out)@ + line_text(cells_view(cells@), widths_view(widths@)),
{
    let ghost cv = cells_view(cells@);
    let ghost wv = widths_view(widths@);
    let count = if cells.len() <= widths.len() { cells.len() } else { widths.len() };
    push_char(out, '|');
    let mut i: usize = 0;
    while i < count
        invariant
            cv == cells_view(cells@),
            wv == widths_view(widths@),
            count == min_int(cells@.len() as int, widths@.len() as int),
            i <= count,
            out@ == old(out)@ + seq!['|'] + cells_text(cv, wv, i as int),
        decreases count - i,
    {
        push_char(out, ' ');
        push_padded(out, cells[i].as_str(), widths[i]);
        push_char(out, ' ');
        push_char(out, '|');
        i = i + 1;
        assert(out@ =~= old(out)@ + seq!['|'] + cells_text(cv, wv, i as int));
    }
    push_char(out, '\n');
    assert(out@ =~= old(out)@ + line_text(cv, wv));
}

/// Dashes as wide as each column.
fn dash_strings(widths: &Vec<usize>) -> (cells: Vec<String>)
    ensures
        cells_view(cells@) == dash_cells(widths_view(widths@)),
{
    let mut cells: Vec<String> = Vec::new();
    let mut i: usize = 0;
    while i < widths.len()
        invariant
            i <= widths@.len(),
            cells@.len() == i,
            forall|j: int| 0 <= j < i ==> #[trigger] cells@[j]@ == Seq::new(widths@[j] as nat, |k: int| '-'),
        decreases widths@.len() - i,
    {
        let mut d = String::new();
        let mut k: usize = 0;
        while k < widths[i]
            invariant
                i < widths@.len(),
                k <= widths@[i as int],
                d@ == Seq::new(k as nat, |m: int| '-'),
            decreases widths@[i as int] - k,
        {
            push_char(&mut d, '-');
            k = k + 1;
            assert(d@ =~= Seq::new(k as nat, |m: int| '-'));
        }
        cells.push(d);
        i = i + 1;
    }
    assert(cells_view(cells@) =~= dash_cells(widths_view(widths@)));
    cells
}

/// The cells of a row.
fn row_cells(values: &Vec<Value>) -> (cells: Vec<String>)
    ensures
        cells_view(cells@) == values@.map_values(|v: Value| v@).map_values(|v: ValueModel| cell_text(v)),
{
    let mut cells: Vec<String> = Vec::new();
    let mut i: usize = 0;
    while i < values.len()
        invariant
            i <= values@.len(),
            cells@.len() == i,
            forall|j: int| 0 <= j < i ==> #[trigger] cells@[j]@ == cell_text(values@[j]@),
        decreases values@.len() - i,
    {
        cells.push(cell_string(&values[i]));
        i = i + 1;
    }
    assert(cells_view(cells@) =~= values@.map_values(|v: Value| v@).map_values(|v: ValueModel| cell_text(v)));
    cells
}

/// The default column names `col1` ... `coln`.
pub fn default_names(n: usize) -> (names: Vec<String>)
    ensures
        cells_view(names@) == default_column_names(n as nat),
{
    let mut names: Vec<String> = Vec::new();
    let mut i: usize = 0;
    while i < n
        invariant
            i <= n,
            names@.len() == i,
            forall|j: int| 0 <= j < i ==> #[trigger] names@[j]@ == "col"@ + int_decimal(j + 1),
        decreases n - i,
    {
        let mut name = String::from_str("col");
        crate::text::push_decimal(&mut name, i as u64 + 1);
        names.push(name);
        i = i + 1;
    }
    assert(cells_view(names@) =~= default_column_names(n as nat));
    names
}

/// The text of a table of rows under the given column names.
pub fn format_table(rows: &Vec<crate::storage_engine_interface::Row>, headers: &[String]) -> (text: String)
    requires
        rows@.len() > 0,
    ensures
        text@ == table_text(crate::storage_engine_interface::rows_view(rows@), Some(cells_view(headers@))),
{
    let ghost rv = crate::storage_engine_interface::rows_view(rows@);
    let ghost hv = cells_view(headers@);
    let num_cols = rows[0].values.len();
    let mut col_widths: Vec<usize> = Vec::new();
    let mut i: usize = 0;
    while i < num_cols
        invariant
            i <= num_cols,
            col_widths@.len() == i,
            hv == cells_view(headers@),
            forall|j: int| 0 <= j < i ==> #[trigger] col_widths@[j] as nat == header_width(hv, j),
        decreases num_cols - i,
    {
        let w: usize = if i < headers.len() {
            let l = headers[i].as_str().len();
            if l >= 3 { l } else { 3 }
        } else {
            0
        };
        col_widths.push(w);
        i = i + 1;
    }
    let mut k: usize = 0;
    while k < rows.len()
        invariant
            rv == crate::storage_engine_interface::rows_view(rows@),
            k <= rows@.len(),
            col_widths@.len() == num_cols,
            forall|j: int| 0 <= j < num_cols ==> #[trigger] col_widths@[j] as nat == width_after(rv, hv, j, k as int),
        decreases rows@.len() - k,
    {
        let row = &rows[k];
        let ghost before = col_widths@;
        let mut c: usize = 0;
        while c < row.values.len()
            invariant
                rv == crate::storage_engine_interface::rows_view(rows@),
                k < rows@.len(),
                row == rows@[k as int],
                c <= row.values@.len(),
                col_widths@.len() == num_cols,
                forall|j: int| 0 <= j < num_cols ==> #[trigger] col_widths@[j] as nat == if j < c {
                    width_after(rv, hv, j, k + 1)
                } else {
                    before[j] as nat
                },
                forall|j: int| 0 <= j < num_cols ==> #[trigger] before[j] as nat == width_after(rv, hv, j, k as int),
            decreases row.values@.len() - c,
        {
            if c < num_cols {
                let cell = cell_string(&row.values[c]);
                let l = cell.as_str().len();
                let cur = col_widths[c];
                let w = if cur >= l { cur } else { l };
                col_widths.set(c, w);
                assert(rv[k as int][c as int] == row.values@[c as int]@);
            }
            c = c + 1;
        }
        proof {
            assert forall|j: int| 0 <= j < num_cols implies #[trigger] col_widths@[j] as nat == width_after(rv, hv, j, k + 1) by {
                assert(rv[k as int].len() == row.values@.len());
            }
        }
        k = k + 1;
    }
    let ghost widths = column_widths(rv, hv, num_cols as nat);
    proof {
        assert(widths_view(col_widths@) =~= widths);
        assert(rv[0].len() == num_cols);
    }
    let mut result = String::new();
    push_line(&mut result, headers, &col_widths);
    let dashes = dash_strings(&col_widths);
    push_line(&mut result, dashes.as_slice(), &col_widths);
    let ghost prefix = result@;
    let mut r: usize = 0;
    while r < rows.len()
        invariant
            rv == crate::storage_engine_interface::rows_view(rows@),
            widths == widths_view(col_widths@),
            r <= rows@.len(),
            result@ == prefix + rows_text(rv, widths, r as int),
        decreases rows@.len() - r,
    {
        let cells = row_cells(&rows[r].values);
        push_line(&mut result, cells.as_slice(), &col_widths);
        r = r + 1;
        assert(result@ =~= prefix + rows_text(rv, widths, r as int));
    }
    assert(result@ =~= table_text(rv, Some(hv)));
    result
}

} // verus!
